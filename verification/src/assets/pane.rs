//! Which assets the asset pane lists.

use vstd::prelude::*;

use crate::assets::asset_path::{spec_path_string, AssetPath, AssetPathView};
use crate::assets::data::{AssetsData, AssetsDataView};
use crate::assets::image::{Image, ImageView};
use crate::assets::kind::{Asset, AssetHandle, AssetKind, AssetView};
use crate::text::{contains, spec_contains, spec_starts_with, spec_to_lowercase, starts_with, to_lowercase};

verus! {

/// Whether the asset at `path` is listed in a pane that shows kind `view`
/// and searches for `query`: its path, lowercased, starts with the view's
/// folder and holds the lowercased query.
pub open spec fn spec_is_listed(path: AssetPathView, view: AssetKind, query: Seq<char>) -> bool {
    let written = spec_to_lowercase(spec_path_string(path));
    spec_starts_with(written, view.spec_folder()) && spec_contains(
        written,
        spec_to_lowercase(query),
    )
}

/// Whether the asset at `path` is listed in a pane that shows kind `view`
/// and searches for `query`.
pub fn is_listed(path: &AssetPath, view: AssetKind, query: &str) -> (res: bool)
    ensures
        res == spec_is_listed(path@, view, query@),
{
    let written = path.to_string();
    let lower = to_lowercase(written.as_str());
    let lower_query = to_lowercase(query);
    starts_with(lower.as_str(), view.folder()) && contains(lower.as_str(), lower_query.as_str())
}

/// Whether `a` comes no later than `b` in the order of strings, looking
/// from index `i` on: the first character where they differ decides by its
/// code point, and a string comes before every longer one it begins.
/// (Comparing `String`s compares their UTF-8 bytes, which orders them the
/// same way.)
pub open spec fn text_le_from(a: Seq<char>, b: Seq<char>, i: int) -> bool
    decreases a.len() - i,
{
    if i < 0 || i >= a.len() {
        true
    } else if i >= b.len() {
        false
    } else if a[i] != b[i] {
        (a[i] as int) < (b[i] as int)
    } else {
        text_le_from(a, b, i + 1)
    }
}

/// Whether `a` comes no later than `b` in the order of strings.
pub open spec fn text_le(a: Seq<char>, b: Seq<char>) -> bool {
    text_le_from(a, b, 0)
}

/// Of two strings, one comes no later than the other.
pub proof fn lemma_text_le_total(a: Seq<char>, b: Seq<char>, i: int)
    requires
        0 <= i,
    ensures
        text_le_from(a, b, i) || text_le_from(b, a, i),
    decreases a.len() - i,
{
    if i < a.len() && i < b.len() && a[i] == b[i] {
        lemma_text_le_total(a, b, i + 1);
    }
}

/// Whether `a` comes no later than `b` in the order of strings.
fn text_le_exec(a: &str, b: &str) -> (res: bool)
    ensures
        res == text_le(a@, b@),
{
    let n = a.unicode_len();
    let m = b.unicode_len();
    let mut i: usize = 0;
    while i < n
        invariant
            n == a@.len(),
            m == b@.len(),
            0 <= i <= n,
            text_le_from(a@, b@, i as int) == text_le(a@, b@),
        decreases n - i,
    {
        if i >= m {
            return false;
        }
        let x = a.get_char(i);
        let y = b.get_char(i);
        if x != y {
            return (x as u32) < (y as u32);
        }
        i = i + 1;
    }
    true
}

/// The image an asset is shown by in the pane: an image by itself, a
/// character by the image its handle leads to, if that is an image.
pub open spec fn shown_image(v: AssetsDataView, a: AssetView) -> Option<ImageView> {
    match a {
        AssetView::Image(img) => Some(img),
        AssetView::Character(c) => match v.lookup(c.img.spec_id()) {
            Some(AssetView::Image(img)) => Some(img),
            _ => None,
        },
    }
}

/// Whether (`h`, `p`, `img`) is an item of the pane that shows kind `view`
/// and searches for `query`: `h` leads to an asset at path `p`, the path
/// is listed, and `img` is the image that shows the asset.
pub open spec fn is_pane_item(
    v: AssetsDataView,
    view: AssetKind,
    query: Seq<char>,
    h: AssetHandle,
    p: AssetPathView,
    img: ImageView,
) -> bool {
    &&& v.index.contains_key(h.spec_id())
    &&& v.index[h.spec_id()] == p
    &&& v.lookup(h.spec_id()) matches Some(a) && shown_image(v, a) == Some(img)
    &&& spec_is_listed(p, view, query)
}

/// Whether the items are ordered by path.
pub open spec fn sorted_by_path(s: Seq<(AssetHandle, &AssetPath, &Image)>) -> bool {
    forall|i: int|
        0 <= i < s.len() - 1 ==> text_le(
            spec_path_string((#[trigger] s[i]).1@),
            spec_path_string(s[i + 1].1@),
        )
}

/// Whether each key is the written path of the item at its place.
pub open spec fn keys_match(s: Seq<(AssetHandle, &AssetPath, &Image)>, keys: Seq<String>) -> bool {
    &&& keys.len() == s.len()
    &&& forall|t: int| 0 <= t < s.len() ==> (#[trigger] keys[t])@ == spec_path_string(s[t].1@)
}

/// Sets `item` into the items ordered by path, after every item whose path
/// comes no later than its own; returns where it went.
fn insert_by_path<'a>(
    res: &mut Vec<(AssetHandle, &'a AssetPath, &'a Image)>,
    keys: &mut Vec<String>,
    item: (AssetHandle, &'a AssetPath, &'a Image),
) -> (j: usize)
    requires
        keys_match(old(res)@, old(keys)@),
        sorted_by_path(old(res)@),
    ensures
        j <= old(res)@.len(),
        final(res)@ == old(res)@.insert(j as int, item),
        keys_match(final(res)@, final(keys)@),
        sorted_by_path(final(res)@),
{
    let key = item.1.to_string();
    let mut j: usize = 0;
    while j < res.len()
        invariant
            0 <= j <= res@.len(),
            keys@.len() == res@.len(),
            forall|t: int| 0 <= t < j ==> text_le((#[trigger] keys@[t])@, key@),
        ensures
            0 <= j <= res@.len(),
            forall|t: int| 0 <= t < j ==> text_le((#[trigger] keys@[t])@, key@),
            j < res@.len() ==> !text_le(keys@[j as int]@, key@),
        decreases res@.len() - j,
    {
        if !text_le_exec(keys[j].as_str(), key.as_str()) {
            break;
        }
        j = j + 1;
    }
    let ghost old_res = res@;
    let ghost old_keys = keys@;
    proof {
        if j < old_res.len() {
            lemma_text_le_total(old_keys[j as int]@, key@, 0);
        }
    }
    res.insert(j, item);
    keys.insert(j, key);
    proof {
        old_res.insert_ensures(j as int, item);
        old_keys.insert_ensures(j as int, key);
        assert forall|t: int| 0 <= t < res@.len() implies (#[trigger] keys@[t])@ == spec_path_string(res@[t].1@) by {
            if t < j {
                assert(res@[t] == old_res[t]);
                assert(keys@[t] == old_keys[t]);
            } else if t > j {
                assert(res@[t] == old_res[t - 1]);
                assert(keys@[t] == old_keys[t - 1]);
            }
        }
        assert forall|t: int| 0 <= t < res@.len() - 1 implies text_le(
            spec_path_string((#[trigger] res@[t]).1@),
            spec_path_string(res@[t + 1].1@),
        ) by {
            if t + 1 < j {
                assert(res@[t] == old_res[t]);
                assert(res@[t + 1] == old_res[t + 1]);
            } else if t + 1 == j {
                assert(res@[t] == old_res[t]);
                assert(old_keys[t]@ == spec_path_string(old_res[t].1@));
            } else if t == j {
                assert(res@[t + 1] == old_res[t]);
                assert(old_keys[t]@ == spec_path_string(old_res[t].1@));
            } else {
                assert(res@[t] == old_res[t - 1]);
                assert(res@[t + 1] == old_res[t]);
                assert(text_le(spec_path_string(old_res[t - 1].1@), spec_path_string(old_res[t].1@)));
            }
        }
    }
    j
}

/// Whether one of the first `k` entries of `all` has handle `h`.
pub open spec fn among_first(all: Seq<(AssetHandle, &AssetPath, &Asset)>, k: int, h: AssetHandle) -> bool {
    exists|i: int| 0 <= i < k && (#[trigger] all[i]).0 == h
}

/// Whether some item has handle `h`.
pub open spec fn has_item(s: Seq<(AssetHandle, &AssetPath, &Image)>, h: AssetHandle) -> bool {
    exists|t: int| 0 <= t < s.len() && (#[trigger] s[t]).0 == h
}

/// Whether no two items have the same handle.
pub open spec fn distinct_items(s: Seq<(AssetHandle, &AssetPath, &Image)>) -> bool {
    forall|t: int, u: int| 0 <= t < u < s.len() ==> (#[trigger] s[t]).0 != (#[trigger] s[u]).0
}

/// Whether every item is an item of the pane.
pub open spec fn all_pane_items(
    v: AssetsDataView,
    view: AssetKind,
    query: Seq<char>,
    s: Seq<(AssetHandle, &AssetPath, &Image)>,
) -> bool {
    forall|t: int|
        0 <= t < s.len() ==> is_pane_item(
            v,
            view,
            query,
            (#[trigger] s[t]).0,
            s[t].1@,
            s[t].2@,
        )
}

/// What the gathering loop knows of the items after `k` entries of `all`.
pub open spec fn gathered(
    v: AssetsDataView,
    view: AssetKind,
    query: Seq<char>,
    all: Seq<(AssetHandle, &AssetPath, &Asset)>,
    k: int,
    s: Seq<(AssetHandle, &AssetPath, &Image)>,
) -> bool {
    &&& all_pane_items(v, view, query, s)
    &&& distinct_items(s)
    &&& forall|t: int| 0 <= t < s.len() ==> among_first(all, k, (#[trigger] s[t]).0)
    &&& forall|i: int|
        0 <= i < k && spec_is_listed((#[trigger] all[i]).1@, view, query) && shown_image(v, all[i].2@)
            is Some ==> has_item(s, all[i].0)
}

/// Setting the item of `all[k]` into the items gathered from `all[..k]`
/// gives the items gathered from `all[..k + 1]`.
proof fn lemma_item_inserted(
    v: AssetsDataView,
    view: AssetKind,
    query: Seq<char>,
    all: Seq<(AssetHandle, &AssetPath, &Asset)>,
    k: int,
    old_res: Seq<(AssetHandle, &AssetPath, &Image)>,
    res: Seq<(AssetHandle, &AssetPath, &Image)>,
    j: int,
    item: (AssetHandle, &AssetPath, &Image),
)
    requires
        0 <= k < all.len(),
        0 <= j <= old_res.len(),
        res == old_res.insert(j, item),
        item.0 == all[k].0,
        item.1 == all[k].1,
        is_pane_item(v, view, query, item.0, item.1@, item.2@),
        forall|i: int, i2: int| 0 <= i < i2 < all.len() ==> (#[trigger] all[i]).0 != (#[trigger] all[i2]).0,
        gathered(v, view, query, all, k, old_res),
    ensures
        gathered(v, view, query, all, k + 1, res),
{
    old_res.insert_ensures(j, item);
    assert forall|t: int| 0 <= t < res.len() implies among_first(all, k + 1, (#[trigger] res[t]).0) by {
        if t == j {
            assert(all[k].0 == res[t].0);
        } else {
            let tt = if t < j { t } else { t - 1 };
            assert(res[t] == old_res[tt]);
            assert(among_first(all, k, old_res[tt].0));
            let i0 = choose|i: int| 0 <= i < k && (#[trigger] all[i]).0 == old_res[tt].0;
            assert(all[i0].0 == res[t].0);
        }
    }
    assert forall|i: int|
        0 <= i < k + 1 && spec_is_listed((#[trigger] all[i]).1@, view, query) && shown_image(v, all[i].2@)
            is Some implies has_item(res, all[i].0) by {
        if i == k {
            assert(res[j].0 == all[i].0);
        } else {
            assert(has_item(old_res, all[i].0));
            let t0 = choose|t: int| 0 <= t < old_res.len() && (#[trigger] old_res[t]).0 == all[i].0;
            if t0 < j {
                assert(res[t0] == old_res[t0]);
            } else {
                assert(res[t0 + 1] == old_res[t0]);
            }
        }
    }
    assert forall|t: int, u: int| 0 <= t < u < res.len() implies (#[trigger] res[t]).0 != (#[trigger] res[u]).0 by {
        if t == j || u == j {
            let o = if t == j { u } else { t };
            let oo = if o < j { o } else { o - 1 };
            assert(res[o] == old_res[oo]);
            assert(among_first(all, k, old_res[oo].0));
            let i0 = choose|i: int| 0 <= i < k && (#[trigger] all[i]).0 == old_res[oo].0;
            assert(all[i0].0 != all[k].0);
        } else {
            let tt = if t < j { t } else { t - 1 };
            let uu = if u < j { u } else { u - 1 };
            assert(res[t] == old_res[tt]);
            assert(res[u] == old_res[uu]);
        }
    }
    assert forall|t: int| 0 <= t < res.len() implies is_pane_item(
        v,
        view,
        query,
        (#[trigger] res[t]).0,
        res[t].1@,
        res[t].2@,
    ) by {
        if t < j {
            assert(res[t] == old_res[t]);
        } else if t > j {
            assert(res[t] == old_res[t - 1]);
        }
    }
}

/// The items of the asset pane that shows kind `view` and searches for
/// `query`: each handle that leads to an asset whose path is listed, once,
/// with its path and the image that shows it, ordered by path.
pub fn listed_items<'a>(assets: &'a AssetsData, view: AssetKind, query: &str) -> (res: Vec<
    (AssetHandle, &'a AssetPath, &'a Image),
>)
    ensures
        all_pane_items(assets@, view, query@, res@),
        forall|id: u32|
            #[trigger] assets@.lookup(id) matches Some(a) && spec_is_listed(assets@.index[id], view, query@)
                && shown_image(assets@, a) is Some ==> exists|i: int|
                0 <= i < res@.len() && (#[trigger] res@[i]).0.spec_id() == id,
        distinct_items(res@),
        sorted_by_path(res@),
{
    let all = assets.iter();
    let mut res: Vec<(AssetHandle, &'a AssetPath, &'a Image)> = Vec::new();
    let mut keys: Vec<String> = Vec::new();
    let mut k: usize = 0;
    while k < all.len()
        invariant
            0 <= k <= all@.len(),
            keys_match(res@, keys@),
            sorted_by_path(res@),
            forall|i: int|
                0 <= i < all@.len() ==> {
                    let (h, p, a) = #[trigger] all@[i];
                    &&& assets@.index.contains_key(h.spec_id())
                    &&& assets@.index[h.spec_id()] == p@
                    &&& assets@.lookup(h.spec_id()) == Some(a@)
                },
            forall|id: u32|
                #[trigger] assets@.lookup(id) is Some ==> exists|i: int|
                    0 <= i < all@.len() && (#[trigger] all@[i]).0.spec_id() == id,
            forall|i: int, i2: int|
                0 <= i < i2 < all@.len() ==> (#[trigger] all@[i]).0 != (#[trigger] all@[i2]).0,
            gathered(assets@, view, query@, all@, k as int, res@),
        decreases all@.len() - k,
    {
        let (h, p, a) = all[k];
        let shown: Option<&'a Image> = if is_listed(p, view, query) {
            match a {
                Asset::Image(img) => Some(img),
                Asset::Character(c) => assets.get_image(c.img),
            }
        } else {
            None
        };
        match shown {
            Some(img) => {
                let ghost old_res = res@;
                let item = (h, p, img);
                let j = insert_by_path(&mut res, &mut keys, item);
                proof {
                    lemma_item_inserted(assets@, view, query@, all@, k as int, old_res, res@, j as int, item);
                }
            },
            None => {
                proof {
                    let g = res@;
                    assert forall|t: int| 0 <= t < g.len() implies among_first(all@, k + 1, (#[trigger] g[t]).0) by {
                        assert(among_first(all@, k as int, g[t].0));
                        let i0 = choose|i: int| 0 <= i < k && (#[trigger] all@[i]).0 == g[t].0;
                        assert(all@[i0].0 == g[t].0);
                    }
                }
            },
        }
        k = k + 1;
    }
    proof {
        assert forall|id: u32|
            #[trigger] assets@.lookup(id) matches Some(a) && spec_is_listed(assets@.index[id], view, query@)
                && shown_image(assets@, a) is Some implies exists|i: int|
                0 <= i < res@.len() && (#[trigger] res@[i]).0.spec_id() == id by {
            let i0 = choose|i: int| 0 <= i < all@.len() && (#[trigger] all@[i]).0.spec_id() == id;
            assert(spec_is_listed(all@[i0].1@, view, query@));
            assert(shown_image(assets@, all@[i0].2@) is Some);
            assert(has_item(res@, all@[i0].0));
            let t0 = choose|t: int| 0 <= t < res@.len() && (#[trigger] res@[t]).0 == all@[i0].0;
            assert(res@[t0].0.spec_id() == id);
        }
    }
    res
}

} // verus!
