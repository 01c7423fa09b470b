use vstd::prelude::*;

use std::collections::HashMap;
use std::path::PathBuf;

use crate::assets::asset_path::{AssetPath, AssetPathView};
use crate::assets::character::Character;
use crate::assets::image::Image;
use crate::assets::io::{holds_all_below, new_key};
use crate::assets::kind::{Asset, AssetHandle, AssetKind, AssetView, AssetsError};
use vstd::std_specs::iter::IteratorSpec;
use crate::text::{concat, ends_with, from_first, spec_ends_with, spec_trim, substring, trim};

verus! {

broadcast use vstd::std_specs::hash::group_hash_axioms;

/// A path of the file system.
#[verifier::external_type_specification]
#[verifier::external_body]
pub struct ExPathBuf(std::path::PathBuf);

/// An error with its chain of causes, as the `anyhow` crate builds it.
#[verifier::external_type_specification]
#[verifier::external_body]
pub struct ExAnyhowError(::anyhow::Error);

/// What the asset store holds: the assets by path, the path of each
/// handle, the folder they live in, and the paths that failed to load,
/// each with the error it failed with.
pub struct AssetsDataView {
    pub assets: Map<AssetPathView, AssetView>,
    pub index: Map<u32, AssetPathView>,
    pub folder: Option<PathBuf>,
    pub failed: Seq<(AssetPathView, ::anyhow::Error)>,
}

/// No two entries of `s` have the same path.
pub open spec fn distinct_paths(s: Seq<(AssetPath, Asset)>) -> bool {
    forall|i: int, j: int| 0 <= i < j < s.len() ==> (#[trigger] s[i]).0@ != (#[trigger] s[j]).0@
}

/// Whether some entry of `s` has path `p`.
pub open spec fn has_path(s: Seq<(AssetPath, Asset)>, p: AssetPathView) -> bool {
    exists|i: int| 0 <= i < s.len() && (#[trigger] s[i]).0@ == p
}

/// The assets of a list of entries, by path.
pub open spec fn entries_map(s: Seq<(AssetPath, Asset)>) -> Map<AssetPathView, AssetView> {
    Map::new(
        |p: AssetPathView| has_path(s, p),
        |p: AssetPathView| s[choose|i: int| 0 <= i < s.len() && (#[trigger] s[i]).0@ == p].1@,
    )
}

/// In a list without repeated paths, entry `i` is what the map holds at its path.
pub proof fn lemma_entries_map_at(s: Seq<(AssetPath, Asset)>, i: int)
    requires
        distinct_paths(s),
        0 <= i < s.len(),
    ensures
        entries_map(s).contains_key(s[i].0@),
        entries_map(s)[s[i].0@] == s[i].1@,
{
    let p = s[i].0@;
    assert(has_path(s, p));
    let k = choose|k: int| 0 <= k < s.len() && (#[trigger] s[k]).0@ == p;
    if k != i {
        if k < i {
            assert(s[k].0@ != s[i].0@);
        } else {
            assert(s[i].0@ != s[k].0@);
        }
    }
}

/// Replacing entry `i` of a list without repeated paths by one with the
/// same path replaces what the map holds there.
proof fn lemma_entries_map_update(s: Seq<(AssetPath, Asset)>, i: int, e: (AssetPath, Asset))
    requires
        distinct_paths(s),
        0 <= i < s.len(),
        e.0@ == s[i].0@,
    ensures
        distinct_paths(s.update(i, e)),
        entries_map(s.update(i, e)) == entries_map(s).insert(e.0@, e.1@),
{
    let t = s.update(i, e);
    assert forall|a: int, b: int| 0 <= a < b < t.len() implies (#[trigger] t[a]).0@ != (
    #[trigger] t[b]).0@ by {
        assert(s[a].0@ != s[b].0@);
    }
    let m = entries_map(s).insert(e.0@, e.1@);
    assert forall|p: AssetPathView| #[trigger] entries_map(t).contains_key(p) <==> m.contains_key(
        p,
    ) by {
        if has_path(s, p) {
            let k = choose|k: int| 0 <= k < s.len() && (#[trigger] s[k]).0@ == p;
            assert(t[k].0@ == p);
        }
        if has_path(t, p) {
            let k = choose|k: int| 0 <= k < t.len() && (#[trigger] t[k]).0@ == p;
            assert(s[k].0@ == p);
        }
    }
    assert forall|p: AssetPathView| #[trigger] entries_map(t).contains_key(p) implies entries_map(
        t,
    )[p] == m[p] by {
        let k = choose|k: int| 0 <= k < t.len() && (#[trigger] t[k]).0@ == p;
        lemma_entries_map_at(t, k);
        if k != i {
            lemma_entries_map_at(s, k);
        }
    }
    assert(entries_map(t) =~= m);
}

/// Appending an entry with a new path to a list without repeated paths adds
/// it to the map.
proof fn lemma_entries_map_push(s: Seq<(AssetPath, Asset)>, e: (AssetPath, Asset))
    requires
        distinct_paths(s),
        !has_path(s, e.0@),
    ensures
        distinct_paths(s.push(e)),
        entries_map(s.push(e)) == entries_map(s).insert(e.0@, e.1@),
{
    let t = s.push(e);
    assert forall|a: int, b: int| 0 <= a < b < t.len() implies (#[trigger] t[a]).0@ != (
    #[trigger] t[b]).0@ by {
        if b == s.len() {
            assert(s[a].0@ != e.0@);
        } else {
            assert(s[a].0@ != s[b].0@);
        }
    }
    let m = entries_map(s).insert(e.0@, e.1@);
    assert forall|p: AssetPathView| #[trigger] entries_map(t).contains_key(p) <==> m.contains_key(
        p,
    ) by {
        if has_path(s, p) {
            let k = choose|k: int| 0 <= k < s.len() && (#[trigger] s[k]).0@ == p;
            assert(t[k].0@ == p);
        }
        if p == e.0@ {
            assert(t[s.len() as int].0@ == p);
        }
        if has_path(t, p) {
            let k = choose|k: int| 0 <= k < t.len() && (#[trigger] t[k]).0@ == p;
            if k < s.len() {
                assert(s[k].0@ == p);
            }
        }
    }
    assert forall|p: AssetPathView| #[trigger] entries_map(t).contains_key(p) implies entries_map(
        t,
    )[p] == m[p] by {
        let k = choose|k: int| 0 <= k < t.len() && (#[trigger] t[k]).0@ == p;
        lemma_entries_map_at(t, k);
        if k < s.len() {
            lemma_entries_map_at(s, k);
        }
    }
    assert(entries_map(t) =~= m);
}

/// Removing entry `i` of a list without repeated paths removes its path
/// from the map.
proof fn lemma_entries_map_remove(s: Seq<(AssetPath, Asset)>, i: int)
    requires
        distinct_paths(s),
        0 <= i < s.len(),
    ensures
        distinct_paths(s.remove(i)),
        entries_map(s.remove(i)) == entries_map(s).remove(s[i].0@),
{
    let t = s.remove(i);
    let q = s[i].0@;
    assert forall|a: int, b: int| 0 <= a < b < t.len() implies (#[trigger] t[a]).0@ != (
    #[trigger] t[b]).0@ by {
        let sa = if a < i { a } else { a + 1 };
        let sb = if b < i { b } else { b + 1 };
        assert(t[a] == s[sa] && t[b] == s[sb]);
        assert(s[sa].0@ != s[sb].0@);
    }
    let m = entries_map(s).remove(q);
    assert forall|p: AssetPathView| #[trigger] entries_map(t).contains_key(p) <==> m.contains_key(
        p,
    ) by {
        if has_path(s, p) && p != q {
            let k = choose|k: int| 0 <= k < s.len() && (#[trigger] s[k]).0@ == p;
            let tk = if k < i { k } else { k - 1 };
            assert(t[tk] == s[k]);
        }
        if has_path(t, p) {
            let k = choose|k: int| 0 <= k < t.len() && (#[trigger] t[k]).0@ == p;
            let sk = if k < i { k } else { k + 1 };
            assert(s[sk] == t[k]);
            assert(s[sk].0@ != s[i].0@);
        }
    }
    assert forall|p: AssetPathView| #[trigger] entries_map(t).contains_key(p) implies entries_map(
        t,
    )[p] == m[p] by {
        let k = choose|k: int| 0 <= k < t.len() && (#[trigger] t[k]).0@ == p;
        lemma_entries_map_at(t, k);
        let sk = if k < i { k } else { k + 1 };
        assert(s[sk] == t[k]);
        lemma_entries_map_at(s, sk);
    }
    assert(entries_map(t) =~= m);
}

/// Where the entry of `entries` with path `path` stands, if there is one.
fn find_entry(entries: &Vec<(AssetPath, Asset)>, path: &AssetPath) -> (res: Option<usize>)
    ensures
        match res {
            Some(i) => i < entries@.len() && entries@[i as int].0@ == path@,
            None => !has_path(entries@, path@),
        },
{
    let mut i: usize = 0;
    while i < entries.len()
        invariant
            0 <= i <= entries@.len(),
            forall|k: int| 0 <= k < i ==> (#[trigger] entries@[k]).0@ != path@,
        decreases entries@.len() - i,
    {
        if entries[i].0.same_as(path) {
            return Some(i);
        }
        i = i + 1;
    }
    None
}

/// Stores `asset` under `path`, in place of what was stored there.
fn upsert(entries: &mut Vec<(AssetPath, Asset)>, path: AssetPath, asset: Asset)
    requires
        distinct_paths(old(entries)@),
    ensures
        distinct_paths(final(entries)@),
        entries_map(final(entries)@) == entries_map(old(entries)@).insert(path@, asset@),
{
    let found = find_entry(entries, &path);
    let entry = (path, asset);
    match found {
        Some(i) => {
            proof {
                lemma_entries_map_update(entries@, i as int, entry);
            }
            entries.set(i, entry);
        },
        None => {
            proof {
                lemma_entries_map_push(entries@, entry);
            }
            entries.push(entry);
        },
    }
}

/// A renaming that `AssetsData::rename` has entered in the index: the
/// asset's file is still to be moved from `from` to `to`.
#[derive(Debug)]
pub struct Rename {
    pub from: AssetPath,
    pub to: AssetPath,
}

/// What a new name for an asset at `old` becomes: trimmed, and with
/// `old`'s extension added unless it already ends in it. `None` where
/// nothing but whitespace is left.
pub open spec fn renamed_path(old: AssetPathView, new_name: Seq<char>) -> Option<AssetPathView> {
    let trimmed = spec_trim(new_name);
    let ext = from_first(old.name, '.');
    let base = if spec_ends_with(trimmed, ext) {
        trimmed.subrange(0, trimmed.len() - ext.len())
    } else {
        trimmed
    };
    if trimmed.len() == 0 {
        None
    } else {
        Some(AssetPathView { kind: old.kind, name: base + ext })
    }
}

/// The index that loading the entries `s` builds: each id to its path,
/// a later entry winning over an earlier one.
pub open spec fn loaded_index(s: Seq<(u32, AssetPath, Result<Asset, ::anyhow::Error>)>) -> Map<
    u32,
    AssetPathView,
>
    decreases s.len(),
{
    if s.len() == 0 {
        Map::empty()
    } else {
        loaded_index(s.drop_last()).insert(s.last().0, s.last().1@)
    }
}

/// The assets that loading the entries `s` stores: each loaded asset under
/// its path, a later entry winning over an earlier one.
pub open spec fn loaded_assets(s: Seq<(u32, AssetPath, Result<Asset, ::anyhow::Error>)>) -> Map<
    AssetPathView,
    AssetView,
>
    decreases s.len(),
{
    if s.len() == 0 {
        Map::empty()
    } else {
        match s.last().2 {
            Ok(a) => loaded_assets(s.drop_last()).insert(s.last().1@, a@),
            Err(_) => loaded_assets(s.drop_last()),
        }
    }
}

/// The entries of `s` that failed to load, in order, each as its path and
/// the error it failed with.
pub open spec fn loaded_failures(s: Seq<(u32, AssetPath, Result<Asset, ::anyhow::Error>)>) -> Seq<
    (AssetPathView, ::anyhow::Error),
>
    decreases s.len(),
{
    if s.len() == 0 {
        Seq::empty()
    } else {
        match s.last().2 {
            Ok(_) => loaded_failures(s.drop_last()),
            Err(e) => loaded_failures(s.drop_last()).push((s.last().1@, e)),
        }
    }
}

/// Whether every entry of `s` loaded.
pub open spec fn all_loaded(s: Seq<(u32, AssetPath, Result<Asset, ::anyhow::Error>)>) -> bool {
    forall|i: int| 0 <= i < s.len() ==> (#[trigger] s[i]).2 is Ok
}

/// The assets, their handles and their folder.
pub struct AssetsData {
    assets: Vec<(AssetPath, Asset)>,
    index: HashMap<u32, AssetPath>,
    folder: Option<PathBuf>,
    failed_loads: Vec<(AssetPath, ::anyhow::Error)>,
}

/// A list of failed loads, each path taken by its view.
pub open spec fn failed_view(s: Seq<(AssetPath, ::anyhow::Error)>) -> Seq<
    (AssetPathView, ::anyhow::Error),
> {
    s.map_values(|f: (AssetPath, ::anyhow::Error)| (f.0@, f.1))
}

/// The path views of an index.
pub open spec fn index_view(m: Map<u32, AssetPath>) -> Map<u32, AssetPathView> {
    m.map_values(|p: AssetPath| p@)
}

impl View for AssetsData {
    type V = AssetsDataView;

    closed spec fn view(&self) -> AssetsDataView {
        AssetsDataView {
            assets: entries_map(self.assets@),
            index: index_view(self.index@),
            folder: self.folder,
            failed: failed_view(self.failed_loads@),
        }
    }
}

impl AssetsDataView {
    /// The asset that handle `id` leads to, if its path is indexed and an
    /// asset is stored there.
    pub open spec fn lookup(self, id: u32) -> Option<AssetView> {
        if self.index.contains_key(id) && self.assets.contains_key(self.index[id]) {
            Some(self.assets[self.index[id]])
        } else {
            None
        }
    }

    /// Whether handle `id` leads to an asset of kind `kind`.
    pub open spec fn is_kind(self, id: u32, kind: AssetKind) -> bool {
        self.lookup(id) matches Some(a) && a.kind() == kind
    }
}

impl AssetsData {
    #[verifier::type_invariant]
    closed spec fn inv(self) -> bool {
        distinct_paths(self.assets@)
    }

    /// An empty store with no folder.
    pub fn new() -> (res: Self)
        ensures
            res@.assets == Map::<AssetPathView, AssetView>::empty(),
            res@.index == Map::<u32, AssetPathView>::empty(),
            res@.folder is None,
            res@.failed == Seq::<(AssetPathView, ::anyhow::Error)>::empty(),
    {
        let res = AssetsData {
            assets: Vec::new(),
            index: HashMap::new(),
            folder: None,
            failed_loads: Vec::new(),
        };
        assert(res@.assets =~= Map::<AssetPathView, AssetView>::empty());
        assert(res@.index =~= Map::<u32, AssetPathView>::empty());
        assert(res@.failed =~= Seq::<(AssetPathView, ::anyhow::Error)>::empty());
        res
    }

    /// Where the entry with path `path` stands, if there is one.
    fn find(&self, path: &AssetPath) -> (res: Option<usize>)
        ensures
            match res {
                Some(i) => i < self.assets@.len() && self.assets@[i as int].0@ == path@,
                None => !has_path(self.assets@, path@),
            },
    {
        find_entry(&self.assets, path)
    }

    /// The asset that `handle` leads to.
    pub fn get(&self, handle: AssetHandle) -> (res: Option<&Asset>)
        ensures
            match self@.lookup(handle.spec_id()) {
                Some(a) => res matches Some(r) && r@ == a,
                None => res is None,
            },
    {
        proof {
            use_type_invariant(self);
        }
        match self.index.get(&handle.id()) {
            None => None,
            Some(path) => match self.find(path) {
                None => None,
                Some(i) => {
                    proof {
                        lemma_entries_map_at(self.assets@, i as int);
                    }
                    Some(&self.assets[i].1)
                },
            },
        }
    }

    /// The path that `handle` is indexed under.
    pub fn path(&self, handle: AssetHandle) -> (res: Option<&AssetPath>)
        ensures
            match res {
                Some(p) => self@.index.contains_key(handle.spec_id()) && self@.index[handle.spec_id()]
                    == p@,
                None => !self@.index.contains_key(handle.spec_id()),
            },
    {
        self.index.get(&handle.id())
    }

    /// The image that `handle` leads to, if it leads to an image.
    pub fn get_image(&self, handle: AssetHandle) -> (res: Option<&Image>)
        ensures
            match self@.lookup(handle.spec_id()) {
                Some(AssetView::Image(img)) => res matches Some(r) && r@ == img,
                _ => res is None,
            },
    {
        match self.get(handle) {
            Some(Asset::Image(img)) => Some(img),
            _ => None,
        }
    }

    /// The character that `handle` leads to, if it leads to a character.
    pub fn get_character(&self, handle: AssetHandle) -> (res: Option<&Character>)
        ensures
            match self@.lookup(handle.spec_id()) {
                Some(AssetView::Character(c)) => res matches Some(r) && r@ == c,
                _ => res is None,
            },
    {
        match self.get(handle) {
            Some(Asset::Character(c)) => Some(c),
            _ => None,
        }
    }

    /// Whether `handle` leads to an asset of kind `kind`.
    pub fn is(&self, handle: AssetHandle, kind: AssetKind) -> (res: bool)
        ensures
            res == self@.is_kind(handle.spec_id(), kind),
    {
        match self.get(handle) {
            Some(asset) => asset.kind() == kind,
            None => false,
        }
    }

    /// Replaces the asset that `handle` leads to by `asset`; tells whether
    /// there was one to replace.
    pub fn set(&mut self, handle: AssetHandle, asset: Asset) -> (res: bool)
        ensures
            res == old(self)@.lookup(handle.spec_id()) is Some,
            final(self)@.index == old(self)@.index,
            final(self)@.folder == old(self)@.folder,
            final(self)@.failed == old(self)@.failed,
            final(self)@.assets == (if res {
                old(self)@.assets.insert(old(self)@.index[handle.spec_id()], asset@)
            } else {
                old(self)@.assets
            }),
    {
        proof {
            use_type_invariant(&*self);
        }
        let found = match self.index.get(&handle.id()) {
            None => None,
            Some(path) => self.find(path),
        };
        match found {
            None => false,
            Some(i) => {
                let path = self.assets[i].0.clone();
                proof {
                    lemma_entries_map_at(self.assets@, i as int);
                    lemma_entries_map_update(self.assets@, i as int, (path, asset));
                }
                let mut assets: Vec<(AssetPath, Asset)> = Vec::new();
        std::mem::swap(&mut assets, &mut self.assets);
                assets.set(i, (path, asset));
                self.assets = assets;
                true
            },
        }
    }

    /// The handle that `asset_path` is indexed under, where an asset is
    /// stored at that path. Where several handles lead to it, any of them.
    pub fn handle(&self, asset_path: AssetPath) -> (res: Option<AssetHandle>)
        ensures
            match res {
                Some(h) => {
                    &&& self@.assets.contains_key(asset_path@)
                    &&& self@.index.contains_key(h.spec_id())
                    &&& self@.index[h.spec_id()] == asset_path@
                },
                None => !self@.assets.contains_key(asset_path@) || !(exists|id: u32|
                    #[trigger] self@.index.contains_key(id) && self@.index[id] == asset_path@),
            },
    {
        proof {
            use_type_invariant(self);
        }
        match self.find(&asset_path) {
            None => {
                return None;
            },
            Some(i) => {
                proof {
                    lemma_entries_map_at(self.assets@, i as int);
                }
            },
        }
        let ghost entries = self.index.iter().remaining();
        for entry in it: self.index.iter()
            invariant
                entries == self.index.iter().remaining(),
                it.seq() == entries,
                self@.assets.contains_key(asset_path@),
                forall|k: int| 0 <= k < it.index() ==> (*(#[trigger] it.seq()[k]).1)@ != asset_path@,
        {
            let (id, path) = entry;
            proof {
                assert(it.seq()[it.index()] == (id, path));
                assert(self.index@.contains_key(*id) && self.index@[*id] == *path);
            }
            if path.same_as(&asset_path) {
                return Some(AssetHandle::from_id(*id));
            }
        }
        proof {
            assert forall|id: u32| #[trigger] self@.index.contains_key(id) implies self@.index[id]
                != asset_path@ by {
                assert(self.index@.contains_key(id));
                assert(entries.contains((&id, &self.index@[id])));
                let k = choose|k: int| 0 <= k < entries.len() && entries[k] == (&id, &self.index@[id]);
                assert((*entries[k].1)@ != asset_path@);
            }
        }
        None
    }

    /// Every handle that leads to an asset, with its path and its asset;
    /// each such handle once, in no particular order.
    pub fn iter(&self) -> (res: Vec<(AssetHandle, &AssetPath, &Asset)>)
        ensures
            forall|i: int|
                0 <= i < res@.len() ==> {
                    let (h, p, a) = #[trigger] res@[i];
                    &&& self@.index.contains_key(h.spec_id())
                    &&& self@.index[h.spec_id()] == p@
                    &&& self@.lookup(h.spec_id()) == Some(a@)
                },
            forall|id: u32|
                #[trigger] self@.lookup(id) is Some ==> exists|i: int|
                    0 <= i < res@.len() && (#[trigger] res@[i]).0.spec_id() == id,
            forall|i: int, j: int|
                0 <= i < j < res@.len() ==> (#[trigger] res@[i]).0 != (#[trigger] res@[j]).0,
    {
        proof {
            use_type_invariant(self);
        }
        let mut res: Vec<(AssetHandle, &AssetPath, &Asset)> = Vec::new();
        let ghost entries = self.index.iter().remaining();
        for entry in it: self.index.iter()
            invariant
                entries == self.index.iter().remaining(),
                it.seq() == entries,
                it.seq().no_duplicates(),
                distinct_paths(self.assets@),
                forall|i: int|
                    0 <= i < res@.len() ==> {
                        let (h, p, a) = #[trigger] res@[i];
                        &&& self@.index.contains_key(h.spec_id())
                        &&& self@.index[h.spec_id()] == p@
                        &&& self@.lookup(h.spec_id()) == Some(a@)
                        &&& exists|k: int| 0 <= k < it.index() && *it.seq()[k].0 == h.spec_id()
                    },
                forall|k: int|
                    0 <= k < it.index() && (#[trigger] self@.lookup(*it.seq()[k].0)) is Some
                        ==> exists|i: int|
                        0 <= i < res@.len() && (#[trigger] res@[i]).0.spec_id() == *it.seq()[k].0,
                forall|i: int, j: int|
                    0 <= i < j < res@.len() ==> (#[trigger] res@[i]).0 != (#[trigger] res@[j]).0,
        {
            let (id, path) = entry;
            let ghost idx = it.index();
            proof {
                assert(it.seq()[idx] == (id, path));
                assert(self.index@.contains_key(*id) && self.index@[*id] == *path);
                assert forall|k: int| 0 <= k < idx implies *it.seq()[k].0 != *id by {
                    if *it.seq()[k].0 == *id {
                        assert(self.index@[*it.seq()[k].0] == *it.seq()[k].1);
                        assert(it.seq()[k] == it.seq()[idx]);
                    }
                }
            }
            match self.find(path) {
                Some(i) => {
                    proof {
                        lemma_entries_map_at(self.assets@, i as int);
                    }
                    let h = AssetHandle::from_id(*id);
                    let ghost old_res = res@;
                    res.push((h, path, &self.assets[i].1));
                    proof {
                        assert(res@[old_res.len() as int].0.spec_id() == *it.seq()[idx].0);
                        assert forall|k: int|
                            0 <= k < idx && (#[trigger] self@.lookup(*it.seq()[k].0)) is Some
                                implies exists|r: int|
                                0 <= r < res@.len() && (#[trigger] res@[r]).0.spec_id() == *it.seq()[k].0 by {
                            let r = choose|r: int| 0 <= r < old_res.len() && (#[trigger] old_res[r]).0.spec_id() == *it.seq()[k].0;
                            assert(res@[r] == old_res[r]);
                        }
                    }
                },
                None => {},
            }
        }
        proof {
            assert forall|id: u32| #[trigger] self@.lookup(id) is Some implies exists|i: int|
                0 <= i < res@.len() && (#[trigger] res@[i]).0.spec_id() == id by {
                assert(self.index@.contains_key(id));
                assert(entries.contains((&id, &self.index@[id])));
                let k = choose|k: int| 0 <= k < entries.len() && entries[k] == (&id, &self.index@[id]);
                assert(self@.lookup(*entries[k].0) is Some);
            }
        }
        res
    }

    /// Every stored asset of kind `kind`, with its path; each once, in the
    /// order they are stored.
    pub fn get_all_of_kind(&self, kind: AssetKind) -> (res: Vec<(&AssetPath, &Asset)>)
        ensures
            forall|i: int|
                0 <= i < res@.len() ==> {
                    let (p, a) = #[trigger] res@[i];
                    &&& a@.kind() == kind
                    &&& self@.assets.contains_key(p@)
                    &&& self@.assets[p@] == a@
                },
            forall|p: AssetPathView|
                #[trigger] self@.assets.contains_key(p) && self@.assets[p].kind() == kind
                    ==> exists|i: int| 0 <= i < res@.len() && (#[trigger] res@[i]).0@ == p,
            forall|i: int, j: int|
                0 <= i < j < res@.len() ==> (#[trigger] res@[i]).0@ != (#[trigger] res@[j]).0@,
    {
        proof {
            use_type_invariant(self);
        }
        let mut res: Vec<(&AssetPath, &Asset)> = Vec::new();
        let mut i: usize = 0;
        while i < self.assets.len()
            invariant
                0 <= i <= self.assets@.len(),
                distinct_paths(self.assets@),
                forall|r: int|
                    0 <= r < res@.len() ==> {
                        let (p, a) = #[trigger] res@[r];
                        &&& a@.kind() == kind
                        &&& self@.assets.contains_key(p@)
                        &&& self@.assets[p@] == a@
                        &&& exists|k: int| 0 <= k < i && self.assets@[k].0@ == p@
                    },
                forall|k: int|
                    0 <= k < i && (#[trigger] self.assets@[k]).1@.kind() == kind ==> exists|r: int|
                        0 <= r < res@.len() && (#[trigger] res@[r]).0@ == self.assets@[k].0@,
                forall|a: int, b: int|
                    0 <= a < b < res@.len() ==> (#[trigger] res@[a]).0@ != (#[trigger] res@[b]).0@,
            decreases self.assets@.len() - i,
        {
            proof {
                lemma_entries_map_at(self.assets@, i as int);
                assert forall|k: int| 0 <= k < i implies self.assets@[k].0@ != self.assets@[i as int].0@ by {
                    assert(distinct_paths(self.assets@));
                    assert(self.assets@[k].0@ != self.assets@[i as int].0@);
                }
            }
            let entry = &self.assets[i];
            if entry.1.kind() == kind {
                let ghost old_res = res@;
                res.push((&entry.0, &entry.1));
                proof {
                    assert(res@[old_res.len() as int].0@ == self.assets@[i as int].0@);
                    assert forall|k: int|
                        0 <= k < i && (#[trigger] self.assets@[k]).1@.kind() == kind implies exists|r: int|
                            0 <= r < res@.len() && (#[trigger] res@[r]).0@ == self.assets@[k].0@ by {
                        let r = choose|r: int| 0 <= r < old_res.len() && (#[trigger] old_res[r]).0@ == self.assets@[k].0@;
                        assert(res@[r] == old_res[r]);
                    }
                }
            }
            i = i + 1;
        }
        proof {
            assert forall|p: AssetPathView|
                #[trigger] self@.assets.contains_key(p) && self@.assets[p].kind() == kind implies exists|r: int|
                    0 <= r < res@.len() && (#[trigger] res@[r]).0@ == p by {
                let k = choose|k: int| 0 <= k < self.assets@.len() && (#[trigger] self.assets@[k]).0@ == p;
                lemma_entries_map_at(self.assets@, k);
                assert(self.assets@[k].1@.kind() == kind);
            }
        }
        res
    }

    /// Whether an asset is stored at `path`.
    pub fn contains_path(&self, path: &AssetPath) -> (res: bool)
        ensures
            res == self@.assets.contains_key(path@),
    {
        proof {
            use_type_invariant(self);
        }
        match self.find(path) {
            Some(i) => {
                proof {
                    lemma_entries_map_at(self.assets@, i as int);
                }
                true
            },
            None => false,
        }
    }

    /// Takes in what loading the folder read: for each indexed handle, its
    /// path and the asset or why it could not be read. Where all loaded,
    /// the index and the assets become what was read; otherwise they stay
    /// and the failures are kept, in order, for `failed_loads`.
    pub fn load(&mut self, loaded: Vec<(u32, AssetPath, Result<Asset, ::anyhow::Error>)>) -> (res:
        Result<(), AssetsError>)
        ensures
            res is Ok <==> all_loaded(loaded@),
            res is Ok ==> {
                &&& final(self)@.index == loaded_index(loaded@)
                &&& final(self)@.assets == loaded_assets(loaded@)
                &&& final(self)@.folder == old(self)@.folder
                &&& final(self)@.failed == old(self)@.failed
            },
            res is Err ==> {
                &&& res == Err::<(), AssetsError>(AssetsError::LoadPartiallyFailed)
                &&& final(self)@.failed == loaded_failures(loaded@)
                &&& final(self)@.index == old(self)@.index
                &&& final(self)@.assets == old(self)@.assets
                &&& final(self)@.folder == old(self)@.folder
            },
    {
        proof {
            use_type_invariant(&*self);
        }
        let mut all_ok = true;
        let mut i: usize = 0;
        while i < loaded.len()
            invariant
                0 <= i <= loaded@.len(),
                all_ok <==> (forall|k: int| 0 <= k < i ==> (#[trigger] loaded@[k]).2 is Ok),
            decreases loaded@.len() - i,
        {
            match &loaded[i].2 {
                Ok(_) => {},
                Err(_) => {
                    all_ok = false;
                },
            }
            i = i + 1;
        }
        let ghost entries = loaded@;
        if all_ok {
            let mut assets: Vec<(AssetPath, Asset)> = Vec::new();
            let mut index: HashMap<u32, AssetPath> = HashMap::new();
            proof {
                assert(entries.take(0) =~= Seq::<(u32, AssetPath, Result<Asset, ::anyhow::Error>)>::empty());
                assert(entries_map(assets@) =~= Map::<AssetPathView, AssetView>::empty());
                assert(index_view(index@) =~= Map::<u32, AssetPathView>::empty());
            }
            for entry in it: loaded
                invariant
                    it.seq() == entries,
                    distinct_paths(assets@),
                    entries_map(assets@) == loaded_assets(entries.take(it.index() as int)),
                    index_view(index@) == loaded_index(entries.take(it.index() as int)),
            {
                let ghost k = it.index() as int;
                proof {
                    assert(entries.take(k + 1).drop_last() =~= entries.take(k));
                    assert(entries.take(k + 1).last() == entries[k]);
                }
                let (id, path, result) = entry;
                let key = path.clone();
                match result {
                    Ok(asset) => {
                        upsert(&mut assets, path, asset);
                    },
                    Err(_) => {},
                }
                index.insert(id, key);
                proof {
                    assert(index_view(index@) =~= loaded_index(entries.take(k)).insert(id, key@));
                }
            }
            proof {
                assert(entries.take(entries.len() as int) =~= entries);
            }
            self.assets = assets;
            self.index = index;
            Ok(())
        } else {
            let mut failed: Vec<(AssetPath, ::anyhow::Error)> = Vec::new();
            proof {
                assert(entries.take(0) =~= Seq::<(u32, AssetPath, Result<Asset, ::anyhow::Error>)>::empty());
                assert(failed_view(failed@) =~= Seq::<(AssetPathView, ::anyhow::Error)>::empty());
            }
            for entry in it: loaded
                invariant
                    it.seq() == entries,
                    failed_view(failed@) == loaded_failures(entries.take(it.index() as int)),
            {
                let ghost k = it.index() as int;
                proof {
                    assert(entries.take(k + 1).drop_last() =~= entries.take(k));
                    assert(entries.take(k + 1).last() == entries[k]);
                }
                let (_, path, result) = entry;
                match result {
                    Ok(_) => {},
                    Err(err) => {
                        let ghost before = failed@;
                        let ghost e = err;
                        let ghost pv = path@;
                        failed.push((path, err));
                        proof {
                            assert(failed_view(failed@) =~= failed_view(before).push((pv, e)));
                        }
                    },
                }
            }
            proof {
                assert(entries.take(entries.len() as int) =~= entries);
            }
            self.failed_loads = failed;
            Err(AssetsError::LoadPartiallyFailed)
        }
    }

    /// Renames the asset that `asset_handle` leads to: the new name is
    /// trimmed and gets the old name's extension unless it already ends in
    /// it. The index takes the new path at once; the returned `Rename`
    /// says which file is to be moved where, and `finish_rename` moves the
    /// asset once the file has been moved. Fails with `InvalidAsset` for a
    /// handle that is not indexed and `InvalidFilename` for a name of
    /// whitespace alone.
    pub fn rename(&mut self, asset_handle: AssetHandle, new_name: String) -> (res: Result<
        Rename,
        AssetsError,
    >)
        ensures
            !old(self)@.index.contains_key(asset_handle.spec_id()) ==> res == Err::<
                Rename,
                AssetsError,
            >(AssetsError::InvalidAsset),
            old(self)@.index.contains_key(asset_handle.spec_id()) ==> match renamed_path(
                old(self)@.index[asset_handle.spec_id()],
                new_name@,
            ) {
                None => res == Err::<Rename, AssetsError>(AssetsError::InvalidFilename),
                Some(p) => res matches Ok(r) && r.from@ == old(self)@.index[asset_handle.spec_id()]
                    && r.to@ == p,
            },
            res is Err ==> final(self)@ == old(self)@,
            res matches Ok(r) ==> {
                &&& final(self)@.index == old(self)@.index.insert(asset_handle.spec_id(), r.to@)
                &&& final(self)@.assets == old(self)@.assets
                &&& final(self)@.folder == old(self)@.folder
                &&& final(self)@.failed == old(self)@.failed
            },
    {
        proof {
            use_type_invariant(&*self);
        }
        let old_path = match self.index.get(&asset_handle.id()) {
            Some(p) => p.clone(),
            None => {
                return Err(AssetsError::InvalidAsset);
            },
        };
        let trimmed = trim(new_name.as_str());
        if trimmed.as_str().unicode_len() == 0 {
            return Err(AssetsError::InvalidFilename);
        }
        let extension = String::from_str(old_path.extension());
        let base = if ends_with(trimmed.as_str(), extension.as_str()) {
            substring(
                trimmed.as_str(),
                0,
                trimmed.as_str().unicode_len() - extension.as_str().unicode_len(),
            )
        } else {
            trimmed
        };
        let new_path = old_path.kind().add(concat(base.as_str(), extension.as_str()));
        let mut index: HashMap<u32, AssetPath> = HashMap::new();
        std::mem::swap(&mut index, &mut self.index);
        index.insert(asset_handle.id(), new_path.clone());
        self.index = index;
        proof {
            assert(self@.index =~= old(self)@.index.insert(asset_handle.spec_id(), new_path@));
        }
        Ok(Rename { from: old_path, to: new_path })
    }

    /// Moves the asset stored at `rename.from` to `rename.to`, once its file
    /// has been moved.
    pub fn finish_rename(&mut self, rename: &Rename)
        requires
            old(self)@.assets.contains_key(rename.from@),
        ensures
            final(self)@.assets == old(self)@.assets.remove(rename.from@).insert(
                rename.to@,
                old(self)@.assets[rename.from@],
            ),
            final(self)@.index == old(self)@.index,
            final(self)@.folder == old(self)@.folder,
            final(self)@.failed == old(self)@.failed,
    {
        proof {
            use_type_invariant(&*self);
        }
        let i = match self.find(&rename.from) {
            Some(i) => i,
            None => {
                proof {
                    assert(false);
                }
                return;
            },
        };
        let mut assets: Vec<(AssetPath, Asset)> = Vec::new();
        std::mem::swap(&mut assets, &mut self.assets);
        proof {
            lemma_entries_map_at(assets@, i as int);
            lemma_entries_map_remove(assets@, i as int);
        }
        let (_, asset) = assets.remove(i);
        upsert(&mut assets, rename.to.clone(), asset);
        self.assets = assets;
    }

    /// The folder that the assets live in.
    pub fn folder(&self) -> (res: Option<&PathBuf>)
        ensures
            match res {
                Some(f) => self@.folder == Some(*f),
                None => self@.folder is None,
            },
    {
        self.folder.as_ref()
    }

    /// Sets the folder that the assets live in.
    pub fn set_folder(&mut self, folder: PathBuf)
        ensures
            final(self)@.folder == Some(folder),
            final(self)@.assets == old(self)@.assets,
            final(self)@.index == old(self)@.index,
            final(self)@.failed == old(self)@.failed,
    {
        proof {
            use_type_invariant(&*self);
        }
        self.folder = Some(folder);
    }

    /// The assets that the last load could not read, with why.
    pub fn failed_loads(&self) -> (res: &Vec<(AssetPath, ::anyhow::Error)>)
        ensures
            failed_view(res@) == self@.failed,
    {
        &self.failed_loads
    }

    /// The index: the path of each handle.
    pub fn index(&self) -> (res: &HashMap<u32, AssetPath>)
        ensures
            index_view(res@) == self@.index,
    {
        &self.index
    }

    /// The number of handles in the index.
    pub fn num_handles(&self) -> (res: usize)
        ensures
            res == self@.index.len(),
    {
        proof {
            assert(self@.index.dom() =~= self.index@.dom());
        }
        self.index.len()
    }

    /// Adds `asset` under `file_name` in its kind's folder and gives it the
    /// smallest free handle. Fails with `NoFolderLoaded` where no folder is
    /// set and with `FileNotFound` where the file is not in the folder
    /// (`file_exists`, as the file system tells it for the path
    /// `<folder>/<kind folder>/<file_name>`).
    pub fn add(&mut self, file_name: String, asset: Asset, file_exists: bool) -> (res: Result<
        AssetHandle,
        AssetsError,
    >)
        requires
            old(self)@.index.len() < u32::MAX,
        ensures
            old(self)@.folder is None ==> res == Err::<AssetHandle, AssetsError>(
                AssetsError::NoFolderLoaded,
            ),
            old(self)@.folder is Some && !file_exists ==> res == Err::<AssetHandle, AssetsError>(
                AssetsError::FileNotFound,
            ),
            res is Err ==> final(self)@ == old(self)@,
            res matches Ok(h) ==> {
                let path = AssetPathView { kind: asset@.kind(), name: file_name@ };
                &&& old(self)@.folder is Some
                &&& file_exists
                &&& !old(self)@.index.contains_key(h.spec_id())
                &&& holds_all_below(old(self)@.index.dom(), h.spec_id() as int)
                &&& final(self)@.index == old(self)@.index.insert(h.spec_id(), path)
                &&& final(self)@.assets == old(self)@.assets.insert(path, asset@)
                &&& final(self)@.folder == old(self)@.folder
                &&& final(self)@.failed == old(self)@.failed
            },
            old(self)@.folder is Some && file_exists ==> res is Ok,
    {
        proof {
            use_type_invariant(&*self);
        }
        if self.folder.is_none() {
            return Err(AssetsError::NoFolderLoaded);
        }
        let kind = asset.kind();
        let asset_path = kind.add(file_name);
        if !file_exists {
            return Err(AssetsError::FileNotFound);
        }
        proof {
            assert(self.index@.dom() =~= self@.index.dom());
        }
        let id = new_key(&self.index);
        let found = self.find(&asset_path);
        let entry = (asset_path.clone(), asset);
        let mut assets: Vec<(AssetPath, Asset)> = Vec::new();
        std::mem::swap(&mut assets, &mut self.assets);
        match found {
            Some(i) => {
                proof {
                    lemma_entries_map_update(assets@, i as int, entry);
                }
                assets.set(i, entry);
            },
            None => {
                proof {
                    lemma_entries_map_push(assets@, entry);
                }
                assets.push(entry);
            },
        }
        self.assets = assets;
        let mut index: HashMap<u32, AssetPath> = HashMap::new();
        std::mem::swap(&mut index, &mut self.index);
        index.insert(id, asset_path);
        self.index = index;
        proof {
            assert(self@.index =~= old(self)@.index.insert(id, asset_path@));
        }
        Ok(AssetHandle::from_id(id))
    }
}

impl Default for AssetsData {
    fn default() -> (res: Self)
        ensures
            res@.assets == Map::<AssetPathView, AssetView>::empty(),
            res@.index == Map::<u32, AssetPathView>::empty(),
            res@.folder is None,
            res@.failed == Seq::<(AssetPathView, ::anyhow::Error)>::empty(),
    {
        AssetsData::new()
    }
}

} // verus!
