use vstd::prelude::*;

use std::collections::HashMap;
use vstd::std_specs::iter::IteratorSpec;

use crate::assets::image::{format_for_media_type, spec_format_for_media_type, Image, ImageView};
use crate::assets::asset_path::{
    lemma_path_round_trip, parse_asset_path, spec_path_string, AssetPath, AssetPathView,
};
use crate::assets::data::index_view;
use crate::assets::kind::{AssetKind, AssetsError};
use crate::text::{ends_with, spec_ends_with, spec_starts_with, spec_to_lowercase, starts_with};

verus! {

broadcast use vstd::std_specs::hash::group_hash_axioms;

/// Every key below `k` is in `keys`.
pub open spec fn holds_all_below(keys: Set<u32>, k: int) -> bool {
    forall|j: u32| (j as int) < k ==> #[trigger] keys.contains(j)
}

/// A finite set of keys that holds every key below `k` has at least `k` of them.
proof fn lemma_all_below_len(keys: Set<u32>, k: int)
    requires
        keys.finite(),
        0 <= k <= u32::MAX as int + 1,
        holds_all_below(keys, k),
    ensures
        keys.len() >= k,
    decreases k,
{
    if k > 0 {
        let last = (k - 1) as u32;
        assert(keys.contains(last));
        let rest = keys.remove(last);
        assert forall|j: u32| (j as int) < k - 1 implies #[trigger] rest.contains(j) by {
            assert(keys.contains(j));
        }
        lemma_all_below_len(rest, k - 1);
    }
}

/// The smallest key that `map` does not hold.
pub fn new_key<V>(map: &HashMap<u32, V>) -> (res: u32)
    requires
        map@.len() <= u32::MAX,
    ensures
        !map@.contains_key(res),
        holds_all_below(map@.dom(), res as int),
{
    let mut k: u32 = 0;
    while map.contains_key(&k)
        invariant
            map@.len() <= u32::MAX,
            holds_all_below(map@.dom(), k as int),
        decreases u32::MAX - k,
    {
        if k == u32::MAX {
            proof {
                assert(holds_all_below(map@.dom(), k as int + 1));
                lemma_all_below_len(map@.dom(), k as int + 1);
            }
        }
        k = k + 1;
    }
    k
}

/// What `::file_type::FileType::from_bytes` tells of a file's contents: the
/// media types of the format it recognises, in the order the crate lists them.
pub uninterp spec fn spec_media_types(bytes: Seq<u8>) -> Seq<Seq<char>>;

/// The views of a list of strings.
pub open spec fn str_views(strs: Seq<&str>) -> Seq<Seq<char>> {
    strs.map_values(|s: &str| s@)
}

/// Calls `::file_type::FileType::from_bytes` on the bytes and returns the
/// media types of the recognised format. The format is found from the bytes
/// by a table of signatures that takes pages to state, so the contract only
/// names the result: it claims that the list depends on the bytes alone.
#[verifier::external_body]
fn media_types(bytes: &[u8]) -> (res: Vec<&'static str>)
    ensures
        str_views(res@) == spec_media_types(bytes@),
{
    ::file_type::FileType::from_bytes(bytes).media_types().to_vec()
}

/// The first media type in `media` that starts with `prefix`.
pub open spec fn first_with_prefix(media: Seq<Seq<char>>, prefix: Seq<char>) -> Option<Seq<char>>
    decreases media.len(),
{
    if media.len() == 0 {
        None
    } else if spec_starts_with(media[0], prefix) {
        Some(media[0])
    } else {
        first_with_prefix(media.drop_first(), prefix)
    }
}

/// The first entry of `media` that starts with `prefix`.
fn find_with_prefix<'a>(media: &[&'a str], prefix: &str) -> (res: Option<&'a str>)
    ensures
        match first_with_prefix(str_views(media@), prefix@) {
            Some(m) => res matches Some(r) && r@ == m,
            None => res is None,
        },
{
    let mut i: usize = 0;
    assert(str_views(media@).skip(0) =~= str_views(media@));
    while i < media.len()
        invariant
            0 <= i <= media@.len(),
            first_with_prefix(str_views(media@), prefix@) == first_with_prefix(
                str_views(media@).skip(i as int),
                prefix@,
            ),
        decreases media@.len() - i,
    {
        proof {
            let rest = str_views(media@).skip(i as int);
            assert(rest[0] == media@[i as int]@);
            assert(rest.drop_first() =~= str_views(media@).skip(i + 1));
        }
        if starts_with(media[i], prefix) {
            return Some(media[i]);
        }
        i = i + 1;
    }
    assert(str_views(media@).skip(i as int).len() == 0);
    None
}

/// What a file turned out to hold.
#[derive(Debug)]
pub enum DetectedAsset {
    /// An image in a format that the image crate knows.
    Image(Image),
    /// A character file: its bytes hold the character written in RON.
    CharacterRon(Vec<u8>),
}

/// The view of a `DetectedAsset`.
pub enum DetectedView {
    Image(ImageView),
    CharacterRon(Seq<u8>),
}

impl View for DetectedAsset {
    type V = DetectedView;

    open spec fn view(&self) -> DetectedView {
        match self {
            DetectedAsset::Image(image) => DetectedView::Image(image@),
            DetectedAsset::CharacterRon(bytes) => DetectedView::CharacterRon(bytes@),
        }
    }
}

/// What a file with contents `bytes`, name `file_name` and media types
/// `media` is taken for: an image where the first image media type has a
/// format; otherwise a character where some media type is plain text and
/// the name ends in `.chara.ron`; otherwise no asset.
pub open spec fn spec_detect(media: Seq<Seq<char>>, bytes: Seq<u8>, file_name: Seq<char>) -> Result<
    DetectedView,
    AssetsError,
> {
    let image_format = match first_with_prefix(media, "image"@) {
        Some(m) => spec_format_for_media_type(m),
        None => None,
    };
    match image_format {
        Some(format) => Ok(DetectedView::Image(ImageView { format, bytes })),
        None => if first_with_prefix(media, "text/plain"@) is Some && spec_ends_with(
            file_name,
            ".chara.ron"@,
        ) {
            Ok(DetectedView::CharacterRon(bytes))
        } else {
            Err(AssetsError::InvalidAsset)
        },
    }
}

/// The view of a detection result.
pub open spec fn detected_view(res: Result<DetectedAsset, AssetsError>) -> Result<
    DetectedView,
    AssetsError,
> {
    match res {
        Ok(d) => Ok(d@),
        Err(e) => Err(e),
    }
}

/// Decides what a file holds from the media types that its contents were
/// recognised as, its bytes and its name.
pub fn asset_from_media_types(media: &[&str], bytes: Vec<u8>, file_name: &str) -> (res: Result<
    DetectedAsset,
    AssetsError,
>)
    ensures
        detected_view(res) == spec_detect(str_views(media@), bytes@, file_name@),
{
    let format = match find_with_prefix(media, "image") {
        Some(m) => format_for_media_type(m),
        None => None,
    };
    match format {
        Some(format) => Ok(DetectedAsset::Image(Image::new(format, bytes))),
        None => {
            let text = find_with_prefix(media, "text/plain");
            if text.is_some() && ends_with(file_name, ".chara.ron") {
                Ok(DetectedAsset::CharacterRon(bytes))
            } else {
                Err(AssetsError::InvalidAsset)
            }
        },
    }
}

/// Decides what a file holds from its contents and its name: the contents
/// are recognised by the `file_type` crate.
pub fn asset_from_bytes(bytes: Vec<u8>, file_name: &str) -> (res: Result<DetectedAsset, AssetsError>)
    ensures
        detected_view(res) == spec_detect(spec_media_types(bytes@), bytes@, file_name@),
{
    let media = media_types(bytes.as_slice());
    asset_from_media_types(media.as_slice(), bytes, file_name)
}

/// What opening a folder leads to.
#[derive(Debug, Clone, Copy, PartialEq, Eq, Structural)]
pub enum FolderChoice {
    /// It holds saved data: load it.
    Load,
    /// It holds other files: ask before using it.
    Confirm,
    /// Nothing is done.
    Nothing,
}

/// Whether a folder entry is the saved data file.
pub open spec fn names_data_file(entry: Option<(String, bool)>) -> bool {
    entry matches Some((name, _)) && name@ == "data.ron"@
}

/// Whether a folder entry is a folder named after a kind of asset.
pub open spec fn is_kind_folder(entry: Option<(String, bool)>) -> bool {
    entry matches Some((name, is_dir)) && is_dir && AssetKind::from_str_spec(name@) is Some
}

/// How many entries of `entries` are folders named after a kind of asset.
pub open spec fn count_kind_folders(entries: Seq<Option<(String, bool)>>) -> nat
    decreases entries.len(),
{
    if entries.len() == 0 {
        0
    } else {
        count_kind_folders(entries.drop_last()) + if is_kind_folder(entries.last()) {
            1nat
        } else {
            0nat
        }
    }
}

/// What opening a folder with entries `entries` leads to: loading where
/// it holds the data file; asking first where it holds anything but
/// folders named after kinds of asset; nothing otherwise.
pub open spec fn spec_folder_choice(entries: Seq<Option<(String, bool)>>) -> FolderChoice {
    if exists|i: int| 0 <= i < entries.len() && names_data_file(#[trigger] entries[i]) {
        FolderChoice::Load
    } else if entries.len() > count_kind_folders(entries) {
        FolderChoice::Confirm
    } else {
        FolderChoice::Nothing
    }
}

/// Decides what opening a folder leads to from its entries: each is its
/// name and whether it is a folder, or `None` where it could not be read.
pub fn classify_folder(entries: &Vec<Option<(String, bool)>>) -> (res: FolderChoice)
    ensures
        res == spec_folder_choice(entries@),
{
    let mut kind_folders: usize = 0;
    let mut has_data = false;
    let mut i: usize = 0;
    while i < entries.len()
        invariant
            0 <= i <= entries@.len(),
            kind_folders == count_kind_folders(entries@.take(i as int)),
            kind_folders <= i,
            has_data <==> exists|k: int| 0 <= k < i && names_data_file(#[trigger] entries@[k]),
        decreases entries@.len() - i,
    {
        proof {
            assert(entries@.take(i + 1).drop_last() =~= entries@.take(i as int));
        }
        match &entries[i] {
            Some((name, is_dir)) => {
                if *name == String::from_str("data.ron") {
                    has_data = true;
                }
                if *is_dir && AssetKind::from_str(name.as_str()).is_ok() {
                    kind_folders = kind_folders + 1;
                }
            },
            None => {},
        }
        i = i + 1;
    }
    proof {
        assert(entries@.take(entries@.len() as int) =~= entries@);
    }
    if has_data {
        FolderChoice::Load
    } else if entries.len() - kind_folders > 0 {
        FolderChoice::Confirm
    } else {
        FolderChoice::Nothing
    }
}

/// The smallest key that `keys` does not hold.
pub open spec fn smallest_free(keys: Set<u32>) -> u32 {
    choose|k: u32| !keys.contains(k) && holds_all_below(keys, k as int)
}

/// A key that `keys` does not hold, with every key below it held, is the
/// smallest free one.
pub proof fn lemma_smallest_free(keys: Set<u32>, k: u32)
    requires
        !keys.contains(k),
        holds_all_below(keys, k as int),
    ensures
        smallest_free(keys) == k,
{
    let s = smallest_free(keys);
    assert(!keys.contains(s) && holds_all_below(keys, s as int));
    if s < k {
        assert(keys.contains(s));
    }
    if k < s {
        assert(keys.contains(k));
    }
}

/// Whether some handle of `index` has path `p`.
pub open spec fn indexes_path(index: Map<u32, AssetPathView>, p: AssetPathView) -> bool {
    exists|id: u32| #[trigger] index.contains_key(id) && index[id] == p
}

/// The handles of `index` whose path is of kind `kind`.
pub open spec fn of_kind(index: Map<u32, AssetPathView>, kind: AssetKind) -> spec_fn(u32) -> bool {
    |id: u32| index[id].kind == kind
}

/// How many handles of `index` have a path of kind `kind`.
pub open spec fn count_of_kind(index: Map<u32, AssetPathView>, kind: AssetKind) -> nat {
    index.dom().filter(of_kind(index, kind)).len()
}

/// The index after the file `name` of the `kind` folder was found: where
/// no handle has its path yet, and the path, written out and read back,
/// is one, it gets the smallest free handle.
pub open spec fn index_file(index: Map<u32, AssetPathView>, kind: AssetKind, name: Seq<char>) -> Map<
    u32,
    AssetPathView,
> {
    let p = AssetPathView { kind, name };
    if indexes_path(index, p) {
        index
    } else {
        match parse_asset_path(spec_path_string(p)) {
            Some(q) => index.insert(smallest_free(index.dom()), q),
            None => index,
        }
    }
}

/// The index after the files `names` of the `kind` folder were found, in order.
pub open spec fn index_files(index: Map<u32, AssetPathView>, kind: AssetKind, names: Seq<String>) -> Map<
    u32,
    AssetPathView,
>
    decreases names.len(),
{
    if names.len() == 0 {
        index
    } else {
        index_file(index_files(index, kind, names.drop_last()), kind, names.last()@)
    }
}

/// How many handles of `index` have a path of kind `kind`.
fn count_kind(index: &HashMap<u32, AssetPath>, kind: AssetKind) -> (res: usize)
    ensures
        res == count_of_kind(index_view(index@), kind),
{
    let ghost m = index_view(index@);
    let ghost entries = index.iter().remaining();
    let ghost mut seen: Set<u32> = Set::empty();
    let n = index.len();
    proof {
        assert(seen.filter(of_kind(m, kind)) =~= Set::<u32>::empty());
        assert(entries.len() == index@.dom().len());
    }
    let mut count: usize = 0;
    for entry in it: index.iter()
        invariant
            entries == index.iter().remaining(),
            entries.len() == n,
            it.seq() == entries,
            entries.no_duplicates(),
            m == index_view(index@),
            seen.finite(),
            count == seen.filter(of_kind(m, kind)).len(),
            count <= it.index(),
            forall|k: u32| #[trigger] seen.contains(k) <==> exists|i: int|
                0 <= i < it.index() && *entries[i].0 == k,
    {
        let (id, path) = entry;
        let ghost idx = it.index() as int;
        proof {
            assert(entries[idx] == (id, path));
            assert(index@.contains_key(*id) && index@[*id] == *path);
            if seen.contains(*id) {
                let i = choose|i: int| 0 <= i < idx && *entries[i].0 == *id;
                assert(index@[*entries[i].0] == *entries[i].1);
                assert(entries[i] == entries[idx]);
            }
            let f = of_kind(m, kind);
            if f(*id) {
                assert(seen.insert(*id).filter(f) =~= seen.filter(f).insert(*id));
                seen.lemma_len_filter(f);
            } else {
                assert(seen.insert(*id).filter(f) =~= seen.filter(f));
            }
            seen = seen.insert(*id);
            assert forall|k: u32| #[trigger] seen.contains(k) implies exists|i: int|
                0 <= i < idx + 1 && *entries[i].0 == k by {
                if k == *id {
                    assert(*entries[idx].0 == k);
                }
            }
        }
        if path.kind() == kind {
            count = count + 1;
        }
    }
    proof {
        assert(seen =~= m.dom()) by {
            assert forall|k: u32| #[trigger] m.dom().contains(k) implies seen.contains(k) by {
                assert(index@.contains_key(k));
                assert(entries.contains((&k, &index@[k])));
                let i = choose|i: int| 0 <= i < entries.len() && entries[i] == (&k, &index@[k]);
                assert(*entries[i].0 == k);
            }
            assert forall|k: u32| seen.contains(k) implies #[trigger] m.dom().contains(k) by {
                let i = choose|i: int| 0 <= i < entries.len() && *entries[i].0 == k;
                assert(index@.contains_key(*entries[i].0));
            }
        }
    }
    count
}

/// Whether some handle of `index` has path `p`.
fn indexes(index: &HashMap<u32, AssetPath>, p: &AssetPath) -> (res: bool)
    ensures
        res == indexes_path(index_view(index@), p@),
{
    let ghost entries = index.iter().remaining();
    for entry in it: index.iter()
        invariant
            entries == index.iter().remaining(),
            it.seq() == entries,
            forall|k: int| 0 <= k < it.index() ==> (*(#[trigger] entries[k]).1)@ != p@,
    {
        let (id, path) = entry;
        proof {
            assert(entries[it.index() as int] == (id, path));
            assert(index@.contains_key(*id) && index@[*id] == *path);
        }
        if path.same_as(p) {
            proof {
                assert(index_view(index@).contains_key(*id));
            }
            return true;
        }
    }
    proof {
        assert forall|id: u32| #[trigger] index_view(index@).contains_key(id) implies index_view(
            index@,
        )[id] != p@ by {
            assert(entries.contains((&id, &index@[id])));
            let k = choose|k: int| 0 <= k < entries.len() && entries[k] == (&id, &index@[id]);
            assert((*entries[k].1)@ != p@);
        }
    }
    false
}

/// Brings the index up to date with the files found in the `kind` folder,
/// where it holds fewer handles of that kind than there are files: each
/// file whose path no handle has gets the smallest free handle, in order.
/// Tells whether it did so, and so whether the index is to be written.
pub fn index_new_files(index: &mut HashMap<u32, AssetPath>, kind: AssetKind, file_names: &Vec<String>) -> (res:
    bool)
    requires
        old(index)@.len() + file_names@.len() <= u32::MAX,
    ensures
        res == (count_of_kind(index_view(old(index)@), kind) < file_names@.len()),
        index_view(final(index)@) == if res {
            index_files(index_view(old(index)@), kind, file_names@)
        } else {
            index_view(old(index)@)
        },
{
    let current = count_kind(index, kind);
    if current >= file_names.len() {
        return false;
    }
    let mut i: usize = 0;
    while i < file_names.len()
        invariant
            0 <= i <= file_names@.len(),
            index@.len() <= old(index)@.len() + i,
            old(index)@.len() + file_names@.len() <= u32::MAX,
            index_view(index@) == index_files(
                index_view(old(index)@),
                kind,
                file_names@.take(i as int),
            ),
        decreases file_names@.len() - i,
    {
        proof {
            assert(file_names@.take(i + 1).drop_last() =~= file_names@.take(i as int));
            assert(file_names@.take(i + 1).last() == file_names@[i as int]);
        }
        let asset_path = AssetPath::new(kind, file_names[i].clone());
        if !indexes(index, &asset_path) {
            let written = asset_path.to_string();
            match AssetPath::try_from(written.as_str()) {
                Ok(parsed) => {
                    let id = new_key(index);
                    proof {
                        assert(index@.dom() =~= index_view(index@).dom());
                        lemma_smallest_free(index_view(index@).dom(), id);
                    }
                    let ghost before = index@;
                    index.insert(id, parsed);
                    proof {
                        assert(index_view(index@) =~= index_view(before).insert(id, parsed@));
                    }
                },
                Err(()) => {},
            }
        }
        i = i + 1;
    }
    proof {
        assert(file_names@.take(file_names@.len() as int) =~= file_names@);
    }
    true
}

/// A finite set of keys with fewer than all of them has a smallest free key.
proof fn lemma_free_key_exists(keys: Set<u32>)
    requires
        keys.finite(),
        keys.len() <= u32::MAX,
    ensures
        !keys.contains(smallest_free(keys)),
        holds_all_below(keys, smallest_free(keys) as int),
{
    lemma_free_key_from(keys, 0);
}

proof fn lemma_free_key_from(keys: Set<u32>, k: int)
    requires
        keys.finite(),
        keys.len() <= u32::MAX,
        0 <= k <= u32::MAX as int + 1,
        holds_all_below(keys, k),
    ensures
        !keys.contains(smallest_free(keys)),
        holds_all_below(keys, smallest_free(keys) as int),
    decreases u32::MAX as int + 1 - k,
{
    if k == u32::MAX as int + 1 {
        lemma_all_below_len(keys, k);
    } else if !keys.contains(k as u32) {
        lemma_smallest_free(keys, k as u32);
    } else {
        assert(holds_all_below(keys, k + 1));
        lemma_free_key_from(keys, k + 1);
    }
}

/// Whether no name in `names` holds a `/`.
pub open spec fn plain_names(names: Seq<String>) -> bool {
    forall|i: int, j: int| 0 <= i < names.len() && 0 <= j < names[i]@.len() ==> names[i]@[j] != '/'
}

/// Bringing the index up to date with the files of a folder indexes every
/// one of them and keeps every path it held, where no file name holds a
/// `/` and the kind's folder name is its own lowercase form (as it is for
/// every kind).
pub proof fn lemma_index_files_covers(
    index: Map<u32, AssetPathView>,
    kind: AssetKind,
    names: Seq<String>,
)
    requires
        index.dom().finite(),
        index.len() + names.len() <= u32::MAX,
        plain_names(names),
        spec_to_lowercase(kind.spec_folder()) == kind.spec_folder(),
    ensures
        index_files(index, kind, names).dom().finite(),
        index_files(index, kind, names).len() <= index.len() + names.len(),
        forall|i: int|
            0 <= i < names.len() ==> indexes_path(
                index_files(index, kind, names),
                AssetPathView { kind, name: #[trigger] names[i]@ },
            ),
        forall|p: AssetPathView|
            #[trigger] indexes_path(index, p) ==> indexes_path(index_files(index, kind, names), p),
    decreases names.len(),
{
    if names.len() > 0 {
        let init = names.drop_last();
        assert(plain_names(init)) by {
            assert forall|i: int, j: int| 0 <= i < init.len() && 0 <= j < init[i]@.len() implies init[i]@[j]
                != '/' by {
                assert(init[i] == names[i]);
            }
        }
        lemma_index_files_covers(index, kind, init);
        let rest = index_files(index, kind, init);
        let p = AssetPathView { kind, name: names.last()@ };
        let result = index_files(index, kind, names);
        assert(result == index_file(rest, kind, names.last()@));
        if !indexes_path(rest, p) {
            assert forall|j: int| 0 <= j < p.name.len() implies p.name[j] != '/' by {
                assert(names[names.len() - 1]@[j] != '/');
            }
            lemma_path_round_trip(p);
            lemma_free_key_exists(rest.dom());
            let k = smallest_free(rest.dom());
            assert(result == rest.insert(k, p));
            assert(result.contains_key(k) && result[k] == p);
            assert(indexes_path(result, p));
            assert forall|q: AssetPathView| #[trigger] indexes_path(rest, q) implies indexes_path(
                result,
                q,
            ) by {
                let id = choose|id: u32| #[trigger] rest.contains_key(id) && rest[id] == q;
                assert(result.contains_key(id) && result[id] == q);
            }
        }
        assert forall|i: int| 0 <= i < names.len() implies indexes_path(
            result,
            AssetPathView { kind, name: #[trigger] names[i]@ },
        ) by {
            if i < names.len() - 1 {
                assert(names[i] == init[i]);
                assert(indexes_path(rest, AssetPathView { kind, name: init[i]@ }));
            }
        }
    }
}

} // verus!
