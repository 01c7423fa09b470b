use vstd::prelude::*;

use crate::assets::character::{Character, CharacterView};
use crate::assets::image::Image;
use crate::text::{is_ascii_lowercase, spec_to_lowercase, to_lowercase};

verus! {

/// A stable handle to an asset: the key under which the index holds its path.
#[derive(Debug, Clone, Copy, PartialEq, Eq, Structural, Hash)]
pub struct AssetHandle(pub(crate) u32);

impl AssetHandle {
    pub closed spec fn spec_id(self) -> u32 {
        self.0
    }

    /// The handle with key `id`.
    pub fn from_id(id: u32) -> (res: Self)
        ensures
            res.spec_id() == id,
    {
        AssetHandle(id)
    }

    /// The key of this handle.
    pub fn id(&self) -> (res: u32)
        ensures
            res == self.spec_id(),
    {
        self.0
    }
}

/// The kinds of asset.
#[derive(Debug, Clone, Copy, PartialEq, Eq, Structural, Hash)]
pub enum AssetKind {
    Image,
    Character,
}

impl Default for AssetKind {
    fn default() -> (res: Self)
        ensures
            res == AssetKind::Image,
    {
        AssetKind::Image
    }
}

/// Every kind, in declaration order.
pub open spec fn all_kinds() -> Seq<AssetKind> {
    seq![AssetKind::Image, AssetKind::Character]
}

impl AssetKind {
    /// The folder that holds assets of this kind.
    pub open spec fn spec_folder(self) -> Seq<char> {
        match self {
            AssetKind::Image => "images"@,
            AssetKind::Character => "characters"@,
        }
    }

    /// How this kind is written for people.
    pub open spec fn spec_name(self) -> Seq<char> {
        match self {
            AssetKind::Image => "image"@,
            AssetKind::Character => "character"@,
        }
    }

    /// The kind that an already lowercased word names.
    pub open spec fn from_lowercase_spec(lower: Seq<char>) -> Option<AssetKind> {
        if lower == "images"@ || lower == "image"@ {
            Some(AssetKind::Image)
        } else if lower == "character"@ || lower == "characters"@ {
            Some(AssetKind::Character)
        } else {
            None
        }
    }

    /// The kind that a word names, whatever its case.
    pub open spec fn from_str_spec(s: Seq<char>) -> Option<AssetKind> {
        Self::from_lowercase_spec(spec_to_lowercase(s))
    }

    /// The folder that holds assets of this kind.
    pub fn folder(&self) -> (res: &'static str)
        ensures
            res@ == self.spec_folder(),
    {
        match self {
            AssetKind::Image => "images",
            AssetKind::Character => "characters",
        }
    }

    /// Every kind, in declaration order.
    pub fn all() -> (res: Vec<AssetKind>)
        ensures
            res@ == all_kinds(),
    {
        let res = vec![AssetKind::Image, AssetKind::Character];
        assert(res@ =~= all_kinds());
        res
    }

    /// The folder of every kind, in declaration order.
    pub fn folders() -> (res: Vec<&'static str>)
        ensures
            res@.len() == all_kinds().len(),
            forall|i: int| 0 <= i < res@.len() ==> (#[trigger] res@[i])@ == all_kinds()[i].spec_folder(),
    {
        let res = vec!["images", "characters"];
        res
    }

    /// How this kind is written for people: `image` or `character`.
    pub fn to_string(&self) -> (res: String)
        ensures
            res@ == self.spec_name(),
    {
        match self {
            AssetKind::Image => String::from_str("image"),
            AssetKind::Character => String::from_str("character"),
        }
    }

    /// The kind that an already lowercased word names: `image` or `images`,
    /// `character` or `characters`.
    pub fn from_lowercase(lower: &str) -> (res: Result<AssetKind, ()>)
        ensures
            match Self::from_lowercase_spec(lower@) {
                Some(k) => res == Ok::<AssetKind, ()>(k),
                None => res is Err,
            },
    {
        let lower = String::from_str(lower);
        if lower == String::from_str("images") || lower == String::from_str("image") {
            Ok(AssetKind::Image)
        } else if lower == String::from_str("character") || lower == String::from_str("characters") {
            Ok(AssetKind::Character)
        } else {
            Err(())
        }
    }

    /// The kind that a word names once lowercased.
    pub fn from_str(s: &str) -> (res: Result<AssetKind, ()>)
        ensures
            match Self::from_str_spec(s@) {
                Some(k) => res == Ok::<AssetKind, ()>(k),
                None => res is Err,
            },
            is_ascii_lowercase(s@) ==> Self::from_str_spec(s@) == Self::from_lowercase_spec(s@),
    {
        let lower = to_lowercase(s);
        Self::from_lowercase(lower.as_str())
    }

    /// The kind that a word names once lowercased.
    pub fn try_from(value: &str) -> (res: Result<AssetKind, ()>)
        ensures
            match Self::from_str_spec(value@) {
                Some(k) => res == Ok::<AssetKind, ()>(k),
                None => res is Err,
            },
            is_ascii_lowercase(value@) ==> Self::from_str_spec(value@) == Self::from_lowercase_spec(
                value@,
            ),
    {
        Self::from_str(value)
    }
}

/// A kind's folder name is lowercase and names that kind again, so that
/// `AssetKind::from_str` on it gives the kind back, and no two kinds share
/// a folder.
pub proof fn lemma_folder_parses_back(k: AssetKind)
    ensures
        is_ascii_lowercase(k.spec_folder()),
        AssetKind::from_lowercase_spec(k.spec_folder()) == Some(k),
        forall|j: AssetKind| #[trigger] j.spec_folder() == k.spec_folder() ==> j == k,
{
    reveal_strlit("images");
    reveal_strlit("image");
    reveal_strlit("characters");
    reveal_strlit("character");
    assert("images"@[0] != "characters"@[0]);
    assert("images"@[0] != "character"@[0]);
    assert("characters"@[0] != "image"@[0]);
}

/// How an asset view of the asset pane lists its assets.
#[derive(Debug, Clone, Copy, PartialEq, Eq, Structural)]
pub enum ViewMode {
    Thumbnails,
    List,
}

impl Default for ViewMode {
    fn default() -> (res: Self)
        ensures
            res == ViewMode::Thumbnails,
    {
        ViewMode::Thumbnails
    }
}

/// An asset: an image or a character.
#[derive(Debug)]
pub enum Asset {
    Image(Image),
    Character(Character),
}

/// What an asset holds.
pub enum AssetView {
    Image(crate::assets::image::ImageView),
    Character(CharacterView),
}

impl View for Asset {
    type V = AssetView;

    open spec fn view(&self) -> AssetView {
        match self {
            Asset::Image(image) => AssetView::Image(image@),
            Asset::Character(character) => AssetView::Character(character@),
        }
    }
}

impl AssetView {
    pub open spec fn kind(self) -> AssetKind {
        match self {
            AssetView::Image(_) => AssetKind::Image,
            AssetView::Character(_) => AssetKind::Character,
        }
    }
}

impl Clone for Asset {
    fn clone(&self) -> (res: Self)
        ensures
            res@ == self@,
    {
        match self {
            Asset::Image(image) => Asset::Image(image.clone()),
            Asset::Character(character) => Asset::Character(character.clone()),
        }
    }
}

impl Asset {
    /// The folder that holds assets of this one's kind.
    pub fn folder(&self) -> (res: &'static str)
        ensures
            res@ == self@.kind().spec_folder(),
    {
        match self {
            Asset::Image(_) => "images",
            Asset::Character(_) => "characters",
        }
    }

    pub fn kind(&self) -> (res: AssetKind)
        ensures
            res == self@.kind(),
    {
        match self {
            Asset::Image(_) => AssetKind::Image,
            Asset::Character(_) => AssetKind::Character,
        }
    }
}

/// Errors of asset operations.
#[derive(Debug, Clone, Copy, PartialEq, Eq, Structural)]
pub enum AssetsError {
    /// The dialog was closed.
    DialogClosed,
    /// The file is not a valid asset.
    InvalidAsset,
    /// No folder is loaded.
    NoFolderLoaded,
    /// Loading of assets partially failed.
    LoadPartiallyFailed,
    /// The asset's file does not exist in the folder.
    FileNotFound,
    /// The new name is empty.
    InvalidFilename,
}

} // verus!
