use vstd::prelude::*;

use crate::assets::kind::AssetKind;
use crate::text::{
    after_first, before_first, concat, find_char, from_first, index_of, lemma_index_of,
    spec_to_lowercase, substring,
};

verus! {

/// Where an asset lives: its kind, which picks the folder, and its file name.
pub struct AssetPathView {
    pub kind: AssetKind,
    pub name: Seq<char>,
}

/// The path of an asset file relative to the assets folder:
/// `<folder of kind>/<name>`.
#[derive(Debug, PartialEq, Eq, Hash)]
pub struct AssetPath {
    kind: AssetKind,
    name: String,
}

impl View for AssetPath {
    type V = AssetPathView;

    closed spec fn view(&self) -> AssetPathView {
        AssetPathView { kind: self.kind, name: self.name@ }
    }
}

impl Clone for AssetPath {
    fn clone(&self) -> (res: Self)
        ensures
            res == *self,
            res@ == self@,
    {
        AssetPath { kind: self.kind, name: self.name.clone() }
    }
}

/// How a path is written: `<folder of kind>/<name>`.
pub open spec fn spec_path_string(p: AssetPathView) -> Seq<char> {
    p.kind.spec_folder() + "/"@ + p.name
}

/// The path that a string `<kind>/<name>[/...]` names: the first part,
/// lowercased, must name a kind, and a second part must follow it.
pub open spec fn parse_asset_path(s: Seq<char>) -> Option<AssetPathView> {
    match AssetKind::from_str_spec(before_first(s, '/')) {
        None => None,
        Some(kind) => match after_first(s, '/') {
            None => None,
            Some(rest) => Some(AssetPathView { kind, name: before_first(rest, '/') }),
        },
    }
}

/// A path written out and read back is the same path, where its name holds
/// no `/` and its folder's name is its own lowercase form (as it is for
/// every kind: they are lowercase ASCII).
pub proof fn lemma_path_round_trip(p: AssetPathView)
    requires
        forall|j: int| 0 <= j < p.name.len() ==> p.name[j] != '/',
        spec_to_lowercase(p.kind.spec_folder()) == p.kind.spec_folder(),
    ensures
        parse_asset_path(spec_path_string(p)) == Some(p),
{
    reveal_strlit("images");
    reveal_strlit("characters");
    reveal_strlit("image");
    reveal_strlit("character");
    reveal_strlit("/");
    let f = p.kind.spec_folder();
    let s = spec_path_string(p);
    let i = f.len() as int;
    assert(forall|j: int| 0 <= j < f.len() ==> f[j] != '/');
    assert(s[i] == '/');
    assert forall|j: int| 0 <= j < i implies s[j] != '/' by {
        assert(s[j] == f[j]);
    }
    lemma_index_of(s, '/');
    match index_of(s, '/') {
        Some(k) => {
            if k < i {
                assert(s[k] != '/');
            }
            if k > i {
                assert(s[i] != '/');
            }
        },
        None => {
            assert(s[i] != '/');
        },
    }
    assert(s.take(i) =~= f);
    assert(s.skip(i + 1) =~= p.name);
    lemma_index_of(p.name, '/');
    match index_of(p.name, '/') {
        Some(k) => {
            assert(p.name[k] != '/');
        },
        None => {},
    }
}

impl AssetPath {
    pub fn new(kind: AssetKind, name: String) -> (res: Self)
        ensures
            res@ == (AssetPathView { kind, name: name@ }),
    {
        AssetPath { kind, name }
    }

    pub fn kind(&self) -> (res: AssetKind)
        ensures
            res == self@.kind,
    {
        self.kind
    }

    /// The file name up to its first `.`: the name without any extension.
    pub fn name(&self) -> (res: &str)
        ensures
            res@ == before_first(self@.name, '.'),
    {
        proof {
            lemma_index_of(self.name@, '.');
        }
        let s = self.name.as_str();
        match find_char(s, '.') {
            Some(i) => {
                let r = s.substring_char(0, i);
                assert(r@ =~= s@.take(i as int));
                assert(r@ == before_first(self@.name, '.'));
                r
            },
            None => {
                assert(s@ == before_first(self@.name, '.'));
                s
            },
        }
    }

    /// The whole file name.
    pub fn file_name(&self) -> (res: &str)
        ensures
            res@ == self@.name,
    {
        self.name.as_str()
    }

    /// The file name from its first `.` on, that `.` included; empty where
    /// it has none.
    pub fn extension(&self) -> (res: &str)
        ensures
            res@ == from_first(self@.name, '.'),
    {
        proof {
            lemma_index_of(self.name@, '.');
        }
        let s = self.name.as_str();
        match find_char(s, '.') {
            Some(i) => {
                let r = s.substring_char(i, s.unicode_len());
                assert(r@ =~= s@.skip(i as int));
                r
            },
            None => {
                let r = "";
                proof {
                    reveal_strlit("");
                }
                assert(r@ =~= Seq::<char>::empty());
                r
            },
        }
    }

    /// Whether two paths are the same.
    pub fn same_as(&self, other: &AssetPath) -> (res: bool)
        ensures
            res == (self@ == other@),
    {
        self.kind == other.kind && self.name == other.name
    }

    /// The path as written: `<folder of kind>/<name>`.
    pub fn to_string(&self) -> (res: String)
        ensures
            res@ == spec_path_string(self@),
    {
        let head = concat(self.kind.folder(), "/");
        concat(head.as_str(), self.name.as_str())
    }

    /// Parses `<kind>/<name>`, ignoring anything after a second `/`.
    pub fn try_from(s: &str) -> (res: Result<AssetPath, ()>)
        ensures
            match parse_asset_path(s@) {
                Some(p) => res matches Ok(r) && r@ == p,
                None => res is Err,
            },
    {
        proof {
            lemma_index_of(s@, '/');
        }
        let len = s.unicode_len();
        let slash = find_char(s, '/');
        let first_end = match slash {
            Some(i) => i,
            None => len,
        };
        let first = substring(s, 0, first_end);
        proof {
            assert(first@ =~= before_first(s@, '/'));
        }
        let kind = match AssetKind::from_str(first.as_str()) {
            Ok(k) => k,
            Err(()) => return Err(()),
        };
        let i = match slash {
            Some(i) => i,
            None => return Err(()),
        };
        let rest = substring(s, i + 1, len);
        proof {
            assert(rest@ =~= s@.skip(i + 1));
            lemma_index_of(rest@, '/');
        }
        let rest_end = match find_char(rest.as_str(), '/') {
            Some(j) => j,
            None => rest.unicode_len(),
        };
        let name = substring(rest.as_str(), 0, rest_end);
        proof {
            assert(name@ =~= before_first(rest@, '/'));
        }
        Ok(AssetPath { kind, name })
    }
}

impl AssetKind {
    /// The path of the file `name` in this kind's folder.
    pub fn add(self, name: String) -> (res: AssetPath)
        ensures
            res@ == (AssetPathView { kind: self, name: name@ }),
    {
        AssetPath { kind: self, name }
    }
}

} // verus!
