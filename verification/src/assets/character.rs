use vstd::prelude::*;

use crate::assets::kind::AssetHandle;

verus! {

/// What a character holds: its name and the handle of its image.
pub struct CharacterView {
    pub name: Seq<char>,
    pub img: AssetHandle,
}

/// A character: a name and the image that shows it.
#[derive(Debug)]
pub struct Character {
    pub name: String,
    pub img: AssetHandle,
}

impl View for Character {
    type V = CharacterView;

    open spec fn view(&self) -> CharacterView {
        CharacterView { name: self.name@, img: self.img }
    }
}

impl Clone for Character {
    fn clone(&self) -> (res: Self)
        ensures
            res == *self,
            res@ == self@,
    {
        Character { name: self.name.clone(), img: self.img }
    }
}

} // verus!
