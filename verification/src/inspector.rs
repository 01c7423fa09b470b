//! The inspector: shows one asset, lets it be edited on a copy, and keeps
//! the edits as a history that can be undone, redone and applied.

use vstd::prelude::*;

use crate::assets::character::{Character, CharacterView};
use crate::assets::data::{AssetsData, AssetsDataView};
use crate::assets::kind::{Asset, AssetHandle, AssetView};

verus! {

/// An edit of an image. No image edit changes anything yet.
#[derive(Debug, Clone, Copy)]
pub struct EditImage;

/// Edits of a character.
#[derive(Debug, Clone)]
pub enum EditCharacter {
    /// Give the character this name.
    Name(String),
    /// Show the character with this image.
    Image(AssetHandle),
}

/// An edit of an asset.
#[derive(Debug)]
pub enum Edit {
    Image(EditImage),
    Character(EditCharacter),
}

/// What an edit does.
pub enum EditView {
    Image,
    Name(Seq<char>),
    CharacterImage(AssetHandle),
}

impl View for Edit {
    type V = EditView;

    open spec fn view(&self) -> EditView {
        match self {
            Edit::Image(_) => EditView::Image,
            Edit::Character(EditCharacter::Name(n)) => EditView::Name(n@),
            Edit::Character(EditCharacter::Image(h)) => EditView::CharacterImage(*h),
        }
    }
}

impl Clone for Edit {
    fn clone(&self) -> (res: Self)
        ensures
            res@ == self@,
    {
        match self {
            Edit::Image(e) => Edit::Image(*e),
            Edit::Character(EditCharacter::Name(n)) => Edit::Character(EditCharacter::Name(n.clone())),
            Edit::Character(EditCharacter::Image(h)) => Edit::Character(EditCharacter::Image(*h)),
        }
    }
}

/// Applying edit `e` to asset `a`: the edited asset, and the edit that
/// undoes it (the value it replaced). An edit of a character leaves any
/// other asset, and itself, as they are.
pub open spec fn apply_edit(e: EditView, a: AssetView) -> (EditView, AssetView) {
    match a {
        AssetView::Character(c) => match e {
            EditView::Name(n) => (
                EditView::Name(c.name),
                AssetView::Character(CharacterView { name: n, img: c.img }),
            ),
            EditView::CharacterImage(h) => (
                EditView::CharacterImage(c.img),
                AssetView::Character(CharacterView { name: c.name, img: h }),
            ),
            EditView::Image => (e, a),
        },
        AssetView::Image(_) => (e, a),
    }
}

impl Edit {
    /// Applies the edit to the asset and turns itself into its inverse:
    /// applied again, it undoes the edit.
    pub fn apply_and_invert(&mut self, asset: &mut Asset)
        ensures
            (final(self)@, final(asset)@) == apply_edit(old(self)@, old(asset)@),
    {
        let (inverse, edited) = match (&*self, &*asset) {
            (Edit::Character(EditCharacter::Name(name)), Asset::Character(chara)) => (
                Edit::Character(EditCharacter::Name(chara.name.clone())),
                Character { name: name.clone(), img: chara.img },
            ),
            (Edit::Character(EditCharacter::Image(handle)), Asset::Character(chara)) => (
                Edit::Character(EditCharacter::Image(chara.img)),
                Character { name: chara.name.clone(), img: *handle },
            ),
            _ => {
                return;
            },
        };
        *self = inverse;
        *asset = Asset::Character(edited);
    }
}

/// The views of a list of edits.
pub open spec fn edit_views(s: Seq<Edit>) -> Seq<EditView> {
    s.map_values(|e: Edit| e@)
}

/// Applying the edits `lo..hi` of `edits` to `a` in order, each edit
/// turning into its inverse.
pub open spec fn apply_forward(edits: Seq<EditView>, a: AssetView, lo: int, hi: int) -> (
    Seq<EditView>,
    AssetView,
)
    decreases hi - lo,
{
    if lo >= hi {
        (edits, a)
    } else {
        let (e, b) = apply_edit(edits[lo], a);
        apply_forward(edits.update(lo, e), b, lo + 1, hi)
    }
}

/// Applying the edits `lo..hi` of `edits` to `a` from the last to the
/// first, each edit turning into its inverse.
pub open spec fn apply_backward(edits: Seq<EditView>, a: AssetView, lo: int, hi: int) -> (
    Seq<EditView>,
    AssetView,
)
    decreases hi - lo,
{
    if lo >= hi {
        (edits, a)
    } else {
        let (e, b) = apply_edit(edits[hi - 1], a);
        apply_backward(edits.update(hi - 1, e), b, lo, hi - 1)
    }
}

fn reapply_forward(edits: &mut Vec<Edit>, asset: &mut Asset, lo: usize, hi: usize)
    requires
        lo <= hi <= old(edits)@.len(),
    ensures
        (edit_views(final(edits)@), final(asset)@) == apply_forward(
            edit_views(old(edits)@),
            old(asset)@,
            lo as int,
            hi as int,
        ),
{
    let mut i = lo;
    while i < hi
        invariant
            lo <= i <= hi <= edits@.len(),
            apply_forward(edit_views(old(edits)@), old(asset)@, lo as int, hi as int)
                == apply_forward(edit_views(edits@), asset@, i as int, hi as int),
        decreases hi - i,
    {
        let mut e = edits[i].clone();
        let ghost before = edits@;
        e.apply_and_invert(asset);
        edits.set(i, e);
        proof {
            assert(edit_views(edits@) =~= edit_views(before).update(i as int, e@));
        }
        i = i + 1;
    }
}

fn reapply_backward(edits: &mut Vec<Edit>, asset: &mut Asset, lo: usize, hi: usize)
    requires
        lo <= hi <= old(edits)@.len(),
    ensures
        (edit_views(final(edits)@), final(asset)@) == apply_backward(
            edit_views(old(edits)@),
            old(asset)@,
            lo as int,
            hi as int,
        ),
{
    let mut j = hi;
    while j > lo
        invariant
            lo <= j <= hi <= edits@.len(),
            apply_backward(edit_views(old(edits)@), old(asset)@, lo as int, hi as int)
                == apply_backward(edit_views(edits@), asset@, lo as int, j as int),
        decreases j - lo,
    {
        let mut e = edits[j - 1].clone();
        let ghost before = edits@;
        e.apply_and_invert(asset);
        edits.set(j - 1, e);
        proof {
            assert(edit_views(edits@) =~= edit_views(before).update(j - 1, e@));
        }
        j = j - 1;
    }
}

/// A message to the inspector.
#[derive(Debug, Clone)]
pub enum InspectorMessage {
    /// Show this asset; the flag overrides the pin.
    SetCurrent(AssetHandle, bool),
    /// Apply this edit to the shown copy and record it.
    UpdateTempAsset(Edit),
    EnterEditMode,
    ExitEditMode,
    Undo,
    Redo,
    /// Drop the edits that were not applied: show the asset again.
    Revert,
    /// Revert and leave edit mode.
    Cancel,
    /// Write the shown copy back to the asset.
    Apply,
    /// Apply and leave edit mode.
    Done,
    SetPinned(bool),
}

/// What the inspector asks to happen after a message: nothing, one more
/// message, or several.
#[derive(Debug)]
pub enum InspectorTask {
    Nothing,
    Done(InspectorMessage),
    Batch(Vec<InspectorMessage>),
}

/// What the inspector holds: the asset it shows, the copy being edited,
/// the history of edits (each stored as its inverse), the position in the
/// history, the position last applied, and its two flags.
pub struct InspectorView {
    pub current: Option<AssetHandle>,
    pub temp_asset: Option<AssetView>,
    pub is_editing: bool,
    pub edits: Seq<EditView>,
    pub current_edit: int,
    pub applied_edit: int,
    pub is_pinned: bool,
}

impl InspectorView {
    /// An inspector that shows an asset also holds its copy.
    pub open spec fn wf(self) -> bool {
        &&& self.current is Some ==> self.temp_asset is Some
        &&& 0 <= self.current_edit
        &&& 0 <= self.applied_edit
    }

    /// Whether `Undo` has an edit to undo.
    pub open spec fn undo_applies(self) -> bool {
        self.current_edit != 0 && self.edits.len() > 0 && self.temp_asset is Some
            && self.current_edit - 1 < self.edits.len()
    }

    /// Whether `Redo` has an edit to redo.
    pub open spec fn redo_applies(self) -> bool {
        self.current_edit != self.edits.len() && self.edits.len() > 0 && self.temp_asset is Some
            && self.current_edit < self.edits.len()
    }

    /// Whether `SetCurrent(new, override_pin)` is ignored because of the pin.
    pub open spec fn pinned_against(self, override_pin: bool) -> bool {
        self.is_pinned && !override_pin && self.current is Some
    }

    /// Whether `SetCurrent(new, ..)` shows the asset again with the same
    /// history, re-applying the edits between the applied position and the
    /// current one.
    pub open spec fn keeps_history(self, new: AssetHandle) -> bool {
        !(self.current matches Some(c) && c != new) && self.temp_asset is Some
    }

    /// Whether `SetCurrent(new, override_pin)` would re-apply edits past
    /// the end of the history, which the inspector cannot do.
    pub open spec fn set_current_out_of_bounds(
        self,
        assets: AssetsDataView,
        new: AssetHandle,
        override_pin: bool,
    ) -> bool {
        &&& !self.pinned_against(override_pin)
        &&& assets.lookup(new.spec_id()) is Some
        &&& self.keeps_history(new)
        &&& ((self.current_edit > self.applied_edit && self.current_edit > self.edits.len()) || (
        self.current_edit < self.applied_edit && self.applied_edit > self.edits.len()))
    }

    /// The history after showing `new`: emptied for another asset; for the
    /// same one, the edits between the applied and the current position are
    /// applied again to the copy (backwards where the history went ahead of
    /// the applied position), so that each turns back into the edit it was.
    pub open spec fn edits_after_set_current(self, new: AssetHandle) -> Seq<EditView> {
        if self.current matches Some(c) && c != new {
            Seq::empty()
        } else {
            match self.temp_asset {
                Some(t) => if self.current_edit > self.applied_edit {
                    apply_backward(self.edits, t, self.applied_edit, self.current_edit).0
                } else if self.current_edit < self.applied_edit {
                    apply_forward(self.edits, t, self.current_edit, self.applied_edit).0
                } else {
                    self.edits
                },
                None => self.edits,
            }
        }
    }

    /// The inspector after `SetCurrent(new, override_pin)`.
    pub open spec fn after_set_current(
        self,
        assets: AssetsDataView,
        new: AssetHandle,
        override_pin: bool,
    ) -> InspectorView {
        if self.pinned_against(override_pin) {
            self
        } else {
            match assets.lookup(new.spec_id()) {
                None => self,
                Some(a) => InspectorView {
                    current: Some(new),
                    temp_asset: Some(a),
                    edits: self.edits_after_set_current(new),
                    current_edit: self.applied_edit,
                    ..self
                },
            }
        }
    }

    /// The inspector after `UpdateTempAsset(e)`: the history is cut at the
    /// current position, the edit is applied to the copy and its inverse is
    /// recorded.
    pub open spec fn after_update_temp(self, e: EditView) -> InspectorView {
        match self.temp_asset {
            None => self,
            Some(t) => {
                let kept = if self.edits.len() > 0 && self.current_edit != self.edits.len()
                    && self.current_edit < self.edits.len() {
                    self.edits.take(self.current_edit)
                } else {
                    self.edits
                };
                let (inverse, edited) = apply_edit(e, t);
                InspectorView {
                    temp_asset: Some(edited),
                    edits: kept.push(inverse),
                    current_edit: kept.len() as int + 1,
                    ..self
                }
            },
        }
    }

    /// The inspector after `Undo`: the edit before the current position is
    /// applied to the copy and turned into its inverse.
    pub open spec fn after_undo(self) -> InspectorView {
        if self.undo_applies() {
            let (inverse, edited) = apply_edit(
                self.edits[self.current_edit - 1],
                self.temp_asset->0,
            );
            InspectorView {
                temp_asset: Some(edited),
                edits: self.edits.update(self.current_edit - 1, inverse),
                current_edit: self.current_edit - 1,
                ..self
            }
        } else {
            self
        }
    }

    /// The inspector after `Redo`: the edit at the current position is
    /// applied to the copy and turned into its inverse.
    pub open spec fn after_redo(self) -> InspectorView {
        if self.redo_applies() {
            let (inverse, edited) = apply_edit(self.edits[self.current_edit], self.temp_asset->0);
            InspectorView {
                temp_asset: Some(edited),
                edits: self.edits.update(self.current_edit, inverse),
                current_edit: self.current_edit + 1,
                ..self
            }
        } else {
            self
        }
    }

    /// The assets after applying: where edits are pending and the shown
    /// asset still exists, it becomes the copy.
    pub open spec fn assets_after_apply(self, assets: AssetsDataView) -> AssetsDataView {
        match self.current {
            Some(h) => if self.applied_edit != self.current_edit && assets.lookup(h.spec_id()) is Some {
                AssetsDataView {
                    assets: assets.assets.insert(assets.index[h.spec_id()], self.temp_asset->0),
                    ..assets
                }
            } else {
                assets
            },
            None => assets,
        }
    }
}

/// The inspector pane's state.
pub struct Inspector {
    current: Option<AssetHandle>,
    temp_asset: Option<Asset>,
    is_editing: bool,
    edits: Vec<Edit>,
    current_edit: usize,
    applied_edit: usize,
    is_pinned: bool,
}

impl View for Inspector {
    type V = InspectorView;

    closed spec fn view(&self) -> InspectorView {
        InspectorView {
            current: self.current,
            temp_asset: match self.temp_asset {
                Some(a) => Some(a@),
                None => None,
            },
            is_editing: self.is_editing,
            edits: edit_views(self.edits@),
            current_edit: self.current_edit as int,
            applied_edit: self.applied_edit as int,
            is_pinned: self.is_pinned,
        }
    }
}

impl Default for Inspector {
    fn default() -> (res: Self)
        ensures
            res@.wf(),
            res@.current is None,
            res@.temp_asset is None,
            !res@.is_editing,
            res@.edits == Seq::<EditView>::empty(),
            res@.current_edit == 0,
            res@.applied_edit == 0,
            !res@.is_pinned,
    {
        Inspector::new()
    }
}

impl Inspector {
    /// An inspector that shows nothing, with an empty history.
    pub fn new() -> (res: Self)
        ensures
            res@.wf(),
            res@.current is None,
            res@.temp_asset is None,
            !res@.is_editing,
            res@.edits == Seq::<EditView>::empty(),
            res@.current_edit == 0,
            res@.applied_edit == 0,
            !res@.is_pinned,
    {
        let res = Inspector {
            current: None,
            temp_asset: None,
            is_editing: false,
            edits: Vec::new(),
            current_edit: 0,
            applied_edit: 0,
            is_pinned: false,
        };
        assert(res@.edits =~= Seq::<EditView>::empty());
        res
    }

    /// The asset shown.
    pub fn current(&self) -> (res: Option<AssetHandle>)
        ensures
            res == self@.current,
    {
        self.current
    }

    /// The copy of the shown asset that edits are applied to.
    pub fn temp_asset(&self) -> (res: Option<&Asset>)
        ensures
            match res {
                Some(a) => self@.temp_asset == Some(a@),
                None => self@.temp_asset is None,
            },
    {
        self.temp_asset.as_ref()
    }

    pub fn is_editing(&self) -> (res: bool)
        ensures
            res == self@.is_editing,
    {
        self.is_editing
    }

    pub fn is_pinned(&self) -> (res: bool)
        ensures
            res == self@.is_pinned,
    {
        self.is_pinned
    }

    /// Whether the copy differs from what was last applied.
    pub fn has_pending_edits(&self) -> (res: bool)
        ensures
            res == (self@.applied_edit != self@.current_edit),
    {
        self.applied_edit != self.current_edit
    }

    /// Whether there is an edit to undo.
    pub fn can_undo(&self) -> (res: bool)
        ensures
            res == (self@.current_edit != 0),
    {
        self.current_edit != 0
    }

    /// Whether there is an edit to redo.
    pub fn can_redo(&self) -> (res: bool)
        ensures
            res == (self@.edits.len() > 0 && self@.current_edit < self@.edits.len()),
    {
        self.edits.len() > 0 && self.current_edit < self.edits.len()
    }

    /// Whether `SetCurrent(new, override_pin)` can be handled: it cannot
    /// where it would re-apply edits past the end of the history.
    pub fn can_set_current(&self, assets: &AssetsData, new: AssetHandle, override_pin: bool) -> (res:
        bool)
        ensures
            res == !self@.set_current_out_of_bounds(assets@, new, override_pin),
    {
        if self.is_pinned && !override_pin && self.current.is_some() {
            return true;
        }
        if assets.get(new).is_none() {
            return true;
        }
        let other = match self.current {
            Some(c) => c != new,
            None => false,
        };
        if other || self.temp_asset.is_none() {
            return true;
        }
        let len = self.edits.len();
        !((self.current_edit > self.applied_edit && self.current_edit > len) || (self.current_edit
            < self.applied_edit && self.applied_edit > len))
    }

    /// Writes the copy back to the shown asset where edits are pending.
    fn apply(&self, assets: &mut AssetsData)
        requires
            self@.wf(),
        ensures
            final(assets)@ == self@.assets_after_apply(old(assets)@),
    {
        if self.applied_edit == self.current_edit {
            return;
        }
        match self.current {
            Some(handle) => {
                match &self.temp_asset {
                    Some(temp) => {
                        let _ = assets.set(handle, temp.clone());
                    },
                    None => {},
                }
            },
            None => {},
        }
    }

    /// Handles a message; returns what is to happen next.
    pub fn update(&mut self, assets: &mut AssetsData, message: InspectorMessage) -> (res:
        InspectorTask)
        requires
            old(self)@.wf(),
            !(message matches InspectorMessage::SetCurrent(new, ov)
                && old(self)@.set_current_out_of_bounds(old(assets)@, new, ov)),
        ensures
            final(self)@.wf(),
            match message {
                InspectorMessage::SetCurrent(new, ov) => {
                    &&& final(self)@ == old(self)@.after_set_current(old(assets)@, new, ov)
                    &&& final(assets)@ == old(assets)@
                    &&& res is Nothing
                },
                InspectorMessage::UpdateTempAsset(e) => {
                    &&& final(self)@ == old(self)@.after_update_temp(e@)
                    &&& final(assets)@ == old(assets)@
                    &&& res is Nothing
                },
                InspectorMessage::EnterEditMode => {
                    &&& final(self)@ == InspectorView { is_editing: true, ..old(self)@ }
                    &&& final(assets)@ == old(assets)@
                    &&& res is Nothing
                },
                InspectorMessage::ExitEditMode => {
                    &&& final(self)@ == InspectorView { is_editing: false, ..old(self)@ }
                    &&& final(assets)@ == old(assets)@
                    &&& res is Nothing
                },
                InspectorMessage::Undo => {
                    &&& final(self)@ == old(self)@.after_undo()
                    &&& final(assets)@ == old(assets)@
                    &&& res is Nothing
                },
                InspectorMessage::Redo => {
                    &&& final(self)@ == old(self)@.after_redo()
                    &&& final(assets)@ == old(assets)@
                    &&& res is Nothing
                },
                InspectorMessage::Revert => {
                    &&& final(self)@ == old(self)@
                    &&& final(assets)@ == old(assets)@
                    &&& match old(self)@.current {
                        Some(c) => res matches InspectorTask::Done(
                            InspectorMessage::SetCurrent(h, true),
                        ) && h == c,
                        None => res is Nothing,
                    }
                },
                InspectorMessage::Cancel => {
                    &&& final(self)@ == old(self)@
                    &&& final(assets)@ == old(assets)@
                    &&& res matches InspectorTask::Batch(v) && v@.len() == 2 && v@[0] is Revert
                        && v@[1] is ExitEditMode
                },
                InspectorMessage::Apply => {
                    &&& final(self)@ == InspectorView {
                        applied_edit: old(self)@.current_edit,
                        ..old(self)@
                    }
                    &&& final(assets)@ == old(self)@.assets_after_apply(old(assets)@)
                    &&& res is Nothing
                },
                InspectorMessage::Done => {
                    &&& final(self)@ == old(self)@
                    &&& final(assets)@ == old(self)@.assets_after_apply(old(assets)@)
                    &&& res matches InspectorTask::Done(InspectorMessage::ExitEditMode)
                },
                InspectorMessage::SetPinned(p) => {
                    &&& final(self)@ == InspectorView { is_pinned: p, ..old(self)@ }
                    &&& final(assets)@ == old(assets)@
                    &&& res is Nothing
                },
            },
    {
        match message {
            InspectorMessage::SetCurrent(new, override_pin) => {
                if self.is_pinned && !override_pin && self.current.is_some() {
                    return InspectorTask::Nothing;
                }
                let asset = match assets.get(new) {
                    Some(asset) => asset.clone(),
                    None => {
                        return InspectorTask::Nothing;
                    },
                };
                let other = match self.current {
                    Some(curr) => curr != new,
                    None => false,
                };
                if other {
                    self.edits.clear();
                    proof {
                        assert(edit_views(self.edits@) =~= Seq::<EditView>::empty());
                    }
                } else {
                    match &self.temp_asset {
                        Some(temp) => {
                            let mut temp = temp.clone();
                            if self.current_edit > self.applied_edit {
                                reapply_backward(
                                    &mut self.edits,
                                    &mut temp,
                                    self.applied_edit,
                                    self.current_edit,
                                );
                            } else if self.current_edit < self.applied_edit {
                                reapply_forward(
                                    &mut self.edits,
                                    &mut temp,
                                    self.current_edit,
                                    self.applied_edit,
                                );
                            }
                        },
                        None => {},
                    }
                }
                self.current = Some(new);
                self.temp_asset = Some(asset);
                self.current_edit = self.applied_edit;
                InspectorTask::Nothing
            },
            InspectorMessage::UpdateTempAsset(edit) => {
                let mut edit = edit;
                match self.temp_asset.take() {
                    Some(mut asset) => {
                        if self.edits.len() > 0 && self.current_edit != self.edits.len() {
                            let ghost before = self.edits@;
                            self.edits.truncate(self.current_edit);
                            proof {
                                if self.current_edit < before.len() {
                                    assert(edit_views(self.edits@) =~= edit_views(before).take(
                                        self.current_edit as int,
                                    ));
                                } else {
                                    assert(self.edits@ =~= before);
                                }
                            }
                        }
                        edit.apply_and_invert(&mut asset);
                        let ghost before = self.edits@;
                        self.edits.push(edit);
                        proof {
                            assert(edit_views(self.edits@) =~= edit_views(before).push(edit@));
                        }
                        self.current_edit = self.edits.len();
                        self.temp_asset = Some(asset);
                    },
                    None => {},
                }
                InspectorTask::Nothing
            },
            InspectorMessage::EnterEditMode => {
                self.is_editing = true;
                InspectorTask::Nothing
            },
            InspectorMessage::ExitEditMode => {
                self.is_editing = false;
                InspectorTask::Nothing
            },
            InspectorMessage::Undo => {
                if self.current_edit != 0 && self.edits.len() > 0 && self.temp_asset.is_some()
                    && self.current_edit - 1 < self.edits.len() {
                    let i = self.current_edit - 1;
                    let mut asset = self.temp_asset.take().unwrap();
                    let mut edit = self.edits[i].clone();
                    edit.apply_and_invert(&mut asset);
                    let ghost before = self.edits@;
                    self.edits.set(i, edit);
                    proof {
                        assert(edit_views(self.edits@) =~= edit_views(before).update(
                            i as int,
                            edit@,
                        ));
                    }
                    self.temp_asset = Some(asset);
                    self.current_edit = i;
                }
                InspectorTask::Nothing
            },
            InspectorMessage::Redo => {
                if self.current_edit != self.edits.len() && self.edits.len() > 0
                    && self.temp_asset.is_some() && self.current_edit < self.edits.len() {
                    let i = self.current_edit;
                    let mut asset = self.temp_asset.take().unwrap();
                    let mut edit = self.edits[i].clone();
                    edit.apply_and_invert(&mut asset);
                    let ghost before = self.edits@;
                    self.edits.set(i, edit);
                    proof {
                        assert(edit_views(self.edits@) =~= edit_views(before).update(
                            i as int,
                            edit@,
                        ));
                    }
                    self.temp_asset = Some(asset);
                    self.current_edit = i + 1;
                }
                InspectorTask::Nothing
            },
            InspectorMessage::Revert => {
                match self.current {
                    Some(current) => InspectorTask::Done(InspectorMessage::SetCurrent(current, true)),
                    None => InspectorTask::Nothing,
                }
            },
            InspectorMessage::Cancel => {
                let mut batch: Vec<InspectorMessage> = Vec::new();
                batch.push(InspectorMessage::Revert);
                batch.push(InspectorMessage::ExitEditMode);
                InspectorTask::Batch(batch)
            },
            InspectorMessage::Apply => {
                self.apply(assets);
                self.applied_edit = self.current_edit;
                InspectorTask::Nothing
            },
            InspectorMessage::Done => {
                self.apply(assets);
                InspectorTask::Done(InspectorMessage::ExitEditMode)
            },
            InspectorMessage::SetPinned(pinned) => {
                self.is_pinned = pinned;
                InspectorTask::Nothing
            },
        }
    }
}

/// An edit, once applied, turns into the edit that undoes it: applying
/// that one gives back the asset and the edit it started from.
pub proof fn lemma_apply_twice_restores(e: EditView, a: AssetView)
    ensures
        apply_edit(apply_edit(e, a).0, apply_edit(e, a).1) == (e, a),
{
}

/// Undoing right after an edit gives back the copy as it was before the
/// edit, with the history position where it was, and keeps the edit for a
/// redo.
pub proof fn lemma_undo_reverts_edit(s: InspectorView, e: EditView)
    requires
        s.wf(),
        s.temp_asset is Some,
    ensures
        s.after_update_temp(e).after_undo().temp_asset == s.temp_asset,
        s.after_update_temp(e).after_undo().current_edit == s.after_update_temp(e).current_edit - 1,
        s.after_update_temp(e).after_undo().edits.last() == e,
{
    let t = s.after_update_temp(e);
    let (inverse, edited) = apply_edit(e, s.temp_asset->0);
    lemma_apply_twice_restores(e, s.temp_asset->0);
    assert(t.edits.last() == inverse);
    assert(t.current_edit == t.edits.len());
}

/// Redoing right after an undo gives back the inspector as it was.
pub proof fn lemma_redo_after_undo(s: InspectorView)
    requires
        s.wf(),
        s.undo_applies(),
    ensures
        s.after_undo().redo_applies(),
        s.after_undo().after_redo() == s,
{
    let i = s.current_edit - 1;
    let (inverse, edited) = apply_edit(s.edits[i], s.temp_asset->0);
    lemma_apply_twice_restores(s.edits[i], s.temp_asset->0);
    assert(s.edits.update(i, inverse).update(i, s.edits[i]) =~= s.edits);
}

/// Undoing right after a redo gives back the inspector as it was.
pub proof fn lemma_undo_after_redo(s: InspectorView)
    requires
        s.wf(),
        s.redo_applies(),
    ensures
        s.after_redo().undo_applies(),
        s.after_redo().after_undo() == s,
{
    let i = s.current_edit;
    let (inverse, edited) = apply_edit(s.edits[i], s.temp_asset->0);
    lemma_apply_twice_restores(s.edits[i], s.temp_asset->0);
    assert(s.edits.update(i, inverse).update(i, s.edits[i]) =~= s.edits);
}

/// Applying edits `lo..hi` forwards is applying `lo..hi - 1` and then edit
/// `hi - 1`.
proof fn lemma_forward_last(edits: Seq<EditView>, a: AssetView, lo: int, hi: int)
    requires
        lo < hi,
    ensures
        apply_forward(edits, a, lo, hi) == ({
            let (x, b) = apply_forward(edits, a, lo, hi - 1);
            let (e, c) = apply_edit(x[hi - 1], b);
            (x.update(hi - 1, e), c)
        }),
    decreases hi - lo,
{
    let (e, b) = apply_edit(edits[lo], a);
    if lo < hi - 1 {
        lemma_forward_last(edits.update(lo, e), b, lo + 1, hi);
        assert(apply_forward(edits, a, lo, hi) == apply_forward(edits.update(lo, e), b, lo + 1, hi));
        assert(apply_forward(edits, a, lo, hi - 1) == apply_forward(
            edits.update(lo, e),
            b,
            lo + 1,
            hi - 1,
        ));
    } else {
        assert(apply_forward(edits.update(lo, e), b, lo + 1, hi) == (edits.update(lo, e), b));
        assert(apply_forward(edits, a, lo, hi - 1) == (edits, a));
    }
}

/// Applying edits `lo..hi` backwards is applying `lo + 1..hi` and then
/// edit `lo`.
proof fn lemma_backward_first(edits: Seq<EditView>, a: AssetView, lo: int, hi: int)
    requires
        lo < hi,
    ensures
        apply_backward(edits, a, lo, hi) == ({
            let (x, b) = apply_backward(edits, a, lo + 1, hi);
            let (e, c) = apply_edit(x[lo], b);
            (x.update(lo, e), c)
        }),
    decreases hi - lo,
{
    let (e, b) = apply_edit(edits[hi - 1], a);
    if lo + 1 < hi {
        lemma_backward_first(edits.update(hi - 1, e), b, lo, hi - 1);
        assert(apply_backward(edits, a, lo, hi) == apply_backward(
            edits.update(hi - 1, e),
            b,
            lo,
            hi - 1,
        ));
        assert(apply_backward(edits, a, lo + 1, hi) == apply_backward(
            edits.update(hi - 1, e),
            b,
            lo + 1,
            hi - 1,
        ));
    } else {
        assert(apply_backward(edits.update(hi - 1, e), b, lo, hi - 1) == (
            edits.update(hi - 1, e),
            b,
        ));
        assert(apply_backward(edits, a, lo + 1, hi) == (edits, a));
    }
}

/// Edits re-applied backwards over a range, then redone forwards over it,
/// give back the history and the copy they started from: no step is lost
/// or skipped.
pub proof fn lemma_backward_then_forward(edits: Seq<EditView>, a: AssetView, lo: int, hi: int)
    requires
        0 <= lo <= hi <= edits.len(),
    ensures
        apply_forward(
            apply_backward(edits, a, lo, hi).0,
            apply_backward(edits, a, lo, hi).1,
            lo,
            hi,
        ) == (edits, a),
    decreases hi - lo,
{
    if lo < hi {
        let (e, b) = apply_edit(edits[hi - 1], a);
        let rest = edits.update(hi - 1, e);
        lemma_backward_then_forward(rest, b, lo, hi - 1);
        let (x, u) = apply_backward(edits, a, lo, hi);
        lemma_forward_last(x, u, lo, hi);
        lemma_apply_twice_restores(edits[hi - 1], a);
        assert(rest.update(hi - 1, edits[hi - 1]) =~= edits);
    }
}

/// Edits re-applied forwards over a range, then undone backwards over it,
/// give back the history and the copy they started from.
pub proof fn lemma_forward_then_backward(edits: Seq<EditView>, a: AssetView, lo: int, hi: int)
    requires
        0 <= lo <= hi <= edits.len(),
    ensures
        apply_backward(
            apply_forward(edits, a, lo, hi).0,
            apply_forward(edits, a, lo, hi).1,
            lo,
            hi,
        ) == (edits, a),
    decreases hi - lo,
{
    if lo < hi {
        let (e, b) = apply_edit(edits[lo], a);
        let rest = edits.update(lo, e);
        lemma_forward_then_backward(rest, b, lo + 1, hi);
        let (x, u) = apply_forward(edits, a, lo, hi);
        lemma_backward_first(x, u, lo, hi);
        lemma_apply_twice_restores(edits[lo], a);
        assert(rest.update(lo, edits[lo]) =~= edits);
    }
}

/// Applying pending edits makes the shown asset the edited copy.
pub proof fn lemma_apply_writes_copy(s: InspectorView, assets: AssetsDataView)
    requires
        s.wf(),
        s.applied_edit != s.current_edit,
        s.current is Some,
        assets.lookup(s.current->0.spec_id()) is Some,
    ensures
        s.assets_after_apply(assets).lookup(s.current->0.spec_id()) == s.temp_asset,
{
}

} // verus!
