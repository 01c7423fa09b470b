//! What the user drags across panes, and which drag the editor keeps.

use vstd::prelude::*;

use crate::assets::kind::AssetHandle;

verus! {

/// Something that can be dragged.
#[derive(Debug, Clone, Copy, PartialEq, Eq, Structural)]
pub enum Draggable {
    /// An asset, by its handle.
    Asset(AssetHandle),
}

/// The drag kept after a pane reports `new`: a drag already under way is
/// not replaced by another one; anything else takes the report, so that
/// ending a drag (`None`) always clears it.
pub open spec fn spec_next_payload(current: Option<Draggable>, new: Option<Draggable>) -> Option<
    Draggable,
> {
    if current is Some && new is Some {
        current
    } else {
        new
    }
}

/// Takes a pane's report of what is dragged into `current`.
pub fn set_payload(current: &mut Option<Draggable>, new: Option<Draggable>)
    ensures
        *final(current) == spec_next_payload(*old(current), new),
{
    let busy = match (&*current, &new) {
        (Some(_), Some(_)) => true,
        _ => false,
    };
    if !busy {
        *current = new;
    }
}

} // verus!
