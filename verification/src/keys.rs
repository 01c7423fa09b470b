//! What the editor's keys ask for.

use vstd::prelude::*;

verus! {

/// What pressing Escape asks for.
#[derive(Debug, Clone, Copy, PartialEq, Eq, Structural)]
pub enum EscapeAction {
    /// Close the open dialog.
    CloseDialog,
    /// Stop renaming an asset.
    StopRenaming,
    /// Clear the asset pane's search.
    ClearQuery,
    /// Nothing.
    Nothing,
}

/// What Escape asks for: it closes an open dialog first; with none open,
/// it stops a renaming; with none under way, it clears a search.
pub open spec fn spec_escape_action(dialog_open: bool, renaming: bool, query_present: bool) -> EscapeAction {
    if dialog_open {
        EscapeAction::CloseDialog
    } else if renaming {
        EscapeAction::StopRenaming
    } else if query_present {
        EscapeAction::ClearQuery
    } else {
        EscapeAction::Nothing
    }
}

/// What pressing Escape asks for, given whether a dialog is open, an asset
/// is being renamed and the asset pane holds a search.
pub fn escape_action(dialog_open: bool, renaming: bool, query_present: bool) -> (res: EscapeAction)
    ensures
        res == spec_escape_action(dialog_open, renaming, query_present),
{
    if dialog_open {
        EscapeAction::CloseDialog
    } else if renaming {
        EscapeAction::StopRenaming
    } else if query_present {
        EscapeAction::ClearQuery
    } else {
        EscapeAction::Nothing
    }
}

} // verus!
