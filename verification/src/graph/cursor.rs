//! How the graph widget's cursor state moves when the cursor moves: what
//! it hovers or drags next, and what a drag asks for. Where things are on
//! screen is worked out by the widget; what follows from where the cursor
//! is, which buttons are down and what is under it is decided here.

use vstd::prelude::*;

verus! {

/// A mouse button as the graph widget tells them apart.
#[derive(Debug, Clone, Copy, PartialEq, Eq, Structural)]
pub enum MouseButton {
    Left,
    Middle,
    Other,
}

/// What the cursor state holds: the background, a node (and whether the
/// node's own widget took the last event), an attachment of a node, a
/// connection, or the selection rectangle.
#[derive(Debug, Clone, Copy, PartialEq, Eq, Structural)]
pub enum Pointed {
    Background,
    Node { id: usize, captured: bool },
    Attachment { id: usize },
    Connection { id: usize },
    SelectionRect,
}

/// What a drag under way asks for as the cursor moves.
#[derive(Debug, Clone, Copy, PartialEq, Eq, Structural)]
pub enum DragAction {
    /// Move the view of the graph.
    Pan,
    /// Move the dragged node, with the rest of the selection.
    MoveNodes,
    /// Nothing.
    Nothing,
}

/// The next cursor state, relative to what is now under the cursor (the
/// new payload).
#[derive(Debug, Clone, Copy, PartialEq, Eq, Structural)]
pub enum CursorStep {
    /// A drag under way goes on, asking for this.
    Keep(DragAction),
    /// Hover what is now under the cursor.
    Hover,
    /// Start dragging what is now under the cursor.
    Drag,
    /// Start dragging out a selection rectangle.
    DragSelection,
    /// Hover the background: the hovered node is gone.
    HoverBackground,
    /// Hover the hovered node, whose own widget took the last event.
    HoverCapturedNode,
    /// Undo the hovered connection and drag the end of it nearer the cursor.
    GrabConnection,
}

/// The step of the cursor state when the cursor moves, while `dragging`
/// (or hovering) `pointed`, with `pressed` the button held down, `shift`
/// whether shift is held, `positioned` whether the graph places its nodes
/// itself (so that nodes cannot be dragged), and `num_nodes` nodes.
pub open spec fn spec_cursor_step(
    dragging: bool,
    pointed: Pointed,
    pressed: Option<MouseButton>,
    shift: bool,
    positioned: bool,
    num_nodes: usize,
) -> CursorStep {
    if dragging {
        match pointed {
            Pointed::Background => CursorStep::Keep(DragAction::Pan),
            Pointed::Node { captured, .. } => if !captured && !positioned {
                CursorStep::Keep(DragAction::MoveNodes)
            } else {
                CursorStep::Keep(DragAction::Nothing)
            },
            _ => CursorStep::Keep(DragAction::Nothing),
        }
    } else {
        match pointed {
            Pointed::Background => if pressed == Some(MouseButton::Middle) {
                CursorStep::Drag
            } else if pressed == Some(MouseButton::Left) {
                CursorStep::DragSelection
            } else {
                CursorStep::Hover
            },
            Pointed::Node { id, captured } => if id >= num_nodes {
                CursorStep::HoverBackground
            } else if captured {
                CursorStep::HoverCapturedNode
            } else if !positioned && (pressed == Some(MouseButton::Middle) || (pressed == Some(
                MouseButton::Left,
            ) && shift)) {
                CursorStep::Drag
            } else {
                CursorStep::Hover
            },
            Pointed::Attachment { .. } => if pressed == Some(MouseButton::Left) {
                CursorStep::Drag
            } else {
                CursorStep::Hover
            },
            Pointed::Connection { .. } => if pressed == Some(MouseButton::Left) {
                CursorStep::GrabConnection
            } else {
                CursorStep::Hover
            },
            Pointed::SelectionRect => CursorStep::Hover,
        }
    }
}

/// The step of the cursor state when the cursor moves. The selection
/// rectangle is only ever dragged, never hovered; a hovered attachment
/// belongs to one of the `num_nodes` nodes, and a connection grabbed with
/// the left button is one of the `num_connections` connections.
pub fn cursor_step(
    dragging: bool,
    pointed: Pointed,
    pressed: Option<MouseButton>,
    shift: bool,
    positioned: bool,
    num_nodes: usize,
    num_connections: usize,
) -> (res: CursorStep)
    requires
        !dragging ==> pointed != Pointed::SelectionRect,
        !dragging ==> (pointed matches Pointed::Attachment { id } ==> id < num_nodes),
        !dragging && pressed == Some(MouseButton::Left) ==> (pointed matches Pointed::Connection {
            id,
        } ==> id < num_connections),
    ensures
        res == spec_cursor_step(dragging, pointed, pressed, shift, positioned, num_nodes),
{
    let left = match pressed {
        Some(MouseButton::Left) => true,
        _ => false,
    };
    let middle = match pressed {
        Some(MouseButton::Middle) => true,
        _ => false,
    };
    if dragging {
        match pointed {
            Pointed::Background => CursorStep::Keep(DragAction::Pan),
            Pointed::Node { captured, .. } => if !captured && !positioned {
                CursorStep::Keep(DragAction::MoveNodes)
            } else {
                CursorStep::Keep(DragAction::Nothing)
            },
            _ => CursorStep::Keep(DragAction::Nothing),
        }
    } else {
        match pointed {
            Pointed::Background => if middle {
                CursorStep::Drag
            } else if left {
                CursorStep::DragSelection
            } else {
                CursorStep::Hover
            },
            Pointed::Node { id, captured } => if id >= num_nodes {
                CursorStep::HoverBackground
            } else if captured {
                CursorStep::HoverCapturedNode
            } else if !positioned && (middle || (left && shift)) {
                CursorStep::Drag
            } else {
                CursorStep::Hover
            },
            Pointed::Attachment { .. } => if left {
                CursorStep::Drag
            } else {
                CursorStep::Hover
            },
            Pointed::Connection { .. } => if left {
                CursorStep::GrabConnection
            } else {
                CursorStep::Hover
            },
            Pointed::SelectionRect => CursorStep::Hover,
        }
    }
}

} // verus!
