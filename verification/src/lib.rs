//! Verified core of a family-tree editor: the node graph with its
//! traversals, asset bookkeeping, and the inspector's undo/redo history.

pub mod assets;
pub mod dialog;
pub mod drag;
pub mod family;
pub mod family_row;
pub mod graph;
pub mod inspector;
pub mod keys;
pub mod notification;
pub mod text;
