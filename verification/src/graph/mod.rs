//! A graph of positioned nodes joined by connections between attachment
//! points, with selection, editing and traversal.

pub mod connections;
pub mod cursor;
pub mod data;
pub mod deletion;
pub mod gestures;
pub mod iter;
pub mod layout;
pub mod laws;
pub mod line_styles;

pub use connections::{Connection, Edge};
pub use data::{GraphData, GraphError, GraphNode};
pub use iter::{BreadthFirstIterator, DepthFirstIterator};
