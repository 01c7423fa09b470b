use vstd::prelude::*;

verus! {

/// One side of a node's bounds.
#[derive(Debug, Clone, Copy, PartialEq, Eq, Structural)]
pub enum Edge {
    Top,
    Right,
    Bottom,
    Left,
}

/// An undirected connection between attachment `a.1` of node `a.0` and
/// attachment `b.1` of node `b.0`.
#[derive(Debug)]
pub struct Connection<A> {
    pub a: (usize, A),
    pub b: (usize, A),
}

impl<A> Connection<A> {
    pub open spec fn spec_new(a: usize, a_attachment: A, b: usize, b_attachment: A) -> Self {
        Connection { a: (a, a_attachment), b: (b, b_attachment) }
    }

    pub fn new(a: usize, a_attachment: A, b: usize, b_attachment: A) -> (res: Self)
        ensures
            res == Self::spec_new(a, a_attachment, b, b_attachment),
    {
        Connection { a: (a, a_attachment), b: (b, b_attachment) }
    }

    /// Whether this connection touches node `id` at either end.
    pub open spec fn touches(self, id: usize) -> bool {
        self.a.0 == id || self.b.0 == id
    }

    /// Seen from node `id`: the node at the other end, if the connection
    /// touches `id` (an `a` end is looked at first).
    pub open spec fn other_end(self, id: usize) -> Option<usize> {
        if self.a.0 == id {
            Some(self.b.0)
        } else if self.b.0 == id {
            Some(self.a.0)
        } else {
            None
        }
    }

    /// Whether this connection joins `x` and `y`, in either direction.
    pub open spec fn joins(self, x: usize, y: usize) -> bool {
        (self.a.0 == x && self.b.0 == y) || (self.b.0 == x && self.a.0 == y)
    }
}

} // verus!
