//! What the graph widget asks of the graph when the user drops a dragged
//! attachment on another one, or clicks a node: which connection to undo,
//! whether to connect, and whether the click selects or deselects.

use vstd::prelude::*;

use crate::graph::data::{selected_ids, GraphData};

verus! {

/// What dropping an attachment of one node on an attachment of another
/// asks for: the connection to undo first, if any, and whether to connect
/// the two.
#[derive(Debug, Clone, Copy, PartialEq, Eq, Structural)]
pub struct ConnectRequest {
    pub disconnect: Option<usize>,
    pub connect: bool,
}

/// What a click on a node asks for, by the widget's numbering: the node is
/// either selected, by its index, or deselected, by the place it holds in
/// the selection.
#[derive(Debug, Clone, Copy, PartialEq, Eq, Structural)]
pub enum SelectionToggle {
    Select(usize),
    Deselect(usize),
}

impl<D, P: Copy, A> GraphData<D, P, A> {
    /// The request for dropping a dragged attachment of node `a` on an
    /// attachment of node `b`. A node is connected to itself only where
    /// `allow_self`; where similar connections are not allowed, the first
    /// connection that already joins the two nodes is undone.
    pub fn connect_request(&self, a: usize, b: usize, allow_self: bool, allow_similar: bool) -> (res:
        ConnectRequest)
        ensures
            res.connect == (allow_self || a != b),
            allow_similar ==> res.disconnect is None,
            !allow_similar ==> match res.disconnect {
                Some(i) => {
                    &&& i < self@.connections.len()
                    &&& self@.connections[i as int].joins(a, b)
                    &&& forall|j: int| 0 <= j < i ==> !(#[trigger] self@.connections[j]).joins(a, b)
                },
                None => forall|j: int|
                    0 <= j < self@.connections.len() ==> !(#[trigger] self@.connections[j]).joins(
                        a,
                        b,
                    ),
            },
    {
        let disconnect = if allow_similar {
            None
        } else {
            self.find_connection(a, b)
        };
        ConnectRequest { disconnect, connect: allow_self || a != b }
    }

    /// The request for a click on node `id`: deselect it, by its place in
    /// the selection, where it is selected; select it otherwise.
    pub fn toggle_request(&self, id: usize) -> (res: SelectionToggle)
        ensures
            ({
                let sel = selected_ids(self@.nodes, self@.nodes.len() as int);
                match res {
                    SelectionToggle::Deselect(k) => {
                        &&& k < sel.len()
                        &&& sel[k as int] == id
                        &&& forall|j: int| 0 <= j < k ==> sel[j] != id
                    },
                    SelectionToggle::Select(x) => x == id && !sel.contains(id),
                }
            }),
    {
        let sel = self.selection();
        let mut k: usize = 0;
        while k < sel.len()
            invariant
                sel@ == selected_ids(self@.nodes, self@.nodes.len() as int),
                0 <= k <= sel@.len(),
                forall|j: int| 0 <= j < k ==> sel@[j] != id,
            decreases sel@.len() - k,
        {
            if sel[k] == id {
                return SelectionToggle::Deselect(k);
            }
            k = k + 1;
        }
        SelectionToggle::Select(id)
    }
}

} // verus!
