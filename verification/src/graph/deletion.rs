//! Deleting the selected nodes one after another: each deletion moves the
//! nodes above it down by one, so the index of each later deletion is
//! corrected by the deletions before it.

use vstd::prelude::*;

use crate::graph::data::{selected_ids, GraphData};

verus! {

/// How many of the first `j` entries of `sel` are below `x`.
pub open spec fn count_below(sel: Seq<usize>, j: int, x: int) -> nat
    decreases j,
{
    if j <= 0 {
        0
    } else {
        count_below(sel, j - 1, x) + if sel[j - 1] < x {
            1nat
        } else {
            0nat
        }
    }
}

/// The index under which the `k`th selected node is deleted: its index
/// less the number of nodes selected before it with a lower index (never
/// more than `k`).
pub open spec fn deletion_index(sel: Seq<usize>, k: int) -> int {
    let below = count_below(sel, k, sel[k] as int);
    sel[k] - if below < k {
        below as int
    } else {
        k
    }
}

/// Whether no deletion index of `sel` is below zero.
pub open spec fn deletions_fit(sel: Seq<usize>) -> bool {
    forall|k: int| 0 <= k < sel.len() ==> #[trigger] deletion_index(sel, k) >= 0
}

/// The indices under which the selected nodes `sel` are deleted, one after
/// another.
pub fn deletion_indices(sel: &Vec<usize>) -> (res: Vec<usize>)
    requires
        deletions_fit(sel@),
    ensures
        res@.len() == sel@.len(),
        forall|k: int| 0 <= k < sel@.len() ==> res@[k] == deletion_index(sel@, k),
{
    let mut res: Vec<usize> = Vec::new();
    let mut k: usize = 0;
    while k < sel.len()
        invariant
            0 <= k <= sel@.len(),
            deletions_fit(sel@),
            res@.len() == k,
            forall|i: int| 0 <= i < k ==> res@[i] == deletion_index(sel@, i),
        decreases sel@.len() - k,
    {
        let mut below: usize = 0;
        let mut j: usize = 0;
        while j < k
            invariant
                0 <= j <= k < sel@.len(),
                below == count_below(sel@, j as int, sel@[k as int] as int),
                below <= j,
            decreases k - j,
        {
            if sel[j] < sel[k] {
                below = below + 1;
            }
            j = j + 1;
        }
        let correction = if below < k {
            below
        } else {
            k
        };
        assert(deletion_index(sel@, k as int) >= 0);
        res.push(sel[k] - correction);
        k = k + 1;
    }
    res
}

/// Where the node first at index `x` stands after the first `k` deletions.
pub open spec fn position_after(sel: Seq<usize>, k: int, x: int) -> int
    decreases k,
{
    if k <= 0 {
        x
    } else {
        let p = position_after(sel, k - 1, x);
        if p > deletion_index(sel, k - 1) {
            p - 1
        } else {
            p
        }
    }
}

/// Whether `sel` is strictly increasing, as a selection is.
pub open spec fn strictly_increasing(sel: Seq<usize>) -> bool {
    forall|i: int, j: int| 0 <= i < j < sel.len() ==> sel[i] < sel[j]
}

proof fn lemma_gaps(sel: Seq<usize>, i: int, j: int)
    requires
        strictly_increasing(sel),
        0 <= i <= j < sel.len(),
    ensures
        sel[j] - sel[i] >= j - i,
    decreases j - i,
{
    if i < j {
        lemma_gaps(sel, i, j - 1);
    }
}

/// In a strictly increasing selection the entries below `x` come first.
proof fn lemma_below_prefix(sel: Seq<usize>, k: int, x: int)
    requires
        strictly_increasing(sel),
        0 <= k <= sel.len(),
    ensures
        forall|j: int| 0 <= j < k ==> (sel[j] < x <==> j < count_below(sel, k, x)),
        count_below(sel, k, x) <= k,
    decreases k,
{
    if k > 0 {
        lemma_below_prefix(sel, k - 1, x);
        if sel[k - 1] < x {
            assert forall|j: int| 0 <= j < k - 1 implies sel[j] < x by {
                assert(sel[j] < sel[k - 1]);
            }
        }
    }
}

/// In a strictly increasing selection, the `k`th deletion index is the
/// node's index less `k`.
proof fn lemma_sorted_deletion_index(sel: Seq<usize>, k: int)
    requires
        strictly_increasing(sel),
        0 <= k < sel.len(),
    ensures
        deletion_index(sel, k) == sel[k] - k,
{
    lemma_below_prefix(sel, k, sel[k] as int);
    if count_below(sel, k, sel[k] as int) < k {
        let m = count_below(sel, k, sel[k] as int) as int;
        assert(sel[m] < sel[k]);
    }
}

/// A node that is not among the first `k` selected stands, after their
/// deletions, at its index less the number of them below it.
proof fn lemma_position_after(sel: Seq<usize>, k: int, x: int)
    requires
        strictly_increasing(sel),
        0 <= k <= sel.len(),
        forall|j: int| 0 <= j < k ==> sel[j] != x,
    ensures
        position_after(sel, k, x) == x - count_below(sel, k, x),
    decreases k,
{
    if k > 0 {
        let i = k - 1;
        lemma_position_after(sel, i, x);
        lemma_sorted_deletion_index(sel, i);
        lemma_below_prefix(sel, i, x);
        let m = count_below(sel, i, x) as int;
        if sel[i] < x {
            assert forall|j: int| 0 <= j < i implies sel[j] < x by {
                assert(sel[j] < sel[i]);
            }
            assert(m == i);
        } else {
            if m < i {
                assert(sel[m] >= x);
                lemma_gaps(sel, m, i);
            }
        }
    }
}

/// Deleting the selected nodes of a strictly increasing selection under
/// `deletion_indices`, one after another, deletes each time the node that
/// was selected: before the `k`th deletion, the node first at `sel[k]`
/// stands at the `k`th deletion index; and no deletion index is below zero.
pub proof fn lemma_deletions_hit_selection(sel: Seq<usize>, k: int)
    requires
        strictly_increasing(sel),
        0 <= k < sel.len(),
    ensures
        position_after(sel, k, sel[k] as int) == deletion_index(sel, k),
        deletions_fit(sel),
{
    assert forall|j: int| 0 <= j < k implies sel[j] != sel[k] by {}
    lemma_position_after(sel, k, sel[k] as int);
    lemma_sorted_deletion_index(sel, k);
    lemma_below_prefix(sel, k, sel[k] as int);
    assert forall|i: int| 0 <= i < sel.len() implies #[trigger] deletion_index(sel, i) >= 0 by {
        lemma_sorted_deletion_index(sel, i);
        lemma_gaps(sel, 0, i);
    }
}

impl<D, P: Copy, A> GraphData<D, P, A> {
    /// The indices under which the selected nodes are deleted, one after
    /// another, so that each deletion hits a selected node.
    pub fn selection_deletion_indices(&self) -> (res: Vec<usize>)
        ensures
            ({
                let sel = selected_ids(self@.nodes, self@.nodes.len() as int);
                &&& res@.len() == sel.len()
                &&& forall|k: int| 0 <= k < sel.len() ==> res@[k] == deletion_index(sel, k)
            }),
    {
        let sel = self.selection();
        proof {
            assert(strictly_increasing(sel@));
            if sel@.len() > 0 {
                lemma_deletions_hit_selection(sel@, 0);
            } else {
                assert(deletions_fit(sel@));
            }
        }
        deletion_indices(&sel)
    }
}

} // verus!
