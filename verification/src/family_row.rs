//! The row of children under a family, as the family-tree layout lines it
//! up: the children hanging from the family's bottom, in connection order,
//! with the partner of each child that has one set beside it. How wide each
//! node is, and so where it lands, is geometry and is worked out by the
//! widget; which nodes stand in the row, in which order, is decided here.
//!
//! The attachments of the graph are seen through their edges only:
//! `edges[k]` holds the edges of the two attachments of connection `k`
//! (`None` for an attachment on no edge).

use vstd::prelude::*;

use crate::family::{is_side, Node};
use crate::graph::connections::{Connection, Edge};
use crate::graph::data::{contains_id, GraphData, GraphView};

verus! {

/// A place in the row: a node and, for a partner, the child it is the
/// partner of.
pub type Slot = (usize, Option<usize>);

/// Seen from `u`, the connections from index `from` on that touch it, as
/// (edge of the attachment at `u`, node at the other end), in connection
/// order.
pub open spec fn incident_edges<A>(
    conns: Seq<Connection<A>>,
    edges: Seq<(Option<Edge>, Option<Edge>)>,
    u: usize,
    from: int,
) -> Seq<(Option<Edge>, usize)>
    decreases conns.len() - from,
{
    if from < 0 || from >= conns.len() || from >= edges.len() {
        Seq::empty()
    } else {
        let c = conns[from];
        let e = edges[from];
        let rest = incident_edges(conns, edges, u, from + 1);
        if c.a.0 == u {
            seq![(e.0, c.b.0)] + rest
        } else if c.b.0 == u {
            seq![(e.1, c.a.0)] + rest
        } else {
            rest
        }
    }
}

/// The nodes of `es` from index `from` on that hang from an attachment on
/// the bottom edge, in order.
pub open spec fn bottom_nodes(es: Seq<(Option<Edge>, usize)>, from: int) -> Seq<usize>
    decreases es.len() - from,
{
    if from < 0 || from >= es.len() {
        Seq::empty()
    } else if es[from].0 == Some(Edge::Bottom) {
        seq![es[from].1] + bottom_nodes(es, from + 1)
    } else {
        bottom_nodes(es, from + 1)
    }
}

/// The node of the first entry of `es`, from index `from` on, that is on
/// the top edge.
pub open spec fn first_on_top(es: Seq<(Option<Edge>, usize)>, from: int) -> Option<usize>
    decreases es.len() - from,
{
    if from < 0 || from >= es.len() {
        None
    } else if es[from].0 == Some(Edge::Top) {
        Some(es[from].1)
    } else {
        first_on_top(es, from + 1)
    }
}

/// The partner that family `family` gives `child`: the node at its first
/// connection on its top edge, unless the family is the child itself.
pub open spec fn partner_through<A>(
    conns: Seq<Connection<A>>,
    edges: Seq<(Option<Edge>, Option<Edge>)>,
    family: usize,
    child: usize,
) -> Option<usize> {
    if family == child {
        None
    } else {
        first_on_top(incident_edges(conns, edges, family, 0), 0)
    }
}

/// Whether some slot of the row holds node `id`.
pub open spec fn holds_node(slots: Seq<Slot>, id: usize) -> bool {
    exists|j: int| 0 <= j < slots.len() && (#[trigger] slots[j]).0 == id
}

/// Whether some partner slot of the row holds node `id`.
pub open spec fn holds_partner(slots: Seq<Slot>, id: usize) -> bool {
    exists|j: int| 0 <= j < slots.len() && (#[trigger] slots[j]).0 == id && slots[j].1 is Some
}

/// One look at a connection of the child at index `i` of the row, as
/// (edge at the child, node at the other end). Where the other end is a
/// family that the child meets on a side, and that family gives the child
/// a partner not yet in the row, the partner is set into the row and
/// counted. `placing` tells the two ways the layout does this apart: when
/// placing a child, a partner is set on the side it is attached on (after
/// the child for the right side, before it for the left), is left out if
/// its node stands anywhere in the row, and is counted only where the
/// child is in `visited`; when measuring the row from below, the sides are
/// the other way round, a partner is left out only if it stands in the row
/// as a partner, and each one is counted.
pub open spec fn partner_step<P, A>(
    g: GraphView<Node, P, A>,
    edges: Seq<(Option<Edge>, Option<Edge>)>,
    visited: Seq<usize>,
    placing: bool,
    i: int,
    child: usize,
    entry: (Option<Edge>, usize),
    st: (Seq<Slot>, nat),
) -> (Seq<Slot>, nat) {
    let (att, other) = entry;
    if other < g.nodes.len() && g.nodes[other as int].data is Family && is_side(att) {
        match partner_through(g.connections, edges, other, child) {
            None => st,
            Some(p) => {
                let present = if placing {
                    holds_node(st.0, p)
                } else {
                    holds_partner(st.0, p)
                };
                let add: nat = if !placing || visited.contains(child) {
                    1
                } else {
                    0
                };
                let slot: Slot = (p, Some(child));
                if present {
                    st
                } else if att == Some(Edge::Right) && i < st.0.len() {
                    (st.0.insert(if placing { i + 1 } else { i }, slot), st.1 + add)
                } else if att == Some(Edge::Left) {
                    (st.0.insert(if placing { i } else { i + 1 }, slot), st.1 + add)
                } else {
                    st
                }
            },
        }
    } else {
        st
    }
}

/// The row after looking at the first `n` connections in `es` of the child
/// at index `i`.
pub open spec fn partner_steps<P, A>(
    g: GraphView<Node, P, A>,
    edges: Seq<(Option<Edge>, Option<Edge>)>,
    visited: Seq<usize>,
    placing: bool,
    i: int,
    child: usize,
    es: Seq<(Option<Edge>, usize)>,
    n: int,
    st: (Seq<Slot>, nat),
) -> (Seq<Slot>, nat)
    decreases n,
{
    if n <= 0 {
        st
    } else {
        partner_step(
            g,
            edges,
            visited,
            placing,
            i,
            child,
            es[n - 1],
            partner_steps(g, edges, visited, placing, i, child, es, n - 1, st),
        )
    }
}

/// The row after looking at every connection of the first `n` children of
/// the row as it was at the start, `start`.
pub open spec fn partner_rounds<P, A>(
    g: GraphView<Node, P, A>,
    edges: Seq<(Option<Edge>, Option<Edge>)>,
    visited: Seq<usize>,
    placing: bool,
    start: Seq<Slot>,
    n: int,
) -> (Seq<Slot>, nat)
    decreases n,
{
    if n <= 0 {
        (start, 0)
    } else {
        let st = partner_rounds(g, edges, visited, placing, start, n - 1);
        let child = start[n - 1].0;
        let es = incident_edges(g.connections, edges, child, 0);
        partner_steps(g, edges, visited, placing, n - 1, child, es, es.len() as int, st)
    }
}

/// The row with the partners set in, and how many were counted.
pub open spec fn with_partners<P, A>(
    g: GraphView<Node, P, A>,
    edges: Seq<(Option<Edge>, Option<Edge>)>,
    visited: Seq<usize>,
    placing: bool,
    start: Seq<Slot>,
) -> (Seq<Slot>, nat) {
    partner_rounds(g, edges, visited, placing, start, start.len() as int)
}

/// Whether a slot of the row has been placed already: its node, or the
/// child it is the partner of, is in `visited`.
pub open spec fn spec_is_placed(slot: Slot, visited: Seq<usize>) -> bool {
    visited.contains(slot.0) || (slot.1 matches Some(c) && visited.contains(c))
}

/// Seen from `u`, each connection that touches it as (edge of the
/// attachment at `u`, node at the other end), in connection order.
pub fn incident_edges_of<P: Copy, A>(
    data: &GraphData<Node, P, A>,
    edges: &Vec<(Option<Edge>, Option<Edge>)>,
    u: usize,
) -> (res: Vec<(Option<Edge>, usize)>)
    requires
        edges@.len() == data@.connections.len(),
    ensures
        res@ == incident_edges(data@.connections, edges@, u, 0),
{
    let conns = data.connections();
    let ghost c = data@.connections;
    let mut res: Vec<(Option<Edge>, usize)> = Vec::new();
    let mut k: usize = 0;
    while k < conns.len()
        invariant
            conns@ == c,
            edges@.len() == c.len(),
            0 <= k <= c.len(),
            res@ + incident_edges(c, edges@, u, k as int) == incident_edges(c, edges@, u, 0),
        decreases c.len() - k,
    {
        let e = edges[k];
        let na = conns[k].a.0;
        let nb = conns[k].b.0;
        let ghost rest = incident_edges(c, edges@, u, k + 1);
        if na == u {
            assert(res@.push((e.0, nb)) + rest =~= res@ + (seq![(e.0, nb)] + rest));
            res.push((e.0, nb));
        } else if nb == u {
            assert(res@.push((e.1, na)) + rest =~= res@ + (seq![(e.1, na)] + rest));
            res.push((e.1, na));
        }
        k = k + 1;
    }
    assert(res@ + incident_edges(c, edges@, u, k as int) =~= res@);
    res
}

/// The nodes hanging from the bottom edge of `family`, in connection order.
pub fn children_row<P: Copy, A>(
    data: &GraphData<Node, P, A>,
    edges: &Vec<(Option<Edge>, Option<Edge>)>,
    family: usize,
) -> (res: Vec<usize>)
    requires
        data@.wf(),
        edges@.len() == data@.connections.len(),
    ensures
        res@ == bottom_nodes(incident_edges(data@.connections, edges@, family, 0), 0),
{
    let es = incident_edges_of(data, edges, family);
    let mut res: Vec<usize> = Vec::new();
    let mut k: usize = 0;
    while k < es.len()
        invariant
            0 <= k <= es@.len(),
            res@ + bottom_nodes(es@, k as int) == bottom_nodes(es@, 0),
        decreases es@.len() - k,
    {
        let (e, other) = es[k];
        let ghost rest = bottom_nodes(es@, k + 1);
        match e {
            Some(Edge::Bottom) => {
                assert(res@.push(other) + rest =~= res@ + (seq![other] + rest));
                res.push(other);
            },
            _ => {},
        }
        k = k + 1;
    }
    assert(res@ + bottom_nodes(es@, k as int) =~= res@);
    res
}

/// The node of the first entry of `es` on the top edge.
fn first_top(es: &Vec<(Option<Edge>, usize)>) -> (res: Option<usize>)
    ensures
        res == first_on_top(es@, 0),
{
    let mut k: usize = 0;
    while k < es.len()
        invariant
            0 <= k <= es@.len(),
            first_on_top(es@, k as int) == first_on_top(es@, 0),
        decreases es@.len() - k,
    {
        match es[k].0 {
            Some(Edge::Top) => {
                return Some(es[k].1);
            },
            _ => {},
        }
        k = k + 1;
    }
    None
}

/// The partner that family `family` gives `child`.
fn partner_of<P: Copy, A>(
    data: &GraphData<Node, P, A>,
    edges: &Vec<(Option<Edge>, Option<Edge>)>,
    family: usize,
    child: usize,
) -> (res: Option<usize>)
    requires
        edges@.len() == data@.connections.len(),
    ensures
        res == partner_through(data@.connections, edges@, family, child),
{
    if family == child {
        None
    } else {
        let es = incident_edges_of(data, edges, family);
        first_top(&es)
    }
}

/// Whether node `id` stands in the row; with `partners_only`, whether it
/// stands there as a partner.
fn row_holds(slots: &Vec<Slot>, id: usize, partners_only: bool) -> (res: bool)
    ensures
        res == (if partners_only {
            holds_partner(slots@, id)
        } else {
            holds_node(slots@, id)
        }),
{
    let mut k: usize = 0;
    while k < slots.len()
        invariant
            0 <= k <= slots@.len(),
            forall|j: int|
                0 <= j < k ==> !(slots@[j].0 == id && (partners_only ==> slots@[j].1 is Some)),
        decreases slots@.len() - k,
    {
        let (n, of) = slots[k];
        if n == id {
            match of {
                Some(_) => {
                    return true;
                },
                None => {
                    if !partners_only {
                        return true;
                    }
                },
            }
        }
        k = k + 1;
    }
    proof {
        if partners_only {
            assert(!holds_partner(slots@, id));
        } else {
            assert(!holds_node(slots@, id));
        }
    }
    false
}

/// Whether node `other` is a family.
fn is_family_node<P: Copy, A>(data: &GraphData<Node, P, A>, other: usize) -> (res: bool)
    ensures
        res == (other < data@.nodes.len() && data@.nodes[other as int].data is Family),
{
    match data.get(other) {
        Some(n) => match n.data() {
            Node::Family => true,
            Node::Character(_) => false,
        },
        None => false,
    }
}

/// One look at a connection of the child at index `i`, in place.
fn step_in_place<P: Copy, A>(
    data: &GraphData<Node, P, A>,
    edges: &Vec<(Option<Edge>, Option<Edge>)>,
    visited: &Vec<usize>,
    placing: bool,
    i: usize,
    child: usize,
    entry: (Option<Edge>, usize),
    slots: &mut Vec<Slot>,
    count: &mut usize,
)
    requires
        edges@.len() == data@.connections.len(),
        i < old(slots)@.len(),
        *old(count) <= old(slots)@.len(),
    ensures
        (final(slots)@, *final(count) as nat) == partner_step(
            data@,
            edges@,
            visited@,
            placing,
            i as int,
            child,
            entry,
            (old(slots)@, *old(count) as nat),
        ),
        final(slots)@.len() >= old(slots)@.len(),
        *final(count) - *old(count) <= final(slots)@.len() - old(slots)@.len(),
{
    let (att, other) = entry;
    let side = match att {
        Some(Edge::Left) => true,
        Some(Edge::Right) => true,
        _ => false,
    };
    if !side || !is_family_node(data, other) {
        return;
    }
    let p = match partner_of(data, edges, other, child) {
        Some(p) => p,
        None => {
            return;
        },
    };
    if row_holds(slots, p, !placing) {
        return;
    }
    let add: usize = if !placing || contains_id(visited, child) {
        1
    } else {
        0
    };
    let slot: Slot = (p, Some(child));
    let len = slots.len();
    match att {
        Some(Edge::Right) => {
            if i < slots.len() {
                let at = if placing {
                    i + 1
                } else {
                    i
                };
                slots.insert(at, slot);
                let grown = slots.len();
                assert(grown == len + 1);
                *count = *count + add;
            }
        },
        Some(Edge::Left) => {
            let at = if placing {
                i
            } else {
                i + 1
            };
            slots.insert(at, slot);
            let grown = slots.len();
            assert(grown == len + 1);
            *count = *count + add;
        },
        _ => {},
    }
}

/// Sets the partners into the row, looking at each connection of each
/// child of the row as it was, in order; returns how many were counted.
fn line_up<P: Copy, A>(
    data: &GraphData<Node, P, A>,
    edges: &Vec<(Option<Edge>, Option<Edge>)>,
    slots: &mut Vec<Slot>,
    visited: &Vec<usize>,
    placing: bool,
) -> (res: usize)
    requires
        edges@.len() == data@.connections.len(),
    ensures
        (final(slots)@, res as nat) == with_partners(data@, edges@, visited@, placing, old(slots)@),
{
    let ghost start = slots@;
    let n0 = slots.len();
    let mut ids: Vec<usize> = Vec::new();
    let mut j: usize = 0;
    while j < n0
        invariant
            slots@ == start,
            n0 == start.len(),
            0 <= j <= n0,
            ids@.len() == j,
            forall|t: int| 0 <= t < j ==> ids@[t] == start[t].0,
        decreases n0 - j,
    {
        ids.push(slots[j].0);
        j = j + 1;
    }
    let mut count: usize = 0;
    let mut i: usize = 0;
    while i < n0
        invariant
            edges@.len() == data@.connections.len(),
            n0 == start.len(),
            ids@.len() == n0,
            forall|t: int| 0 <= t < n0 ==> ids@[t] == start[t].0,
            0 <= i <= n0,
            (slots@, count as nat) == partner_rounds(data@, edges@, visited@, placing, start, i as int),
            count + n0 <= slots@.len(),
        decreases n0 - i,
    {
        let child = ids[i];
        let es = incident_edges_of(data, edges, child);
        let ghost before = partner_rounds(data@, edges@, visited@, placing, start, i as int);
        let mut k: usize = 0;
        while k < es.len()
            invariant
                edges@.len() == data@.connections.len(),
                n0 == start.len(),
                i < n0,
                0 <= k <= es@.len(),
                (slots@, count as nat) == partner_steps(
                    data@,
                    edges@,
                    visited@,
                    placing,
                    i as int,
                    child,
                    es@,
                    k as int,
                    before,
                ),
                count + n0 <= slots@.len(),
            decreases es@.len() - k,
        {
            step_in_place(data, edges, visited, placing, i, child, es[k], slots, &mut count);
            k = k + 1;
        }
        i = i + 1;
    }
    count
}

/// Sets into the row of children of a family, for a child being placed
/// below it, the partner of each child beside it: after the child where
/// the partner hangs from its right side, before it for the left side.
/// A partner whose node already stands in the row is left out. Returns how
/// many partners were set beside a child in `visited`.
pub fn add_partners_to_children<P: Copy, A>(
    data: &GraphData<Node, P, A>,
    edges: &Vec<(Option<Edge>, Option<Edge>)>,
    children: &mut Vec<Slot>,
    visited: &Vec<usize>,
) -> (res: usize)
    requires
        data@.wf(),
        edges@.len() == data@.connections.len(),
    ensures
        (final(children)@, res as nat) == with_partners(data@, edges@, visited@, true, old(children)@),
{
    line_up(data, edges, children, visited, true)
}

/// Sets into the row of children of a family, for the family being placed
/// above one of them, the partner of each child; a partner already in the
/// row as a partner is left out. Returns how many were set in.
pub fn add_partners_to_row<P: Copy, A>(
    data: &GraphData<Node, P, A>,
    edges: &Vec<(Option<Edge>, Option<Edge>)>,
    children: &mut Vec<Slot>,
) -> (res: usize)
    requires
        data@.wf(),
        edges@.len() == data@.connections.len(),
    ensures
        (final(children)@, res as nat) == with_partners(
            data@,
            edges@,
            Seq::empty(),
            false,
            old(children)@,
        ),
{
    let none: Vec<usize> = Vec::new();
    line_up(data, edges, children, &none, false)
}

/// Whether a slot of the row has been placed already.
pub fn is_placed(slot: Slot, visited: &Vec<usize>) -> (res: bool)
    ensures
        res == spec_is_placed(slot, visited@),
{
    if contains_id(visited, slot.0) {
        return true;
    }
    match slot.1 {
        Some(c) => contains_id(visited, c),
        None => false,
    }
}

/// The slots of the row that hold no partner, in order.
pub open spec fn child_slots(slots: Seq<Slot>) -> Seq<Slot> {
    slots.filter(|x: Slot| x.1 is None)
}

/// Whether no node stands twice in the row.
pub open spec fn distinct_nodes(slots: Seq<Slot>) -> bool {
    forall|j: int, k: int| 0 <= j < k < slots.len() ==> (#[trigger] slots[j]).0 != (#[trigger] slots[k]).0
}

/// Setting a partner slot into a row leaves its other slots as they were.
proof fn lemma_insert_partner_keeps_children(s: Seq<Slot>, at: int, x: Slot)
    requires
        0 <= at <= s.len(),
        x.1 is Some,
    ensures
        child_slots(s.insert(at, x)) == child_slots(s),
{
    let pred = |y: Slot| y.1 is None;
    let a = s.subrange(0, at);
    let b = s.subrange(at, s.len() as int);
    Seq::filter_distributes_over_add(a.push(x), b, pred);
    Seq::filter_distributes_over_add(a, b, pred);
    assert(a.push(x).drop_last() =~= a);
    reveal(Seq::filter);
    assert(a.push(x).filter(pred) == a.filter(pred));
    assert(a + b =~= s);
}

/// Setting a slot for a node that does not stand in a row keeps its nodes
/// apart.
proof fn lemma_insert_new_node_keeps_distinct(s: Seq<Slot>, at: int, x: Slot)
    requires
        0 <= at <= s.len(),
        distinct_nodes(s),
        !holds_node(s, x.0),
    ensures
        distinct_nodes(s.insert(at, x)),
{
    s.insert_ensures(at, x);
    let t = s.insert(at, x);
    assert forall|j: int, k: int| 0 <= j < k < t.len() implies (#[trigger] t[j]).0 != (#[trigger] t[k]).0 by {
        let sj = if j < at { j } else { j - 1 };
        let sk = if k < at { k } else { k - 1 };
        if j == at {
            assert(t[k] == s[sk]);
            assert(s[sk].0 != x.0);
        } else if k == at {
            assert(t[j] == s[sj]);
            assert(s[sj].0 != x.0);
        } else {
            assert(t[j] == s[sj]);
            assert(t[k] == s[sk]);
        }
    }
}

/// One look at a connection keeps the facts of the laws below.
proof fn lemma_step_keeps<P, A>(
    g: GraphView<Node, P, A>,
    edges: Seq<(Option<Edge>, Option<Edge>)>,
    visited: Seq<usize>,
    placing: bool,
    i: int,
    child: usize,
    entry: (Option<Edge>, usize),
    st: (Seq<Slot>, nat),
)
    requires
        0 <= i < st.0.len(),
    ensures
        ({
            let r = partner_step(g, edges, visited, placing, i, child, entry, st);
            &&& r.0.len() >= st.0.len()
            &&& child_slots(r.0) == child_slots(st.0)
            &&& placing && distinct_nodes(st.0) ==> distinct_nodes(r.0)
        }),
{
    let (att, other) = entry;
    if other < g.nodes.len() && g.nodes[other as int].data is Family && is_side(att) {
        match partner_through(g.connections, edges, other, child) {
            None => {},
            Some(p) => {
                let slot: Slot = (p, Some(child));
                let present = if placing {
                    holds_node(st.0, p)
                } else {
                    holds_partner(st.0, p)
                };
                if !present {
                    if att == Some(Edge::Right) && i < st.0.len() {
                        let at = if placing { i + 1 } else { i };
                        st.0.insert_ensures(at, slot);
                        lemma_insert_partner_keeps_children(st.0, at, slot);
                        if placing && distinct_nodes(st.0) {
                            lemma_insert_new_node_keeps_distinct(st.0, at, slot);
                        }
                    } else if att == Some(Edge::Left) {
                        let at = if placing { i } else { i + 1 };
                        st.0.insert_ensures(at, slot);
                        lemma_insert_partner_keeps_children(st.0, at, slot);
                        if placing && distinct_nodes(st.0) {
                            lemma_insert_new_node_keeps_distinct(st.0, at, slot);
                        }
                    }
                }
            },
        }
    }
}

/// Looking at the connections of one child keeps the facts of the laws
/// below.
proof fn lemma_steps_keep<P, A>(
    g: GraphView<Node, P, A>,
    edges: Seq<(Option<Edge>, Option<Edge>)>,
    visited: Seq<usize>,
    placing: bool,
    i: int,
    child: usize,
    es: Seq<(Option<Edge>, usize)>,
    n: int,
    st: (Seq<Slot>, nat),
)
    requires
        0 <= i < st.0.len(),
    ensures
        ({
            let r = partner_steps(g, edges, visited, placing, i, child, es, n, st);
            &&& r.0.len() >= st.0.len()
            &&& child_slots(r.0) == child_slots(st.0)
            &&& placing && distinct_nodes(st.0) ==> distinct_nodes(r.0)
        }),
    decreases n,
{
    if n > 0 {
        lemma_steps_keep(g, edges, visited, placing, i, child, es, n - 1, st);
        let mid = partner_steps(g, edges, visited, placing, i, child, es, n - 1, st);
        lemma_step_keeps(g, edges, visited, placing, i, child, es[n - 1], mid);
    }
}

/// The first `n` rounds keep the facts of the laws below.
proof fn lemma_rounds_keep<P, A>(
    g: GraphView<Node, P, A>,
    edges: Seq<(Option<Edge>, Option<Edge>)>,
    visited: Seq<usize>,
    placing: bool,
    start: Seq<Slot>,
    n: int,
)
    requires
        0 <= n <= start.len(),
    ensures
        ({
            let r = partner_rounds(g, edges, visited, placing, start, n);
            &&& r.0.len() >= start.len()
            &&& child_slots(r.0) == child_slots(start)
            &&& placing && distinct_nodes(start) ==> distinct_nodes(r.0)
        }),
    decreases n,
{
    if n > 0 {
        lemma_rounds_keep(g, edges, visited, placing, start, n - 1);
        let st = partner_rounds(g, edges, visited, placing, start, n - 1);
        let child = start[n - 1].0;
        let es = incident_edges(g.connections, edges, child, 0);
        lemma_steps_keep(g, edges, visited, placing, n - 1, child, es, es.len() as int, st);
    }
}

/// Setting the partners into a row adds partner slots only: the slots
/// that hold no partner are those of the row before, in the same order.
pub proof fn lemma_partners_keep_children<P, A>(
    g: GraphView<Node, P, A>,
    edges: Seq<(Option<Edge>, Option<Edge>)>,
    visited: Seq<usize>,
    placing: bool,
    start: Seq<Slot>,
)
    ensures
        child_slots(with_partners(g, edges, visited, placing, start).0) == child_slots(start),
{
    lemma_rounds_keep(g, edges, visited, placing, start, start.len() as int);
}

/// When a child is being placed, no node stands twice in its row once the
/// partners are set in, where none did before.
pub proof fn lemma_placing_keeps_nodes_apart<P, A>(
    g: GraphView<Node, P, A>,
    edges: Seq<(Option<Edge>, Option<Edge>)>,
    visited: Seq<usize>,
    start: Seq<Slot>,
)
    requires
        distinct_nodes(start),
    ensures
        distinct_nodes(with_partners(g, edges, visited, true, start).0),
{
    lemma_rounds_keep(g, edges, visited, true, start, start.len() as int);
}

} // verus!
