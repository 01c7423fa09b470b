use std::collections::VecDeque;
use vstd::prelude::*;

use crate::graph::connections::Connection;
use vstd::std_specs::cmp::PartialEqSpec;

verus! {

/// What a node holds: where it stands, its payload, and whether it is selected.
pub struct NodeView<D, P> {
    pub position: P,
    pub data: D,
    pub selected: bool,
}

/// A node of the graph. `P` is the type of its position on the canvas.
#[derive(Debug, Clone)]
pub struct GraphNode<D, P> {
    pub(crate) position: P,
    pub(crate) data: D,
    pub(crate) selected: bool,
}

impl<D, P> View for GraphNode<D, P> {
    type V = NodeView<D, P>;

    closed spec fn view(&self) -> NodeView<D, P> {
        NodeView { position: self.position, data: self.data, selected: self.selected }
    }
}

impl<D, P: Copy> GraphNode<D, P> {
    /// A new, unselected node.
    pub fn new(position: P, data: D) -> (res: Self)
        ensures
            res@ == (NodeView { position, data, selected: false }),
    {
        GraphNode { position, data, selected: false }
    }

    pub fn position(&self) -> (res: P)
        ensures
            res == self@.position,
    {
        self.position
    }

    pub fn data(&self) -> (res: &D)
        ensures
            *res == self@.data,
    {
        &self.data
    }

    pub fn selected(&self) -> (res: bool)
        ensures
            res == self@.selected,
    {
        self.selected
    }

    pub fn move_to(&mut self, position: P)
        ensures
            final(self)@ == (NodeView { position, ..old(self)@ }),
    {
        self.position = position;
    }

    /// The node's data, to change in place.
    pub fn data_mut(&mut self) -> (res: &mut D)
        ensures
            *res == old(self)@.data,
            final(self)@ == (NodeView { data: *final(res), ..old(self)@ }),
    {
        &mut self.data
    }
}

/// The abstract content of a graph: its nodes, in index order, and its
/// connections, in the order they were made.
pub struct GraphView<D, P, A> {
    pub nodes: Seq<NodeView<D, P>>,
    pub connections: Seq<Connection<A>>,
}

impl<D, P, A> GraphView<D, P, A> {
    /// Every connection joins two nodes that exist.
    pub open spec fn wf(self) -> bool {
        forall|k: int|
            0 <= k < self.connections.len() ==> #[trigger] self.connections[k].a.0
                < self.nodes.len() && self.connections[k].b.0 < self.nodes.len()
    }

    /// Every connection that touches node `id` joins two nodes that exist.
    pub open spec fn wf_at(self, id: usize) -> bool {
        forall|k: int|
            0 <= k < self.connections.len() && (#[trigger] self.connections[k]).touches(id)
                ==> self.connections[k].a.0 < self.nodes.len() && self.connections[k].b.0
                < self.nodes.len()
    }
}

/// The nodes at the other end of the connections that touch `u`, in
/// connection order.
pub open spec fn neighbors<A>(conns: Seq<Connection<A>>, u: usize) -> Seq<usize>
    decreases conns.len(),
{
    if conns.len() == 0 {
        Seq::empty()
    } else {
        match conns[0].other_end(u) {
            Some(v) => seq![v] + neighbors(conns.drop_first(), u),
            None => neighbors(conns.drop_first(), u),
        }
    }
}

/// Seen from `u`, each connection that touches it as
/// (attachment at `u`, node at the other end, attachment there), in
/// connection order.
pub open spec fn incident<A>(conns: Seq<Connection<A>>, u: usize) -> Seq<(A, usize, A)>
    decreases conns.len(),
{
    if conns.len() == 0 {
        Seq::empty()
    } else {
        let c = conns[0];
        let rest = incident(conns.drop_first(), u);
        if c.a.0 == u {
            seq![(c.a.1, c.b.0, c.b.1)] + rest
        } else if c.b.0 == u {
            seq![(c.b.1, c.a.0, c.a.1)] + rest
        } else {
            rest
        }
    }
}

/// Like `incident`, each entry also giving the connection's index.
pub open spec fn incident_indexed<A>(conns: Seq<Connection<A>>, u: usize, from: int) -> Seq<
    (usize, A, usize, A),
>
    decreases conns.len() - from,
{
    if from < 0 || from >= conns.len() {
        Seq::empty()
    } else {
        let c = conns[from];
        let rest = incident_indexed(conns, u, from + 1);
        if c.a.0 == u {
            seq![(from as usize, c.a.1, c.b.0, c.b.1)] + rest
        } else if c.b.0 == u {
            seq![(from as usize, c.b.1, c.a.0, c.a.1)] + rest
        } else {
            rest
        }
    }
}

/// The connections that do not join `x` and `y`, in their order.
pub open spec fn without_joins<A>(conns: Seq<Connection<A>>, x: usize, y: usize) -> Seq<
    Connection<A>,
>
    decreases conns.len(),
{
    if conns.len() == 0 {
        Seq::empty()
    } else {
        let rest = without_joins(conns.drop_last(), x, y);
        if conns.last().joins(x, y) {
            rest
        } else {
            rest.push(conns.last())
        }
    }
}

/// A node index after node `i` was removed: indices above `i` move down by one.
pub open spec fn shift_down(id: usize, i: usize) -> usize {
    if id > i {
        (id - 1) as usize
    } else {
        id
    }
}

/// The connections left when node `i` is removed: those that touch it are
/// dropped, the others are renumbered.
pub open spec fn after_node_removal<A>(conns: Seq<Connection<A>>, i: usize) -> Seq<Connection<A>>
    decreases conns.len(),
{
    if conns.len() == 0 {
        Seq::empty()
    } else {
        let rest = after_node_removal(conns.drop_last(), i);
        let c = conns.last();
        if c.touches(i) {
            rest
        } else {
            rest.push(Connection { a: (shift_down(c.a.0, i), c.a.1), b: (shift_down(c.b.0, i), c.b.1) })
        }
    }
}

/// The indices of the selected nodes among the first `n`, in increasing order.
pub open spec fn selected_ids<D, P>(nodes: Seq<NodeView<D, P>>, n: int) -> Seq<usize>
    decreases n,
{
    if n <= 0 {
        Seq::empty()
    } else if nodes[n - 1].selected {
        selected_ids(nodes, n - 1).push((n - 1) as usize)
    } else {
        selected_ids(nodes, n - 1)
    }
}

/// The indices of the selected nodes, in increasing order.
pub open spec fn is_selection<D, P>(nodes: Seq<NodeView<D, P>>, sel: Seq<usize>) -> bool {
    &&& forall|k: int, l: int| 0 <= k < l < sel.len() ==> sel[k] < sel[l]
    &&& forall|k: int| 0 <= k < sel.len() ==> #[trigger] sel[k] < nodes.len()
    &&& forall|i: int| 0 <= i < nodes.len() ==> (#[trigger] nodes[i].selected <==> sel.contains(i as usize))
}

/// Seen from `u`, the first node at the other end of a connection, in
/// connection order, that `visited` does not hold.
pub open spec fn first_unvisited<A>(conns: Seq<Connection<A>>, u: usize, visited: Seq<usize>) -> Option<
    usize,
>
    decreases conns.len(),
{
    if conns.len() == 0 {
        None
    } else {
        match conns[0].other_end(u) {
            Some(v) => if !visited.contains(v) {
                Some(v)
            } else {
                first_unvisited(conns.drop_first(), u, visited)
            },
            None => first_unvisited(conns.drop_first(), u, visited),
        }
    }
}

/// Whether `u` has a neighbor that `visited` does not hold.
pub open spec fn has_unvisited<A>(conns: Seq<Connection<A>>, u: usize, visited: Seq<usize>) -> bool {
    first_unvisited(conns, u, visited) is Some
}

/// Whether some connection joins `u` to `v`.
pub open spec fn adjacent<A>(conns: Seq<Connection<A>>, u: usize, v: usize) -> bool {
    exists|k: int| 0 <= k < conns.len() && #[trigger] conns[k].other_end(u) == Some(v)
}

/// Step `j` of a depth-first order: `order[j]` is the first unvisited
/// neighbor of the most recently visited node that still has one.
pub open spec fn dfs_step_ok<A>(conns: Seq<Connection<A>>, order: Seq<usize>, j: int) -> bool {
    exists|i: int|
        0 <= i < j && #[trigger] first_unvisited(conns, order[i], order.take(j)) == Some(order[j])
            && forall|i2: int| i < i2 < j ==> !has_unvisited(conns, #[trigger] order[i2], order.take(j))
}

/// `order` is the depth-first visiting order from `start`: it begins at
/// `start`, each later node is the first unvisited neighbor of the latest
/// visited node that has one, and it stops once no visited node has an
/// unvisited neighbor.
pub open spec fn is_dfs_order<A>(conns: Seq<Connection<A>>, start: usize, order: Seq<usize>) -> bool {
    &&& order.len() > 0
    &&& order[0] == start
    &&& forall|j: int| 1 <= j < order.len() ==> #[trigger] dfs_step_ok(conns, order, j)
    &&& forall|i: int| 0 <= i < order.len() ==> !has_unvisited(conns, #[trigger] order[i], order)
}

/// The first components of a sequence of pairs.
pub open spec fn ids<T>(s: Seq<(usize, T)>) -> Seq<usize> {
    Seq::new(s.len(), |i: int| s[i].0)
}

pub proof fn lemma_first_unvisited_sound<A>(conns: Seq<Connection<A>>, u: usize, visited: Seq<usize>)
    ensures
        first_unvisited(conns, u, visited) matches Some(v) ==> !visited.contains(v) && adjacent(
            conns,
            u,
            v,
        ),
    decreases conns.len(),
{
    if conns.len() > 0 {
        lemma_first_unvisited_sound(conns.drop_first(), u, visited);
        if let Some(v) = first_unvisited(conns, u, visited) {
            if conns[0].other_end(u) == Some(v) && !visited.contains(v) {
                assert(conns[0].other_end(u) == Some(v));
            } else {
                let k = choose|k: int|
                    0 <= k < conns.drop_first().len() && #[trigger] conns.drop_first()[k].other_end(
                        u,
                    ) == Some(v);
                assert(conns[k + 1].other_end(u) == Some(v));
            }
        }
    }
}

pub proof fn lemma_first_unvisited_none<A>(conns: Seq<Connection<A>>, u: usize, visited: Seq<usize>)
    ensures
        first_unvisited(conns, u, visited) is None <==> (forall|v: usize|
            adjacent(conns, u, v) ==> visited.contains(v)),
    decreases conns.len(),
{
    if conns.len() > 0 {
        lemma_first_unvisited_none(conns.drop_first(), u, visited);
        let rest = conns.drop_first();
        if first_unvisited(conns, u, visited) is None {
            assert forall|v: usize| adjacent(conns, u, v) implies visited.contains(v) by {
                let k = choose|k: int| 0 <= k < conns.len() && #[trigger] conns[k].other_end(u) == Some(v);
                if k > 0 {
                    assert(rest[k - 1].other_end(u) == Some(v));
                }
            }
        } else {
            lemma_first_unvisited_sound(conns, u, visited);
        }
    }
}

/// Visiting more nodes leaves fewer unvisited neighbors.
pub proof fn lemma_has_unvisited_antitone<A>(
    conns: Seq<Connection<A>>,
    u: usize,
    visited: Seq<usize>,
    more: Seq<usize>,
)
    requires
        !has_unvisited(conns, u, visited),
        forall|x: usize| visited.contains(x) ==> more.contains(x),
    ensures
        !has_unvisited(conns, u, more),
{
    lemma_first_unvisited_none(conns, u, visited);
    lemma_first_unvisited_none(conns, u, more);
}

/// A sequence of distinct indices below `n` has at most `n` entries, and
/// exactly `n` only where it holds every index below `n`.
pub proof fn lemma_distinct_below(s: Seq<usize>, n: nat)
    requires
        s.no_duplicates(),
        forall|i: int| 0 <= i < s.len() ==> s[i] < n,
    ensures
        s.len() <= n,
        s.len() == n ==> forall|x: usize| x < n ==> s.contains(x),
    decreases n,
{
    if n == 0 {
        if s.len() > 0 {
            assert(s[0] < n);
        }
    } else {
        let top = (n - 1) as usize;
        if s.contains(top) {
            let k = choose|k: int| 0 <= k < s.len() && s[k] == top;
            let t = s.remove(k);
            assert forall|i: int| 0 <= i < t.len() implies t[i] < n - 1 by {
                if i < k {
                    assert(t[i] == s[i]);
                } else {
                    assert(t[i] == s[i + 1]);
                }
            }
            assert(t.no_duplicates()) by {
                assert forall|i: int, j: int| 0 <= i < t.len() && 0 <= j < t.len() && i != j implies t[i] != t[j] by {
                    let si = if i < k { i } else { i + 1 };
                    let sj = if j < k { j } else { j + 1 };
                    assert(t[i] == s[si]);
                    assert(t[j] == s[sj]);
                }
            }
            lemma_distinct_below(t, (n - 1) as nat);
            if s.len() == n {
                assert forall|x: usize| x < n implies s.contains(x) by {
                    if x != top {
                        assert(t.contains(x));
                        let i = choose|i: int| 0 <= i < t.len() && t[i] == x;
                        if i < k {
                            assert(s[i] == x);
                        } else {
                            assert(s[i + 1] == x);
                        }
                    }
                }
            }
        } else {
            assert forall|i: int| 0 <= i < s.len() implies s[i] < n - 1 by {
                assert(s[i] != top);
            }
            lemma_distinct_below(s, (n - 1) as nat);
        }
    }
}

/// Two depth-first orders from one start agree on their first `j` entries.
proof fn lemma_dfs_orders_agree<A>(
    conns: Seq<Connection<A>>,
    start: usize,
    order1: Seq<usize>,
    order2: Seq<usize>,
    j: int,
)
    requires
        is_dfs_order(conns, start, order1),
        is_dfs_order(conns, start, order2),
        1 <= j <= order1.len(),
        j <= order2.len(),
    ensures
        order1.take(j) == order2.take(j),
    decreases j,
{
    if j == 1 {
        assert(order1.take(1) =~= seq![start]);
        assert(order2.take(1) =~= seq![start]);
    } else {
        let k = j - 1;
        lemma_dfs_orders_agree(conns, start, order1, order2, k);
        assert(dfs_step_ok(conns, order1, k));
        assert(dfs_step_ok(conns, order2, k));
        let i1 = choose|i: int|
            0 <= i < k && #[trigger] first_unvisited(conns, order1[i], order1.take(k)) == Some(
                order1[k],
            ) && forall|i2: int|
                i < i2 < k ==> !has_unvisited(conns, #[trigger] order1[i2], order1.take(k));
        let i2 = choose|i: int|
            0 <= i < k && #[trigger] first_unvisited(conns, order2[i], order2.take(k)) == Some(
                order2[k],
            ) && forall|i3: int|
                i < i3 < k ==> !has_unvisited(conns, #[trigger] order2[i3], order2.take(k));
        assert(order1[i1] == order1.take(k)[i1]);
        assert(order2[i2] == order2.take(k)[i2]);
        assert(order1[i2] == order1.take(k)[i2]);
        assert(order2[i1] == order2.take(k)[i1]);
        if i1 < i2 {
            assert(!has_unvisited(conns, order1[i2], order1.take(k)));
        } else if i2 < i1 {
            assert(!has_unvisited(conns, order2[i1], order2.take(k)));
        }
        assert(order1.take(j) =~= order1.take(k).push(order1[k]));
        assert(order2.take(j) =~= order2.take(k).push(order2[k]));
    }
}

/// A depth-first order from a given start is unique.
pub proof fn lemma_dfs_order_unique<A>(
    conns: Seq<Connection<A>>,
    start: usize,
    order1: Seq<usize>,
    order2: Seq<usize>,
)
    requires
        is_dfs_order(conns, start, order1),
        is_dfs_order(conns, start, order2),
    ensures
        order1 == order2,
{
    let m = if order1.len() < order2.len() { order1.len() as int } else { order2.len() as int };
    lemma_dfs_orders_agree(conns, start, order1, order2, m);
    if order1.len() < order2.len() {
        let l = order1.len() as int;
        assert(order1 =~= order2.take(l));
        assert(dfs_step_ok(conns, order2, l));
        let i = choose|i: int|
            0 <= i < l && #[trigger] first_unvisited(conns, order2[i], order2.take(l)) == Some(
                order2[l],
            ) && forall|i3: int|
                i < i3 < l ==> !has_unvisited(conns, #[trigger] order2[i3], order2.take(l));
        assert(order1[i] == order2[i]);
        assert(!has_unvisited(conns, order1[i], order1));
    } else if order2.len() < order1.len() {
        let l = order2.len() as int;
        assert(order2 =~= order1.take(l));
        assert(dfs_step_ok(conns, order1, l));
        let i = choose|i: int|
            0 <= i < l && #[trigger] first_unvisited(conns, order1[i], order1.take(l)) == Some(
                order1[l],
            ) && forall|i3: int|
                i < i3 < l ==> !has_unvisited(conns, #[trigger] order1[i3], order1.take(l));
        assert(order2[i] == order1[i]);
        assert(!has_unvisited(conns, order2[i], order2));
    } else {
        assert(order1 =~= order1.take(order1.len() as int));
        assert(order2 =~= order2.take(order2.len() as int));
    }
}

/// Whether `v` holds `x`.
pub(crate) fn contains_id(v: &Vec<usize>, x: usize) -> (res: bool)
    ensures
        res == v@.contains(x),
{
    let mut i: usize = 0;
    while i < v.len()
        invariant
            0 <= i <= v@.len(),
            forall|j: int| 0 <= j < i ==> v@[j] != x,
        decreases v@.len() - i,
    {
        if v[i] == x {
            return true;
        }
        i = i + 1;
    }
    false
}

/// Whether the stack's top has yet to be visited.
pub open spec fn top_pending(visited: Seq<usize>, stack: Seq<usize>) -> bool {
    stack.len() > 0 && !visited.contains(stack.last())
}

/// The state of the depth-first walk between two steps. `spos[k]` is where
/// the `k`-th stack entry stands in `visited`, for every entry but a pending
/// top.
pub open spec fn dfs_walk_inv<A>(
    conns: Seq<Connection<A>>,
    n: nat,
    start: usize,
    visited: Seq<usize>,
    stack: Seq<usize>,
    spos: Seq<int>,
) -> bool {
    &&& start < n
    &&& visited.no_duplicates()
    &&& forall|j: int| 0 <= j < visited.len() ==> #[trigger] visited[j] < n
    &&& forall|k: int| 0 <= k < stack.len() ==> #[trigger] stack[k] < n
    &&& visited.len() == 0 ==> stack == seq![start]
    &&& visited.len() > 0 ==> visited[0] == start
    &&& forall|j: int| 1 <= j < visited.len() ==> #[trigger] dfs_step_ok(conns, visited, j)
    &&& spos.len() == stack.len() - (if top_pending(visited, stack) { 1int } else { 0int })
    &&& forall|k: int|
        0 <= k < spos.len() ==> 0 <= #[trigger] spos[k] < visited.len() && visited[spos[k]]
            == stack[k]
    &&& forall|k1: int, k2: int| 0 <= k1 < k2 < spos.len() ==> spos[k1] < spos[k2]
    &&& top_pending(visited, stack) && visited.len() > 0 ==> stack.len() >= 2 && first_unvisited(
        conns,
        stack[stack.len() - 2],
        visited,
    ) == Some(stack.last())
    &&& forall|p: int|
        0 <= p < visited.len() && !spos.contains(p) ==> !has_unvisited(
            conns,
            #[trigger] visited[p],
            visited,
        )
    &&& visited.len() <= n
}

/// Appending a node keeps the earlier steps of an order valid.
proof fn lemma_steps_after_push<A>(conns: Seq<Connection<A>>, visited: Seq<usize>, u: usize)
    requires
        forall|j: int| 1 <= j < visited.len() ==> #[trigger] dfs_step_ok(conns, visited, j),
    ensures
        forall|j: int| 1 <= j < visited.len() ==> #[trigger] dfs_step_ok(conns, visited.push(u), j),
{
    let w = visited.push(u);
    assert forall|j: int| 1 <= j < visited.len() implies #[trigger] dfs_step_ok(conns, w, j) by {
        assert(dfs_step_ok(conns, visited, j));
        let i = choose|i: int|
            0 <= i < j && #[trigger] first_unvisited(conns, visited[i], visited.take(j)) == Some(
                visited[j],
            ) && forall|i2: int|
                i < i2 < j ==> !has_unvisited(conns, #[trigger] visited[i2], visited.take(j));
        assert(w.take(j) =~= visited.take(j));
        assert(w[i] == visited[i]);
        assert forall|i2: int| i < i2 < j implies !has_unvisited(conns, #[trigger] w[i2], w.take(j)) by {
            assert(w[i2] == visited[i2]);
            assert(!has_unvisited(conns, visited[i2], visited.take(j)));
        }
    }
}

/// Errors of graph operations.
#[derive(Debug, Clone, Copy, PartialEq, Eq, Structural)]
pub enum GraphError {
    NodeNotFound(usize),
}

/// A graph: nodes in a vector, addressed by index, and the connections
/// between their attachment points.
pub struct GraphData<D, P, A> {
    pub(crate) nodes: Vec<GraphNode<D, P>>,
    pub(crate) connections: Vec<Connection<A>>,
}

impl<D, P, A> View for GraphData<D, P, A> {
    type V = GraphView<D, P, A>;

    closed spec fn view(&self) -> GraphView<D, P, A> {
        GraphView {
            nodes: self.nodes@.map_values(|n: GraphNode<D, P>| n@),
            connections: self.connections@,
        }
    }
}

impl<D, P, A> Default for GraphData<D, P, A> {
    fn default() -> (res: Self)
        ensures
            res@.nodes.len() == 0,
            res@.connections.len() == 0,
    {
        GraphData { nodes: Vec::new(), connections: Vec::new() }
    }
}

impl<D, P: Copy, A> GraphData<D, P, A> {
    /// An empty graph.
    pub fn new() -> (res: Self)
        ensures
            res@.nodes.len() == 0,
            res@.connections.len() == 0,
    {
        GraphData { nodes: Vec::new(), connections: Vec::new() }
    }

    pub fn get(&self, id: usize) -> (res: Option<&GraphNode<D, P>>)
        ensures
            match res {
                Some(node) => id < self@.nodes.len() && node@ == self@.nodes[id as int],
                None => id >= self@.nodes.len(),
            },
    {
        if id < self.nodes.len() {
            Some(&self.nodes[id])
        } else {
            None
        }
    }

    /// Node `id`, to change in place.
    pub fn get_mut(&mut self, id: usize) -> (res: Option<&mut GraphNode<D, P>>)
        ensures
            final(self)@.connections == old(self)@.connections,
            match res {
                Some(node) => {
                    &&& id < old(self)@.nodes.len()
                    &&& node@ == old(self)@.nodes[id as int]
                    &&& final(self)@.nodes == old(self)@.nodes.update(id as int, final(node)@)
                },
                None => id >= old(self)@.nodes.len() && final(self)@.nodes == old(self)@.nodes,
            },
    {
        if id < self.nodes.len() {
            Some(&mut self.nodes[id])
        } else {
            None
        }
    }

    /// The connections, in the order they were made.
    pub fn connections(&self) -> (res: &[Connection<A>])
        ensures
            res@ == self@.connections,
    {
        self.connections.as_slice()
    }

    /// A graph made of the given nodes and connections, as they are.
    pub fn from_parts(nodes: Vec<GraphNode<D, P>>, connections: Vec<Connection<A>>) -> (res: Self)
        ensures
            res@.nodes == nodes@.map_values(|n: GraphNode<D, P>| n@),
            res@.connections == connections@,
    {
        GraphData { nodes, connections }
    }

    /// The first connection, in the order they were made, that joins `a`
    /// and `b` in either direction.
    pub fn find_connection(&self, a: usize, b: usize) -> (res: Option<usize>)
        ensures
            match res {
                Some(i) => {
                    &&& i < self@.connections.len()
                    &&& self@.connections[i as int].joins(a, b)
                    &&& forall|j: int| 0 <= j < i ==> !(#[trigger] self@.connections[j]).joins(a, b)
                },
                None => forall|j: int|
                    0 <= j < self@.connections.len() ==> !(#[trigger] self@.connections[j]).joins(
                        a,
                        b,
                    ),
            },
    {
        let mut k: usize = 0;
        while k < self.connections.len()
            invariant
                0 <= k <= self@.connections.len(),
                forall|j: int| 0 <= j < k ==> !(#[trigger] self@.connections[j]).joins(a, b),
            decreases self@.connections.len() - k,
        {
            let c = &self.connections[k];
            if (c.a.0 == a && c.b.0 == b) || (c.a.0 == b && c.b.0 == a) {
                return Some(k);
            }
            k = k + 1;
        }
        None
    }

    /// Whether every connection joins two nodes that exist.
    pub fn is_well_formed(&self) -> (res: bool)
        ensures
            res == self@.wf(),
    {
        let n = self.nodes.len();
        let mut k: usize = 0;
        while k < self.connections.len()
            invariant
                n == self@.nodes.len(),
                0 <= k <= self@.connections.len(),
                forall|j: int|
                    0 <= j < k ==> #[trigger] self@.connections[j].a.0 < n
                        && self@.connections[j].b.0 < n,
            decreases self@.connections.len() - k,
        {
            let c = &self.connections[k];
            if c.a.0 >= n || c.b.0 >= n {
                return false;
            }
            k = k + 1;
        }
        true
    }

    pub fn num_nodes(&self) -> (res: usize)
        ensures
            res == self@.nodes.len(),
    {
        self.nodes.len()
    }

    /// Appends a new, unselected node; its index is the old number of nodes.
    pub fn add(&mut self, node: D, position: P)
        ensures
            final(self)@.nodes == old(self)@.nodes.push(
                NodeView { position, data: node, selected: false },
            ),
            final(self)@.connections == old(self)@.connections,
    {
        self.nodes.push(GraphNode::new(position, node));
        assert(self@.nodes =~= old(self)@.nodes.push(
            NodeView { position, data: node, selected: false },
        ));
    }

    /// Removes connection `connection_id`.
    pub fn remove_connection(&mut self, connection_id: usize)
        requires
            connection_id < old(self)@.connections.len(),
        ensures
            final(self)@.nodes == old(self)@.nodes,
            final(self)@.connections == old(self)@.connections.remove(connection_id as int),
    {
        self.connections.remove(connection_id);
    }

    /// Whether node `i` is selected.
    pub fn is_selected(&self, i: usize) -> (res: Result<bool, GraphError>)
        ensures
            i < self@.nodes.len() ==> res == Ok::<bool, GraphError>(self@.nodes[i as int].selected),
            i >= self@.nodes.len() ==> res == Err::<bool, GraphError>(GraphError::NodeNotFound(i)),
    {
        if i < self.nodes.len() {
            Ok(self.nodes[i].selected)
        } else {
            Err(GraphError::NodeNotFound(i))
        }
    }

    /// Sets whether node `i` is selected; does nothing where there is no such node.
    fn set_selected(&mut self, i: usize, value: bool)
        ensures
            final(self)@.connections == old(self)@.connections,
            i < old(self)@.nodes.len() ==> final(self)@.nodes == old(self)@.nodes.update(
                i as int,
                NodeView { selected: value, ..old(self)@.nodes[i as int] },
            ),
            i >= old(self)@.nodes.len() ==> final(self)@.nodes == old(self)@.nodes,
    {
        if i < self.nodes.len() {
            self.nodes[i].selected = value;
            assert(self@.nodes =~= old(self)@.nodes.update(
                i as int,
                NodeView { selected: value, ..old(self)@.nodes[i as int] },
            ));
        }
    }

    /// Selects node `i`; does nothing where there is no such node.
    pub fn select(&mut self, i: usize)
        ensures
            final(self)@.connections == old(self)@.connections,
            i < old(self)@.nodes.len() ==> final(self)@.nodes == old(self)@.nodes.update(
                i as int,
                NodeView { selected: true, ..old(self)@.nodes[i as int] },
            ),
            i >= old(self)@.nodes.len() ==> final(self)@.nodes == old(self)@.nodes,
    {
        self.set_selected(i, true);
    }

    /// Deselects node `i`; does nothing where there is no such node.
    pub fn deselect(&mut self, i: usize)
        ensures
            final(self)@.connections == old(self)@.connections,
            i < old(self)@.nodes.len() ==> final(self)@.nodes == old(self)@.nodes.update(
                i as int,
                NodeView { selected: false, ..old(self)@.nodes[i as int] },
            ),
            i >= old(self)@.nodes.len() ==> final(self)@.nodes == old(self)@.nodes,
    {
        self.set_selected(i, false);
    }

    fn set_all_selected(&mut self, value: bool)
        ensures
            final(self)@.connections == old(self)@.connections,
            final(self)@.nodes.len() == old(self)@.nodes.len(),
            forall|i: int|
                0 <= i < old(self)@.nodes.len() ==> #[trigger] final(self)@.nodes[i] == (NodeView {
                    selected: value,
                    ..old(self)@.nodes[i]
                }),
    {
        let n = self.nodes.len();
        let mut i: usize = 0;
        while i < n
            invariant
                n == old(self)@.nodes.len(),
                self@.connections == old(self)@.connections,
                self@.nodes.len() == n,
                0 <= i <= n,
                forall|k: int|
                    0 <= k < i ==> #[trigger] self@.nodes[k] == (NodeView {
                        selected: value,
                        ..old(self)@.nodes[k]
                    }),
                forall|k: int| i <= k < n ==> #[trigger] self@.nodes[k] == old(self)@.nodes[k],
            decreases n - i,
        {
            self.set_selected(i, value);
            i = i + 1;
        }
    }

    /// Selects every node.
    pub fn select_all(&mut self)
        ensures
            final(self)@.connections == old(self)@.connections,
            final(self)@.nodes.len() == old(self)@.nodes.len(),
            forall|i: int|
                0 <= i < old(self)@.nodes.len() ==> #[trigger] final(self)@.nodes[i] == (NodeView {
                    selected: true,
                    ..old(self)@.nodes[i]
                }),
    {
        self.set_all_selected(true);
    }

    /// Deselects every node.
    pub fn clear_selection(&mut self)
        ensures
            final(self)@.connections == old(self)@.connections,
            final(self)@.nodes.len() == old(self)@.nodes.len(),
            forall|i: int|
                0 <= i < old(self)@.nodes.len() ==> #[trigger] final(self)@.nodes[i] == (NodeView {
                    selected: false,
                    ..old(self)@.nodes[i]
                }),
    {
        self.set_all_selected(false);
    }

    /// The indices of the selected nodes, in increasing order.
    pub fn selection(&self) -> (res: Vec<usize>)
        ensures
            is_selection(self@.nodes, res@),
            res@ == selected_ids(self@.nodes, self@.nodes.len() as int),
    {
        let n = self.nodes.len();
        let mut res: Vec<usize> = Vec::new();
        let mut i: usize = 0;
        while i < n
            invariant
                n == self@.nodes.len(),
                0 <= i <= n,
                forall|k: int, l: int| 0 <= k < l < res@.len() ==> res@[k] < res@[l],
                forall|k: int| 0 <= k < res@.len() ==> #[trigger] res@[k] < i,
                res@ == selected_ids(self@.nodes, i as int),
                forall|j: int|
                    0 <= j < i ==> (#[trigger] self@.nodes[j].selected <==> res@.contains(
                        j as usize,
                    )),
            decreases n - i,
        {
            let ghost before = res@;
            if self.nodes[i].selected {
                res.push(i);
            }
            assert forall|j: int|
                0 <= j < i + 1 implies (#[trigger] self@.nodes[j].selected <==> res@.contains(
                j as usize,
            )) by {
                if j < i {
                    if res@.contains(j as usize) {
                        let k = choose|k: int| 0 <= k < res@.len() && res@[k] == j as usize;
                        if k < before.len() {
                            assert(before[k] == j as usize);
                        }
                    }
                    if before.contains(j as usize) {
                        let k = choose|k: int| 0 <= k < before.len() && before[k] == j as usize;
                        assert(res@[k] == j as usize);
                    }
                } else {
                    if res@.contains(j as usize) {
                        let k = choose|k: int| 0 <= k < res@.len() && res@[k] == j as usize;
                        assert(k == before.len());
                    }
                    if self@.nodes[j].selected {
                        assert(res@[before.len() as int] == j as usize);
                    }
                }
            }
            i = i + 1;
        }
        res
    }
}

impl<D, P: Copy, A: PartialEq> GraphData<D, P, A> {
    /// Connects attachment `a_attachment` of node `a` to attachment
    /// `b_attachment` of node `b`.
    ///
    /// A node index is refused only when it is above the number of nodes
    /// (an index equal to it passes). Joining an attachment to itself is a
    /// successful no-op; any other pair is appended, even where the same
    /// pair is already connected.
    pub fn connect(&mut self, a: usize, a_attachment: A, b: usize, b_attachment: A) -> (res: Result<
        (),
        GraphError,
    >)
        ensures
            final(self)@.nodes == old(self)@.nodes,
            old(self)@.nodes.len() < a ==> res == Err::<(), GraphError>(GraphError::NodeNotFound(a))
                && final(self)@.connections == old(self)@.connections,
            a <= old(self)@.nodes.len() < b ==> res == Err::<(), GraphError>(
                GraphError::NodeNotFound(b),
            ) && final(self)@.connections == old(self)@.connections,
            a <= old(self)@.nodes.len() && b <= old(self)@.nodes.len() ==> {
                &&& res is Ok
                &&& final(self)@.connections == old(self)@.connections || final(self)@.connections
                    == old(self)@.connections.push(Connection::spec_new(a, a_attachment, b, b_attachment))
                &&& a != b ==> final(self)@.connections == old(self)@.connections.push(
                    Connection::spec_new(a, a_attachment, b, b_attachment),
                )
                &&& A::obeys_eq_spec() && a == b ==> (final(self)@.connections
                    == old(self)@.connections <==> a_attachment.eq_spec(&b_attachment))
                &&& A::obeys_eq_spec() && a == b && !a_attachment.eq_spec(&b_attachment)
                    ==> final(self)@.connections == old(self)@.connections.push(
                    Connection::spec_new(a, a_attachment, b, b_attachment),
                )
            },
    {
        if self.nodes.len() < a {
            return Err(GraphError::NodeNotFound(a));
        }
        if self.nodes.len() < b {
            return Err(GraphError::NodeNotFound(b));
        }
        if a == b && a_attachment == b_attachment {
            return Ok(());
        }
        self.connections.push(Connection::new(a, a_attachment, b, b_attachment));
        assert(self@.connections.len() == old(self)@.connections.len() + 1);
        Ok(())
    }

    /// Adds a new node and connects its `attachment` to `other_attachment`
    /// of node `connection`, which is refused where `connection` is above
    /// the number of nodes before the addition.
    pub fn attach_new(
        &mut self,
        node: D,
        position: P,
        attachment: A,
        connection: usize,
        other_attachment: A,
    ) -> (res: Result<(), GraphError>)
        ensures
            old(self)@.nodes.len() < connection ==> res == Err::<(), GraphError>(
                GraphError::NodeNotFound(connection),
            ) && final(self)@ == old(self)@,
            connection <= old(self)@.nodes.len() ==> {
                let new_id = old(self)@.nodes.len() as usize;
                let pushed = old(self)@.connections.push(
                    Connection::spec_new(new_id, attachment, connection, other_attachment),
                );
                &&& res is Ok
                &&& final(self)@.nodes == old(self)@.nodes.push(
                    NodeView { position, data: node, selected: false },
                )
                &&& final(self)@.connections == old(self)@.connections || final(self)@.connections
                    == pushed
                &&& connection < new_id ==> final(self)@.connections == pushed
                &&& A::obeys_eq_spec() && connection == new_id ==> (final(self)@.connections
                    == old(self)@.connections <==> attachment.eq_spec(&other_attachment))
                &&& A::obeys_eq_spec() && connection == new_id && !attachment.eq_spec(
                    &other_attachment,
                ) ==> final(self)@.connections == pushed
            },
    {
        if self.nodes.len() < connection {
            return Err(GraphError::NodeNotFound(connection));
        }
        self.add(node, position);
        let new_id = self.num_nodes() - 1;
        self.connect(new_id, attachment, connection, other_attachment)
    }
}

/// `without_joins` over a sequence one longer.
proof fn lemma_without_joins_step<A>(conns: Seq<Connection<A>>, k: int, x: usize, y: usize)
    requires
        0 <= k < conns.len(),
    ensures
        without_joins(conns.take(k + 1), x, y) == if conns[k].joins(x, y) {
            without_joins(conns.take(k), x, y)
        } else {
            without_joins(conns.take(k), x, y).push(conns[k])
        },
{
    assert(conns.take(k + 1).drop_last() =~= conns.take(k));
}

/// `after_node_removal` over a sequence one longer.
proof fn lemma_after_removal_step<A>(conns: Seq<Connection<A>>, k: int, i: usize)
    requires
        0 <= k < conns.len(),
    ensures
        after_node_removal(conns.take(k + 1), i) == if conns[k].touches(i) {
            after_node_removal(conns.take(k), i)
        } else {
            after_node_removal(conns.take(k), i).push(
                Connection {
                    a: (shift_down(conns[k].a.0, i), conns[k].a.1),
                    b: (shift_down(conns[k].b.0, i), conns[k].b.1),
                },
            )
        },
{
    assert(conns.take(k + 1).drop_last() =~= conns.take(k));
}

proof fn lemma_skip_step<A>(conns: Seq<Connection<A>>, k: int)
    requires
        0 <= k < conns.len(),
    ensures
        conns.skip(k).len() > 0,
        conns.skip(k)[0] == conns[k],
        conns.skip(k).drop_first() == conns.skip(k + 1),
{
    assert(conns.skip(k).drop_first() =~= conns.skip(k + 1));
}

proof fn lemma_skip_all<A>(conns: Seq<Connection<A>>)
    ensures
        conns.skip(conns.len() as int).len() == 0,
        conns.skip(0) == conns,
{
    assert(conns.skip(0) =~= conns);
}

impl<D, P: Copy, A> GraphData<D, P, A> {
    /// Removes every connection between nodes `a` and `b`, in either direction.
    pub fn disconnect_all(&mut self, a: usize, b: usize)
        ensures
            final(self)@.nodes == old(self)@.nodes,
            final(self)@.connections == without_joins(old(self)@.connections, a, b),
    {
        let mut taken: Vec<Connection<A>> = Vec::new();
        std::mem::swap(&mut taken, &mut self.connections);
        let ghost all = taken@;
        let mut kept: Vec<Connection<A>> = Vec::new();
        for conn in it: taken
            invariant
                all == old(self)@.connections,
                self@.nodes == old(self)@.nodes,
                it.seq() == all,
                kept@ == without_joins(all.take(it.index() as int), a, b),
        {
            proof {
                lemma_without_joins_step(all, it.index() as int, a, b);
            }
            if !((conn.a.0 == a && conn.b.0 == b) || (conn.b.0 == a && conn.a.0 == b)) {
                kept.push(conn);
            }
        }
        proof {
            assert(all.take(all.len() as int) =~= all);
        }
        self.connections = kept;
    }

    /// Removes node `i`. Connections that touch it go with it; the nodes
    /// after it move down one index, and the remaining connections follow
    /// them.
    pub fn remove(&mut self, i: usize)
        requires
            i < old(self)@.nodes.len(),
        ensures
            final(self)@.nodes == old(self)@.nodes.remove(i as int),
            final(self)@.connections == after_node_removal(old(self)@.connections, i),
    {
        self.nodes.remove(i);
        assert(self@.nodes =~= old(self)@.nodes.remove(i as int));
        let mut taken: Vec<Connection<A>> = Vec::new();
        std::mem::swap(&mut taken, &mut self.connections);
        let ghost all = taken@;
        let mut kept: Vec<Connection<A>> = Vec::new();
        for conn in it: taken
            invariant
                all == old(self)@.connections,
                self@.nodes == old(self)@.nodes.remove(i as int),
                it.seq() == all,
                kept@ == after_node_removal(all.take(it.index() as int), i),
        {
            proof {
                lemma_after_removal_step(all, it.index() as int, i);
            }
            if conn.a.0 != i && conn.b.0 != i {
                let Connection { a: (a_id, a_att), b: (b_id, b_att) } = conn;
                let new_a = if a_id > i { a_id - 1 } else { a_id };
                let new_b = if b_id > i { b_id - 1 } else { b_id };
                kept.push(Connection { a: (new_a, a_att), b: (new_b, b_att) });
            }
        }
        proof {
            assert(all.take(all.len() as int) =~= all);
        }
        self.connections = kept;
    }

    /// The nodes at the other end of each connection that touches node `id`,
    /// in connection order.
    pub fn get_connected_nodes(&self, id: usize) -> (res: Vec<&GraphNode<D, P>>)
        requires
            self@.wf_at(id),
        ensures
            res@.len() == neighbors(self@.connections, id).len(),
            forall|j: int|
                0 <= j < res@.len() ==> (#[trigger] res@[j])@ == self@.nodes[neighbors(
                    self@.connections,
                    id,
                )[j] as int],
    {
        let ghost c = self@.connections;
        let ghost nodes = self@.nodes;
        let mut res: Vec<&GraphNode<D, P>> = Vec::new();
        let ghost mut got: Seq<usize> = Seq::empty();
        let mut k: usize = 0;
        proof {
            lemma_skip_all(c);
        }
        while k < self.connections.len()
            invariant
                c == self@.connections,
                nodes == self@.nodes,
                self@.wf_at(id),
                0 <= k <= c.len(),
                got + neighbors(c.skip(k as int), id) == neighbors(c, id),
                res@.len() == got.len(),
                forall|j: int| 0 <= j < got.len() ==> #[trigger] got[j] < nodes.len(),
                forall|j: int| 0 <= j < res@.len() ==> (#[trigger] res@[j])@ == nodes[got[j] as int],
            decreases c.len() - k,
        {
            proof {
                lemma_skip_step(c, k as int);
            }
            let conn = &self.connections[k];
            if conn.a.0 == id {
                let other = conn.b.0;
                res.push(&self.nodes[other]);
                proof {
                    assert(got.push(other) + neighbors(c.skip(k + 1), id) =~= got + neighbors(
                        c.skip(k as int),
                        id,
                    ));
                    got = got.push(other);
                }
            } else if conn.b.0 == id {
                let other = conn.a.0;
                res.push(&self.nodes[other]);
                proof {
                    assert(got.push(other) + neighbors(c.skip(k + 1), id) =~= got + neighbors(
                        c.skip(k as int),
                        id,
                    ));
                    got = got.push(other);
                }
            }
            k = k + 1;
        }
        proof {
            assert(got =~= neighbors(c, id));
        }
        res
    }

    /// Seen from node `id`, each connection that touches it as
    /// (attachment at `id`, node at the other end, attachment there).
    pub fn get_connections(&self, id: usize) -> (res: Vec<(&A, usize, &A)>)
        ensures
            res@.len() == incident(self@.connections, id).len(),
            forall|j: int|
                0 <= j < res@.len() ==> {
                    let e = #[trigger] incident(self@.connections, id)[j];
                    &&& *res@[j].0 == e.0
                    &&& res@[j].1 == e.1
                    &&& *res@[j].2 == e.2
                },
    {
        let ghost c = self@.connections;
        let mut res: Vec<(&A, usize, &A)> = Vec::new();
        let ghost mut got: Seq<(A, usize, A)> = Seq::empty();
        let mut k: usize = 0;
        proof {
            lemma_skip_all(c);
        }
        while k < self.connections.len()
            invariant
                c == self@.connections,
                0 <= k <= c.len(),
                got + incident(c.skip(k as int), id) == incident(c, id),
                res@.len() == got.len(),
                forall|j: int|
                    0 <= j < res@.len() ==> {
                        &&& *res@[j].0 == (#[trigger] got[j]).0
                        &&& res@[j].1 == got[j].1
                        &&& *res@[j].2 == got[j].2
                    },
            decreases c.len() - k,
        {
            proof {
                lemma_skip_step(c, k as int);
            }
            let conn = &self.connections[k];
            if conn.a.0 == id {
                res.push((&conn.a.1, conn.b.0, &conn.b.1));
                proof {
                    let e = (conn.a.1, conn.b.0, conn.b.1);
                    assert(got.push(e) + incident(c.skip(k + 1), id) =~= got + incident(
                        c.skip(k as int),
                        id,
                    ));
                    got = got.push(e);
                }
            } else if conn.b.0 == id {
                res.push((&conn.b.1, conn.a.0, &conn.a.1));
                proof {
                    let e = (conn.b.1, conn.a.0, conn.a.1);
                    assert(got.push(e) + incident(c.skip(k + 1), id) =~= got + incident(
                        c.skip(k as int),
                        id,
                    ));
                    got = got.push(e);
                }
            }
            k = k + 1;
        }
        proof {
            assert(got =~= incident(c, id));
        }
        res
    }

    /// Like `get_connections`, each entry led by the connection's index.
    pub fn get_connections_indexed(&self, id: usize) -> (res: Vec<(usize, &A, usize, &A)>)
        ensures
            res@.len() == incident_indexed(self@.connections, id, 0).len(),
            forall|j: int|
                0 <= j < res@.len() ==> {
                    let e = #[trigger] incident_indexed(self@.connections, id, 0)[j];
                    &&& res@[j].0 == e.0
                    &&& *res@[j].1 == e.1
                    &&& res@[j].2 == e.2
                    &&& *res@[j].3 == e.3
                },
    {
        let ghost c = self@.connections;
        let mut res: Vec<(usize, &A, usize, &A)> = Vec::new();
        let ghost mut got: Seq<(usize, A, usize, A)> = Seq::empty();
        let mut k: usize = 0;
        while k < self.connections.len()
            invariant
                c == self@.connections,
                0 <= k <= c.len(),
                got + incident_indexed(c, id, k as int) == incident_indexed(c, id, 0),
                res@.len() == got.len(),
                forall|j: int|
                    0 <= j < res@.len() ==> {
                        &&& res@[j].0 == (#[trigger] got[j]).0
                        &&& *res@[j].1 == got[j].1
                        &&& res@[j].2 == got[j].2
                        &&& *res@[j].3 == got[j].3
                    },
            decreases c.len() - k,
        {
            let conn = &self.connections[k];
            if conn.a.0 == id {
                res.push((k, &conn.a.1, conn.b.0, &conn.b.1));
                proof {
                    let e = (k, conn.a.1, conn.b.0, conn.b.1);
                    assert(got.push(e) + incident_indexed(c, id, k + 1) =~= got
                        + incident_indexed(c, id, k as int));
                    got = got.push(e);
                }
            } else if conn.b.0 == id {
                res.push((k, &conn.b.1, conn.a.0, &conn.a.1));
                proof {
                    let e = (k, conn.b.1, conn.a.0, conn.a.1);
                    assert(got.push(e) + incident_indexed(c, id, k + 1) =~= got
                        + incident_indexed(c, id, k as int));
                    got = got.push(e);
                }
            }
            k = k + 1;
        }
        proof {
            assert(got =~= incident_indexed(c, id, 0));
        }
        res
    }

    /// The nodes, in index order.
    pub fn iter(&self) -> (res: &[GraphNode<D, P>])
        ensures
            res@.len() == self@.nodes.len(),
            forall|i: int| 0 <= i < res@.len() ==> (#[trigger] res@[i])@ == self@.nodes[i],
    {
        self.nodes.as_slice()
    }
}

impl<D, P: Copy, A> GraphData<D, P, A> {
    /// Seen from `u`, the first neighbor, in connection order, that
    /// `visited` does not hold.
    pub(crate) fn first_unvisited_neighbor(&self, u: usize, visited: &Vec<usize>) -> (res: Option<
        usize,
    >)
        ensures
            res == first_unvisited(self@.connections, u, visited@),
    {
        let ghost c = self@.connections;
        let mut k: usize = 0;
        proof {
            lemma_skip_all(c);
        }
        while k < self.connections.len()
            invariant
                c == self@.connections,
                0 <= k <= c.len(),
                first_unvisited(c, u, visited@) == first_unvisited(c.skip(k as int), u, visited@),
            decreases c.len() - k,
        {
            proof {
                lemma_skip_step(c, k as int);
            }
            let conn = &self.connections[k];
            if conn.a.0 == u {
                if !contains_id(visited, conn.b.0) {
                    return Some(conn.b.0);
                }
            } else if conn.b.0 == u {
                if !contains_id(visited, conn.a.0) {
                    return Some(conn.a.0);
                }
            }
            k = k + 1;
        }
        None
    }

    /// The nodes reached by a depth-first walk from `start`, in the order
    /// they are first visited.
    fn dfs_visit_order(&self, start: usize) -> (res: Vec<usize>)
        requires
            start < self@.nodes.len(),
            self@.wf(),
        ensures
            is_dfs_order(self@.connections, start, res@),
            forall|j: int| 0 <= j < res@.len() ==> #[trigger] res@[j] < self@.nodes.len(),
    {
        let ghost c = self@.connections;
        let n = self.num_nodes();
        let mut visited: Vec<usize> = Vec::new();
        let mut stack: VecDeque<usize> = VecDeque::new();
        stack.push_back(start);
        let ghost mut spos: Seq<int> = Seq::empty();
        proof {
            assert(stack@ =~= seq![start]);
        }
        loop
            invariant
                c == self@.connections,
                n == self@.nodes.len(),
                self@.wf(),
                dfs_walk_inv(c, n as nat, start, visited@, stack@, spos),
            ensures
                dfs_walk_inv(c, n as nat, start, visited@, stack@, spos),
                stack@.len() == 0 || visited@.len() == n,
            decreases 3 * (n - visited@.len()) + stack@.len() - 2 * (if top_pending(
                visited@,
                stack@,
            ) {
                1int
            } else {
                0int
            }),
        {
            if stack.len() == 0 || visited.len() == n {
                break;
            }
            let current = stack[stack.len() - 1];
            let ghost v0 = visited@;
            let ghost s0 = stack@;
            if !contains_id(&visited, current) {
                proof {
                    let j = v0.len() as int;
                    let w = v0.push(current);
                    lemma_steps_after_push(c, v0, current);
                    if j > 0 {
                        let i = spos.last();
                        assert(spos[spos.len() - 1] == i);
                        assert(w.take(j) =~= v0);
                        assert(w[i] == v0[i]);
                        assert(v0[i] == s0[s0.len() - 2]);
                        assert forall|i2: int| i < i2 < j implies !has_unvisited(
                            c,
                            #[trigger] w[i2],
                            w.take(j),
                        ) by {
                            assert(w[i2] == v0[i2]);
                            if spos.contains(i2) {
                                let k = choose|k: int| 0 <= k < spos.len() && spos[k] == i2;
                                if k < spos.len() - 1 {
                                    assert(spos[k] < spos[spos.len() - 1]);
                                }
                            }
                        }
                        assert(first_unvisited(c, w[i], w.take(j)) == Some(w[j]));
                        assert(dfs_step_ok(c, w, j));
                    }
                    assert forall|p: int|
                        0 <= p < w.len() && !spos.push(j).contains(p) implies !has_unvisited(
                        c,
                        #[trigger] w[p],
                        w,
                    ) by {
                        assert(spos.push(j)[spos.len() as int] == j);
                        assert(p != j);
                        if spos.contains(p) {
                            let k = choose|k: int| 0 <= k < spos.len() && spos[k] == p;
                            assert(spos.push(j)[k] == p);
                        }
                        assert(w[p] == v0[p]);
                        assert forall|x: usize| v0.contains(x) implies w.contains(x) by {
                            let q = choose|q: int| 0 <= q < v0.len() && v0[q] == x;
                            assert(w[q] == x);
                        }
                        lemma_has_unvisited_antitone(c, v0[p], v0, w);
                    }
                    lemma_distinct_below(v0, n as nat);
                }
                visited.push(current);
                proof {
                    spos = spos.push(v0.len() as int);
                    assert(visited@.contains(current)) by {
                        assert(visited@[v0.len() as int] == current);
                    }
                    assert(visited@.no_duplicates());
                    lemma_distinct_below(visited@, n as nat);
                }
            }
            let ghost v1 = visited@;
            proof {
                assert(v1.contains(current));
                assert(!top_pending(v1, s0));
                assert(spos.len() == s0.len());
            }
            match self.first_unvisited_neighbor(current, &visited) {
                Some(next) => {
                    proof {
                        lemma_first_unvisited_sound(c, current, v1);
                        let k = choose|k: int| 0 <= k < c.len() && #[trigger] c[k].other_end(current) == Some(next);
                        assert(c[k].a.0 < n && c[k].b.0 < n);
                    }
                    stack.push_back(next);
                    proof {
                        assert(stack@ =~= s0.push(next));
                        assert(top_pending(v1, stack@));
                    }
                }
                None => {
                    stack.pop_back();
                    proof {
                        assert(stack@ =~= s0.drop_last());
                        let p0 = spos.last();
                        let old_spos = spos;
                        spos = spos.drop_last();
                        assert forall|p: int|
                            0 <= p < v1.len() && !spos.contains(p) implies !has_unvisited(
                            c,
                            #[trigger] v1[p],
                            v1,
                        ) by {
                            if p == p0 {
                                assert(v1[p0] == s0[s0.len() - 1]);
                            } else if old_spos.contains(p) {
                                let k = choose|k: int| 0 <= k < old_spos.len() && old_spos[k] == p;
                                assert(k != old_spos.len() - 1);
                                assert(spos[k] == p);
                            }
                        }
                        if stack@.len() > 0 {
                            assert(v1[spos[spos.len() - 1]] == stack@.last());
                            assert(!top_pending(v1, stack@));
                        }
                    }
                }
            }
        }
        proof {
            let v = visited@;
            if stack@.len() == 0 {
                assert forall|i: int| 0 <= i < v.len() implies !has_unvisited(c, #[trigger] v[i], v) by {
                    assert(!spos.contains(i));
                }
            } else {
                lemma_distinct_below(v, n as nat);
                assert forall|i: int| 0 <= i < v.len() implies !has_unvisited(c, #[trigger] v[i], v) by {
                    lemma_first_unvisited_none(c, v[i], v);
                    assert forall|x: usize| adjacent(c, v[i], x) implies v.contains(x) by {
                        let k = choose|k: int| 0 <= k < c.len() && #[trigger] c[k].other_end(v[i]) == Some(x);
                        assert(c[k].a.0 < n && c[k].b.0 < n);
                    }
                }
            }
        }
        visited
    }

    /// The nodes reached by a depth-first walk from `starting_node` (node 0
    /// where none is given), each with its index, in the order they are
    /// first visited. Empty where the start is not a node.
    pub fn traverse_iter(&self, starting_node: Option<usize>) -> (res: Vec<(usize, &GraphNode<D, P>)>)
        requires
            starting_node.unwrap_or(0) < self@.nodes.len() ==> self@.wf(),
        ensures
            starting_node.unwrap_or(0) >= self@.nodes.len() ==> res@.len() == 0,
            starting_node.unwrap_or(0) < self@.nodes.len() ==> is_dfs_order(
                self@.connections,
                starting_node.unwrap_or(0),
                ids(res@),
            ),
            forall|j: int|
                0 <= j < res@.len() ==> #[trigger] res@[j].0 < self@.nodes.len() && res@[j].1@
                    == self@.nodes[res@[j].0 as int],
    {
        let start = match starting_node {
            Some(s) => s,
            None => 0,
        };
        let mut res: Vec<(usize, &GraphNode<D, P>)> = Vec::new();
        if start >= self.num_nodes() {
            return res;
        }
        let order = self.dfs_visit_order(start);
        let mut i: usize = 0;
        while i < order.len()
            invariant
                0 <= i <= order@.len(),
                forall|j: int| 0 <= j < order@.len() ==> #[trigger] order@[j] < self@.nodes.len(),
                res@.len() == i,
                forall|j: int|
                    0 <= j < i ==> #[trigger] res@[j].0 == order@[j] && res@[j].1@ == self@.nodes[order@[j] as int],
            decreases order@.len() - i,
        {
            let id = order[i];
            res.push((id, &self.nodes[id]));
            i = i + 1;
        }
        proof {
            assert(ids(res@) =~= order@);
        }
        res
    }
}

} // verus!
