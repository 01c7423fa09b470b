//! Properties of the graph that hold across its operations.

use vstd::prelude::*;

use crate::graph::connections::Connection;
use crate::graph::data::{
    NodeView,
    adjacent, after_node_removal, first_unvisited, has_unvisited, is_dfs_order, dfs_step_ok,
    lemma_first_unvisited_none, lemma_first_unvisited_sound, without_joins, GraphView,
};
use crate::graph::iter::bfs_advance;

verus! {

/// A walk along connections: every two consecutive nodes are adjacent.
pub open spec fn is_walk<A>(conns: Seq<Connection<A>>, walk: Seq<usize>) -> bool {
    &&& walk.len() > 0
    &&& forall|i: int| 0 <= i < walk.len() - 1 ==> #[trigger] adjacent(conns, walk[i], walk[i + 1])
}

/// The connections of a graph after node `i` is removed from it.
pub open spec fn graph_after_removal<D, P, A>(g: GraphView<D, P, A>, i: usize) -> GraphView<D, P, A> {
    GraphView { nodes: g.nodes.remove(i as int), connections: after_node_removal(g.connections, i) }
}

proof fn lemma_after_removal_bounds<A>(conns: Seq<Connection<A>>, i: usize, n: nat)
    requires
        i < n,
        forall|k: int| 0 <= k < conns.len() ==> (#[trigger] conns[k]).a.0 < n && conns[k].b.0 < n,
    ensures
        forall|k: int|
            0 <= k < after_node_removal(conns, i).len() ==> (#[trigger] after_node_removal(
                conns,
                i,
            )[k]).a.0 < n - 1 && after_node_removal(conns, i)[k].b.0 < n - 1,
    decreases conns.len(),
{
    if conns.len() > 0 {
        let rest = conns.drop_last();
        assert forall|k: int| 0 <= k < rest.len() implies (#[trigger] rest[k]).a.0 < n && rest[k].b.0
            < n by {
            assert(rest[k] == conns[k]);
        }
        lemma_after_removal_bounds(rest, i, n);
        let last = conns[conns.len() - 1];
        assert(last.a.0 < n && last.b.0 < n);
        let r = after_node_removal(conns, i);
        let rr = after_node_removal(rest, i);
        assert forall|k: int| 0 <= k < r.len() implies (#[trigger] r[k]).a.0 < n - 1 && r[k].b.0 < n
            - 1 by {
            if k < rr.len() {
                assert(r[k] == rr[k]);
            }
        }
    }
}

/// Removing a node keeps a well-formed graph well-formed: no connection is
/// left pointing past the remaining nodes.
pub proof fn lemma_remove_keeps_wf<D, P, A>(g: GraphView<D, P, A>, i: usize)
    requires
        g.wf(),
        i < g.nodes.len(),
    ensures
        graph_after_removal(g, i).wf(),
{
    assert forall|k: int| 0 <= k < g.connections.len() implies (#[trigger] g.connections[k]).a.0
        < g.nodes.len() && g.connections[k].b.0 < g.nodes.len() by {
        assert(g.connections[k].a.0 < g.nodes.len());
    }
    lemma_after_removal_bounds(g.connections, i, g.nodes.len());
}

/// Removing a node drops exactly the connections that touch it: none of
/// the remaining ones comes from one that did.
pub proof fn lemma_remove_drops_touching<A>(conns: Seq<Connection<A>>, i: usize)
    ensures
        after_node_removal(conns, i).len() <= conns.len(),
        (forall|k: int| 0 <= k < conns.len() ==> !(#[trigger] conns[k]).touches(i))
            ==> after_node_removal(conns, i).len() == conns.len(),
    decreases conns.len(),
{
    if conns.len() > 0 {
        let rest = conns.drop_last();
        if forall|k: int| 0 <= k < conns.len() ==> !(#[trigger] conns[k]).touches(i) {
            assert forall|k: int| 0 <= k < rest.len() implies !(#[trigger] rest[k]).touches(i) by {
                assert(rest[k] == conns[k]);
            }
            assert(!conns[conns.len() - 1].touches(i));
        }
        lemma_remove_drops_touching(rest, i);
    }
}

/// After `disconnect_all(x, y)` no connection joins `x` and `y`, and every
/// remaining connection was there before.
pub proof fn lemma_disconnect_all_removes_joins<A>(conns: Seq<Connection<A>>, x: usize, y: usize)
    ensures
        forall|k: int|
            0 <= k < without_joins(conns, x, y).len() ==> !(#[trigger] without_joins(
                conns,
                x,
                y,
            )[k]).joins(x, y) && conns.contains(without_joins(conns, x, y)[k]),
    decreases conns.len(),
{
    if conns.len() > 0 {
        let rest = conns.drop_last();
        lemma_disconnect_all_removes_joins(rest, x, y);
        let w = without_joins(conns, x, y);
        let wr = without_joins(rest, x, y);
        assert forall|k: int| 0 <= k < w.len() implies !(#[trigger] w[k]).joins(x, y)
            && conns.contains(w[k]) by {
            if k < wr.len() {
                assert(w[k] == wr[k]);
                let j = choose|j: int| 0 <= j < rest.len() && rest[j] == wr[k];
                assert(conns[j] == rest[j]);
            } else {
                assert(w[k] == conns[conns.len() - 1]);
            }
        }
    }
}

/// A depth-first order visits no node twice.
pub proof fn lemma_dfs_order_distinct<A>(conns: Seq<Connection<A>>, start: usize, order: Seq<usize>)
    requires
        is_dfs_order(conns, start, order),
    ensures
        order.no_duplicates(),
{
    assert forall|i: int, j: int| 0 <= i < order.len() && 0 <= j < order.len() && i != j implies order[i]
        != order[j] by {
        let (lo, hi) = if i < j { (i, j) } else { (j, i) };
        assert(dfs_step_ok(conns, order, hi));
        let p = choose|p: int|
            0 <= p < hi && #[trigger] first_unvisited(conns, order[p], order.take(hi)) == Some(
                order[hi],
            ) && forall|i2: int|
                p < i2 < hi ==> !has_unvisited(conns, #[trigger] order[i2], order.take(hi));
        lemma_first_unvisited_sound(conns, order[p], order.take(hi));
        assert(order.take(hi)[lo] == order[lo]);
    }
}

/// Every node of a depth-first order is reached from the start by a walk.
pub proof fn lemma_dfs_order_reachable<A>(
    conns: Seq<Connection<A>>,
    start: usize,
    order: Seq<usize>,
    j: int,
) -> (walk: Seq<usize>)
    requires
        is_dfs_order(conns, start, order),
        0 <= j < order.len(),
    ensures
        is_walk(conns, walk),
        walk[0] == start,
        walk.last() == order[j],
    decreases j,
{
    if j == 0 {
        let walk = seq![start];
        walk
    } else {
        assert(dfs_step_ok(conns, order, j));
        let p = choose|p: int|
            0 <= p < j && #[trigger] first_unvisited(conns, order[p], order.take(j)) == Some(
                order[j],
            ) && forall|i2: int|
                p < i2 < j ==> !has_unvisited(conns, #[trigger] order[i2], order.take(j));
        lemma_first_unvisited_sound(conns, order[p], order.take(j));
        let prefix = lemma_dfs_order_reachable(conns, start, order, p);
        let walk = prefix.push(order[j]);
        assert forall|i: int| 0 <= i < walk.len() - 1 implies #[trigger] adjacent(
            conns,
            walk[i],
            walk[i + 1],
        ) by {
            if i < prefix.len() - 1 {
                assert(walk[i] == prefix[i] && walk[i + 1] == prefix[i + 1]);
                assert(adjacent(conns, prefix[i], prefix[i + 1]));
            } else {
                assert(walk[i] == order[p]);
            }
        }
        walk
    }
}

/// A depth-first order holds every node that a walk from the start
/// reaches.
pub proof fn lemma_dfs_order_complete<A>(
    conns: Seq<Connection<A>>,
    start: usize,
    order: Seq<usize>,
    walk: Seq<usize>,
)
    requires
        is_dfs_order(conns, start, order),
        is_walk(conns, walk),
        walk[0] == start,
    ensures
        order.contains(walk.last()),
    decreases walk.len(),
{
    if walk.len() == 1 {
        assert(order[0] == start);
    } else {
        let prefix = walk.drop_last();
        assert forall|i: int| 0 <= i < prefix.len() - 1 implies #[trigger] adjacent(
            conns,
            prefix[i],
            prefix[i + 1],
        ) by {
            assert(adjacent(conns, walk[i], walk[i + 1]));
        }
        lemma_dfs_order_complete(conns, start, order, prefix);
        let y = prefix.last();
        let i = choose|i: int| 0 <= i < order.len() && order[i] == y;
        assert(!has_unvisited(conns, order[i], order));
        lemma_first_unvisited_none(conns, y, order);
        let m = walk.len() - 2;
        assert(adjacent(conns, walk[m], walk[m + 1]));
        assert(walk[m] == y);
    }
}

/// A breadth-first step only ever yields a node not yet visited, so a
/// breadth-first walk yields no node twice.
pub proof fn lemma_bfs_yields_unvisited<A>(
    conns: Seq<Connection<A>>,
    n: nat,
    visited: Seq<usize>,
    queue: Seq<usize>,
)
    ensures
        bfs_advance(conns, n, visited, queue).1 matches Some(x) ==> !visited.contains(x) && exists|
            k: int,
        |
            0 <= k < queue.len() && adjacent(conns, #[trigger] queue[k], x),
    decreases queue.len(),
{
    if !(visited.len() == n || queue.len() == 0) {
        lemma_first_unvisited_sound(conns, queue[0], visited);
        match first_unvisited(conns, queue[0], visited) {
            Some(x) => {
                assert(adjacent(conns, queue[0], x));
            },
            None => {
                let rest = queue.drop_first();
                lemma_bfs_yields_unvisited(conns, n, visited, rest);
                if let Some(x) = bfs_advance(conns, n, visited, rest).1 {
                    let k = choose|k: int| 0 <= k < rest.len() && adjacent(conns, #[trigger] rest[k], x);
                    assert(queue[k + 1] == rest[k]);
                }
            },
        }
    }
}

/// Whether every node joined to `u` is in `visited`.
pub open spec fn neighbors_visited<A>(conns: Seq<Connection<A>>, u: usize, visited: Seq<usize>) -> bool {
    forall|c: int|
        0 <= c < conns.len() ==> ((#[trigger] conns[c]).other_end(u) matches Some(y)
            ==> visited.contains(y))
}

/// Whether `x` is the first node, in connection order, joined to `u` and
/// not in `visited`.
pub open spec fn first_fresh<A>(conns: Seq<Connection<A>>, u: usize, visited: Seq<usize>, x: usize) -> bool {
    exists|c: int|
        0 <= c < conns.len() && #[trigger] conns[c].other_end(u) == Some(x) && !visited.contains(x)
            && forall|d: int|
            0 <= d < c ==> ((#[trigger] conns[d]).other_end(u) matches Some(y) ==> visited.contains(y))
}

/// The first unvisited neighbor of `u` is the node at the other end of
/// the first connection, in connection order, that joins `u` to a node not
/// visited; where there is none, every neighbor of `u` is visited.
pub proof fn lemma_first_unvisited_is_first_fresh<A>(conns: Seq<Connection<A>>, u: usize, visited: Seq<usize>)
    ensures
        first_unvisited(conns, u, visited) matches Some(x) ==> first_fresh(conns, u, visited, x),
        first_unvisited(conns, u, visited) is None ==> neighbors_visited(conns, u, visited),
    decreases conns.len(),
{
    if conns.len() > 0 {
        let rest = conns.drop_first();
        lemma_first_unvisited_is_first_fresh(rest, u, visited);
        let head_fresh = conns[0].other_end(u) matches Some(v) && !visited.contains(v);
        if head_fresh {
            assert(conns[0].other_end(u) == Some(first_unvisited(conns, u, visited)->0));
        } else {
            match first_unvisited(rest, u, visited) {
                Some(x) => {
                    let c = choose|c: int|
                        0 <= c < rest.len() && #[trigger] rest[c].other_end(u) == Some(x) && !visited.contains(x)
                            && forall|d: int|
                            0 <= d < c ==> ((#[trigger] rest[d]).other_end(u) matches Some(y)
                                ==> visited.contains(y));
                    assert(conns[c + 1] == rest[c]);
                    assert forall|d: int| 0 <= d < c + 1 implies ((#[trigger] conns[d]).other_end(u) matches Some(
                        y,
                    ) ==> visited.contains(y)) by {
                        if d > 0 {
                            assert(conns[d] == rest[d - 1]);
                        }
                    }
                },
                None => {
                    assert forall|c: int| 0 <= c < conns.len() implies ((#[trigger] conns[c]).other_end(u) matches Some(
                        y,
                    ) ==> visited.contains(y)) by {
                        if c > 0 {
                            assert(conns[c] == rest[c - 1]);
                        }
                    }
                },
            }
        }
    }
}

/// A breadth-first step takes its queue first in, first out. It finds
/// nothing once every node is visited, and then leaves the queue alone.
/// Otherwise it drops from the front of the queue exactly the nodes whose
/// neighbors are all visited, up to the first node that has one that is
/// not; that node stays at the front, the rest of the queue stays in
/// order behind it, and its first such neighbor, in connection order, is
/// found and put at the back. Where no node of the queue has an unvisited
/// neighbor, nothing is found and the queue runs out.
pub proof fn lemma_bfs_step_fifo<A>(conns: Seq<Connection<A>>, n: nat, visited: Seq<usize>, queue: Seq<usize>)
    ensures
        ({
            let (q2, found) = bfs_advance(conns, n, visited, queue);
            match found {
                Some(x) => {
                    &&& visited.len() != n
                    &&& exists|k: int|
                        #![trigger queue.subrange(k, queue.len() as int)]
                        0 <= k < queue.len() && q2 == queue.subrange(k, queue.len() as int).push(x)
                            && (forall|j: int| 0 <= j < k ==> neighbors_visited(conns, #[trigger] queue[j], visited))
                            && first_fresh(conns, queue[k], visited, x)
                },
                None => if visited.len() == n {
                    q2 == queue
                } else {
                    &&& q2.len() == 0
                    &&& forall|j: int| 0 <= j < queue.len() ==> neighbors_visited(conns, #[trigger] queue[j], visited)
                },
            }
        }),
    decreases queue.len(),
{
    if !(visited.len() == n || queue.len() == 0) {
        lemma_first_unvisited_is_first_fresh(conns, queue[0], visited);
        match first_unvisited(conns, queue[0], visited) {
            Some(x) => {
                assert(queue.subrange(0, queue.len() as int) =~= queue);
            },
            None => {
                let rest = queue.drop_first();
                lemma_bfs_step_fifo(conns, n, visited, rest);
                match bfs_advance(conns, n, visited, rest).1 {
                    Some(x) => {
                        let q2 = bfs_advance(conns, n, visited, rest).0;
                        let k = choose|k: int|
                            #![trigger rest.subrange(k, rest.len() as int)]
                            0 <= k < rest.len() && q2 == rest.subrange(k, rest.len() as int).push(x)
                                && (forall|j: int| 0 <= j < k ==> neighbors_visited(conns, #[trigger] rest[j], visited))
                                && first_fresh(conns, rest[k], visited, x);
                        assert(queue.subrange(k + 1, queue.len() as int) =~= rest.subrange(k, rest.len() as int));
                        assert(queue[k + 1] == rest[k]);
                        assert forall|j: int| 0 <= j < k + 1 implies neighbors_visited(conns, #[trigger] queue[j], visited) by {
                            if j > 0 {
                                assert(queue[j] == rest[j - 1]);
                            }
                        }
                    },
                    None => {
                        assert forall|j: int| 0 <= j < queue.len() implies neighbors_visited(conns, #[trigger] queue[j], visited) by {
                            if j > 0 {
                                assert(queue[j] == rest[j - 1]);
                            }
                        }
                    },
                }
            },
        }
    }
}

/// Connecting two nodes that exist keeps a well-formed graph well-formed,
/// whether the connection is added or (an attachment joined to itself)
/// left out. A node index equal to the number of nodes is accepted by
/// `connect` too, and breaks this.
pub proof fn lemma_connect_keeps_wf<D, P, A>(
    g: GraphView<D, P, A>,
    a: usize,
    a_attachment: A,
    b: usize,
    b_attachment: A,
)
    requires
        g.wf(),
        a < g.nodes.len(),
        b < g.nodes.len(),
    ensures
        (GraphView {
            nodes: g.nodes,
            connections: g.connections.push(Connection::spec_new(a, a_attachment, b, b_attachment)),
        }).wf(),
{
    let c = g.connections.push(Connection::spec_new(a, a_attachment, b, b_attachment));
    assert forall|k: int| 0 <= k < c.len() implies #[trigger] c[k].a.0 < g.nodes.len() && c[k].b.0
        < g.nodes.len() by {
        if k < g.connections.len() {
            assert(c[k] == g.connections[k]);
        }
    }
}

/// Adding a node attached to a node that exists, or to itself, keeps a
/// well-formed graph well-formed.
pub proof fn lemma_attach_new_keeps_wf<D, P, A>(
    g: GraphView<D, P, A>,
    node: D,
    position: P,
    attachment: A,
    connection: usize,
    other_attachment: A,
)
    requires
        g.wf(),
        connection <= g.nodes.len(),
    ensures
        (GraphView {
            nodes: g.nodes.push(NodeView { position, data: node, selected: false }),
            connections: g.connections,
        }).wf(),
        (GraphView {
            nodes: g.nodes.push(NodeView { position, data: node, selected: false }),
            connections: g.connections.push(
                Connection::spec_new(
                    g.nodes.len() as usize,
                    attachment,
                    connection,
                    other_attachment,
                ),
            ),
        }).wf(),
{
    let nodes = g.nodes.push(NodeView { position, data: node, selected: false });
    let c = g.connections.push(
        Connection::spec_new(g.nodes.len() as usize, attachment, connection, other_attachment),
    );
    assert forall|k: int| 0 <= k < g.connections.len() implies #[trigger] g.connections[k].a.0
        < nodes.len() && g.connections[k].b.0 < nodes.len() by {
        assert(g.connections[k].a.0 < g.nodes.len());
    }
    assert forall|k: int| 0 <= k < c.len() implies #[trigger] c[k].a.0 < nodes.len() && c[k].b.0
        < nodes.len() by {
        if k < g.connections.len() {
            assert(c[k] == g.connections[k]);
            assert(g.connections[k].a.0 < g.nodes.len());
        }
    }
}

} // verus!
