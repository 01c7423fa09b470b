//! The order in which the graph widget places the nodes: a breadth-first
//! walk from node 0 that, whenever its queue runs empty, starts again from
//! the first node it has not visited. Where each node goes is geometry and
//! is decided by the widget; which node is placed from which is decided here.

use std::collections::VecDeque;
use vstd::prelude::*;

use crate::graph::connections::Connection;
use crate::graph::data::{contains_id, lemma_distinct_below, GraphData};

verus! {

/// One step of the layout walk.
#[derive(Debug, Clone, Copy, PartialEq, Eq, Structural)]
pub enum LayoutStep {
    /// Place `node` on its own. The first `seen` entries of the visit
    /// order, `node` included, are known to the placement.
    Root { node: usize, seen: usize },
    /// Place `node` from `parent`, which `connection` joins it to. The first
    /// `seen` entries of the visit order are known to the placement;
    /// `node` is not yet among them.
    Child { node: usize, parent: usize, connection: usize, seen: usize },
    /// The nodes placed since the last group end form a group.
    GroupEnd,
}

/// The state of the layout walk: the queue of nodes to place from, the
/// visit order, and the steps so far.
pub struct LayoutState {
    pub queue: Seq<usize>,
    pub visited: Seq<usize>,
    pub steps: Seq<LayoutStep>,
}

/// Among the first `k` connections, those that join `u` to a node not in
/// `visited`, each with that node, in connection order.
pub open spec fn fresh_neighbors<A>(
    conns: Seq<Connection<A>>,
    u: usize,
    visited: Seq<usize>,
    k: int,
) -> Seq<(usize, usize)>
    decreases k,
{
    if k <= 0 {
        Seq::empty()
    } else {
        let rest = fresh_neighbors(conns, u, visited, k - 1);
        match conns[k - 1].other_end(u) {
            Some(v) => if visited.contains(v) {
                rest
            } else {
                rest.push(((k - 1) as usize, v))
            },
            None => rest,
        }
    }
}

/// The steps that place the fresh neighbors `fresh` from `parent`, when
/// `seen` nodes have been visited.
pub open spec fn child_steps(fresh: Seq<(usize, usize)>, parent: usize, seen: int) -> Seq<
    LayoutStep,
> {
    Seq::new(
        fresh.len(),
        |j: int|
            LayoutStep::Child {
                node: fresh[j].1,
                parent,
                connection: fresh[j].0,
                seen: (seen + j) as usize,
            },
    )
}

/// The nodes of a list of fresh neighbors.
pub open spec fn fresh_nodes(fresh: Seq<(usize, usize)>) -> Seq<usize> {
    fresh.map_values(|p: (usize, usize)| p.1)
}

/// The first node from `x` on, below `n`, that `visited` does not hold.
pub open spec fn first_missing_from(visited: Seq<usize>, x: int, n: int) -> Option<usize>
    decreases n - x,
{
    if x >= n || x < 0 {
        None
    } else if !visited.contains(x as usize) {
        Some(x as usize)
    } else {
        first_missing_from(visited, x + 1, n)
    }
}

/// Where the walk starts for a graph of `n` nodes.
pub open spec fn layout_start(n: usize) -> LayoutState {
    if n == 0 {
        LayoutState { queue: Seq::empty(), visited: Seq::empty(), steps: Seq::empty() }
    } else {
        LayoutState {
            queue: seq![0usize],
            visited: seq![0usize],
            steps: seq![LayoutStep::Root { node: 0, seen: 1 }],
        }
    }
}

/// Whether the walk stops: its queue is empty, or its visit order is as
/// long as there are nodes.
pub open spec fn layout_done(n: usize, s: LayoutState) -> bool {
    s.queue.len() == 0 || s.visited.len() == n
}

/// One round of the walk: the fresh neighbors of the node at the front of
/// the queue are placed from it, visited and queued, and the front is
/// dropped; where the queue is then empty, a group ends and the walk starts
/// again from the first node not visited, if there is one.
pub open spec fn layout_step<A>(conns: Seq<Connection<A>>, n: usize, s: LayoutState) -> LayoutState {
    let cur = s.queue[0];
    let fresh = fresh_neighbors(conns, cur, s.visited, conns.len() as int);
    let visited = s.visited + fresh_nodes(fresh);
    let steps = s.steps + child_steps(fresh, cur, s.visited.len() as int);
    let queue = (s.queue + fresh_nodes(fresh)).drop_first();
    if queue.len() == 0 {
        let ended = steps.push(LayoutStep::GroupEnd);
        match first_missing_from(visited, 0, n as int) {
            Some(x) => LayoutState {
                queue: seq![x],
                visited: visited.push(x),
                steps: ended.push(LayoutStep::Root { node: x, seen: (visited.len() + 1) as usize }),
            },
            None => LayoutState { queue, visited, steps: ended },
        }
    } else {
        LayoutState { queue, visited, steps }
    }
}

/// Whether `trace` is a run of the walk over connections `conns` and `n`
/// nodes up to now: it starts where the walk starts and each state is one
/// round after the one before, which had not stopped.
pub open spec fn is_layout_prefix<A>(conns: Seq<Connection<A>>, n: usize, trace: Seq<LayoutState>) -> bool {
    &&& trace.len() > 0
    &&& trace[0] == layout_start(n)
    &&& forall|i: int|
        0 <= i < trace.len() - 1 ==> !layout_done(n, #[trigger] trace[i]) && trace[i + 1]
            == layout_step(conns, n, trace[i])
}

/// Whether `trace` is the whole run of the walk: a run that has stopped.
pub open spec fn is_layout_run<A>(conns: Seq<Connection<A>>, n: usize, trace: Seq<LayoutState>) -> bool {
    is_layout_prefix(conns, n, trace) && layout_done(n, trace.last())
}

/// The walk has a single run: two runs are the same.
pub proof fn lemma_layout_run_unique<A>(
    conns: Seq<Connection<A>>,
    n: usize,
    t1: Seq<LayoutState>,
    t2: Seq<LayoutState>,
)
    requires
        is_layout_run(conns, n, t1),
        is_layout_run(conns, n, t2),
    ensures
        t1 == t2,
{
    let m = if t1.len() < t2.len() {
        t1.len()
    } else {
        t2.len()
    };
    assert forall|i: int| 0 <= i < m implies t1[i] == t2[i] by {
        lemma_runs_agree(conns, n, t1, t2, i);
    }
    if t1.len() < t2.len() {
        assert(t1[t1.len() - 1] == t2[t1.len() - 1]);
        assert(!layout_done(n, t2[t1.len() - 1]));
    } else if t2.len() < t1.len() {
        assert(t1[t2.len() - 1] == t2[t2.len() - 1]);
        assert(!layout_done(n, t1[t2.len() - 1]));
    }
    assert(t1 =~= t2);
}

proof fn lemma_runs_agree<A>(
    conns: Seq<Connection<A>>,
    n: usize,
    t1: Seq<LayoutState>,
    t2: Seq<LayoutState>,
    i: int,
)
    requires
        is_layout_prefix(conns, n, t1),
        is_layout_prefix(conns, n, t2),
        0 <= i < t1.len(),
        i < t2.len(),
    ensures
        t1[i] == t2[i],
    decreases i,
{
    if i > 0 {
        lemma_runs_agree(conns, n, t1, t2, i - 1);
        assert(t1[i] == layout_step(conns, n, t1[i - 1]));
        assert(t2[i] == layout_step(conns, n, t2[i - 1]));
    }
}

/// The nodes that the steps place, in order.
pub open spec fn placed_nodes(steps: Seq<LayoutStep>) -> Seq<usize>
    decreases steps.len(),
{
    if steps.len() == 0 {
        Seq::empty()
    } else {
        let rest = placed_nodes(steps.drop_last());
        match steps.last() {
            LayoutStep::Root { node, .. } => rest.push(node),
            LayoutStep::Child { node, .. } => rest.push(node),
            LayoutStep::GroupEnd => rest,
        }
    }
}

/// Whether every connection joins two of the `n` nodes.
pub open spec fn joins_below<A>(conns: Seq<Connection<A>>, n: usize) -> bool {
    forall|k: int| 0 <= k < conns.len() ==> (#[trigger] conns[k]).a.0 < n && conns[k].b.0 < n
}

/// Whether no round of the walk from state `s` on finds one new node along
/// two connections.
pub open spec fn fresh_apart<A>(conns: Seq<Connection<A>>, s: LayoutState) -> bool {
    fresh_nodes(fresh_neighbors(conns, s.queue[0], s.visited, conns.len() as int)).no_duplicates()
}

/// What holds of every state of the walk.
pub open spec fn layout_sound(n: usize, s: LayoutState) -> bool {
    &&& s.visited.no_duplicates()
    &&& forall|i: int| 0 <= i < s.visited.len() ==> #[trigger] s.visited[i] < n
    &&& placed_nodes(s.steps) == s.visited
    &&& s.queue.len() == 0 ==> forall|y: usize| y < n ==> #[trigger] s.visited.contains(y)
}

proof fn lemma_placed_append(a: Seq<LayoutStep>, b: Seq<LayoutStep>)
    ensures
        placed_nodes(a + b) == placed_nodes(a) + placed_nodes(b),
    decreases b.len(),
{
    if b.len() == 0 {
        assert(a + b =~= a);
        assert(placed_nodes(a) + placed_nodes(b) =~= placed_nodes(a));
    } else {
        lemma_placed_append(a, b.drop_last());
        assert((a + b).drop_last() =~= a + b.drop_last());
        assert((a + b).last() == b.last());
        match b.last() {
            LayoutStep::GroupEnd => {},
            _ => {
                assert(placed_nodes(a) + placed_nodes(b) =~= (placed_nodes(a) + placed_nodes(
                    b.drop_last(),
                )).push(placed_nodes(b).last()));
            },
        }
    }
}

proof fn lemma_placed_children(fresh: Seq<(usize, usize)>, parent: usize, seen: int)
    ensures
        placed_nodes(child_steps(fresh, parent, seen)) == fresh_nodes(fresh),
    decreases fresh.len(),
{
    if fresh.len() > 0 {
        let f = fresh.drop_last();
        lemma_placed_children(f, parent, seen);
        assert(child_steps(fresh, parent, seen).drop_last() =~= child_steps(f, parent, seen));
        assert(fresh_nodes(fresh) =~= fresh_nodes(f).push(fresh.last().1));
    } else {
        assert(child_steps(fresh, parent, seen) =~= Seq::<LayoutStep>::empty());
        assert(fresh_nodes(fresh) =~= Seq::<usize>::empty());
    }
}

proof fn lemma_fresh_props<A>(conns: Seq<Connection<A>>, u: usize, visited: Seq<usize>, k: int, n: usize)
    requires
        joins_below(conns, n),
        k <= conns.len(),
    ensures
        forall|j: int|
            0 <= j < fresh_neighbors(conns, u, visited, k).len() ==> {
                let f = #[trigger] fresh_neighbors(conns, u, visited, k)[j];
                &&& f.1 < n
                &&& !visited.contains(f.1)
            },
    decreases k,
{
    if k > 0 {
        lemma_fresh_props(conns, u, visited, k - 1, n);
        let rest = fresh_neighbors(conns, u, visited, k - 1);
        let all = fresh_neighbors(conns, u, visited, k);
        assert(0 <= k - 1 < conns.len());
        let c = conns[k - 1];
        assert(c.a.0 < n && c.b.0 < n);
        assert forall|j: int| 0 <= j < all.len() implies {
            let f = #[trigger] all[j];
            &&& f.1 < n
            &&& !visited.contains(f.1)
        } by {
            if j < rest.len() {
                assert(all[j] == rest[j]);
            }
        }
    }
}

proof fn lemma_step_sound<A>(conns: Seq<Connection<A>>, n: usize, s: LayoutState)
    requires
        joins_below(conns, n),
        layout_sound(n, s),
        !layout_done(n, s),
        fresh_apart(conns, s),
    ensures
        layout_sound(n, layout_step(conns, n, s)),
{
    let cur = s.queue[0];
    let fresh = fresh_neighbors(conns, cur, s.visited, conns.len() as int);
    let fnodes = fresh_nodes(fresh);
    let visited = s.visited + fnodes;
    let steps = s.steps + child_steps(fresh, cur, s.visited.len() as int);
    lemma_fresh_props(conns, cur, s.visited, conns.len() as int, n);
    lemma_placed_append(s.steps, child_steps(fresh, cur, s.visited.len() as int));
    lemma_placed_children(fresh, cur, s.visited.len() as int);
    assert forall|i: int| 0 <= i < fnodes.len() implies #[trigger] fnodes[i] < n && !s.visited.contains(fnodes[i]) by {
        assert(fnodes[i] == fresh[i].1);
    }
    assert(visited.no_duplicates()) by {
        assert forall|i: int, j: int| 0 <= i < visited.len() && 0 <= j < visited.len() && i != j implies visited[i] != visited[j] by {
            if i < s.visited.len() && j >= s.visited.len() {
                assert(visited[j] == fnodes[j - s.visited.len()]);
                assert(s.visited.contains(visited[i]));
            } else if j < s.visited.len() && i >= s.visited.len() {
                assert(visited[i] == fnodes[i - s.visited.len()]);
                assert(s.visited.contains(visited[j]));
            } else if i >= s.visited.len() {
                assert(visited[i] == fnodes[i - s.visited.len()]);
                assert(visited[j] == fnodes[j - s.visited.len()]);
            }
        }
    }
    assert forall|i: int| 0 <= i < visited.len() implies #[trigger] visited[i] < n by {
        if i >= s.visited.len() {
            assert(visited[i] == fnodes[i - s.visited.len()]);
        }
    }
    assert(placed_nodes(steps) == visited);
    let queue = (s.queue + fnodes).drop_first();
    let r = layout_step(conns, n, s);
    if queue.len() == 0 {
        let ended = steps.push(LayoutStep::GroupEnd);
        assert(ended.drop_last() =~= steps);
        assert(placed_nodes(ended) == visited);
        lemma_first_missing(visited, 0, n as int);
        match first_missing_from(visited, 0, n as int) {
            None => {
                assert(r == LayoutState { queue, visited, steps: ended });
            },
            Some(x) => {
                let last = ended.push(LayoutStep::Root { node: x, seen: (visited.len() + 1) as usize });
                assert(last.drop_last() =~= ended);
                assert(r.steps == last);
                assert(r.visited == visited.push(x));
                assert(placed_nodes(last) =~= visited.push(x));
                let v2 = visited.push(x);
                assert(v2.no_duplicates()) by {
                    assert forall|i: int, j: int| 0 <= i < v2.len() && 0 <= j < v2.len() && i != j implies v2[i] != v2[j] by {
                        if i == visited.len() {
                            assert(visited.contains(v2[j]));
                        } else if j == visited.len() {
                            assert(visited.contains(v2[i]));
                        }
                    }
                }
                assert forall|i: int| 0 <= i < v2.len() implies #[trigger] v2[i] < n by {
                    if i < visited.len() {
                        assert(v2[i] == visited[i]);
                    }
                }
                assert(r.queue.len() == 1);
            },
        }
    } else {
        assert(r == LayoutState { queue, visited, steps });
    }
}

proof fn lemma_prefix_sound<A>(conns: Seq<Connection<A>>, n: usize, trace: Seq<LayoutState>, i: int)
    requires
        joins_below(conns, n),
        is_layout_prefix(conns, n, trace),
        forall|j: int| 0 <= j < trace.len() - 1 ==> fresh_apart(conns, #[trigger] trace[j]),
        0 <= i < trace.len(),
    ensures
        layout_sound(n, trace[i]),
    decreases i,
{
    if i == 0 {
        if n > 0 {
            let st = layout_start(n).steps;
            assert(st.drop_last() =~= Seq::<LayoutStep>::empty());
            assert(placed_nodes(st.drop_last()) =~= Seq::<usize>::empty());
            assert(placed_nodes(st) =~= seq![0usize]);
        } else {
            assert(placed_nodes(Seq::<LayoutStep>::empty()) =~= Seq::<usize>::empty());
        }
    } else {
        lemma_prefix_sound(conns, n, trace, i - 1);
        lemma_step_sound(conns, n, trace[i - 1]);
    }
}

/// The layout walk places every node exactly once: the nodes its steps
/// place hold each of the `n` nodes, and none twice. This holds where no
/// round finds one new node along two connections (two connections from
/// the node being placed from to the same node not yet placed would place
/// that node twice).
pub proof fn lemma_layout_places_each_once<A>(conns: Seq<Connection<A>>, n: usize, trace: Seq<LayoutState>)
    requires
        joins_below(conns, n),
        is_layout_run(conns, n, trace),
        forall|j: int| 0 <= j < trace.len() - 1 ==> fresh_apart(conns, #[trigger] trace[j]),
    ensures
        placed_nodes(trace.last().steps).no_duplicates(),
        forall|y: usize| y < n ==> #[trigger] placed_nodes(trace.last().steps).contains(y),
        forall|i: int|
            0 <= i < placed_nodes(trace.last().steps).len() ==> #[trigger] placed_nodes(
                trace.last().steps,
            )[i] < n,
{
    lemma_prefix_sound(conns, n, trace, trace.len() - 1);
    let s = trace.last();
    if s.visited.len() == n {
        lemma_distinct_below(s.visited, n as nat);
    }
}

/// No two connections join the same two different nodes.
pub open spec fn no_parallel<A>(conns: Seq<Connection<A>>) -> bool {
    forall|k: int, l: int|
        0 <= k < l < conns.len() ==> !((#[trigger] conns[k]).a.0 != conns[k].b.0 && (
        #[trigger] conns[l]).joins(conns[k].a.0, conns[k].b.0))
}

proof fn lemma_no_parallel_fresh_apart<A>(conns: Seq<Connection<A>>, u: usize, visited: Seq<usize>, k: int)
    requires
        no_parallel(conns),
        visited.contains(u),
        0 <= k <= conns.len(),
        conns.len() <= usize::MAX,
    ensures
        fresh_nodes(fresh_neighbors(conns, u, visited, k)).no_duplicates(),
        forall|j: int|
            0 <= j < fresh_neighbors(conns, u, visited, k).len() ==> {
                let f = #[trigger] fresh_neighbors(conns, u, visited, k)[j];
                &&& 0 <= f.0 < k
                &&& conns[f.0 as int].other_end(u) == Some(f.1)
            },
    decreases k,
{
    if k > 0 {
        lemma_no_parallel_fresh_apart(conns, u, visited, k - 1);
        let rest = fresh_neighbors(conns, u, visited, k - 1);
        let all = fresh_neighbors(conns, u, visited, k);
        assert forall|j: int| 0 <= j < all.len() implies {
            let f = #[trigger] all[j];
            &&& 0 <= f.0 < k
            &&& conns[f.0 as int].other_end(u) == Some(f.1)
        } by {
            if j < rest.len() {
                assert(all[j] == rest[j]);
            }
        }
        match conns[k - 1].other_end(u) {
            Some(v) => {
                if !visited.contains(v) {
                    assert(fresh_nodes(all) =~= fresh_nodes(rest).push(v));
                    assert forall|j: int| 0 <= j < rest.len() implies fresh_nodes(rest)[j] != v by {
                        let f = rest[j];
                        assert(fresh_nodes(rest)[j] == f.1);
                        if f.1 == v {
                            assert(conns[f.0 as int].other_end(u) == Some(v));
                            assert(u != v);
                            let c = conns[f.0 as int];
                            assert(c.a.0 != c.b.0);
                            assert(conns[k - 1].joins(c.a.0, c.b.0));
                        }
                    }
                    assert forall|i: int, j: int|
                        0 <= i < fresh_nodes(all).len() && 0 <= j < fresh_nodes(all).len() && i != j
                            implies fresh_nodes(all)[i] != fresh_nodes(all)[j] by {
                        if i == rest.len() {
                            assert(fresh_nodes(rest)[j] != v);
                        } else if j == rest.len() {
                            assert(fresh_nodes(rest)[i] != v);
                        } else {
                            assert(fresh_nodes(all)[i] == fresh_nodes(rest)[i]);
                            assert(fresh_nodes(all)[j] == fresh_nodes(rest)[j]);
                        }
                    }
                }
            },
            None => {},
        }
    }
}

/// On a graph where no two connections join the same two different nodes,
/// the layout walk places every node exactly once.
pub proof fn lemma_layout_places_each_once_without_parallels<A>(
    conns: Seq<Connection<A>>,
    n: usize,
    trace: Seq<LayoutState>,
)
    requires
        joins_below(conns, n),
        no_parallel(conns),
        conns.len() <= usize::MAX,
        is_layout_run(conns, n, trace),
    ensures
        placed_nodes(trace.last().steps).no_duplicates(),
        forall|y: usize| y < n ==> #[trigger] placed_nodes(trace.last().steps).contains(y),
{
    assert forall|j: int| 0 <= j < trace.len() - 1 implies fresh_apart(conns, #[trigger] trace[j]) by {
        lemma_queue_visited(conns, n, trace, j);
        lemma_no_parallel_fresh_apart(conns, trace[j].queue[0], trace[j].visited, conns.len() as int);
    }
    lemma_layout_places_each_once(conns, n, trace);
}

/// Every node in the queue has been visited.
proof fn lemma_queue_visited<A>(conns: Seq<Connection<A>>, n: usize, trace: Seq<LayoutState>, i: int)
    requires
        is_layout_prefix(conns, n, trace),
        0 <= i < trace.len(),
    ensures
        forall|q: int| 0 <= q < trace[i].queue.len() ==> trace[i].visited.contains(#[trigger] trace[i].queue[q]),
    decreases i,
{
    if i > 0 {
        lemma_queue_visited(conns, n, trace, i - 1);
        let s = trace[i - 1];
        let cur = s.queue[0];
        let fresh = fresh_neighbors(conns, cur, s.visited, conns.len() as int);
        let fnodes = fresh_nodes(fresh);
        let visited = s.visited + fnodes;
        let queue = (s.queue + fnodes).drop_first();
        assert forall|q: int| 0 <= q < queue.len() implies visited.contains(#[trigger] queue[q]) by {
            if q + 1 < s.queue.len() {
                assert(queue[q] == s.queue[q + 1]);
                assert(s.visited.contains(s.queue[q + 1]));
                let w = choose|w: int| 0 <= w < s.visited.len() && s.visited[w] == s.queue[q + 1];
                assert(visited[w] == queue[q]);
            } else {
                let f = q + 1 - s.queue.len();
                assert(queue[q] == fnodes[f]);
                assert(visited[s.visited.len() + f] == fnodes[f]);
            }
        }
        if queue.len() == 0 {
            match first_missing_from(visited, 0, n as int) {
                Some(x) => {
                    assert(visited.push(x)[visited.len() as int] == x);
                },
                None => {},
            }
        }
    } else {
        if n > 0 {
            assert(seq![0usize][0] == 0usize);
        }
    }
}

/// How many nodes below `x` the visit order `visited` does not hold.
pub open spec fn count_missing(visited: Seq<usize>, x: int) -> nat
    decreases x,
{
    if x <= 0 {
        0
    } else {
        count_missing(visited, x - 1) + if visited.contains((x - 1) as usize) {
            0nat
        } else {
            1nat
        }
    }
}

proof fn lemma_missing_grow(v: Seq<usize>, w: Seq<usize>, x: int)
    requires
        forall|a: usize| v.contains(a) ==> w.contains(a),
    ensures
        count_missing(w, x) <= count_missing(v, x),
    decreases x,
{
    if x > 0 {
        lemma_missing_grow(v, w, x - 1);
    }
}

proof fn lemma_missing_shrinks(v: Seq<usize>, w: Seq<usize>, a: usize, x: int)
    requires
        forall|b: usize| v.contains(b) ==> w.contains(b),
        w.contains(a),
        !v.contains(a),
        a < x,
    ensures
        count_missing(w, x) < count_missing(v, x),
    decreases x,
{
    if x - 1 == a {
        lemma_missing_grow(v, w, x - 1);
    } else {
        lemma_missing_shrinks(v, w, a, x - 1);
    }
}

proof fn lemma_first_missing(visited: Seq<usize>, x: int, n: int)
    requires
        0 <= x <= n,
        n <= usize::MAX,
    ensures
        match first_missing_from(visited, x, n) {
            Some(y) => x <= y < n && !visited.contains(y),
            None => forall|y: usize| x <= y < n ==> #[trigger] visited.contains(y),
        },
    decreases n - x,
{
    if x < n && visited.contains(x as usize) {
        lemma_first_missing(visited, x + 1, n);
        match first_missing_from(visited, x + 1, n) {
            Some(y) => {},
            None => {
                assert forall|y: usize| x <= y < n implies #[trigger] visited.contains(y) by {
                    if y as int == x {
                        assert(y == x as usize);
                    }
                }
            },
        }
    }
}

fn first_missing(visited: &Vec<usize>, n: usize) -> (res: Option<usize>)
    ensures
        res == first_missing_from(visited@, 0, n as int),
{
    let mut x: usize = 0;
    while x < n
        invariant
            0 <= x <= n,
            first_missing_from(visited@, 0, n as int) == first_missing_from(
                visited@,
                x as int,
                n as int,
            ),
        decreases n - x,
    {
        if !contains_id(visited, x) {
            return Some(x);
        }
        x = x + 1;
    }
    None
}

impl<D, P: Copy, A> GraphData<D, P, A> {
    /// The fresh neighbors of `cur`: the connections that join it to a node
    /// not in `visited`, each with that node.
    fn fresh_neighbor_list(&self, cur: usize, visited: &Vec<usize>) -> (res: Vec<(usize, usize)>)
        ensures
            res@ == fresh_neighbors(self@.connections, cur, visited@, self@.connections.len() as int),
    {
        let conns = self.connections();
        let mut res: Vec<(usize, usize)> = Vec::new();
        let mut k: usize = 0;
        while k < conns.len()
            invariant
                conns@ == self@.connections,
                0 <= k <= conns@.len(),
                res@ == fresh_neighbors(conns@, cur, visited@, k as int),
            decreases conns@.len() - k,
        {
            let c = &conns[k];
            let other = if c.a.0 == cur {
                Some(c.b.0)
            } else if c.b.0 == cur {
                Some(c.a.0)
            } else {
                None
            };
            assert(other == conns@[k as int].other_end(cur));
            match other {
                Some(v) => {
                    if !contains_id(visited, v) {
                        res.push((k, v));
                    }
                },
                None => {},
            }
            k = k + 1;
        }
        res
    }

    /// The steps of the layout walk, in order.
    pub fn layout_steps(&self) -> (res: Vec<LayoutStep>)
        requires
            self@.wf(),
        ensures
            exists|trace: Seq<LayoutState>|
                is_layout_run(self@.connections, self@.nodes.len() as usize, trace)
                    && #[trigger] trace.last().steps == res@,
            no_parallel(self@.connections) ==> {
                &&& placed_nodes(res@).no_duplicates()
                &&& forall|y: usize| y < self@.nodes.len() ==> #[trigger] placed_nodes(res@).contains(y)
            },
    {
        let n = self.num_nodes();
        let ghost conns = self@.connections;
        let mut steps: Vec<LayoutStep> = Vec::new();
        if n == 0 {
            proof {
                let trace = seq![layout_start(n)];
                assert(trace.last().steps =~= steps@);
                assert(is_layout_run(conns, n, trace));
                assert(trace.last().steps == steps@);
                assert(placed_nodes(steps@) =~= Seq::<usize>::empty());
            }
            return steps;
        }
        let mut queue: VecDeque<usize> = VecDeque::new();
        queue.push_back(0);
        let mut visited: Vec<usize> = Vec::new();
        visited.push(0);
        steps.push(LayoutStep::Root { node: 0, seen: 1 });
        let ghost mut trace = seq![layout_start(n)];
        proof {
            assert(queue@ =~= seq![0usize]);
            assert(visited@ =~= seq![0usize]);
            assert(steps@ =~= seq![LayoutStep::Root { node: 0, seen: 1 }]);
        }
        while queue.len() > 0 && visited.len() != n
            invariant
                n == self@.nodes.len(),
                conns == self@.connections,
                self@.wf(),
                is_layout_prefix(conns, n, trace),
                trace.last() == (LayoutState { queue: queue@, visited: visited@, steps: steps@ }),
                forall|j: int| 0 <= j < queue@.len() ==> #[trigger] queue@[j] < n,
            decreases count_missing(visited@, n as int), queue@.len(),
        {
            let cur = queue[0];
            let fresh = self.fresh_neighbor_list(cur, &visited);
            let ghost s = trace.last();
            let ghost old_visited = visited@;
            let ghost old_queue = queue@;
            let seen = visited.len();
            let mut j: usize = 0;
            proof {
                lemma_fresh_bounds(conns, cur, old_visited, conns.len() as int, n);
                assert(fresh_nodes(fresh@).take(0) =~= Seq::<usize>::empty());
                assert(child_steps(fresh@, cur, seen as int).take(0) =~= Seq::<LayoutStep>::empty());
            }
            while j < fresh.len()
                invariant
                    0 <= j <= fresh@.len(),
                    seen == old_visited.len(),
                    fresh@ == fresh_neighbors(conns, cur, old_visited, conns.len() as int),
                    forall|i: int| 0 <= i < fresh@.len() ==> #[trigger] fresh@[i].1 < n,
                    visited@ == old_visited + fresh_nodes(fresh@).take(j as int),
                    queue@ == old_queue + fresh_nodes(fresh@).take(j as int),
                    steps@ == s.steps + child_steps(fresh@, cur, seen as int).take(j as int),
                    forall|i: int| 0 <= i < old_queue.len() ==> #[trigger] old_queue[i] < n,
                decreases fresh@.len() - j,
            {
                let (k, v) = fresh[j];
                let at = visited.len();
                proof {
                    assert(fresh_nodes(fresh@).take(j + 1) =~= fresh_nodes(fresh@).take(
                        j as int,
                    ).push(v));
                    assert(child_steps(fresh@, cur, seen as int).take(j + 1) =~= child_steps(
                        fresh@,
                        cur,
                        seen as int,
                    ).take(j as int).push(
                        LayoutStep::Child {
                            node: v,
                            parent: cur,
                            connection: k,
                            seen: (seen + j) as usize,
                        },
                    ));
                }
                queue.push_back(v);
                steps.push(LayoutStep::Child { node: v, parent: cur, connection: k, seen: at });
                visited.push(v);
                j = j + 1;
            }
            proof {
                assert(fresh_nodes(fresh@).take(fresh@.len() as int) =~= fresh_nodes(fresh@));
                assert(child_steps(fresh@, cur, seen as int).take(fresh@.len() as int)
                    =~= child_steps(fresh@, cur, seen as int));
            }
            let ghost mid_queue = queue@;
            queue.pop_front();
            proof {
                assert(queue@ =~= mid_queue.drop_first());
            }
            if queue.len() == 0 {
                steps.push(LayoutStep::GroupEnd);
                match first_missing(&visited, n) {
                    Some(x) => {
                        proof {
                            lemma_first_missing(visited@, 0, n as int);
                        }
                        visited.push(x);
                        steps.push(LayoutStep::Root { node: x, seen: visited.len() });
                        queue.push_back(x);
                        proof {
                            assert(queue@ =~= seq![x]);
                        }
                    },
                    None => {},
                }
            }
            proof {
                let next = layout_step(conns, n, s);
                assert(next == (LayoutState { queue: queue@, visited: visited@, steps: steps@ }));
                lemma_extend_prefix(conns, n, trace, next);
                trace = trace.push(next);
                lemma_measure_drops(conns, n, s, next, fresh@, cur);
            }
        }
        let num_connections = self.connections().len();
        proof {
            assert(is_layout_run(conns, n, trace));
            assert(trace.last().steps == steps@);
            if no_parallel(conns) {
                assert(conns.len() == num_connections);
                assert(joins_below(conns, n)) by {
                    assert forall|k: int| 0 <= k < conns.len() implies (#[trigger] conns[k]).a.0 < n
                        && conns[k].b.0 < n by {
                        assert(self@.connections[k].a.0 < self@.nodes.len());
                    }
                }
                lemma_layout_places_each_once_without_parallels(conns, n, trace);
            }
        }
        steps
    }
}

proof fn lemma_extend_prefix<A>(conns: Seq<Connection<A>>, n: usize, trace: Seq<LayoutState>, next: LayoutState)
    requires
        is_layout_prefix(conns, n, trace),
        !layout_done(n, trace.last()),
        next == layout_step(conns, n, trace.last()),
    ensures
        is_layout_prefix(conns, n, trace.push(next)),
        trace.push(next).last() == next,
{
    let t = trace.push(next);
    assert forall|i: int| 0 <= i < t.len() - 1 implies !layout_done(n, #[trigger] t[i]) && t[i + 1]
        == layout_step(conns, n, t[i]) by {
        if i < trace.len() - 1 {
            assert(t[i] == trace[i]);
            assert(t[i + 1] == trace[i + 1]);
        }
    }
}

/// The fresh neighbors of a node of a well-formed graph are nodes of it,
/// not yet visited.
proof fn lemma_fresh_bounds<A>(conns: Seq<Connection<A>>, u: usize, visited: Seq<usize>, k: int, n: usize)
    requires
        0 <= k <= conns.len(),
        forall|j: int|
            0 <= j < conns.len() ==> #[trigger] conns[j].a.0 < n && conns[j].b.0 < n,
    ensures
        forall|i: int|
            0 <= i < fresh_neighbors(conns, u, visited, k).len() ==> #[trigger] fresh_neighbors(
                conns,
                u,
                visited,
                k,
            )[i].1 < n && !visited.contains(fresh_neighbors(conns, u, visited, k)[i].1),
    decreases k,
{
    if k > 0 {
        lemma_fresh_bounds(conns, u, visited, k - 1, n);
        assert(conns[k - 1].a.0 < n && conns[k - 1].b.0 < n);
        let rest = fresh_neighbors(conns, u, visited, k - 1);
        let all = fresh_neighbors(conns, u, visited, k);
        assert forall|i: int| 0 <= i < all.len() implies #[trigger] all[i].1 < n && !visited.contains(
            all[i].1,
        ) by {
            if i < rest.len() {
                assert(all[i] == rest[i]);
            }
        }
    }
}

/// Each round of the walk visits a node it had not, or shortens the queue.
proof fn lemma_measure_drops<A>(
    conns: Seq<Connection<A>>,
    n: usize,
    s: LayoutState,
    next: LayoutState,
    fresh: Seq<(usize, usize)>,
    cur: usize,
)
    requires
        s.queue.len() > 0,
        cur == s.queue[0],
        fresh == fresh_neighbors(conns, cur, s.visited, conns.len() as int),
        next == layout_step(conns, n, s),
        forall|j: int|
            0 <= j < conns.len() ==> #[trigger] conns[j].a.0 < n && conns[j].b.0 < n,
    ensures
        count_missing(next.visited, n as int) < count_missing(s.visited, n as int) || (
        count_missing(next.visited, n as int) == count_missing(s.visited, n as int)
            && next.queue.len() < s.queue.len()),
{
    lemma_fresh_bounds(conns, cur, s.visited, conns.len() as int, n);
    let grown = s.visited + fresh_nodes(fresh);
    assert forall|b: usize| s.visited.contains(b) implies grown.contains(b) by {
        let i = choose|i: int| 0 <= i < s.visited.len() && s.visited[i] == b;
        assert(grown[i] == b);
    }
    assert forall|b: usize| grown.contains(b) implies next.visited.contains(b) by {
        let i = choose|i: int| 0 <= i < grown.len() && grown[i] == b;
        assert(next.visited[i] == b);
    }
    assert forall|b: usize| s.visited.contains(b) implies next.visited.contains(b) by {
        assert(grown.contains(b));
    }
    if fresh.len() > 0 {
        let a = fresh[0].1;
        assert(grown[s.visited.len() as int] == a);
        assert(next.visited.contains(a));
        lemma_missing_shrinks(s.visited, next.visited, a, n as int);
    } else {
        assert(grown =~= s.visited);
        let queue = (s.queue + fresh_nodes(fresh)).drop_first();
        if queue.len() == 0 {
            lemma_first_missing(grown, 0, n as int);
            match first_missing_from(grown, 0, n as int) {
                Some(x) => {
                    assert(next.visited[grown.len() as int] == x);
                    lemma_missing_shrinks(s.visited, next.visited, x, n as int);
                },
                None => {
                    lemma_missing_grow(s.visited, next.visited, n as int);
                    lemma_missing_grow(next.visited, s.visited, n as int);
                },
            }
        } else {
            lemma_missing_grow(s.visited, next.visited, n as int);
            lemma_missing_grow(next.visited, s.visited, n as int);
        }
    }
}

} // verus!
