use std::collections::VecDeque;
use vstd::prelude::*;

use crate::graph::connections::Connection;
use crate::graph::data::{contains_id, first_unvisited, GraphData, GraphNode, GraphView};

verus! {

/// Whether every entry of `s` is a node index of `g`.
pub open spec fn all_nodes_of<D, P, A>(g: GraphView<D, P, A>, s: Seq<usize>) -> bool {
    forall|k: int| 0 <= k < s.len() ==> #[trigger] s[k] < g.nodes.len()
}

/// A walk over a graph that keeps a stack of the nodes still to be
/// explored and yields the node on top of it at each step: on entering a
/// node, and again each time the walk comes back to it.
pub struct DepthFirstIterator<'graph, D, P, A> {
    graph_data: &'graph GraphData<D, P, A>,
    visited: Vec<usize>,
    stack: VecDeque<usize>,
}

impl<'graph, D, P: Copy, A> DepthFirstIterator<'graph, D, P, A> {
    pub closed spec fn graph(&self) -> GraphView<D, P, A> {
        self.graph_data@
    }

    pub closed spec fn visited(&self) -> Seq<usize> {
        self.visited@
    }

    pub closed spec fn stack(&self) -> Seq<usize> {
        self.stack@
    }

    /// The walk can go on without indexing outside the graph.
    pub open spec fn inv(&self) -> bool {
        &&& self.graph().wf()
        &&& all_nodes_of(self.graph(), self.stack())
        &&& all_nodes_of(self.graph(), self.visited())
    }

    /// A walk about to start at `starting_node`.
    pub fn new(data: &'graph GraphData<D, P, A>, starting_node: usize) -> (res: Self)
        ensures
            res.graph() == data@,
            res.visited() == Seq::<usize>::empty(),
            res.stack() == seq![starting_node],
            res.inv() <==> data@.wf() && starting_node < data@.nodes.len(),
    {
        let mut stack: VecDeque<usize> = VecDeque::new();
        stack.push_back(starting_node);
        let res = DepthFirstIterator { graph_data: data, visited: Vec::new(), stack };
        assert(res.stack() =~= seq![starting_node]);
        assert(res.stack()[0] == starting_node);
        res
    }

    /// The next step of the walk.
    ///
    /// The first step yields the start. After that the walk ends once every
    /// node was visited or the stack is empty; otherwise it yields the top
    /// of the stack, marks it visited, and either pushes its first unvisited
    /// neighbor or, where there is none, pops it.
    pub fn next(&mut self) -> (res: Option<(usize, &'graph GraphNode<D, P>)>)
        requires
            old(self).inv(),
        ensures
            final(self).inv(),
            final(self).graph() == old(self).graph(),
            ({
                let g = old(self).graph();
                let v = old(self).visited();
                let s = old(self).stack();
                if v.len() == 0 && s.len() == 1 {
                    &&& final(self).visited() == v.push(s[0])
                    &&& final(self).stack() == s
                    &&& res matches Some(r) && r.0 == s[0] && r.1@ == g.nodes[s[0] as int]
                } else if v.len() == g.nodes.len() || s.len() == 0 {
                    &&& res is None
                    &&& final(self).visited() == v
                    &&& final(self).stack() == s
                } else {
                    let cur = s.last();
                    let v2 = if v.contains(cur) {
                        v
                    } else {
                        v.push(cur)
                    };
                    &&& final(self).visited() == v2
                    &&& final(self).stack() == match first_unvisited(g.connections, cur, v2) {
                        Some(x) => s.push(x),
                        None => s.drop_last(),
                    }
                    &&& res matches Some(r) && r.0 == cur && r.1@ == g.nodes[cur as int]
                }
            }),
    {
        let ghost g = self.graph();
        let ghost s = self.stack();
        let graph = self.graph_data;
        if self.visited.len() == 0 && self.stack.len() == 1 {
            let next = self.stack[0];
            self.visited.push(next);
            return match graph.get(next) {
                Some(node) => Some((next, node)),
                None => None,
            };
        }
        if self.visited.len() == graph.num_nodes() {
            return None;
        }
        if self.stack.len() == 0 {
            return None;
        }
        let current = self.stack[self.stack.len() - 1];
        if !contains_id(&self.visited, current) {
            self.visited.push(current);
        }
        match graph.first_unvisited_neighbor(current, &self.visited) {
            Some(next) => {
                proof {
                    crate::graph::data::lemma_first_unvisited_sound(
                        g.connections,
                        current,
                        self.visited@,
                    );
                    let k = choose|k: int|
                        0 <= k < g.connections.len() && #[trigger] g.connections[k].other_end(
                            current,
                        ) == Some(next);
                    assert(g.connections[k].a.0 < g.nodes.len());
                    assert(g.connections[k].b.0 < g.nodes.len());
                }
                self.stack.push_back(next);
            },
            None => {
                self.stack.pop_back();
                assert(self.stack@ =~= s.drop_last());
            },
        }
        match graph.get(current) {
            Some(node) => Some((current, node)),
            None => None,
        }
    }
}

/// What is left of the queue, and the node yielded, when a breadth-first
/// step looks for the next node: fronts without an unvisited neighbor are
/// dropped until one has one, which is appended and yielded.
pub open spec fn bfs_advance<A>(
    conns: Seq<Connection<A>>,
    n: nat,
    visited: Seq<usize>,
    queue: Seq<usize>,
) -> (Seq<usize>, Option<usize>)
    decreases queue.len(),
{
    if visited.len() == n || queue.len() == 0 {
        (queue, None)
    } else {
        match first_unvisited(conns, queue[0], visited) {
            Some(x) => (queue.push(x), Some(x)),
            None => bfs_advance(conns, n, visited, queue.drop_first()),
        }
    }
}

/// A walk over a graph that keeps a queue of nodes and yields each newly
/// found neighbor of the front of the queue.
pub struct BreadthFirstIterator<'graph, D, P, A> {
    graph_data: &'graph GraphData<D, P, A>,
    visited: Vec<usize>,
    queue: VecDeque<usize>,
}

impl<'graph, D, P: Copy, A> BreadthFirstIterator<'graph, D, P, A> {
    pub closed spec fn graph(&self) -> GraphView<D, P, A> {
        self.graph_data@
    }

    pub closed spec fn visited(&self) -> Seq<usize> {
        self.visited@
    }

    pub closed spec fn queue(&self) -> Seq<usize> {
        self.queue@
    }

    /// The walk can go on without indexing outside the graph.
    pub open spec fn inv(&self) -> bool {
        &&& self.graph().wf()
        &&& all_nodes_of(self.graph(), self.queue())
        &&& all_nodes_of(self.graph(), self.visited())
    }

    /// A walk about to start at `starting_node`.
    pub fn new(data: &'graph GraphData<D, P, A>, starting_node: usize) -> (res: Self)
        ensures
            res.graph() == data@,
            res.visited() == Seq::<usize>::empty(),
            res.queue() == seq![starting_node],
            res.inv() <==> data@.wf() && starting_node < data@.nodes.len(),
    {
        let mut queue: VecDeque<usize> = VecDeque::new();
        queue.push_back(starting_node);
        let res = BreadthFirstIterator { graph_data: data, visited: Vec::new(), queue };
        assert(res.queue() =~= seq![starting_node]);
        assert(res.queue()[0] == starting_node);
        res
    }

    /// The next step of the walk.
    ///
    /// The first step yields the start. After that the walk ends once every
    /// node was visited; otherwise fronts of the queue without an unvisited
    /// neighbor are dropped, and the first unvisited neighbor of the first
    /// front that has one is queued, marked visited and yielded. The walk
    /// ends where the queue runs out.
    pub fn next(&mut self) -> (res: Option<(usize, &'graph GraphNode<D, P>)>)
        requires
            old(self).inv(),
        ensures
            final(self).inv(),
            final(self).graph() == old(self).graph(),
            ({
                let g = old(self).graph();
                let v = old(self).visited();
                let q = old(self).queue();
                if v.len() == 0 && q.len() == 1 {
                    &&& final(self).visited() == v.push(q[0])
                    &&& final(self).queue() == q
                    &&& res matches Some(r) && r.0 == q[0] && r.1@ == g.nodes[q[0] as int]
                } else {
                    let (q2, found) = bfs_advance(g.connections, g.nodes.len(), v, q);
                    &&& final(self).queue() == q2
                    &&& match found {
                        Some(x) => {
                            &&& final(self).visited() == v.push(x)
                            &&& res matches Some(r) && r.0 == x && r.1@ == g.nodes[x as int]
                        },
                        None => {
                            &&& final(self).visited() == v
                            &&& res is None
                        },
                    }
                }
            }),
    {
        let ghost g = self.graph();
        let graph = self.graph_data;
        if self.visited.len() == 0 && self.queue.len() == 1 {
            let start = self.queue[0];
            self.visited.push(start);
            return match graph.get(start) {
                Some(node) => Some((start, node)),
                None => None,
            };
        }
        loop
            invariant
                self.inv(),
                self.graph() == g,
                g == old(self).graph(),
                graph@ == g,
                !(old(self).visited().len() == 0 && old(self).queue().len() == 1),
                self.visited() == old(self).visited(),
                bfs_advance(g.connections, g.nodes.len(), old(self).visited(), old(self).queue())
                    == bfs_advance(g.connections, g.nodes.len(), self.visited(), self.queue()),
            decreases self.queue@.len(),
        {
            if self.visited.len() == graph.num_nodes() {
                return None;
            }
            if self.queue.len() == 0 {
                return None;
            }
            let current = self.queue[0];
            let ghost q = self.queue@;
            match graph.first_unvisited_neighbor(current, &self.visited) {
                Some(next) => {
                    proof {
                        crate::graph::data::lemma_first_unvisited_sound(
                            g.connections,
                            current,
                            self.visited@,
                        );
                        let k = choose|k: int|
                            0 <= k < g.connections.len() && #[trigger] g.connections[k].other_end(
                                current,
                            ) == Some(next);
                        assert(g.connections[k].a.0 < g.nodes.len());
                        assert(g.connections[k].b.0 < g.nodes.len());
                    }
                    self.queue.push_back(next);
                    self.visited.push(next);
                    return match graph.get(next) {
                        Some(node) => Some((next, node)),
                        None => None,
                    };
                },
                None => {
                    self.queue.pop_front();
                    assert(self.queue@ =~= q.drop_first());
                },
            }
        }
    }
}

impl<D, P: Copy, A> GraphData<D, P, A> {
    /// A depth-first walk starting at `starting_node`.
    pub fn iter_dfs<'graph>(&'graph self, starting_node: usize) -> (res: DepthFirstIterator<
        'graph,
        D,
        P,
        A,
    >)
        ensures
            res.graph() == self@,
            res.visited() == Seq::<usize>::empty(),
            res.stack() == seq![starting_node],
            res.inv() <==> self@.wf() && starting_node < self@.nodes.len(),
    {
        DepthFirstIterator::new(self, starting_node)
    }

    /// A breadth-first walk starting at `starting_node`.
    pub fn iter_bfs<'graph>(&'graph self, starting_node: usize) -> (res: BreadthFirstIterator<
        'graph,
        D,
        P,
        A,
    >)
        ensures
            res.graph() == self@,
            res.visited() == Seq::<usize>::empty(),
            res.queue() == seq![starting_node],
            res.inv() <==> self@.wf() && starting_node < self@.nodes.len(),
    {
        BreadthFirstIterator::new(self, starting_node)
    }
}

} // verus!
