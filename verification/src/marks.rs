//! The second phase of a collection: telling the living from the dead.
//!
//! As in a scan, what is told of an object (its flags, the number of handles to
//! it) may be anything.

use crate::collections::{hash_elements, set_contains, set_insert, set_items, set_new};
use crate::collector::{Collector, GraphView, NodeId};
use crate::flags::{has_bits, GcFlags, DIRTY_BIT, VISITED_BIT};
use crate::graph::{
    lemma_closed, lemma_reaches_self, lemma_reaches_step, lemma_sum_at, reaches, sum,
};
use crate::scan::Scan;
use im::HashSet;
use std::collections::VecDeque;
use vstd::prelude::*;

verus! {

/// What the collector has found out about a node.
#[derive(Clone, Copy, Debug, PartialEq, Eq, Structural)]
pub enum GraphNode {
    /// Nothing.
    Unknown,
    /// All references to it come from other nodes.
    Dead,
    /// There is a reference to it that comes from no node, or it could not be
    /// visited.
    Live,
    /// A mutator let go of a reference to it since it was visited.
    Dirty,
    /// A node that is alive leads to it.
    Reachable,
}

/// What was found out about each node, and the ids of those that are alive.
#[verifier::ext_equal]
pub struct MarksView {
    pub nodes: Seq<GraphNode>,
    pub ids: Set<usize>,
}

/// "Node `i` refers to node `j`, which is not in `ids`."
pub open spec fn avoiding(g: GraphView, ids: Set<usize>) -> spec_fn(int, int) -> bool {
    |i: int, j: int| g.edge()(i, j) && !ids.contains(j as usize)
}

/// The nodes in `ids`, and all that `from` reaches without passing through them.
pub open spec fn spread_from(g: GraphView, ids: Set<usize>, from: usize) -> Set<usize> {
    Set::new(|j: usize| ids.contains(j) || reaches(avoiding(g, ids), from as int, j as int))
}

/// What was found out about each node of the graph.
pub struct Marks {
    graph_nodes: Vec<GraphNode>,
    alive_ids: HashSet<usize>,
}

/// The number of nodes below `n` that are not in `ids`.
spec fn others(n: nat, ids: Set<usize>) -> nat {
    sum(n, |i: int| if ids.contains(i as usize) { 0nat } else { 1nat })
}

proof fn lemma_others(n: nat, ids: Set<usize>, k: usize)
    requires
        k < n <= u32::MAX + 1,
        !ids.contains(k),
    ensures
        others(n, ids.insert(k)) < others(n, ids),
{
    lemma_sum_at(
        n,
        |i: int| if ids.contains(i as usize) { 0nat } else { 1nat },
        |i: int| if ids.insert(k).contains(i as usize) { 0nat } else { 1nat },
        k as int,
    );
}

impl Marks {
    /// The marks.
    pub closed spec fn view(&self) -> MarksView {
        MarksView { nodes: self.graph_nodes@, ids: hash_elements(self.alive_ids) }
    }

    /// The marks after a scan. Nodes that could not be visited are alive, and
    /// the weak references to them are dropped at once, so that they go when
    /// their last handle does; so are those to objects that were freed.
    pub fn settle(c: &mut Collector, scan: &Scan) -> (r: Self)
        requires
            old(c)@.wf(),
        ensures
            final(c)@.deferred == old(c)@.deferred.remove_keys(scan@.alive),
            final(c)@.visited == old(c)@.visited.remove_keys(scan@.alive),
            final(c)@.neighbors == old(c)@.neighbors,
            forall|id: usize| #[trigger] r@.ids.contains(id) <==> exists|p: usize|
                scan@.alive.contains(p) && old(c)@.knows(p) && #[trigger] old(c)@.visited[p].0 == id,
            r@.nodes.len() == old(c)@.neighbors.len(),
            forall|i: int| 0 <= i < r@.nodes.len() ==> #[trigger] r@.nodes[i] == (if r@.ids.contains(i as usize) {
                GraphNode::Live
            } else {
                GraphNode::Unknown
            }),
    {
        let ghost g = c@;
        let n: usize = c.len();
        let mut graph_nodes: Vec<GraphNode> = Vec::new();
        let mut i: usize = 0;
        while i < n
            invariant
                i <= n,
                graph_nodes@.len() == i,
                forall|j: int| 0 <= j < i ==> #[trigger] graph_nodes@[j] == GraphNode::Unknown,
            decreases n - i,
        {
            graph_nodes.push(GraphNode::Unknown);
            i += 1;
        }
        let mut alive_ids = set_new();
        let alive = set_items(scan.alive());
        let mut k: usize = 0;
        while k < alive.len()
            invariant
                k <= alive@.len(),
                g.wf(),
                n == g.neighbors.len(),
                alive@.no_duplicates(),
                c@.deferred == g.deferred.remove_keys(alive@.take(k as int).to_set()),
                c@.visited == g.visited.remove_keys(alive@.take(k as int).to_set()),
                c@.neighbors == g.neighbors,
                forall|id: usize| #[trigger] hash_elements(alive_ids).contains(id) <==> exists|j: int|
                    0 <= j < k && g.knows(#[trigger] alive@[j]) && g.visited[alive@[j]].0 == id,
                graph_nodes@.len() == n,
                forall|j: int| 0 <= j < n ==> #[trigger] graph_nodes@[j] == (if hash_elements(alive_ids).contains(
                    j as usize,
                ) {
                    GraphNode::Live
                } else {
                    GraphNode::Unknown
                }),
            decreases alive@.len() - k,
        {
            let p = alive[k];
            let ghost before = hash_elements(alive_ids);
            let ghost done = alive@.take(k as int);
            proof {
                assert(!done.to_set().contains(p)) by {
                    if done.contains(p) {
                        let j = choose|j: int| 0 <= j < done.len() && done[j] == p;
                        assert(alive@[j] == alive@[k as int]);
                    }
                }
                assert(alive@.take(k + 1) =~= done.push(p));
                assert(done.push(p).to_set() =~= done.to_set().insert(p)) by {
                    assert forall|x: usize| done.push(p).contains(x) <==> done.contains(x) || x == p by {
                        if done.contains(x) {
                            let j = choose|j: int| 0 <= j < done.len() && done[j] == x;
                            assert(done.push(p)[j] == x);
                        }
                        assert(done.push(p)[k as int] == p);
                    }
                }
            }
            match c.node(p) {
                Some((id, _)) => {
                    let at: usize = id.0 as usize;
                    assert(g.knows(p));
                    graph_nodes[at] = GraphNode::Live;
                    set_insert(&mut alive_ids, at);
                    assert(hash_elements(alive_ids) == before.insert(at));
                },
                None => {},
            }
            c.forget(p);
            k += 1;
            proof {
                assert(c@.deferred =~= g.deferred.remove_keys(alive@.take(k as int).to_set()));
                assert(c@.visited =~= g.visited.remove_keys(alive@.take(k as int).to_set()));
                assert forall|id: usize| #[trigger] hash_elements(alive_ids).contains(id) <==> exists|j: int|
                    0 <= j < k && g.knows(#[trigger] alive@[j]) && g.visited[alive@[j]].0 == id by {
                    assert(before.contains(id) <==> exists|j: int|
                        0 <= j < k - 1 && g.knows(#[trigger] alive@[j]) && g.visited[alive@[j]].0 == id);
                    assert(alive@[k - 1] == p);
                }
            }
        }
        proof {
            assert(alive@.take(alive@.len() as int) =~= alive@);
            assert(alive@.to_set() == scan@.alive);
            assert forall|id: usize| #[trigger] hash_elements(alive_ids).contains(id) <==> exists|p: usize|
                scan@.alive.contains(p) && g.knows(p) && #[trigger] g.visited[p].0 == id by {
                if hash_elements(alive_ids).contains(id) {
                    let j = choose|j: int|
                        0 <= j < alive@.len() && g.knows(#[trigger] alive@[j]) && g.visited[alive@[j]].0 == id;
                    assert(alive@.to_set().contains(alive@[j]));
                    assert(g.visited[alive@[j]].0 == id);
                }
                if exists|p: usize| scan@.alive.contains(p) && g.knows(p) && #[trigger] g.visited[p].0 == id {
                    let p = choose|p: usize| scan@.alive.contains(p) && g.knows(p) && #[trigger] g.visited[p].0 == id;
                    assert(alive@.to_set().contains(p));
                    let j = choose|j: int| 0 <= j < alive@.len() && alive@[j] == p;
                    assert(g.knows(alive@[j]) && g.visited[alive@[j]].0 == id);
                }
            }
        }
        Marks { graph_nodes, alive_ids }
    }

    /// Whether the node is known to be alive.
    pub fn is_alive(&self, id: NodeId) -> (r: bool)
        ensures
            r == self@.ids.contains(id.0 as usize),
    {
        set_contains(&self.alive_ids, id.0 as usize)
    }

    /// What was found out about the node.
    pub fn mark(&self, id: NodeId) -> (r: GraphNode)
        requires
            id.0 < self@.nodes.len(),
        ensures
            r == self@.nodes[id.0 as int],
    {
        self.graph_nodes[id.0 as usize]
    }

    /// Judges the visited object at `p`, which is not known to be alive, by its
    /// flags and the number of handles to it. It is alive if a mutator let go
    /// of a handle to it or took hold of its contents since it was visited, or
    /// if there is a handle to it that was not found inside a node; and then so
    /// is all that it leads to.
    pub fn judge(&mut self, c: &Collector, p: usize, flags: GcFlags, count: usize)
        requires
            c@.knows(p),
            old(self)@.nodes.len() == c@.neighbors.len() <= u32::MAX + 1,
            c@.id(p) < c@.neighbors.len(),
            forall|i: int, x: u32| 0 <= i < c@.neighbors.len() && #[trigger] c@.neighbors[i].1.contains(x)
                ==> x < c@.neighbors.len(),
            !old(self)@.ids.contains(c@.visited[p].0 as usize),
            has_bits(flags@, VISITED_BIT),
        ensures
            ({
                let id = c@.visited[p].0 as usize;
                let ids = spread_from(c@, old(self)@.ids, id);
                if !has_bits(flags@, DIRTY_BIT) && count == c@.visited[p].1 {
                    &&& final(self)@.nodes == old(self)@.nodes.update(id as int, GraphNode::Dead)
                    &&& final(self)@.ids == old(self)@.ids
                } else {
                    &&& final(self)@.ids == ids
                    &&& final(self)@.nodes.len() == old(self)@.nodes.len()
                    &&& forall|j: int| 0 <= j < old(self)@.nodes.len() ==> #[trigger] final(self)@.nodes[j] == (if j
                        == id {
                        if has_bits(flags@, DIRTY_BIT) { GraphNode::Dirty } else { GraphNode::Live }
                    } else if ids.contains(j as usize) && !old(self)@.ids.contains(j as usize) {
                        GraphNode::Reachable
                    } else {
                        old(self)@.nodes[j]
                    })
                }
            }),
    {
        match c.node(p) {
            Some((id, incoming)) => {
                let at: usize = id.0 as usize;
                if flags.contains(GcFlags::dirty()) {
                    self.graph_nodes[at] = GraphNode::Dirty;
                } else if count == incoming {
                    self.graph_nodes[at] = GraphNode::Dead;
                    return;
                } else {
                    self.graph_nodes[at] = GraphNode::Live;
                }
                self.spread(c, at);
            },
            None => {},
        }
    }

    /// Node `from` is alive, and so is all that it leads to.
    fn spread(&mut self, c: &Collector, from: usize)
        requires
            old(self)@.nodes.len() == c@.neighbors.len() <= u32::MAX + 1,
            from < c@.neighbors.len(),
            forall|i: int, x: u32| 0 <= i < c@.neighbors.len() && #[trigger] c@.neighbors[i].1.contains(x)
                ==> x < c@.neighbors.len(),
            !old(self)@.ids.contains(from),
        ensures
            final(self)@.ids == spread_from(c@, old(self)@.ids, from),
            final(self)@.nodes.len() == old(self)@.nodes.len(),
            forall|j: int| 0 <= j < old(self)@.nodes.len() ==> #[trigger] final(self)@.nodes[j] == (if j != from
                && final(self)@.ids.contains(j as usize) && !old(self)@.ids.contains(j as usize) {
                GraphNode::Reachable
            } else {
                old(self)@.nodes[j]
            }),
    {
        let ghost g = c@;
        let ghost n = g.neighbors.len();
        let ghost start = self@;
        let ghost rel = avoiding(g, start.ids);
        proof {
            lemma_reaches_self(rel, from as int);
        }
        set_insert(&mut self.alive_ids, from);
        let mut to_visit_ids: VecDeque<usize> = VecDeque::new();
        to_visit_ids.push_front(from);
        assert(to_visit_ids@ =~= seq![from]);
        assert(to_visit_ids@[0] == from);
        loop
            invariant
                g == c@,
                n == g.neighbors.len(),
                n <= u32::MAX + 1,
                from < n,
                rel == avoiding(g, start.ids),
                start == old(self)@,
                start.nodes.len() == n,
                !start.ids.contains(from),
                forall|i: int, x: u32| 0 <= i < n && #[trigger] g.neighbors[i].1.contains(x) ==> x < n,
                self@.nodes.len() == n,
                self@.ids.contains(from),
                forall|j: usize| start.ids.contains(j) ==> #[trigger] self@.ids.contains(j),
                forall|j: usize| #[trigger] self@.ids.contains(j) && !start.ids.contains(j) ==> j < n && reaches(
                    rel,
                    from as int,
                    j as int,
                ),
                forall|k: int| 0 <= k < to_visit_ids@.len() ==> {
                    &&& self@.ids.contains(#[trigger] to_visit_ids@[k])
                    &&& !start.ids.contains(to_visit_ids@[k])
                },
                forall|i: usize, x: u32|
                    self@.ids.contains(i) && !start.ids.contains(i) && !to_visit_ids@.contains(i)
                        && #[trigger] g.neighbors[i as int].1.contains(x) ==> self@.ids.contains(x as usize),
                forall|j: int| 0 <= j < n ==> #[trigger] self@.nodes[j] == (if j != from && self@.ids.contains(
                    j as usize,
                ) && !start.ids.contains(j as usize) {
                    GraphNode::Reachable
                } else {
                    start.nodes[j]
                }),
            decreases others(n, self@.ids), to_visit_ids@.len(),
        {
            let ghost queue = to_visit_ids@;
            let ghost before = self@;
            match to_visit_ids.pop_back() {
                None => {
                    proof {
                        let end = self@.ids;
                        let closed = |x: int| 0 <= x < n && end.contains(x as usize) && !start.ids.contains(x as usize);
                        assert forall|x: int, y: int| closed(x) && #[trigger] rel(x, y) implies closed(y) by {
                            assert(g.neighbors[(x as usize) as int].1.contains(y as u32));
                            assert(!queue.contains(x as usize));
                        }
                        assert forall|j: usize| end.contains(j) <==> spread_from(g, start.ids, from).contains(j) by {
                            if reaches(rel, from as int, j as int) {
                                lemma_closed(rel, closed, from as int, j as int);
                            }
                        }
                        assert(end =~= spread_from(g, start.ids, from));
                    }
                    return;
                },
                Some(outgoing) => {
                    assert(queue.last() == queue[queue.len() - 1]);
                    assert(to_visit_ids@ =~= queue.drop_last());
                    assert(before.ids.contains(outgoing) && !start.ids.contains(outgoing));
                    assert forall|a: usize| queue.contains(a) && a != outgoing implies to_visit_ids@.contains(a) by {
                        let k = choose|k: int| 0 <= k < queue.len() && queue[k] == a;
                        assert(to_visit_ids@[k] == a);
                    }
                    let edges = c.outgoing(outgoing);
                    let mut i: usize = 0;
                    while i < edges.len()
                        invariant
                            i <= edges@.len(),
                            g == c@,
                            n == g.neighbors.len(),
                            n <= u32::MAX + 1,
                            from < n,
                            outgoing < n,
                            rel == avoiding(g, start.ids),
                            start.nodes.len() == n,
                            !start.ids.contains(from),
                            forall|a: int, x: u32| 0 <= a < n && #[trigger] g.neighbors[a].1.contains(x) ==> x < n,
                            forall|x: u32| #[trigger] edges@.contains(x) <==> g.neighbors[outgoing as int].1.contains(x),
                            queue.len() > 0,
                            before.ids.contains(outgoing),
                            !start.ids.contains(outgoing),
                            reaches(rel, from as int, outgoing as int),
                            self@.nodes.len() == n,
                            self@.ids.contains(from),
                            forall|j: usize| before.ids.contains(j) ==> #[trigger] self@.ids.contains(j),
                            forall|j: usize| start.ids.contains(j) ==> #[trigger] self@.ids.contains(j),
                            forall|j: usize| #[trigger] self@.ids.contains(j) && !start.ids.contains(j) ==> j < n
                                && reaches(rel, from as int, j as int),
                            forall|k: int| 0 <= k < to_visit_ids@.len() ==> {
                                &&& self@.ids.contains(#[trigger] to_visit_ids@[k])
                                &&& !start.ids.contains(to_visit_ids@[k])
                            },
                            forall|a: usize, x: u32|
                                self@.ids.contains(a) && !start.ids.contains(a) && !to_visit_ids@.contains(a) && a
                                    != outgoing && #[trigger] g.neighbors[a as int].1.contains(x)
                                    ==> self@.ids.contains(x as usize),
                            forall|k: int| 0 <= k < i ==> self@.ids.contains((#[trigger] edges@[k]) as usize),
                            forall|j: int| 0 <= j < n ==> #[trigger] self@.nodes[j] == (if j != from
                                && self@.ids.contains(j as usize) && !start.ids.contains(j as usize) {
                                GraphNode::Reachable
                            } else {
                                start.nodes[j]
                            }),
                            others(n, self@.ids) <= others(n, before.ids),
                            others(n, self@.ids) < others(n, before.ids) || to_visit_ids@.len() < queue.len(),
                        decreases edges@.len() - i,
                    {
                        let ghost waiting = to_visit_ids@;
                        let ghost now = self@;
                        let neighbor: usize = edges[i] as usize;
                        proof {
                            assert(edges@.contains(edges@[i as int]));
                            assert(g.neighbors[outgoing as int].1.contains(edges@[i as int]));
                        }
                        if !set_contains(&self.alive_ids, neighbor) {
                            proof {
                                assert(rel(outgoing as int, neighbor as int));
                                lemma_reaches_step(rel, from as int, outgoing as int, neighbor as int);
                                lemma_others(n, self@.ids, neighbor);
                            }
                            self.graph_nodes[neighbor] = GraphNode::Reachable;
                            set_insert(&mut self.alive_ids, neighbor);
                            to_visit_ids.push_front(neighbor);
                            proof {
                                assert(self@.ids == now.ids.insert(neighbor));
                                assert(to_visit_ids@ =~= seq![neighbor] + waiting);
                                assert(to_visit_ids@[0] == neighbor);
                                assert forall|a: usize| waiting.contains(a) implies to_visit_ids@.contains(a) by {
                                    let k = choose|k: int| 0 <= k < waiting.len() && waiting[k] == a;
                                    assert(to_visit_ids@[k + 1] == a);
                                }
                                assert forall|k: int| 0 <= k < to_visit_ids@.len() implies self@.ids.contains(
                                    #[trigger] to_visit_ids@[k],
                                ) && !start.ids.contains(to_visit_ids@[k]) by {
                                    if k > 0 {
                                        assert(to_visit_ids@[k] == waiting[k - 1]);
                                    }
                                }
                            }
                        }
                        i += 1;
                    }
                    proof {
                        assert forall|a: usize, x: u32|
                            self@.ids.contains(a) && !start.ids.contains(a) && !to_visit_ids@.contains(a)
                                && #[trigger] g.neighbors[a as int].1.contains(x) implies self@.ids.contains(x as usize) by {
                            if a == outgoing {
                                assert(edges@.contains(x));
                                let k = choose|k: int| 0 <= k < edges@.len() && edges@[k] == x;
                                assert(self@.ids.contains(edges@[k] as usize));
                            }
                        }
                    }
                },
            }
        }
    }
}

} // verus!
