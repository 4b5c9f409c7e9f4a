//! What a scan finds in a heap that no one else works on.

use crate::collector::{
    lemma_add_node_wf, lemma_id_left, lemma_ready_prefix, lists_found, GraphView,
};
use crate::flags::{has_bits, lemma_flag_words, VISITED_BIT};
use crate::graph::{lemma_closed, occurrences, reaches};
use crate::model::{
    lemma_edge_live, lemma_incoming_insert, lemma_incoming_le, lemma_incoming_same, lemma_reach_edge,
    lemma_reach_finite, lemma_reach_live, lemma_reach_root, Model,
};
use crate::scan::pass_over;
use vstd::prelude::*;

verus! {

/// A scan of a heap at some point: the addresses on the defer list at its
/// begin, those among them that were started from, the graph so far, the
/// objects that were traced, those that can not be visited, and the addresses
/// still to visit.
pub struct Exploration {
    pub heap: Model,
    pub roots: Set<usize>,
    pub started: Set<usize>,
    pub graph: GraphView,
    pub traced: Set<usize>,
    pub blind: Set<usize>,
    pub open: Seq<usize>,
}

impl Exploration {
    /// All that the defer list reaches.
    pub open spec fn scope(self) -> Set<usize> {
        self.heap.reach(self.roots)
    }

    /// The heap can be scanned: there are node ids for all, and handles are
    /// counted in machine words.
    pub open spec fn feasible(self) -> bool {
        &&& self.heap.wf()
        &&& self.scope().len() <= u32::MAX + 1
        &&& forall|p: usize| #[trigger] self.heap.has(p) ==> self.heap.obj(p).strong <= usize::MAX
    }

    /// The graph holds what was traced, and nothing else.
    pub open spec fn sound(self) -> bool {
        &&& self.graph.wf()
        &&& forall|p: usize| #[trigger] self.graph.knows(p) ==> self.scope().contains(p)
        &&& forall|p: usize| #[trigger] self.graph.deferred.dom().contains(p) ==> self.graph.knows(p)
        &&& forall|p: usize| #[trigger] self.traced.contains(p) ==> self.graph.knows(p) && self.heap.filled(p)
        &&& forall|p: usize| #[trigger] self.blind.contains(p) ==> {
            &&& self.heap.has(p)
            &&& !self.heap.filled(p)
            &&& self.heap.live(p) ==> self.graph.knows(p)
        }
        &&& forall|p: usize| #[trigger] self.graph.knows(p)
            ==> self.traced.contains(p) || self.blind.contains(p) || self.open.contains(p)
        &&& forall|p: usize| #[trigger] self.started.contains(p) && self.heap.live(p)
            ==> self.graph.knows(p) || self.open.contains(p)
        &&& forall|p: usize| #[trigger] self.open.contains(p)
            ==> self.heap.has(p) && (self.heap.live(p) ==> self.scope().contains(p))
        &&& forall|p: usize, q: usize| self.traced.contains(p) && #[trigger] self.heap.edges(p).contains(q)
            ==> self.graph.knows(q)
        &&& forall|p: usize, x: u32| self.graph.knows(p) ==> (#[trigger] self.graph.neighbors[self.graph.id(p)].1.contains(x)
            <==> self.traced.contains(p) && leads(self.graph, self.heap.edges(p), x))
        &&& forall|p: usize| #[trigger] self.graph.count(p) == self.heap.incoming(self.traced, p)
    }
}

/// One of the handles `es` leads to node `x` of the graph.
pub open spec fn leads(g: GraphView, es: Seq<usize>, x: u32) -> bool {
    exists|q: usize| es.contains(q) && #[trigger] g.visited[q].0 == x
}

/// Objects that can not be visited are passed over without loss.
pub proof fn lemma_pass_over(e: Exploration)
    requires
        e.sound(),
    ensures
        (Exploration { open: pass_over(e.open, e.blind), ..e }).sound(),
        pass_over(e.open, e.blind).len() <= e.open.len(),
        pass_over(e.open, e.blind).len() > 0 ==> !e.blind.contains(pass_over(e.open, e.blind)[0]),
    decreases e.open.len(),
{
    if e.open.len() > 0 && e.blind.contains(e.open[0]) {
        let n = Exploration { open: e.open.drop_first(), ..e };
        assert forall|p: usize| e.open.contains(p) implies p == e.open[0] || #[trigger] n.open.contains(p) by {
            let i = choose|i: int| 0 <= i < e.open.len() && e.open[i] == p;
            if i > 0 {
                assert(n.open[i - 1] == p);
            }
        }
        assert forall|p: usize| #[trigger] n.open.contains(p) implies e.open.contains(p) by {
            let i = choose|i: int| 0 <= i < n.open.len() && n.open[i] == p;
            assert(e.open[i + 1] == p);
        }
        assert(n.scope() == e.scope());
        lemma_pass_over(n);
    }
}

/// The first open address is dealt with: it is known, or its object was freed.
pub proof fn lemma_closed_one(e: Exploration, blind: Set<usize>)
    requires
        e.feasible(),
        e.sound(),
        e.open.len() > 0,
        e.traced.contains(e.open[0]) && blind == e.blind || !e.heap.live(e.open[0]) && blind == e.blind.insert(e.open[0]),
    ensures
        (Exploration { open: e.open.drop_first(), blind, ..e }).sound(),
{
    let p0 = e.open[0];
    let n = Exploration { open: e.open.drop_first(), blind, ..e };
    assert(e.open.contains(p0));
    assert forall|p: usize| e.open.contains(p) implies p == p0 || #[trigger] n.open.contains(p) by {
        let i = choose|i: int| 0 <= i < e.open.len() && e.open[i] == p;
        if i > 0 {
            assert(n.open[i - 1] == p);
        }
    }
    assert forall|p: usize| #[trigger] n.open.contains(p) implies e.open.contains(p) by {
        let i = choose|i: int| 0 <= i < n.open.len() && n.open[i] == p;
        assert(e.open[i + 1] == p);
    }
    assert(n.scope() == e.scope());
    if !e.heap.live(p0) {
        assert(!e.heap.filled(p0));
        if e.graph.knows(p0) {
            lemma_reach_live(e.heap, e.roots, p0);
        }
    }
}

/// One more start.
pub proof fn lemma_start(e: Exploration, r: usize)
    requires
        e.sound(),
        e.heap.has(r),
        e.roots.contains(r),
    ensures
        (Exploration { open: seq![r] + e.open, started: e.started.insert(r), ..e }).sound(),
{
    let n = Exploration { open: seq![r] + e.open, started: e.started.insert(r), ..e };
    if e.heap.live(r) {
        lemma_reach_root(e.heap, e.roots, r);
    }
    assert(n.open[0] == r);
    assert forall|p: usize| e.open.contains(p) implies #[trigger] n.open.contains(p) by {
        let i = choose|i: int| 0 <= i < e.open.len() && e.open[i] == p;
        assert(n.open[i + 1] == p);
    }
    assert forall|p: usize| #[trigger] n.open.contains(p) implies p == r || e.open.contains(p) by {
        let i = choose|i: int| 0 <= i < n.open.len() && n.open[i] == p;
        if i > 0 {
            assert(e.open[i - 1] == p);
        }
    }
    assert(n.scope() == e.scope());
}

/// There is a node id left for whatever the defer list reaches.
pub proof fn lemma_room(e: Exploration, p: usize)
    requires
        e.feasible(),
        e.sound(),
        e.scope().contains(p),
        !e.graph.knows(p),
    ensures
        e.graph.neighbors.len() <= u32::MAX,
{
    lemma_reach_finite(e.heap, e.roots);
    assert forall|q: usize| e.graph.visited.dom().contains(q) implies e.scope().contains(q) by {
        assert(e.graph.knows(q));
    }
    lemma_id_left(e.graph, e.scope(), p);
}

/// The graph with the first open address as a node.
pub proof fn lemma_enter(e: Exploration)
    requires
        e.feasible(),
        e.sound(),
        e.open.len() > 0,
        e.heap.live(e.open[0]),
        !e.traced.contains(e.open[0]),
    ensures
        e.graph.add_node(e.open[0]).wf(),
        (Exploration { graph: e.graph.add_node(e.open[0]), ..e }).sound(),
{
    let p0 = e.open[0];
    assert(e.open.contains(p0));
    let g = e.graph.add_node(p0);
    let n = Exploration { graph: g, ..e };
    assert(n.scope() == e.scope());
    if !e.graph.knows(p0) {
        lemma_room(e, p0);
        lemma_add_node_wf(e.graph, p0);
        assert forall|p: usize| #[trigger] g.knows(p) implies n.scope().contains(p) && (n.traced.contains(p)
            || n.blind.contains(p) || n.open.contains(p)) by {
            assert(p == p0 || e.graph.knows(p));
        }
        assert forall|p: usize| #[trigger] g.deferred.dom().contains(p) implies g.knows(p) by {
            assert(p == p0 || e.graph.deferred.dom().contains(p));
        }
        assert forall|p: usize, x: u32| n.traced.contains(p)
            implies leads(g, e.heap.edges(p), x) == leads(e.graph, e.heap.edges(p), x) by {
            if leads(g, e.heap.edges(p), x) {
                let q = choose|q: usize| e.heap.edges(p).contains(q) && #[trigger] g.visited[q].0 == x;
                assert(e.graph.knows(q));
                assert(e.graph.visited[q].0 == x);
            }
            if leads(e.graph, e.heap.edges(p), x) {
                let q = choose|q: usize| e.heap.edges(p).contains(q) && #[trigger] e.graph.visited[q].0 == x;
                assert(e.graph.knows(q));
                assert(g.visited[q].0 == x);
            }
        }
        assert forall|p: usize, x: u32| g.knows(p) implies (#[trigger] g.neighbors[g.id(p)].1.contains(x)
            <==> n.traced.contains(p) && leads(g, e.heap.edges(p), x)) by {
            if p != p0 {
                assert(e.graph.knows(p));
                assert(g.neighbors[g.id(p)] == e.graph.neighbors[e.graph.id(p)]);
                assert(e.graph.neighbors[e.graph.id(p)].1.contains(x)
                    <==> e.traced.contains(p) && leads(e.graph, e.heap.edges(p), x));
            }
        }
        assert forall|p: usize| #[trigger] g.count(p) == n.heap.incoming(n.traced, p) by {
            assert(e.graph.count(p) == e.heap.incoming(e.traced, p));
        }
    }
}

/// The handles inside the first open object can be traced.
pub proof fn lemma_traceable(e: Exploration)
    requires
        e.feasible(),
        e.sound(),
        e.open.len() > 0,
        e.heap.filled(e.open[0]),
        e.graph.knows(e.open[0]),
        !e.traced.contains(e.open[0]),
    ensures
        e.graph.ready(e.open[0], e.heap.edges(e.open[0]), e.heap.marked(e.traced.insert(e.open[0]))),
        forall|p: usize| #[trigger] e.graph.deferred.dom().contains(p) ==> e.graph.add_edges(
            e.open[0],
            e.heap.edges(e.open[0]),
        ).deferred.dom().contains(p),
{
    let p0 = e.open[0];
    let es = e.heap.edges(p0);
    let m = e.heap.marked(e.traced.insert(p0));
    lemma_flag_words();
    let all = e.graph.visited.dom().union(es.to_set());
    assert(all.len() <= u32::MAX + 1) by {
        assert forall|p: usize| all.contains(p) implies e.scope().contains(p) by {
            if es.contains(p) {
                lemma_reach_edge(e.heap, e.roots, p0, p);
            } else {
                assert(e.graph.knows(p));
            }
        }
        lemma_reach_finite(e.heap, e.roots);
        vstd::set_lib::lemma_len_subset(all, e.scope());
    }
    assert forall|i: int| 0 <= i < es.len() implies m.has(#[trigger] es[i]) && e.heap.has(es[i]) by {
        assert(es.contains(es[i]));
        lemma_edge_live(e.heap, p0, es[i]);
        assert(e.scope().contains(p0));
    }
    assert forall|p: usize| #[trigger] m.has(p) && has_bits(m.obj(p).bits, VISITED_BIT) implies e.graph.knows(p) by {
        assert(m.obj(p).bits == (if e.traced.insert(p0).contains(p) { VISITED_BIT } else { 0 }));
    }
    assert forall|p: usize| #[trigger] e.graph.count(p) + occurrences(es, p) <= usize::MAX by {
        lemma_incoming_insert(e.heap, e.traced, p0, p);
        lemma_incoming_le(e.heap, e.traced.insert(p0), p);
        assert(e.heap.held(p) >= 0);
        if e.heap.has(p) {
            assert(e.heap.obj(p).strong <= usize::MAX);
        }
    }
    lemma_ready_prefix(e.graph, p0, es, m, es.len() as int);
    assert(es.take(es.len() as int) =~= es);
}

/// The handles inside the first open object were traced: what was found is to
/// be visited next.
pub proof fn lemma_traced(e: Exploration, found: Seq<usize>, older: Map<usize, usize>)
    requires
        e.feasible(),
        e.sound(),
        e.open.len() > 0,
        e.heap.filled(e.open[0]),
        e.graph.knows(e.open[0]),
        !e.traced.contains(e.open[0]),
        forall|p: usize| #[trigger] older.dom().contains(p) ==> older[p] == p && e.graph.deferred.dom().contains(p),
        lists_found(older, e.graph.add_edges(e.open[0], e.heap.edges(e.open[0])).deferred, found),
    ensures
        (Exploration {
            graph: e.graph.add_edges(e.open[0], e.heap.edges(e.open[0])),
            traced: e.traced.insert(e.open[0]),
            open: e.open.drop_first() + found,
            ..e
        }).sound(),
{
    let p0 = e.open[0];
    let es = e.heap.edges(p0);
    lemma_traceable(e);
    let m = e.heap.marked(e.traced.insert(p0));
    lemma_ready_prefix(e.graph, p0, es, m, es.len() as int);
    assert(es.take(es.len() as int) =~= es);
    let g = e.graph.add_edges(p0, es);
    let n = Exploration { graph: g, traced: e.traced.insert(p0), open: e.open.drop_first() + found, ..e };
    assert(n.scope() == e.scope());
    assert(e.scope().contains(p0));
    assert forall|p: usize| #[trigger] g.knows(p) implies n.scope().contains(p) by {
        if es.contains(p) {
            lemma_reach_edge(e.heap, e.roots, p0, p);
        } else {
            assert(e.graph.knows(p));
        }
    }
    assert forall|p: usize| #[trigger] g.deferred.dom().contains(p) implies g.knows(p) by {
        assert(e.graph.deferred.dom().contains(p) || es.contains(p));
    }
    assert forall|p: usize| #[trigger] e.graph.knows(p) implies g.knows(p) by {}
    assert forall|p: usize| e.open.contains(p) implies p == p0 || #[trigger] n.open.contains(p) by {
        let i = choose|i: int| 0 <= i < e.open.len() && e.open[i] == p;
        if i > 0 {
            assert(n.open[i - 1] == p);
        }
    }
    assert forall|p: usize| found.contains(p) implies #[trigger] n.open.contains(p) by {
        let i = choose|i: int| 0 <= i < found.len() && found[i] == p;
        assert(n.open[e.open.drop_first().len() + i] == p);
    }
    assert forall|p: usize| #[trigger] n.open.contains(p) implies e.open.contains(p) || found.contains(p) by {
        let i = choose|i: int| 0 <= i < n.open.len() && n.open[i] == p;
        if i < e.open.len() - 1 {
            assert(e.open[i + 1] == p);
        } else {
            assert(found[i - (e.open.len() - 1)] == p);
        }
    }
    assert forall|p: usize| #[trigger] n.open.contains(p) implies n.heap.has(p) && (n.heap.live(p)
        ==> n.scope().contains(p)) by {
        if !e.open.contains(p) {
            assert(found.contains(p));
            assert(g.deferred.dom().contains(p));
            assert(g.knows(p));
            lemma_reach_live(e.heap, e.roots, p);
        }
    }
    assert forall|p: usize| #[trigger] g.knows(p) implies n.traced.contains(p) || n.blind.contains(p)
        || n.open.contains(p) by {
        if !e.graph.knows(p) {
            assert(es.contains(p));
            assert(g.deferred.dom().contains(p));
            if older.dom().contains(p) {
                assert(e.graph.deferred.dom().contains(p));
            }
            assert(found.contains(p));
        }
    }
    assert forall|p: usize, q: usize| n.traced.contains(p) && #[trigger] n.heap.edges(p).contains(q)
        implies g.knows(q) by {
        if p != p0 {
            assert(e.graph.knows(q));
        }
    }
    assert forall|p: usize, x: u32| e.traced.contains(p)
        implies leads(g, e.heap.edges(p), x) == leads(e.graph, e.heap.edges(p), x) by {
        if leads(g, e.heap.edges(p), x) {
            let q = choose|q: usize| e.heap.edges(p).contains(q) && #[trigger] g.visited[q].0 == x;
            assert(e.graph.knows(q));
            assert(g.id(q) == e.graph.id(q));
            assert(e.graph.visited[q].0 == x);
        }
        if leads(e.graph, e.heap.edges(p), x) {
            let q = choose|q: usize| e.heap.edges(p).contains(q) && #[trigger] e.graph.visited[q].0 == x;
            assert(e.graph.knows(q));
            assert(g.id(q) == e.graph.id(q));
            assert(g.visited[q].0 == x);
        }
    }
    assert forall|p: usize, x: u32| g.knows(p) implies (#[trigger] g.neighbors[g.id(p)].1.contains(x)
        <==> n.traced.contains(p) && leads(g, e.heap.edges(p), x)) by {
        if p == p0 {
            assert(g.id(p0) == e.graph.id(p0));
            assert(e.graph.neighbors[e.graph.id(p0)].1.contains(x)
                <==> e.traced.contains(p0) && leads(e.graph, e.heap.edges(p0), x));
        } else if e.graph.knows(p) {
            assert(g.id(p) == e.graph.id(p));
            assert(e.graph.id(p) != e.graph.id(p0)) by {
                assert(e.graph.neighbors[e.graph.id(p)].0 == p);
                assert(e.graph.neighbors[e.graph.id(p0)].0 == p0);
            }
            assert(e.graph.neighbors[e.graph.id(p)].1.contains(x)
                <==> e.traced.contains(p) && leads(e.graph, e.heap.edges(p), x));
        } else {
            assert(g.id(p) >= e.graph.neighbors.len()) by {
                if g.id(p) < e.graph.neighbors.len() {
                    let i = g.id(p);
                    let q = e.graph.neighbors[i].0;
                    assert(e.graph.knows(q) && e.graph.id(q) == i);
                    assert(g.id(q) == i);
                    assert(g.neighbors[i].0 == q);
                    assert(g.neighbors[i].0 == p);
                }
            }
            assert(!n.traced.contains(p)) by {
                if e.traced.contains(p) {
                    assert(e.graph.knows(p));
                }
            }
        }
    }
    assert forall|p: usize| #[trigger] g.count(p) == n.heap.incoming(n.traced, p) by {
        lemma_incoming_insert(e.heap, e.traced, p0, p);
        assert(e.graph.count(p) == e.heap.incoming(e.traced, p));
    }
}

/// The first open object has nothing to read.
pub proof fn lemma_blind(e: Exploration)
    requires
        e.feasible(),
        e.sound(),
        e.open.len() > 0,
        !e.heap.filled(e.open[0]),
        e.graph.knows(e.open[0]),
    ensures
        (Exploration { blind: e.blind.insert(e.open[0]), open: e.open.drop_first(), ..e }).sound(),
{
    let p0 = e.open[0];
    let n = Exploration { blind: e.blind.insert(p0), open: e.open.drop_first(), ..e };
    assert(e.open.contains(p0));
    assert(n.scope() == e.scope());
    assert forall|p: usize| e.open.contains(p) implies p == p0 || #[trigger] n.open.contains(p) by {
        let i = choose|i: int| 0 <= i < e.open.len() && e.open[i] == p;
        if i > 0 {
            assert(n.open[i - 1] == p);
        }
    }
    assert forall|p: usize| #[trigger] n.open.contains(p) implies e.open.contains(p) by {
        let i = choose|i: int| 0 <= i < n.open.len() && n.open[i] == p;
        assert(e.open[i + 1] == p);
    }
}

/// When nothing is left to visit, the graph holds all that the defer list
/// reaches.
pub proof fn lemma_explored(e: Exploration)
    requires
        e.feasible(),
        e.sound(),
        e.open.len() == 0,
        e.started == e.roots,
    ensures
        forall|p: usize| #[trigger] e.graph.knows(p) <==> e.scope().contains(p),
        forall|p: usize| #[trigger] e.scope().contains(p) ==> (e.traced.contains(p) <==> e.heap.filled(p)),
        forall|p: usize| #[trigger] e.scope().contains(p) ==> (e.blind.contains(p) <==> !e.heap.filled(p)),
        forall|p: usize| #[trigger] e.graph.count(p) == e.heap.incoming(e.scope(), p),
{
    assert forall|p: usize| e.scope().contains(p) implies #[trigger] e.graph.knows(p) by {
        let r = choose|r: usize| e.roots.contains(r) && e.heap.live(r) && #[trigger] reaches(e.heap.edge(), r, p);
        assert(e.started.contains(r));
        assert(e.graph.knows(r));
        let known = |x: usize| e.graph.knows(x);
        assert forall|x: usize, y: usize| known(x) && #[trigger] e.heap.edge()(x, y) implies known(y) by {
            assert(e.heap.edges(x).contains(y));
            lemma_edge_live(e.heap, x, y);
            assert(e.graph.knows(x));
            assert(e.traced.contains(x));
        }
        lemma_closed(e.heap.edge(), known, r, p);
    }
    assert forall|p: usize| #[trigger] e.scope().contains(p) implies (e.traced.contains(p) <==> e.heap.filled(p))
        && (e.blind.contains(p) <==> !e.heap.filled(p)) by {
        assert(e.graph.knows(p));
    }
    assert forall|p: usize| #[trigger] e.graph.count(p) == e.heap.incoming(e.scope(), p) by {
        assert forall|a: usize| #[trigger] e.heap.has(a) && e.heap.filled(a) implies (e.traced.contains(a)
            <==> e.scope().contains(a)) by {
            if e.traced.contains(a) {
                assert(e.graph.knows(a));
            }
        }
        lemma_incoming_same(e.heap, e.traced, e.scope(), p);
    }
}

} // verus!
