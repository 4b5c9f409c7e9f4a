//! A collection: scan, judge and sweep.

use crate::collections::lists_rows;
use crate::collector::{lists_set, Collector, GraphView, LocalSender, NodeId};
use crate::explore::{
    leads, lemma_blind, lemma_closed_one, lemma_enter, lemma_explored, lemma_pass_over, lemma_room,
    lemma_start, lemma_traceable, lemma_traced, Exploration,
};
use crate::flags::{lemma_flag_words, VISITED_BIT};
use crate::gc::WeakRoot;
use crate::graph::{
    lemma_closed, lemma_reaches_self, lemma_reaches_step, lemma_sum_at, occurrences, reaches, sum,
};
use crate::heap::Heap;
use crate::marks::{avoiding, spread_from, Marks};
use crate::model::{
    collectable, lemma_edge_live, lemma_incoming_none, lemma_internal_with, lemma_marked, lemma_reach_live,
    Model, Obj, State,
};
use crate::release::items_kept;
use crate::scan::{pass_over, Scan};
use crate::sweep::{
    anchored, lemma_anchored, lemma_swept, lemma_wanes_all, lemma_wanes_emptied, wanes,
};
use crate::trace::Trace;
use vstd::prelude::*;

verus! {

/// The number of objects that are in neither of two sets.
spec fn unseen(n: nat, t: Set<usize>, b: Set<usize>) -> nat {
    sum(n, |i: int| if t.contains((i + 1) as usize) || b.contains((i + 1) as usize) { 0nat } else { 1nat })
}

proof fn lemma_unseen(n: nat, t: Set<usize>, b: Set<usize>, p: usize)
    requires
        1 <= p <= n < usize::MAX,
        !t.contains(p),
        !b.contains(p),
    ensures
        unseen(n, t.insert(p), b) < unseen(n, t, b),
        unseen(n, t, b.insert(p)) < unseen(n, t, b),
{
    let f = |i: int| if t.contains((i + 1) as usize) || b.contains((i + 1) as usize) { 0nat } else { 1nat };
    lemma_sum_at(
        n,
        f,
        |i: int| if t.insert(p).contains((i + 1) as usize) || b.contains((i + 1) as usize) { 0nat } else { 1nat },
        p - 1,
    );
    lemma_sum_at(
        n,
        f,
        |i: int| if t.contains((i + 1) as usize) || b.insert(p).contains((i + 1) as usize) { 0nat } else { 1nat },
        p - 1,
    );
}

/// A scan of `m` from the addresses in `roots` is complete.
pub open spec fn scanned(m: Model, roots: Set<usize>, g: GraphView, blind: Set<usize>) -> bool {
    let traced = Set::new(|p: usize| m.reach(roots).contains(p) && m.filled(p));
    let e = Exploration { heap: m, roots, started: roots, graph: g, traced, blind, open: Seq::empty() };
    &&& e.feasible()
    &&& e.sound()
}

/// Scans all that the defer list reaches.
pub(crate) fn scan_heap<T: Trace>(heap: &mut Heap<T>, c: &mut Collector) -> (r: Scan)
    requires
        old(heap).count_ok(),
        old(heap).model().wf(),
        old(heap).model().clean(),
        forall|p: usize| #[trigger] old(c)@.deferred.dom().contains(p) ==> old(heap).model().has(p),
        collectable(old(heap).model(), old(c)@.deferred.dom()),
        old(c)@.visited.dom() == Set::<usize>::empty(),
        old(c)@.neighbors.len() == 0,
    ensures
        final(heap).count_ok(),
        final(heap).model() == old(heap).model().marked(
            Set::new(|p: usize|
                old(heap).model().reach(old(c)@.deferred.dom()).contains(p) && old(heap).model().filled(p)),
        ),
        final(heap).same_items(old(heap)),
        scanned(old(heap).model(), old(c)@.deferred.dom(), final(c)@, r@.alive),
{
    let ghost m = heap.model();
    let ghost d = c@.deferred.dom();
    let ghost before = *heap;
    let roots = c.take_roots();
    let mut scan = Scan::new(c);
    let ghost mut traced = Set::<usize>::empty();
    let ghost mut started = Set::<usize>::empty();
    proof {
        heap.lemma_counts_fit();
        lemma_marked(m, traced);
        assert(heap.model() == m.marked(traced));
        let e = Exploration { heap: m, roots: d, started, graph: c@, traced, blind: scan@.alive, open: scan@.to_visit };
        assert forall|p: usize| #[trigger] e.graph.count(p) == m.incoming(traced, p) by {
            lemma_incoming_none(m, p);
        }
        assert(e.sound());
        assert(e.feasible());
    }
    let mut k: usize = 0;
    while k < roots.len()
        invariant
            k <= roots@.len(),
            lists_set(d, roots@),
            heap.count_ok(),
            heap.same_items(&before),
            m.wf(),
            forall|p: usize| #[trigger] d.contains(p) ==> m.has(p),
            collectable(m, d),
            heap.model() == m.marked(traced),
            forall|p: usize| #[trigger] started.contains(p) <==> exists|j: int| 0 <= j < k && roots@[j] == p,
            scan@.to_visit.len() == 0,
            ({
                let e = Exploration {
                    heap: m,
                    roots: d,
                    started,
                    graph: c@,
                    traced,
                    blind: scan@.alive,
                    open: scan@.to_visit,
                };
                e.feasible() && e.sound()
            }),
        decreases roots@.len() - k,
    {
        let root = roots[k];
        proof {
            assert(roots@.contains(root));
            assert(d.contains(root));
            lemma_start(
                Exploration { heap: m, roots: d, started, graph: c@, traced, blind: scan@.alive, open: scan@.to_visit },
                root,
            );
            started = started.insert(root);
        }
        scan.start(root);
        loop
            invariant
                heap.count_ok(),
                heap.same_items(&before),
                m.wf(),
                collectable(m, d),
                heap.model() == m.marked(traced),
                ({
                    let e = Exploration {
                        heap: m,
                        roots: d,
                        started,
                        graph: c@,
                        traced,
                        blind: scan@.alive,
                        open: scan@.to_visit,
                    };
                    e.feasible() && e.sound()
                }),
            ensures
                scan@.to_visit.len() == 0,
            decreases unseen(m.objs.len(), traced, scan@.alive), scan@.to_visit.len(),
        {
            let ghost g = c@;
            let ghost blind = scan@.alive;
            let ghost here = *heap;
            let ghost e = Exploration {
                heap: m,
                roots: d,
                started,
                graph: g,
                traced,
                blind,
                open: pass_over(scan@.to_visit, blind),
            };
            proof {
                lemma_pass_over(
                    Exploration { heap: m, roots: d, started, graph: g, traced, blind, open: scan@.to_visit },
                );
                assert(e.feasible());
                lemma_flag_words();
                lemma_marked(m, traced);
            }
            match scan.next() {
                None => {
                    break;
                },
                Some(p) => {
                    proof {
                        assert(e.open.contains(p));
                        assert(here.model().obj(p).bits == (if traced.contains(p) { VISITED_BIT } else { 0 }));
                        if m.live(p) && !traced.contains(p) {
                            lemma_enter(e);
                            if !g.knows(p) {
                                lemma_room(e, p);
                            }
                        }
                        if traced.contains(p) {
                            assert(e.graph.knows(p));
                            assert(e.scope().contains(p));
                            lemma_reach_live(m, d, p);
                        } else {
                            lemma_unseen(m.objs.len(), traced, blind, p);
                        }
                        assert(p != 0);
                    }
                    let item = WeakRoot { ptr: p };
                    let flags = item.flags(heap);
                    if !scan.enter(c, p, flags) {
                        proof {
                            lemma_closed_one(e, scan@.alive);
                        }
                        continue;
                    }
                    let ghost entered = Exploration { graph: c@, ..e };
                    item.mark_visited(heap);
                    proof {
                        assert(heap.model().objs =~= m.marked(traced.insert(p)).objs);
                        lemma_marked(m, traced.insert(p));
                        if m.filled(p) {
                            lemma_traceable(entered);
                        }
                    }
                    let ghost marked = *heap;
                    let visitable = item.visit(c, heap);
                    if !visitable {
                        item.clear_visited(heap);
                    }
                    let ghost waiting = scan@.to_visit;
                    scan.conclude(c, p, visitable);
                    proof {
                        assert forall|q: usize| #[trigger] heap.model().has(q) implies heap.item(q) == before.item(q) by {
                            assert(here.model().has(q) && marked.model().has(q));
                        }
                        if visitable {
                            let found = scan@.to_visit.skip(waiting.len() as int);
                            lemma_traced(entered, found, g.deferred);
                            assert(scan@.to_visit =~= waiting + found);
                            traced = traced.insert(p);
                        } else {
                            assert(heap.model().objs =~= m.marked(traced).objs);
                            lemma_blind(entered);
                        }
                    }
                },
            }
        }
        k += 1;
    }
    proof {
        assert(started =~= d) by {
            assert forall|p: usize| started.contains(p) <==> d.contains(p) by {
                assert(d.contains(p) <==> roots@.contains(p));
            }
        }
        let e = Exploration { heap: m, roots: d, started, graph: c@, traced, blind: scan@.alive, open: scan@.to_visit };
        lemma_explored(e);
        let filled = Set::new(|p: usize| m.reach(d).contains(p) && m.filled(p));
        assert(traced =~= filled) by {
            assert forall|p: usize| traced.contains(p) implies filled.contains(p) by {
                assert(e.traced.contains(p));
                assert(e.graph.knows(p));
            }
            assert forall|p: usize| filled.contains(p) implies traced.contains(p) by {
                assert(e.scope().contains(p));
            }
        }
        assert(scan@.to_visit =~= Seq::empty());
    }
    scan
}

/// The address of node `i`.
pub open spec fn address(g: GraphView, i: int) -> usize {
    g.neighbors[i].0
}

/// The graph of a complete scan has the edges of the heap.
proof fn lemma_graph_edges(m: Model, roots: Set<usize>, g: GraphView, blind: Set<usize>)
    requires
        scanned(m, roots, g, blind),
    ensures
        forall|p: usize| #[trigger] g.knows(p) <==> m.reach(roots).contains(p),
        forall|p: usize| #[trigger] g.knows(p) ==> m.live(p) && (blind.contains(p) <==> !m.filled(p)),
        forall|p: usize| #[trigger] g.knows(p) ==> g.visited[p].1 == m.incoming(m.reach(roots), p),
        forall|a: usize, b: usize| g.knows(a) && #[trigger] m.edge()(a, b) ==> g.knows(b) && g.edge()(g.id(a), g.id(b)),
        forall|i: int, j: int| #[trigger] g.edge()(i, j) ==> {
            &&& 0 <= i < g.neighbors.len()
            &&& 0 <= j < g.neighbors.len()
            &&& m.filled(address(g, i))
            &&& m.edge()(address(g, i), address(g, j))
        },
{
    let traced = Set::new(|p: usize| m.reach(roots).contains(p) && m.filled(p));
    let e = Exploration { heap: m, roots, started: roots, graph: g, traced, blind, open: Seq::empty() };
    lemma_explored(e);
    assert forall|p: usize| #[trigger] g.knows(p) implies m.live(p) && (blind.contains(p) <==> !m.filled(p))
        && g.visited[p].1 == m.incoming(m.reach(roots), p) by {
        assert(e.graph.knows(p));
        assert(e.scope().contains(p));
        assert(e.graph.count(p) == m.incoming(e.scope(), p));
        lemma_reach_live(m, roots, p);
    }
    assert forall|a: usize, b: usize| g.knows(a) && #[trigger] m.edge()(a, b) implies g.knows(b) && g.edge()(
        g.id(a),
        g.id(b),
    ) by {
        assert(m.edges(a).contains(b));
        assert(e.graph.knows(a));
        assert(e.scope().contains(a));
        lemma_edge_live(m, a, b);
        assert(e.traced.contains(a));
        assert(e.heap.edges(a).contains(b));
        assert(e.graph.knows(b));
        assert(leads(g, m.edges(a), g.visited[b].0));
        assert(e.graph.neighbors[e.graph.id(a)].1.contains(g.visited[b].0));
    }
    assert forall|i: int, j: int| #[trigger] g.edge()(i, j) implies 0 <= i < g.neighbors.len() && 0 <= j
        < g.neighbors.len() && m.filled(address(g, i)) && m.edge()(address(g, i), address(g, j)) by {
        let a = address(g, i);
        let x = j as u32;
        assert(g.neighbors[i].1.contains(x));
        assert(e.graph.knows(a));
        assert(g.id(a) == i);
        assert(e.graph.neighbors[e.graph.id(a)].1.contains(x));
        assert(leads(g, m.edges(a), x));
        let q = choose|q: usize| m.edges(a).contains(q) && #[trigger] g.visited[q].0 == x;
        lemma_edge_live(m, a, q);
        assert(e.heap.edges(a).contains(q));
        assert(e.graph.knows(q));
        assert(address(g, j) == q);
    }
}

/// The nodes in `ids` are alive: a pinned object reaches each of them, and they
/// reach no others.
spec fn alive_so_far(m: Model, roots: Set<usize>, g: GraphView, ids: Set<usize>) -> bool {
    &&& forall|i: usize| #[trigger] ids.contains(i) ==> i < g.neighbors.len() && exists|u: usize|
        m.pinned(roots, u) && #[trigger] reaches(m.edge(), u, address(g, i as int))
    &&& forall|i: usize, j: usize| ids.contains(i) && #[trigger] g.edge()(i as int, j as int) ==> ids.contains(j)
}

/// A pinned object and all that it reaches are alive.
proof fn lemma_spread(m: Model, roots: Set<usize>, g: GraphView, blind: Set<usize>, ids: Set<usize>, p: usize)
    requires
        scanned(m, roots, g, blind),
        alive_so_far(m, roots, g, ids),
        g.knows(p),
        m.pinned(roots, p),
    ensures
        alive_so_far(m, roots, g, spread_from(g, ids, g.visited[p].0 as usize)),
        spread_from(g, ids, g.visited[p].0 as usize).contains(g.visited[p].0 as usize),
{
    lemma_graph_edges(m, roots, g, blind);
    let from = g.visited[p].0 as usize;
    let more = spread_from(g, ids, from);
    let rel = avoiding(g, ids);
    assert(address(g, from as int) == p);
    lemma_reaches_self(rel, from as int);
    lemma_reaches_self(m.edge(), p);
    assert forall|i: usize| #[trigger] more.contains(i) implies i < g.neighbors.len() && exists|u: usize|
        m.pinned(roots, u) && #[trigger] reaches(m.edge(), u, address(g, i as int)) by {
        if !ids.contains(i) {
            let ok = |x: int| 0 <= x < g.neighbors.len() && reaches(m.edge(), p, address(g, x));
            assert forall|x: int, y: int| ok(x) && #[trigger] rel(x, y) implies ok(y) by {
                assert(g.edge()(x, y));
                lemma_reaches_step(m.edge(), p, address(g, x), address(g, y));
            }
            lemma_closed(rel, ok, from as int, i as int);
            assert(m.pinned(roots, p) && reaches(m.edge(), p, address(g, i as int)));
        }
    }
    assert forall|i: usize, j: usize| more.contains(i) && #[trigger] g.edge()(i as int, j as int) implies more.contains(
        j,
    ) by {
        if !ids.contains(i) && !ids.contains(j) {
            assert(rel(i as int, j as int));
            lemma_reaches_step(rel, from as int, i as int, j as int);
        }
    }
}

/// The nodes that are not alive in the end are the doomed ones.
proof fn lemma_verdict(m: Model, roots: Set<usize>, g: GraphView, blind: Set<usize>, ids: Set<usize>)
    requires
        scanned(m, roots, g, blind),
        alive_so_far(m, roots, g, ids),
        forall|p: usize| #[trigger] g.knows(p) && m.pinned(roots, p) ==> ids.contains(g.visited[p].0 as usize),
    ensures
        forall|p: usize| #[trigger] g.knows(p) ==> (ids.contains(g.visited[p].0 as usize)
            <==> !m.doomed(roots).contains(p)),
{
    lemma_graph_edges(m, roots, g, blind);
    assert forall|p: usize| #[trigger] g.knows(p) implies (ids.contains(g.visited[p].0 as usize)
        <==> !m.doomed(roots).contains(p)) by {
        let id = g.visited[p].0 as usize;
        assert(address(g, id as int) == p);
        assert(m.reach(roots).contains(p));
        if !m.doomed(roots).contains(p) {
            let u = choose|u: usize| m.pinned(roots, u) && #[trigger] reaches(m.edge(), u, p);
            let ok = |x: usize| g.knows(x) && ids.contains(g.visited[x].0 as usize);
            assert(g.knows(u));
            assert(ok(u));
            assert forall|x: usize, y: usize| ok(x) && #[trigger] m.edge()(x, y) implies ok(y) by {
                assert(g.edge()(g.id(x), g.id(y)));
                assert(g.edge()((g.visited[x].0 as usize) as int, (g.visited[y].0 as usize) as int));
            }
            lemma_closed(m.edge(), ok, u, p);
        }
    }
}

/// Finds out which of the scanned objects are alive.
pub(crate) fn judge_all<T: Trace>(
    heap: &Heap<T>,
    c: &mut Collector,
    scan: &Scan,
    Ghost(m): Ghost<Model>,
    Ghost(roots): Ghost<Set<usize>>,
) -> (r: Marks)
    requires
        scanned(m, roots, old(c)@, scan@.alive),
        heap.model() == m.marked(Set::new(|p: usize| m.reach(roots).contains(p) && m.filled(p))),
    ensures
        final(c)@.deferred == old(c)@.deferred.remove_keys(scan@.alive),
        final(c)@.visited == old(c)@.visited.remove_keys(scan@.alive),
        final(c)@.neighbors == old(c)@.neighbors,
        forall|p: usize| #[trigger] old(c)@.knows(p) ==> (r@.ids.contains(old(c)@.visited[p].0 as usize)
            <==> !m.doomed(roots).contains(p)),
{
    let ghost g = c@;
    let ghost blind = scan@.alive;
    let ghost traced = Set::new(|p: usize| m.reach(roots).contains(p) && m.filled(p));
    proof {
        lemma_graph_edges(m, roots, g, blind);
        lemma_flag_words();
    }
    let mut marks = Marks::settle(c, scan);
    proof {
        assert forall|i: usize| #[trigger] marks@.ids.contains(i) implies i < g.neighbors.len() && exists|u: usize|
            m.pinned(roots, u) && #[trigger] reaches(m.edge(), u, address(g, i as int)) by {
            let p = choose|p: usize| blind.contains(p) && g.knows(p) && #[trigger] g.visited[p].0 == i;
            assert(address(g, i as int) == p);
            lemma_reaches_self(m.edge(), p);
            assert(m.pinned(roots, p) && reaches(m.edge(), p, address(g, i as int)));
        }
        assert forall|i: usize, j: usize| marks@.ids.contains(i) && #[trigger] g.edge()(i as int, j as int)
            implies marks@.ids.contains(j) by {
            let p = choose|p: usize| blind.contains(p) && g.knows(p) && #[trigger] g.visited[p].0 == i;
            assert(address(g, i as int) == p);
        }
    }
    let rows = c.rows();
    let mut k: usize = 0;
    while k < rows.len()
        invariant
            k <= rows@.len(),
            scanned(m, roots, g, blind),
            traced == Set::new(|p: usize| m.reach(roots).contains(p) && m.filled(p)),
            heap.model() == m.marked(traced),
            c@.visited == g.visited.remove_keys(blind),
            c@.neighbors == g.neighbors,
            lists_rows(c@.visited, rows@),
            marks@.nodes.len() == g.neighbors.len(),
            alive_so_far(m, roots, g, marks@.ids),
            forall|p: usize| #[trigger] g.knows(p) && blind.contains(p) ==> marks@.ids.contains(g.visited[p].0 as usize),
            forall|j: int| 0 <= j < k && m.pinned(roots, (#[trigger] rows@[j]).0) ==> marks@.ids.contains(
                rows@[j].1.0 as usize,
            ),
        decreases rows@.len() - k,
    {
        let (p, row) = rows[k];
        let ghost ids = marks@.ids;
        proof {
            assert(c@.visited.dom().contains(rows@[k as int].0));
            assert(g.knows(p) && !blind.contains(p));
            assert(row == g.visited[p]);
            lemma_graph_edges(m, roots, g, blind);
            lemma_flag_words();
            assert(heap.model().obj(p).bits == VISITED_BIT);
            assert(heap.model().live(p));
        }
        if !marks.is_alive(NodeId(row.0)) {
            let node = WeakRoot { ptr: p };
            match node.flags(heap) {
                Some(flags) => {
                    let count = heap.strong_count(p);
                    proof {
                        assert forall|i: int, x: u32| 0 <= i < c@.neighbors.len() && #[trigger] c@.neighbors[i].1.contains(x)
                            implies x < c@.neighbors.len() by {
                            assert(g.neighbors[i].1.contains(x));
                        }
                        if m.pinned(roots, p) {
                            lemma_spread(m, roots, g, blind, ids, p);
                        }
                        assert(avoiding(c@, ids) =~= avoiding(g, ids));
                        assert(spread_from(c@, ids, row.0 as usize) =~= spread_from(g, ids, row.0 as usize));
                    }
                    marks.judge(c, p, flags, count);
                },
                None => {},
            }
        }
        k += 1;
    }
    proof {
        assert forall|p: usize| #[trigger] g.knows(p) && m.pinned(roots, p) implies marks@.ids.contains(
            g.visited[p].0 as usize,
        ) by {
            if !blind.contains(p) {
                assert(c@.visited.dom().contains(p));
                let j = choose|j: int| 0 <= j < rows@.len() && rows@[j].0 == p;
                assert(rows@[j].1 == g.visited[p]);
            }
        }
        lemma_verdict(m, roots, g, blind, marks@.ids);
    }
    marks
}

/// Takes the flags off all scanned objects, and their contents from those that
/// are not alive.
pub(crate) fn sweep<T: Trace>(
    heap: &mut Heap<T>,
    sender: &mut LocalSender,
    c: &Collector,
    marks: &Marks,
    Ghost(m): Ghost<Model>,
    Ghost(d): Ghost<Set<usize>>,
)
    requires
        old(heap).count_ok(),
        m.wf(),
        m.clean(),
        anchored(m, d),
        old(heap).model() == m.marked(c@.visited.dom()),
        forall|p: usize| #[trigger] c@.knows(p) ==> m.live(p) && m.filled(p) && (marks@.ids.contains(
            c@.visited[p].0 as usize,
        ) <==> !d.contains(p)),
        forall|p: usize| #[trigger] d.contains(p) ==> c@.knows(p),
    ensures
        final(heap).count_ok(),
        final(heap).model() == m.swept(d),
        final(heap).model().wf(),
        final(sender).chan@ == old(sender).chan@,
        forall|p: usize| #[trigger] final(heap).model().has(p) ==> final(heap).item(p) == (if d.contains(p) {
            None
        } else {
            old(heap).item(p)
        }),
{
    let ghost before = *heap;
    let ghost sent = sender.chan@;
    let ghost visited = c@.visited.dom();
    let rows = c.rows();
    proof {
        lemma_marked(m, visited);
        assert forall|p: usize| #[trigger] visited.contains(p) implies m.live(p) by {
            assert(c@.knows(p));
        }
        lemma_unflagged(m, visited, heap.model());
        assert forall|p: usize| #[trigger] heap.model().held(p) == m.held(p) + occurrences(Seq::empty(), p) by {}
        assert(wanes(m, d, heap.model(), Seq::empty())) by {
            assert forall|p: usize| #[trigger] heap.model().has(p) implies heap.model().obj(p).locked == m.obj(p).locked
                && heap.model().obj(p).kept == m.obj(p).kept
                && heap.model().obj(p).item == m.obj(p).item by {}
        }
    }
    let mut k: usize = 0;
    while k < rows.len()
        invariant
            k <= rows@.len(),
            heap.count_ok(),
            m.wf(),
            m.clean(),
            anchored(m, d),
            visited == c@.visited.dom(),
            lists_rows(c@.visited, rows@),
            forall|p: usize| #[trigger] c@.knows(p) ==> m.live(p) && m.filled(p) && (marks@.ids.contains(
                c@.visited[p].0 as usize,
            ) <==> !d.contains(p)),
            forall|p: usize| #[trigger] d.contains(p) ==> c@.knows(p),
            sender.chan@ == sent,
            wanes(m, d, heap.model(), Seq::empty()),
            items_kept(&before, heap),
            forall|p: usize| #[trigger] heap.model().has(p) ==> heap.model().obj(p).bits == 0 || (heap.model().live(p)
                && heap.model().obj(p).bits == VISITED_BIT && visited.contains(p)),
            forall|j: int| 0 <= j < k ==> heap.model().obj((#[trigger] rows@[j]).0).bits == 0,
            forall|j: int| 0 <= j < k && d.contains((#[trigger] rows@[j]).0) ==> heap.model().obj(
                rows@[j].0,
            ).item is None,
        decreases rows@.len() - k,
    {
        let (p, row) = rows[k];
        let node = WeakRoot { ptr: p };
        let ghost start = *heap;
        proof {
            assert(c@.visited.dom().contains(rows@[k as int].0));
            assert(c@.knows(p));
            assert(m.has(p) && start.model().has(p));
        }
        node.clear_visited(heap);
        let ghost cleared = *heap;
        proof {
            lemma_cleared(m, d, start.model(), cleared.model(), p);
            assert(cleared.model().obj(p).bits == 0);
            assert forall|q: usize| #[trigger] cleared.model().has(q) implies cleared.item(q) is None || cleared.item(q)
                == before.item(q) by {
                assert(start.model().has(q));
            }
            assert forall|q: usize| #[trigger] cleared.model().has(q) implies cleared.model().obj(q).bits == 0 || (
            cleared.model().live(q) && cleared.model().obj(q).bits == VISITED_BIT && visited.contains(q)) by {
                assert(start.model().has(q));
            }
            assert forall|j: int| 0 <= j < rows@.len() implies m.has((#[trigger] rows@[j]).0) by {
                assert(c@.visited.dom().contains(rows@[j].0));
                assert(c@.knows(rows@[j].0));
            }
            assert forall|j: int| 0 <= j < k implies cleared.model().obj((#[trigger] rows@[j]).0).bits == 0 by {
                assert(start.model().obj(rows@[j].0).bits == 0);
            }
            assert forall|j: int| 0 <= j < k && d.contains((#[trigger] rows@[j]).0) implies cleared.model().obj(
                rows@[j].0,
            ).item is None by {
                assert(start.model().obj(rows@[j].0).item is None);
            }
        }
        if !marks.is_alive(NodeId(row.0)) {
            proof {
                assert(d.contains(p));
                assert(cleared.model().has(p));
                assert(!m.obj(p).locked);
                let s = State { heap: cleared.model(), deferred: c@.deferred.dom(), queue: sender.chan@ };
                let emptied = State { heap: s.heap.emptied(p), ..s };
                let work = s.heap.edges(p).reverse();
                lemma_wanes_emptied(m, d, s.heap, p);
                assert forall|q: usize| #[trigger] emptied.heap.has(q) implies emptied.heap.obj(q).bits == 0
                    || emptied.heap.live(q) by {
                    assert(cleared.model().has(q));
                }
                lemma_wanes_all(m, d, emptied, work);
            }
            node.invalidate(heap, sender, c);
            proof {
                let s = State { heap: cleared.model(), deferred: c@.deferred.dom(), queue: sent };
                let emptied = State { heap: s.heap.emptied(p), ..s };
                assert forall|q: usize| #[trigger] heap.model().has(q) implies (heap.model().obj(q).bits == 0 || (
                heap.model().live(q) && heap.model().obj(q).bits == VISITED_BIT && visited.contains(q))) && (
                heap.item(q) is None || heap.item(q) == before.item(q)) && (cleared.model().obj(q).bits == 0
                    ==> heap.model().obj(q).bits == 0) && (cleared.model().obj(q).item is None ==> heap.model().obj(
                    q,
                ).item is None) by {
                    assert(cleared.model().has(q));
                    assert(emptied.heap.has(q));
                }
                assert(heap.model().has(p));
                assert forall|j: int| 0 <= j < k + 1 implies heap.model().obj((#[trigger] rows@[j]).0).bits == 0
                    && (d.contains(rows@[j].0) ==> heap.model().obj(rows@[j].0).item is None) by {
                    assert(m.has(rows@[j].0));
                    assert(heap.model().has(rows@[j].0));
                    if !cleared.model().live(p) {
                        assert(cleared.model().obj(p).item is None);
                    } else {
                        assert(emptied.heap.has(p) && emptied.heap.obj(p).item is None);
                    }
                }
            }
        }
        k += 1;
    }
    proof {
        let h = heap.model();
        assert forall|p: usize| #[trigger] h.has(p) && d.contains(p) implies h.obj(p).item is None by {
            assert(c@.knows(p));
            let j = choose|j: int| 0 <= j < rows@.len() && rows@[j].0 == p;
            assert(d.contains(rows@[j].0));
        }
        assert forall|p: usize| #[trigger] h.has(p) implies h.obj(p).bits == 0 by {
            if visited.contains(p) {
                let j = choose|j: int| 0 <= j < rows@.len() && rows@[j].0 == p;
                assert(h.obj(rows@[j].0).bits == 0);
            }
        }
        lemma_swept(m, d, h);
        heap.lemma_items();
        before.lemma_items();
        assert forall|p: usize| #[trigger] h.has(p) implies heap.item(p) == (if d.contains(p) {
            None
        } else {
            before.item(p)
        }) by {
            assert(heap.item_agrees(p));
            assert(before.model().has(p));
            assert(before.item_agrees(p));
        }
    }
}

/// Flags on live objects only.
proof fn lemma_unflagged(m: Model, t: Set<usize>, h: Model)
    requires
        m.wf(),
        h == m.marked(t),
        forall|p: usize| #[trigger] t.contains(p) ==> m.live(p),
    ensures
        forall|p: usize| #[trigger] h.has(p) ==> h.obj(p).bits == 0 || (h.live(p) && h.obj(p).bits == VISITED_BIT
            && t.contains(p)),
{
    assert forall|p: usize| #[trigger] h.has(p) implies h.obj(p).bits == 0 || (h.live(p) && h.obj(p).bits
        == VISITED_BIT && t.contains(p)) by {
        assert(h.obj(p).bits == (if t.contains(p) { VISITED_BIT } else { 0 }));
    }
}

/// Cleared flags change nothing else.
proof fn lemma_cleared(m: Model, d: Set<usize>, h: Model, n: Model, p: usize)
    requires
        wanes(m, d, h, Seq::empty()),
        h.has(p),
        h.obj(p).bits == 0 || h.live(p),
        n == (if h.live(p) { h.with(p, (Obj { bits: 0, ..h.obj(p) })) } else { h }),
    ensures
        wanes(m, d, n, Seq::empty()),
        n.obj(p).bits == 0,
{
    if h.live(p) {
        assert forall|q: usize| #[trigger] n.held(q) == h.held(q) by {
            lemma_internal_with(h, p, Obj { bits: 0, ..h.obj(p) }, q);
        }
        assert forall|q: usize| #[trigger] n.held(q) >= 0 && n.held(q) == m.held(q) + occurrences(Seq::empty(), q) by {
            assert(h.held(q) >= 0);
        }
        assert forall|q: usize| #[trigger] n.has(q) implies n.obj(q).locked == m.obj(q).locked && n.obj(q).kept
            == m.obj(q).kept && (n.obj(q).item
            == m.obj(q).item || (n.obj(q).item is None && d.contains(q))) && (n.obj(q).strong == 0 || n.obj(
            q,
        ).locked ==> n.obj(q).item is None) by {
            assert(h.has(q));
        }
    }
}

/// Collects: what the defer list reaches is scanned, and the objects among it
/// that are doomed lose their contents. Nothing is deferred in the end.
pub(crate) fn collect<T: Trace>(heap: &mut Heap<T>, sender: &mut LocalSender, c: &mut Collector)
    requires
        old(heap).count_ok(),
        old(heap).model().wf(),
        old(heap).model().clean(),
        forall|p: usize| #[trigger] old(c)@.deferred.dom().contains(p) ==> old(heap).model().has(p),
        collectable(old(heap).model(), old(c)@.deferred.dom()),
        old(c)@.visited.dom() == Set::<usize>::empty(),
        old(c)@.neighbors.len() == 0,
    ensures
        final(heap).count_ok(),
        final(heap).model() == old(heap).model().swept(old(heap).model().doomed(old(c)@.deferred.dom())),
        final(heap).model().wf(),
        final(sender).chan@ == old(sender).chan@,
        final(c)@.deferred.dom() == Set::<usize>::empty(),
        final(c)@.visited.dom() == Set::<usize>::empty(),
        final(c)@.neighbors.len() == 0,
        final(c)@.wf(),
        forall|p: usize| #[trigger] final(heap).model().has(p) ==> final(heap).item(p) == (if old(
            heap,
        ).model().doomed(old(c)@.deferred.dom()).contains(p) {
            None
        } else {
            old(heap).item(p)
        }),
{
    let ghost m = heap.model();
    let ghost roots = c@.deferred.dom();
    let ghost d = m.doomed(roots);
    let ghost before = *heap;
    let scan = scan_heap(heap, c);
    let ghost g = c@;
    let ghost scanned_heap = *heap;
    let marks = judge_all(heap, c, &scan, Ghost(m), Ghost(roots));
    proof {
        lemma_graph_edges(m, roots, g, scan@.alive);
        lemma_anchored(m, roots);
        let traced = Set::new(|p: usize| m.reach(roots).contains(p) && m.filled(p));
        assert(c@.visited.dom() =~= traced) by {
            assert forall|p: usize| c@.visited.dom().contains(p) <==> traced.contains(p) by {
                assert(g.knows(p) <==> m.reach(roots).contains(p));
            }
        }
        assert forall|p: usize| #[trigger] c@.knows(p) implies m.live(p) && m.filled(p) && (marks@.ids.contains(
            c@.visited[p].0 as usize,
        ) <==> !d.contains(p)) by {
            assert(g.knows(p));
        }
        assert forall|p: usize| #[trigger] d.contains(p) implies c@.knows(p) by {
            assert(m.reach(roots).contains(p));
            lemma_reaches_self(m.edge(), p);
            assert(m.filled(p));
            assert(traced.contains(p));
        }
    }
    sweep(heap, sender, c, &marks, Ghost(m), Ghost(d));
    c.reset();
    proof {
        assert forall|p: usize| #[trigger] heap.model().has(p) implies heap.item(p) == (if d.contains(p) {
            None
        } else {
            before.item(p)
        }) by {
            assert(scanned_heap.model().has(p));
        }
    }
}

} // verus!
