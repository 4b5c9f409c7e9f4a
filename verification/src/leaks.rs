//! What a collection frees that runs while mutators go on.
//!
//! An object is lost when no mutator can get at it and no message on its way to
//! the collector speaks of one that leads to it. Mutators can not do anything to
//! what is lost, so the collector finds it as it was when the scan began, and
//! frees it.

use crate::collector::GraphView;
use crate::explore::leads;
use crate::flags::{lemma_flag_words, VISITED_BIT};
use crate::graph::{
    lemma_closed, lemma_occurs, lemma_reaches_self, lemma_reaches_step, lemma_sum_same, occurrences, reaches,
};
use crate::marks::{avoiding, spread_from};
use crate::model::{
    lemma_edge_live, lemma_internal_witness, lemma_reach_edge, lemma_reach_root, Model, Obj, State,
};
use crate::mutators::{
    condemned, describes, dirty, is_run, is_scan, is_sweep, law_scan_is_faithful, law_step_keeps_sealed,
    law_step_leaves_sealed, law_sweep_keeps_sealed, lemma_emptying, lemma_reflagged, lemma_reflagged_sealed,
    lemma_run, lemma_run_leaves, lemma_run_sealed, lemma_step, sealed, Event, Move, Step, Tearing,
};
use vstd::prelude::*;

verus! {

/// The objects that are alive although no mutator can get at them and nothing on
/// its way to the collector leads to them.
pub open spec fn lost(s: State) -> Set<usize> {
    Set::new(|x: usize| s.heap.live(x) && !s.heap.reach(s.heap.held_set().union(s.dying())).contains(x))
}

/// What is lost is sealed: mutators can do nothing to it.
pub proof fn law_lost_is_sealed(s: State)
    requires
        s.heap.wf(),
    ensures
        sealed(s.heap, lost(s)),
{
    let m = s.heap;
    let roots = m.held_set().union(s.dying());
    assert forall|x: usize| #[trigger] lost(s).contains(x) implies m.has(x) && m.held(x) == 0 by {
        assert(m.held(x) >= 0);
        if m.held(x) > 0 {
            lemma_reach_root(m, roots, x);
        }
    }
    assert forall|q: usize, x: usize| lost(s).contains(x) && #[trigger] m.edges(q).contains(x)
        implies lost(s).contains(q) by {
        lemma_edge_live(m, q, x);
        if m.reach(roots).contains(q) {
            lemma_reach_edge(m, roots, q, x);
        }
    }
}

/// The object `now` is `then`, up to flags that the collector sets.
pub open spec fn untouched(then: Obj, now: Obj) -> bool {
    &&& now.strong == then.strong
    &&& now.locked == then.locked
    &&& now.item == then.item
}

/// At a moment `t` of a scan that began with the heap `m`, the objects in `v` are
/// as they were, and what was noted of them is true.
pub open spec fn preserved(m: Model, v: Set<usize>, t: Tearing) -> bool {
    &&& sealed(t.heap(), v)
    &&& forall|x: usize| #[trigger] v.contains(x) ==> untouched(m.obj(x), t.heap().obj(x)) && !dirty(t.heap(), x)
    &&& forall|q: usize, x: usize| t.recorded.dom().contains(q) && v.contains(x) && #[trigger] t.recorded[q].contains(x)
        ==> v.contains(q)
    &&& forall|q: usize| #[trigger] v.contains(q) && t.recorded.dom().contains(q) ==> m.obj(q).item == Some(
        t.recorded[q],
    )
    &&& forall|q: usize| #[trigger] v.contains(q) && t.blind.contains(q) ==> m.obj(q).item is None
}

/// Whatever happens, sealed objects that no one works on are preserved.
proof fn lemma_event_preserves(m: Model, v: Set<usize>, g: GraphView, t: Tearing, event: Event)
    requires
        t.faithful(),
        event.possible(g, t),
        preserved(m, v, t),
        forall|x: usize| #[trigger] v.contains(x) ==> !m.obj(x).locked,
    ensures
        preserved(m, v, event.after(t)),
{
    let n = event.after(t);
    match event {
        Event::Step(step) => {
            law_step_keeps_sealed(t.state, step, v);
            law_step_leaves_sealed(t.state, step, v);
            lemma_step(t.state, step);
            assert forall|x: usize| #[trigger] v.contains(x) implies untouched(m.obj(x), n.heap().obj(x)) && !dirty(
                n.heap(),
                x,
            ) by {
                assert(n.heap().obj(x) == t.heap().obj(x));
            }
        },
        Event::Visit(p) => {
            lemma_flag_words();
            lemma_reflagged(t.state, p, VISITED_BIT);
            lemma_reflagged_sealed(t.state, p, VISITED_BIT, v);
        },
        Event::GiveUp(p) => {
            lemma_flag_words();
            lemma_reflagged(t.state, p, 0);
            lemma_reflagged_sealed(t.state, p, 0, v);
        },
        Event::Trace(p) => {
            assert forall|q: usize, x: usize|
                n.recorded.dom().contains(q) && v.contains(x) && #[trigger] n.recorded[q].contains(x) implies v.contains(
                q,
            ) by {
                if q == p {
                    assert(t.heap().edges(p).contains(x));
                } else {
                    assert(t.recorded[q].contains(x));
                }
            }
        },
    }
}

/// The scan has come to its end: it has found all that was on the defer list, and
/// has traced, or could not read, whatever it found. What is freed does not
/// matter.
pub open spec fn is_complete(t: Tearing, deferred: Set<usize>) -> bool {
    &&& forall|r: usize| #[trigger] deferred.contains(r) && t.heap().live(r) ==> t.found.contains(r)
    &&& forall|x: usize| #[trigger] t.found.contains(x) && t.heap().live(x) ==> t.recorded.dom().contains(x)
        || t.blind.contains(x)
}

/// Nobody works on the contents of what is lost: a mutator that does so has a
/// handle to the object.
pub open spec fn lost_is_unlocked(s: State) -> bool {
    forall|x: usize| #[trigger] lost(s).contains(x) ==> !s.heap.obj(x).locked
}

/// What was lost when a scan began is preserved to its end.
proof fn lemma_scan_preserves(ts: Seq<Tearing>, gs: Seq<GraphView>, events: Seq<Event>, k: int)
    requires
        is_scan(ts, gs, events),
        lost_is_unlocked(ts[0].state),
        0 <= k < ts.len(),
    ensures
        preserved(ts[0].heap(), lost(ts[0].state), ts[k]),
    decreases k,
{
    let m = ts[0].heap();
    let v = lost(ts[0].state);
    if k == 0 {
        law_lost_is_sealed(ts[0].state);
        lemma_flag_words();
    } else {
        lemma_scan_preserves(ts, gs, events, k - 1);
        law_scan_is_faithful(ts, gs, events, k - 1);
        let event = events[k - 1];
        assert(ts[k] == event.after(ts[k - 1]));
        lemma_event_preserves(m, v, gs[k - 1], ts[k - 1], event);
    }
}

/// A complete scan finds all that was lost when it began, if no object was
/// leaked: each was on the defer list, or led to from there.
pub proof fn law_scan_finds_the_lost(ts: Seq<Tearing>, gs: Seq<GraphView>, events: Seq<Event>, x: usize)
    requires
        is_scan(ts, gs, events),
        ts[0].state.accounted(),
        lost_is_unlocked(ts[0].state),
        is_complete(ts.last(), ts[0].state.deferred),
        lost(ts[0].state).contains(x),
    ensures
        ts.last().found.contains(x),
        ts.last().recorded.dom().contains(x) <==> ts[0].heap().filled(x),
{
    reveal(State::accounted);
    let s = ts[0].state;
    let m = s.heap;
    let v = lost(s);
    let t = ts.last();
    lemma_scan_preserves(ts, gs, events, ts.len() - 1);
    law_scan_is_faithful(ts, gs, events, ts.len() - 1);
    assert(m.reach(s.roots()).contains(x));
    let r = choose|r: usize| s.roots().contains(r) && m.live(r) && #[trigger] reaches(m.edge(), r, x);
    let ok = |y: usize| v.contains(y) ==> t.found.contains(y);
    assert(ok(r)) by {
        if v.contains(r) {
            assert(untouched(m.obj(r), t.heap().obj(r)));
            if !s.deferred.contains(r) {
                lemma_reach_root(m, m.held_set().union(s.dying()), r);
            }
        }
    }
    assert forall|a: usize, b: usize| ok(a) && #[trigger] m.edge()(a, b) implies ok(b) by {
        if v.contains(b) {
            assert(m.edges(a).contains(b));
            law_lost_is_sealed(s);
            assert(v.contains(a));
            lemma_read(m, v, t, a);
            assert(t.recorded[a].contains(b));
        }
    }
    lemma_closed(m.edge(), ok, r, x);
    lemma_read(m, v, t, x);
}

/// Of what is preserved and was found, exactly what has contents was read.
proof fn lemma_read(m: Model, v: Set<usize>, t: Tearing, x: usize)
    requires
        preserved(m, v, t),
        t.faithful(),
        forall|y: usize| #[trigger] t.found.contains(y) && t.heap().live(y) ==> t.recorded.dom().contains(y)
            || t.blind.contains(y),
        v.contains(x),
        m.has(x),
        m.live(x),
        !m.obj(x).locked,
        t.found.contains(x),
    ensures
        t.recorded.dom().contains(x) <==> m.filled(x),
        m.filled(x) ==> t.recorded[x] == m.edges(x),
{
    assert(untouched(m.obj(x), t.heap().obj(x)));
    assert(t.heap().has(x));
}

/// Every handle to what was lost is counted at the end of the scan.
proof fn lemma_lost_counted(m: Model, v: Set<usize>, t: Tearing, x: usize)
    requires
        preserved(m, v, t),
        t.faithful(),
        forall|q: usize| #[trigger] v.contains(q) ==> m.live(q) && !m.obj(q).locked && (t.recorded.dom().contains(q)
            <==> m.filled(q)),
        v.contains(x),
    ensures
        t.count(x) == t.heap().strong(x),
{
    let n = t.heap().objs.len();
    let f = |i: int|
        if t.recorded.dom().contains((i + 1) as usize) {
            occurrences(t.recorded[(i + 1) as usize], x)
        } else {
            0
        };
    let g = |i: int| occurrences(t.heap().objs[i].edges(), x);
    assert forall|i: int| 0 <= i < n implies #[trigger] f(i) == g(i) by {
        let q = (i + 1) as usize;
        assert(t.heap().obj(q) == t.heap().objs[i]);
        assert(t.heap().has(q));
        if v.contains(q) {
            assert(untouched(m.obj(q), t.heap().obj(q)));
            if t.recorded.dom().contains(q) {
                assert(m.obj(q).item == Some(t.recorded[q]));
            } else {
                assert(t.heap().obj(q).item is None);
                lemma_occurs(t.heap().obj(q).edges(), x);
            }
        } else {
            lemma_occurs(t.heap().edges(q), x);
            assert(!t.heap().edges(q).contains(x));
            if t.recorded.dom().contains(q) {
                lemma_occurs(t.recorded[q], x);
                assert(!t.recorded[q].contains(x));
            }
        }
    }
    lemma_sum_same(n, f, g);
    assert(t.heap().held(x) == 0);
}

/// The node of the object at `y` was taken for alive on good grounds: the object
/// could not be read, or was marked dirty, or had a handle that was not found.
pub open spec fn looks_alive(
    g: GraphView,
    t: Tearing,
    states: Seq<State>,
    counted: spec_fn(usize) -> int,
    looked: spec_fn(usize) -> int,
    y: usize,
) -> bool {
    ||| t.blind.contains(y)
    ||| 0 <= looked(y) < states.len() && dirty(states[looked(y)].heap, y)
    ||| 0 <= counted(y) < states.len() && states[counted(y)].heap.strong(y) != g.visited[y].1
}

/// Each node that is taken for alive looks alive, or is led to by one that does.
pub open spec fn is_fair(
    g: GraphView,
    ids: Set<usize>,
    t: Tearing,
    states: Seq<State>,
    counted: spec_fn(usize) -> int,
    looked: spec_fn(usize) -> int,
) -> bool {
    forall|i: usize| #[trigger] ids.contains(i) ==> exists|y: usize|
        g.knows(y) && looks_alive(g, t, states, counted, looked, y) && #[trigger] reaches(g.edge(), g.id(y), i as int)
}

/// What spreads from a node is led to by it.
pub proof fn law_spread_is_led_to(g: GraphView, ids: Set<usize>, from: usize, j: usize)
    requires
        spread_from(g, ids, from).contains(j),
    ensures
        ids.contains(j) || reaches(g.edge(), from as int, j as int),
{
    if !ids.contains(j) {
        let rel = avoiding(g, ids);
        let ok = |i: int| reaches(g.edge(), from as int, i);
        lemma_reaches_self(g.edge(), from as int);
        assert forall|a: int, b: int| ok(a) && #[trigger] rel(a, b) implies ok(b) by {
            assert(g.edge()(a, b));
            lemma_reaches_step(g.edge(), from as int, a, b);
        }
        lemma_closed(rel, ok, from as int, j as int);
    }
}

/// The graph leads to what was lost only from what was lost.
proof fn lemma_leads_within(m: Model, v: Set<usize>, g: GraphView, t: Tearing, y: usize, x: usize)
    requires
        preserved(m, v, t),
        t.faithful(),
        describes(g, t),
        g.knows(y),
        g.knows(x),
        v.contains(x),
        reaches(g.edge(), g.id(y), g.id(x)),
    ensures
        v.contains(y),
        y == x || t.recorded.dom().contains(y),
{
    let outside = |i: int| 0 <= i < g.neighbors.len() && !v.contains(g.neighbors[i].0);
    assert forall|a: int, b: int| outside(a) && #[trigger] g.edge()(a, b) implies outside(b) by {
        let p = g.neighbors[a].0;
        let q = g.neighbors[b].0;
        lemma_edge_recorded(g, t, a, b);
        if v.contains(q) {
            assert(v.contains(p));
        }
    }
    if !v.contains(y) {
        assert(outside(g.id(y)));
        lemma_closed(g.edge(), outside, g.id(y), g.id(x));
    }
    if !t.recorded.dom().contains(y) && y != x {
        let same = |i: int| i == g.id(y);
        assert forall|a: int, b: int| same(a) && #[trigger] g.edge()(a, b) implies same(b) by {
            lemma_edge_recorded(g, t, a, b);
        }
        lemma_closed(g.edge(), same, g.id(y), g.id(x));
    }
}

/// An edge of the graph is a handle that was found inside a traced object.
proof fn lemma_edge_recorded(g: GraphView, t: Tearing, a: int, b: int)
    requires
        t.faithful(),
        describes(g, t),
        g.edge()(a, b),
    ensures
        0 <= a < g.neighbors.len(),
        0 <= b < g.neighbors.len(),
        t.recorded.dom().contains(g.neighbors[a].0),
        t.recorded[g.neighbors[a].0].contains(g.neighbors[b].0),
{
    let p = g.neighbors[a].0;
    let x = b as u32;
    assert(g.neighbors[a].1.contains(x));
    assert(g.knows(p) && g.id(p) == a);
    assert(g.neighbors[g.id(p)].1.contains(x));
    assert(leads(g, t.recorded[p], x));
    let q = choose|q: usize| t.recorded[p].contains(q) && #[trigger] g.visited[q].0 == x;
    assert(t.found.contains(q));
    assert(g.knows(q));
    assert(g.neighbors[g.id(q)].0 == q);
}

/// What was lost when the collection began, and has contents, is condemned.
pub proof fn law_the_lost_are_condemned(
    ts: Seq<Tearing>,
    gs: Seq<GraphView>,
    events: Seq<Event>,
    ids: Set<usize>,
    states: Seq<State>,
    steps: Seq<Step>,
    counted: spec_fn(usize) -> int,
    looked: spec_fn(usize) -> int,
    x: usize,
)
    requires
        is_scan(ts, gs, events),
        ts[0].state.accounted(),
        lost_is_unlocked(ts[0].state),
        is_complete(ts.last(), ts[0].state.deferred),
        is_run(states, steps),
        states[0] == ts.last().state,
        is_fair(gs.last(), ids, ts.last(), states, counted, looked),
        lost(ts[0].state).contains(x),
        ts[0].heap().filled(x),
    ensures
        condemned(gs.last(), ids).contains(x),
{
    let s = ts[0].state;
    let m = s.heap;
    let v = lost(s);
    let t = ts.last();
    let g = gs.last();
    lemma_scan_preserves(ts, gs, events, ts.len() - 1);
    law_scan_is_faithful(ts, gs, events, ts.len() - 1);
    assert forall|q: usize| #[trigger] v.contains(q) implies t.found.contains(q) && (t.recorded.dom().contains(q)
        <==> m.filled(q)) by {
        law_scan_finds_the_lost(ts, gs, events, q);
    }
    assert(g.knows(x));
    let id = g.visited[x].0 as usize;
    if ids.contains(id) {
        let y = choose|y: usize|
            g.knows(y) && looks_alive(g, t, states, counted, looked, y) && #[trigger] reaches(
                g.edge(),
                g.id(y),
                id as int,
            );
        lemma_leads_within(m, v, g, t, y, x);
        assert(t.recorded.dom().contains(x));
        assert(t.recorded.dom().contains(y));
        assert(v.contains(y));
        lemma_lost_counted(m, v, t, y);
        assert(g.count(y) == t.count(y));
        assert forall|k: int| 0 <= k < states.len() implies (#[trigger] states[k]).heap.obj(y) == t.heap().obj(y)
            && states[k].heap.has(y) by {
            assert forall|z: usize| #[trigger] v.contains(z) implies !states[0].heap.obj(z).locked by {
                assert(untouched(m.obj(z), t.heap().obj(z)));
            }
            lemma_run_leaves(states, steps, v, k);
            lemma_run(states, steps, 0, k);
        }
        assert(!dirty(t.heap(), y));
    }
}

/// The contents of sealed objects that no one works on can only go.
proof fn lemma_sweep_drains(states: Seq<State>, moves: Seq<Move>, d: Set<usize>, v: Set<usize>, k: int)
    requires
        is_sweep(states, moves, d),
        sealed(states[0].heap, v),
        forall|x: usize| #[trigger] v.contains(x) ==> !states[0].heap.obj(x).locked,
        0 <= k < states.len(),
    ensures
        sealed(states[k].heap, v),
        forall|x: usize| #[trigger] v.contains(x) ==> !states[k].heap.obj(x).locked,
        forall|x: usize| #[trigger] v.contains(x) && states[0].heap.obj(x).item is None
            ==> states[k].heap.obj(x).item is None,
        forall|x: usize, i: int| #[trigger] v.contains(x) && 0 <= i < k && #[trigger] moves[i] == Move::Empty(x)
            ==> states[k].heap.obj(x).item is None,
    decreases k,
{
    if k > 0 {
        lemma_sweep_drains(states, moves, d, v, k - 1);
        law_sweep_keeps_sealed(states, moves, d, k - 1);
        let s = states[k - 1];
        let n = states[k];
        assert(n == moves[k - 1].made(s));
        match moves[k - 1] {
            Move::Step(step) => {
                law_step_keeps_sealed(s, step, v);
                law_step_leaves_sealed(s, step, v);
            },
            Move::Clear(p) => {
                lemma_reflagged(s, p, 0);
                lemma_reflagged_sealed(s, p, 0, v);
            },
            Move::Empty(z) => {
                lemma_emptying(s, d, z);
                assert forall|x: usize| #[trigger] v.contains(x) implies n.heap.has(x) && n.heap.held(x) == 0 by {
                    assert(s.heap.has(x));
                }
                assert forall|q: usize, x: usize| v.contains(x) && #[trigger] n.heap.edges(q).contains(x)
                    implies v.contains(q) by {
                    assert(s.heap.has(q));
                    assert(s.heap.edges(q).contains(x));
                }
            },
        }
        assert forall|x: usize| #[trigger] v.contains(x) implies !n.heap.obj(x).locked && (s.heap.obj(x).item is None
            ==> n.heap.obj(x).item is None) by {
            assert(s.heap.has(x));
        }
        assert forall|x: usize, i: int| #[trigger] v.contains(x) && 0 <= i < k && #[trigger] moves[i] == Move::Empty(x)
            implies n.heap.obj(x).item is None by {
            assert(s.heap.has(x));
        }
    }
}

/// A collection that runs alongside mutators frees all that was lost when it
/// began.
///
/// The collector scans to the end, judges fairly, and empties what it condemned,
/// all while mutators go on. If nothing was leaked when it began, then no object
/// is left in the end that was lost then.
pub proof fn law_collection_frees_the_lost(
    ts: Seq<Tearing>,
    gs: Seq<GraphView>,
    events: Seq<Event>,
    ids: Set<usize>,
    states: Seq<State>,
    steps: Seq<Step>,
    counted: spec_fn(usize) -> int,
    looked: spec_fn(usize) -> int,
    ends: Seq<State>,
    moves: Seq<Move>,
    x: usize,
)
    requires
        is_scan(ts, gs, events),
        ts[0].state.accounted(),
        lost_is_unlocked(ts[0].state),
        is_complete(ts.last(), ts[0].state.deferred),
        is_run(states, steps),
        states[0] == ts.last().state,
        is_fair(gs.last(), ids, ts.last(), states, counted, looked),
        is_sweep(ends, moves, condemned(gs.last(), ids)),
        ends[0] == states.last(),
        forall|y: usize| #[trigger] condemned(gs.last(), ids).contains(y) ==> moves.contains(Move::Empty(y)),
        lost(ts[0].state).contains(x),
    ensures
        !ends.last().heap.live(x),
{
    let s = ts[0].state;
    let v = lost(s);
    let t = ts.last();
    let d = condemned(gs.last(), ids);
    let end = ends.last().heap;
    lemma_scan_preserves(ts, gs, events, ts.len() - 1);
    law_scan_is_faithful(ts, gs, events, ts.len() - 1);
    assert forall|z: usize| #[trigger] v.contains(z) implies !states[0].heap.obj(z).locked by {
        assert(untouched(s.heap.obj(z), t.heap().obj(z)));
    }
    lemma_run_leaves(states, steps, v, states.len() - 1);
    lemma_run_sealed(states, steps, v, states.len() - 1);
    lemma_sweep_drains(ends, moves, d, v, ends.len() - 1);
    law_sweep_keeps_sealed(ends, moves, d, ends.len() - 1);
    assert forall|z: usize| #[trigger] v.contains(z) implies end.obj(z).item is None by {
        if s.heap.filled(z) {
            law_the_lost_are_condemned(ts, gs, events, ids, states, steps, counted, looked, z);
            assert(moves.contains(Move::Empty(z)));
            let i = choose|i: int| 0 <= i < moves.len() && moves[i] == Move::Empty(z);
            assert(moves[i] == Move::Empty(z));
        } else {
            assert(untouched(s.heap.obj(z), t.heap().obj(z)));
            assert(ends[0].heap.obj(z).item is None);
        }
    }
    if end.live(x) {
        assert(end.held(x) == 0);
        let a = lemma_internal_witness(end, x);
        assert(v.contains(a));
    }
}

} // verus!
