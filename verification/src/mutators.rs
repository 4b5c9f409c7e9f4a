//! Mutators that work on the heap while the collector scans and judges.
//!
//! A mutator copies handles that it can get at, drops the ones it has, makes
//! objects, and takes the contents of objects into its hands and puts them back
//! with other handles inside. The collector sees the objects one at a time
//! meanwhile, so that its graph is torn: no single moment of the heap need look
//! like it. What it takes for dead is out of reach all the same, because a handle
//! that goes leaves a mark on its target, and contents that change leave a mark
//! on their object.

use crate::collector::{lemma_add_node_wf, lemma_ready_prefix, GraphView};
use crate::explore::leads;
use crate::flags::{dirtied, has_bits, lemma_flag_words, ALL_BITS, DIRTY_BIT, VISITED_BIT};
use crate::graph::{
    lemma_closed, lemma_occurrences_push, lemma_occurrences_reverse, lemma_occurs, lemma_reaches_step,
    lemma_sum_at, lemma_sum_le, lemma_sum_lt, lemma_sum_positive, lemma_sum_same, occurrences, one, reaches,
    sum,
};
use crate::heap::new_obj;
use crate::laws::law_drop_keeps_the_living;
use crate::marks::{avoiding, spread_from};
use crate::model::{
    covered, lemma_drop_all_held, lemma_drop_total, lemma_drop_wf, lemma_edge_live, lemma_emptied,
    lemma_internal_push, lemma_internal_with, lemma_lent_held, lemma_lent_wf, lemma_reach_edge,
    lemma_reach_live, lemma_reach_root, lemma_returned_held, lemma_returned_wf, Model, Obj, State,
};
use vstd::prelude::*;

verus! {

/// A collection under way: the world as it is now, the objects that are nodes of
/// the graph, for each traced object the handles that were found inside, and the
/// objects that could not be read.
pub struct Tearing {
    pub state: State,
    pub found: Set<usize>,
    pub recorded: Map<usize, Seq<usize>>,
    pub blind: Set<usize>,
}

/// The object at `p` is flagged as visited.
pub open spec fn flagged(m: Model, p: usize) -> bool {
    m.has(p) && has_bits(m.obj(p).bits, VISITED_BIT)
}

/// A handle to the object at `p` was dropped, or its contents were taken out,
/// since it was visited.
pub open spec fn dirty(m: Model, p: usize) -> bool {
    m.has(p) && has_bits(m.obj(p).bits, DIRTY_BIT)
}

/// Every flag word is one of those that occur.
pub open spec fn words_ok(m: Model) -> bool {
    forall|p: usize| #[trigger] m.has(p) ==> m.obj(p).bits == 0 || m.obj(p).bits == VISITED_BIT || m.obj(p).bits
        == ALL_BITS
}

impl Tearing {
    /// The heap as it is now.
    pub open spec fn heap(self) -> Model {
        self.state.heap
    }

    /// The number of handles to `p` that were found inside traced objects.
    pub open spec fn count(self, p: usize) -> nat {
        sum(self.heap().objs.len(), |i: int|
            if self.recorded.dom().contains((i + 1) as usize) {
                occurrences(self.recorded[(i + 1) as usize], p)
            } else {
                0
            })
    }

    /// What was found inside an object is what is there, unless the object is
    /// marked dirty or freed.
    pub open spec fn faithful(self) -> bool {
        &&& self.heap().wf()
        &&& words_ok(self.heap())
        &&& forall|q: usize| #[trigger] self.recorded.dom().contains(q) ==> {
            &&& self.heap().has(q)
            &&& self.heap().live(q) ==> flagged(self.heap(), q)
            &&& self.heap().live(q) && !dirty(self.heap(), q) ==> self.heap().obj(q).item == Some(self.recorded[q])
        }
        &&& forall|q: usize, x: usize| self.recorded.dom().contains(q) && #[trigger] self.recorded[q].contains(x)
            ==> self.found.contains(x)
        &&& forall|x: usize| #[trigger] self.found.contains(x) ==> self.heap().has(x)
    }
}

/// What a mutator does in one go.
pub enum Step {
    /// Copies a handle that it can get at.
    Clone(usize),
    /// Makes an object that holds the given handles.
    New(Option<Seq<usize>>),
    /// Drops a handle, and all that falls out of what is freed.
    Drop(usize),
    /// Takes the contents of an object that it can get at into its hands: to
    /// change them, or to read contents that handles can be moved out of
    /// meanwhile.
    Lend(usize),
    /// Puts contents back, with the given handles inside.
    Return(usize, Seq<usize>),
}

impl Step {
    /// A mutator can take the step: it has the handles that it needs.
    pub open spec fn possible(self, m: Model) -> bool {
        match self {
            Step::Clone(p) => m.reach(m.held_set()).contains(p),
            Step::New(item) => m.objs.len() < usize::MAX - 1 && (item matches Some(es) ==> covered(m, es)),
            Step::Drop(p) => m.held(p) > 0,
            Step::Lend(q) => m.reach(m.held_set()).contains(q) && m.filled(q),
            Step::Return(q, es) => m.live(q) && m.obj(q).locked && covered(m, es),
        }
    }

    /// The world after the step.
    pub open spec fn taken(self, s: State) -> State {
        match self {
            Step::Clone(p) => s.cloned(p),
            Step::New(item) => s.allocated(item),
            Step::Drop(p) => s.drop_all(seq![p], false),
            Step::Lend(q) => s.lent(q),
            Step::Return(q, es) => s.returned(q, es),
        }
    }
}

/// Between two moments of a heap: objects stay where they are; a flagged object
/// that has fewer handles than before, or other contents, is dirty or freed; and
/// what is dirty or freed stays so.
pub open spec fn marks_changes(a: Model, b: Model) -> bool {
    &&& a.objs.len() <= b.objs.len()
    &&& words_ok(b)
    &&& forall|x: usize| #[trigger] a.has(x) && !a.live(x) ==> !b.live(x)
    &&& forall|x: usize| #[trigger] a.has(x) && dirty(a, x) && b.live(x) ==> dirty(b, x)
    &&& forall|x: usize| #[trigger] a.has(x) && flagged(a, x) && b.live(x) ==> flagged(b, x)
    &&& forall|x: usize| #[trigger] a.has(x) && flagged(a, x) && b.live(x) && b.strong(x) < a.strong(x) ==> dirty(b, x)
    &&& forall|x: usize| #[trigger] a.has(x) && flagged(a, x) && a.filled(x) && b.live(x) && b.obj(x).item != a.obj(
        x,
    ).item ==> dirty(b, x)
    &&& forall|x: usize| #[trigger] a.has(x) && !flagged(a, x) ==> !flagged(b, x) && !dirty(b, x)
}

proof fn lemma_dirtied(bits: usize)
    requires
        bits == 0 || bits == VISITED_BIT || bits == ALL_BITS,
    ensures
        dirtied(bits) == 0 || dirtied(bits) == VISITED_BIT || dirtied(bits) == ALL_BITS,
        has_bits(dirtied(bits), VISITED_BIT) == has_bits(bits, VISITED_BIT),
        has_bits(bits, DIRTY_BIT) ==> has_bits(dirtied(bits), DIRTY_BIT),
        has_bits(bits, VISITED_BIT) ==> has_bits(dirtied(bits), DIRTY_BIT),
        has_bits(dirtied(bits), DIRTY_BIT) ==> has_bits(bits, VISITED_BIT),
{
    lemma_flag_words();
}

proof fn lemma_marks_refl(m: Model)
    requires
        words_ok(m),
    ensures
        marks_changes(m, m),
{
    lemma_flag_words();
    assert forall|x: usize| #[trigger] m.has(x) && !flagged(m, x) implies !dirty(m, x) by {}
}

proof fn lemma_marks_trans(a: Model, b: Model, c: Model)
    requires
        words_ok(a),
        marks_changes(a, b),
        marks_changes(b, c),
    ensures
        marks_changes(a, c),
{
    lemma_flag_words();
    assert forall|x: usize| #[trigger] a.has(x) implies b.has(x) && (!a.live(x) ==> !c.live(x)) && (dirty(a, x)
        && c.live(x) ==> dirty(c, x)) && (flagged(a, x) && c.live(x) ==> flagged(c, x)) && (flagged(a, x) && c.live(x)
        && c.strong(x) < a.strong(x) ==> dirty(c, x)) && (flagged(a, x) && a.filled(x) && c.live(x) && c.obj(x).item
        != a.obj(x).item ==> dirty(c, x)) && (!flagged(a, x) ==> !flagged(c, x) && !dirty(c, x)) by {
        assert(b.has(x));
        if c.live(x) {
            assert(b.live(x)) by {
                if !b.live(x) {
                    assert(!c.live(x));
                }
            }
        }
    }
}

/// The drop of one handle marks the loss.
proof fn lemma_drop_one_marks(s: State, p: usize)
    requires
        s.heap.wf(),
        words_ok(s.heap),
        s.heap.live(p),
    ensures
        marks_changes(s.heap, s.drop_one(p, false).heap),
{
    let n = s.drop_one(p, false).heap;
    let m = s.heap;
    lemma_flag_words();
    lemma_dirtied(m.obj(p).bits);
    assert forall|x: usize| #[trigger] n.has(x) implies n.obj(x).bits == 0 || n.obj(x).bits == VISITED_BIT || n.obj(
        x,
    ).bits == ALL_BITS by {
        assert(m.has(x));
    }
}

/// The drop of handles, and of those that fall out of what is freed, marks the
/// losses.
proof fn lemma_drop_all_marks(s: State, work: Seq<usize>)
    requires
        s.heap.wf(),
        words_ok(s.heap),
        covered(s.heap, work),
    ensures
        marks_changes(s.heap, s.drop_all(work, false).heap),
        s.drop_all(work, false).heap.wf(),
        s.drop_all(work, false).heap.objs.len() == s.heap.objs.len(),
        forall|q: usize| #[trigger] s.heap.has(q)
            ==> s.drop_all(work, false).heap.obj(q).item == s.heap.obj(q).item || !s.drop_all(
            work,
            false,
        ).heap.live(q),
    decreases s.heap.total(), work.len(),
{
    if work.len() == 0 {
        lemma_marks_refl(s.heap);
    } else {
        let p = work.last();
        let n = s.drop_one(p, false);
        let rest = work.drop_last() + s.unwrapped(p).reverse();
        lemma_drop_wf(s, work, false);
        lemma_drop_total(s, p, false);
        lemma_drop_one_marks(s, p);
        lemma_drop_all_marks(n, rest);
        let end = n.drop_all(rest, false).heap;
        assert(s.drop_all(work, false).heap == end);
        lemma_marks_trans(s.heap, n.heap, end);
        assert forall|q: usize| #[trigger] s.heap.has(q) implies end.obj(q).item == s.heap.obj(q).item || !end.live(q) by {
            assert(n.heap.has(q));
        }
    }
}

proof fn lemma_single(p: usize, x: usize)
    ensures
        occurrences(seq![p], x) == one(x, p),
{
    lemma_occurrences_push(Seq::empty(), p, x);
    assert(Seq::<usize>::empty().push(p) =~= seq![p]);
}

/// The heap after the drop of one handle that the mutator has, with what falls
/// out of freed objects: no contents gain handles, and no hands.
proof fn lemma_drop_shrinks(s: State, p: usize)
    requires
        s.heap.wf(),
        words_ok(s.heap),
        s.heap.held(p) > 0,
    ensures
        s.drop_all(seq![p], false).heap.wf(),
        s.drop_all(seq![p], false).heap.objs.len() == s.heap.objs.len(),
        marks_changes(s.heap, s.drop_all(seq![p], false).heap),
        forall|x: usize| #[trigger] s.drop_all(seq![p], false).heap.held(x) == s.heap.held(x) - one(x, p),
        forall|q: usize, x: usize| #[trigger] s.drop_all(seq![p], false).heap.edges(q).contains(x)
            ==> s.heap.edges(q).contains(x),
{
    let b = s.drop_all(seq![p], false).heap;
    assert forall|x: usize| occurrences(seq![p], x) <= #[trigger] s.heap.held(x) by {
        lemma_single(p, x);
        assert(s.heap.held(x) >= 0);
    }
    lemma_drop_all_marks(s, seq![p]);
    assert forall|x: usize| #[trigger] b.held(x) == s.heap.held(x) - one(x, p) by {
        lemma_drop_all_held(s, seq![p], false, x);
        lemma_single(p, x);
    }
    assert forall|q: usize, x: usize| #[trigger] b.edges(q).contains(x) implies s.heap.edges(q).contains(x) by {
        assert(s.heap.has(q));
        assert(b.has(q));
        if b.obj(q).item != s.heap.obj(q).item {
            assert(!b.live(q));
            assert(b.obj(q).item is None);
        }
    }
}

/// What a step does to a heap: it stays well-formed, and changes are marked.
pub proof fn lemma_step(s: State, step: Step)
    requires
        s.heap.wf(),
        words_ok(s.heap),
        step.possible(s.heap),
    ensures
        step.taken(s).heap.wf(),
        marks_changes(s.heap, step.taken(s).heap),
{
    let a = s.heap;
    let b = step.taken(s).heap;
    lemma_flag_words();
    match step {
        Step::Clone(p) => {
            lemma_reach_live(a, a.held_set(), p);
            assert forall|x: usize| #[trigger] b.held(x) >= 0 by {
                lemma_internal_with(a, p, b.obj(p), x);
                assert(a.held(x) >= 0);
            }
            assert forall|x: usize| #[trigger] b.has(x) implies (b.obj(x).strong == 0 || b.obj(x).locked ==> b.obj(
                x,
            ).item is None) && (b.obj(x).bits == 0 || b.obj(x).bits == VISITED_BIT || b.obj(x).bits == ALL_BITS) by {
                assert(a.has(x));
            }
        },
        Step::New(item) => {
            let o = new_obj(item);
            assert forall|x: usize| #[trigger] b.held(x) >= 0 by {
                lemma_internal_push(a, o, x);
                assert(a.held(x) >= occurrences(o.edges(), x));
                if a.has(x) {
                    assert(b.obj(x) == a.obj(x));
                }
            }
            assert forall|x: usize| #[trigger] b.has(x) implies (b.obj(x).strong == 0 || b.obj(x).locked ==> b.obj(
                x,
            ).item is None) && (b.obj(x).bits == 0 || b.obj(x).bits == VISITED_BIT || b.obj(x).bits == ALL_BITS) by {
                if a.has(x) {
                    assert(b.obj(x) == a.obj(x));
                }
            }
            assert forall|x: usize| #[trigger] a.has(x) implies b.obj(x) == a.obj(x) by {}
        },
        Step::Drop(p) => {
            lemma_drop_shrinks(s, p);
        },
        Step::Lend(q) => {
            lemma_lent_wf(s, q);
            lemma_dirtied(a.obj(q).bits);
            assert forall|x: usize| #[trigger] b.has(x) implies b.obj(x).bits == 0 || b.obj(x).bits == VISITED_BIT
                || b.obj(x).bits == ALL_BITS by {
                assert(a.has(x));
            }
        },
        Step::Return(q, es) => {
            lemma_returned_wf(s, q, es);
            assert forall|x: usize| #[trigger] b.has(x) implies b.obj(x).bits == 0 || b.obj(x).bits == VISITED_BIT
                || b.obj(x).bits == ALL_BITS by {
                assert(a.has(x));
            }
        },
    }
}

/// What happens while the collector scans.
pub enum Event {
    /// A mutator takes a step.
    Step(Step),
    /// The collector makes an object a node and flags it.
    Visit(usize),
    /// It can not read the contents of an object that it flagged, and clears
    /// the flags.
    GiveUp(usize),
    /// It finds the handles inside an object that it flagged.
    Trace(usize),
}

impl Event {
    /// The event can happen, and the graph `g` has room for it.
    pub open spec fn possible(self, g: GraphView, t: Tearing) -> bool {
        match self {
            Event::Step(step) => step.possible(t.heap()),
            Event::Visit(p) => {
                &&& t.heap().live(p)
                &&& !flagged(t.heap(), p)
                &&& g.knows(p) || g.neighbors.len() <= u32::MAX
            },
            Event::GiveUp(p) => t.heap().has(p) && !t.heap().filled(p) && !t.recorded.dom().contains(p),
            Event::Trace(p) => {
                &&& t.heap().filled(p)
                &&& flagged(t.heap(), p)
                &&& !t.recorded.dom().contains(p)
                &&& g.ready(p, t.heap().edges(p), t.heap())
            },
        }
    }

    /// The collection after the event.
    pub open spec fn after(self, t: Tearing) -> Tearing {
        match self {
            Event::Step(step) => Tearing { state: step.taken(t.state), ..t },
            Event::Visit(p) => Tearing {
                state: t.state.reflagged(p, VISITED_BIT),
                found: t.found.insert(p),
                ..t
            },
            Event::GiveUp(p) => Tearing { state: t.state.reflagged(p, 0), blind: t.blind.insert(p), ..t },
            Event::Trace(p) => Tearing {
                found: t.found.union(t.heap().edges(p).to_set()),
                recorded: t.recorded.insert(p, t.heap().edges(p)),
                ..t
            },
        }
    }

    /// The graph after the event.
    pub open spec fn noted(self, g: GraphView, t: Tearing) -> GraphView {
        match self {
            Event::Step(_) => g,
            Event::Visit(p) => g.add_node(p),
            Event::GiveUp(_) => g,
            Event::Trace(p) => g.add_edges(p, t.heap().edges(p)),
        }
    }
}

/// Another flag word changes nothing else.
pub proof fn lemma_reflagged(s: State, p: usize, bits: usize)
    requires
        s.heap.wf(),
        words_ok(s.heap),
        s.heap.has(p),
        bits == 0 || bits == VISITED_BIT,
    ensures
        s.reflagged(p, bits).heap.wf(),
        words_ok(s.reflagged(p, bits).heap),
        forall|x: usize| #[trigger] s.reflagged(p, bits).heap.held(x) == s.heap.held(x),
        forall|x: usize| #[trigger] s.heap.has(x) ==> s.reflagged(p, bits).heap.obj(x) == (Obj {
            bits: s.reflagged(p, bits).heap.obj(x).bits,
            ..s.heap.obj(x)
        }),
{
    let n = s.reflagged(p, bits).heap;
    assert forall|x: usize| #[trigger] n.held(x) == s.heap.held(x) by {
        lemma_internal_with(s.heap, p, n.obj(p), x);
    }
    assert forall|x: usize| #[trigger] n.held(x) >= 0 by {
        assert(s.heap.held(x) >= 0);
    }
    assert forall|x: usize| #[trigger] n.has(x) implies (n.obj(x).strong == 0 || n.obj(x).locked ==> n.obj(
        x,
    ).item is None) && (n.obj(x).bits == 0 || n.obj(x).bits == VISITED_BIT || n.obj(x).bits == ALL_BITS) by {
        assert(s.heap.has(x));
    }
}

/// The collector's record of the handles inside traced objects stays faithful
/// under a mutator's step.
pub proof fn law_step_keeps_faith(t: Tearing, step: Step)
    requires
        t.faithful(),
        step.possible(t.heap()),
    ensures
        (Tearing { state: step.taken(t.state), ..t }).faithful(),
{
    let a = t.heap();
    let n = Tearing { state: step.taken(t.state), ..t };
    let b = n.heap();
    lemma_step(t.state, step);
    assert forall|q: usize| #[trigger] n.recorded.dom().contains(q) implies b.has(q) && (b.live(q) ==> flagged(b, q))
        && (b.live(q) && !dirty(b, q) ==> b.obj(q).item == Some(n.recorded[q])) by {
        assert(t.recorded.dom().contains(q));
        assert(a.has(q));
        if b.live(q) {
            assert(a.live(q));
            assert(flagged(a, q));
        }
    }
    assert forall|q: usize, x: usize| n.recorded.dom().contains(q) && #[trigger] n.recorded[q].contains(x)
        implies n.found.contains(x) by {
        assert(t.recorded[q].contains(x));
    }
    assert forall|x: usize| #[trigger] n.found.contains(x) implies b.has(x) by {
        assert(a.has(x));
    }
}

/// The record stays faithful when the collector flags an object that was not
/// flagged, or clears the flags of one that was not traced.
pub proof fn law_flags_keep_faith(t: Tearing, p: usize, bits: usize)
    requires
        t.faithful(),
        t.heap().has(p),
        !t.recorded.dom().contains(p),
        bits == 0 || bits == VISITED_BIT,
    ensures
        (Tearing { state: t.state.reflagged(p, bits), ..t }).faithful(),
{
    let n = Tearing { state: t.state.reflagged(p, bits), ..t };
    lemma_reflagged(t.state, p, bits);
    assert forall|q: usize| #[trigger] n.recorded.dom().contains(q) implies n.heap().has(q) && n.heap().obj(q)
        == t.heap().obj(q) by {
        assert(t.recorded.dom().contains(q));
    }
    assert forall|q: usize, x: usize| n.recorded.dom().contains(q) && #[trigger] n.recorded[q].contains(x)
        implies n.found.contains(x) by {
        assert(t.recorded[q].contains(x));
    }
    assert forall|x: usize| #[trigger] n.found.contains(x) implies n.heap().has(x) by {
        assert(t.found.contains(x));
    }
}

/// The record stays faithful when the collector traces an object that it
/// flagged: the handles inside are recorded as they are at that moment.
pub proof fn law_trace_keeps_faith(t: Tearing, p: usize)
    requires
        t.faithful(),
        t.heap().filled(p),
        flagged(t.heap(), p),
    ensures
        Event::Trace(p).after(t).faithful(),
{
    let es = t.heap().edges(p);
    let n = Event::Trace(p).after(t);
    assert forall|q: usize| #[trigger] n.recorded.dom().contains(q) implies n.heap().has(q) && (n.heap().live(q)
        ==> flagged(n.heap(), q)) && (n.heap().live(q) && !dirty(n.heap(), q) ==> n.heap().obj(q).item == Some(
        n.recorded[q],
    )) by {
        if q != p {
            assert(t.recorded.dom().contains(q));
        }
    }
    assert forall|q: usize, x: usize| n.recorded.dom().contains(q) && #[trigger] n.recorded[q].contains(x)
        implies n.found.contains(x) by {
        if q != p {
            assert(t.recorded[q].contains(x));
        } else {
            assert(es.to_set().contains(x));
        }
    }
    assert forall|x: usize| #[trigger] n.found.contains(x) implies n.heap().has(x) by {
        if es.contains(x) {
            lemma_edge_live(t.heap(), p, x);
        } else {
            assert(t.found.contains(x));
        }
    }
}

/// The record stays faithful, whatever happens.
pub proof fn law_event_keeps_faith(g: GraphView, t: Tearing, event: Event)
    requires
        t.faithful(),
        event.possible(g, t),
    ensures
        event.after(t).faithful(),
{
    match event {
        Event::Step(step) => law_step_keeps_faith(t, step),
        Event::Visit(p) => {
            assert(!t.recorded.dom().contains(p));
            law_flags_keep_faith(t, p, VISITED_BIT);
            let flags = Tearing { state: t.state.reflagged(p, VISITED_BIT), ..t };
            let n = event.after(t);
            assert(n.heap() == flags.heap());
            assert forall|q: usize| #[trigger] n.recorded.dom().contains(q) implies flags.recorded.dom().contains(q) by {}
            assert forall|q: usize, x: usize| n.recorded.dom().contains(q) && #[trigger] n.recorded[q].contains(x)
                implies n.found.contains(x) by {
                assert(flags.recorded[q].contains(x));
                assert(flags.found.contains(x));
            }
            assert forall|x: usize| #[trigger] n.found.contains(x) implies n.heap().has(x) by {
                assert(x == p || flags.found.contains(x));
            }
        },
        Event::GiveUp(p) => {
            law_flags_keep_faith(t, p, 0);
            let flags = Tearing { state: t.state.reflagged(p, 0), ..t };
            assert(event.after(t) == (Tearing { blind: t.blind.insert(p), ..flags }));
        },
        Event::Trace(p) => law_trace_keeps_faith(t, p),
    }
}

/// Nothing outside of `d` refers to anything inside, and no mutator has a
/// handle to it.
pub open spec fn sealed(m: Model, d: Set<usize>) -> bool {
    &&& forall|x: usize| #[trigger] d.contains(x) ==> m.has(x) && m.held(x) == 0
    &&& forall|q: usize, x: usize| d.contains(x) && #[trigger] m.edges(q).contains(x) ==> d.contains(q)
}

/// What is sealed is out of the mutators' reach.
pub proof fn law_sealed_is_out_of_reach(m: Model, d: Set<usize>, x: usize)
    requires
        sealed(m, d),
        d.contains(x),
    ensures
        !m.reach(m.held_set()).contains(x),
{
    if m.reach(m.held_set()).contains(x) {
        let r = choose|r: usize| m.held_set().contains(r) && m.live(r) && #[trigger] reaches(m.edge(), r, x);
        let ok = |y: usize| !d.contains(y);
        assert forall|y: usize, z: usize| ok(y) && #[trigger] m.edge()(y, z) implies ok(z) by {
            assert(m.edges(y).contains(z));
        }
        lemma_closed(m.edge(), ok, r, x);
    }
}

/// Flags do not break a seal.
pub proof fn lemma_reflagged_sealed(s: State, p: usize, bits: usize, d: Set<usize>)
    requires
        s.heap.wf(),
        words_ok(s.heap),
        s.heap.has(p),
        bits == 0 || bits == VISITED_BIT,
        sealed(s.heap, d),
    ensures
        sealed(s.reflagged(p, bits).heap, d),
{
    lemma_reflagged(s, p, bits);
    let n = s.reflagged(p, bits).heap;
    assert forall|q: usize, x: usize| d.contains(x) && #[trigger] n.edges(q).contains(x) implies d.contains(q) by {
        assert(s.heap.has(q));
        assert(s.heap.edges(q).contains(x));
    }
}

/// What is sealed stays sealed: a mutator works only on what it can get at.
pub proof fn law_step_keeps_sealed(s: State, step: Step, d: Set<usize>)
    requires
        s.heap.wf(),
        words_ok(s.heap),
        step.possible(s.heap),
        sealed(s.heap, d),
    ensures
        sealed(step.taken(s).heap, d),
{
    let a = s.heap;
    let b = step.taken(s).heap;
    match step {
        Step::Clone(p) => {
            lemma_reach_live(a, a.held_set(), p);
            if d.contains(p) {
                law_sealed_is_out_of_reach(a, d, p);
            }
            assert forall|x: usize| #[trigger] d.contains(x) implies b.has(x) && b.held(x) == 0 by {
                lemma_internal_with(a, p, b.obj(p), x);
            }
            assert forall|q: usize, x: usize| d.contains(x) && #[trigger] b.edges(q).contains(x) implies d.contains(q) by {
                assert(a.edges(q).contains(x));
            }
        },
        Step::New(item) => {
            let o = new_obj(item);
            assert forall|x: usize| #[trigger] d.contains(x) implies b.has(x) && b.held(x) == 0 by {
                lemma_internal_push(a, o, x);
                assert(a.held(x) >= occurrences(o.edges(), x));
                assert(b.obj(x) == a.obj(x));
            }
            assert forall|q: usize, x: usize| d.contains(x) && #[trigger] b.edges(q).contains(x) implies d.contains(q) by {
                if a.has(q) {
                    assert(b.obj(q) == a.obj(q));
                    assert(a.edges(q).contains(x));
                } else {
                    assert(b.obj(q) == o);
                    lemma_occurs(o.edges(), x);
                    assert(a.held(x) >= occurrences(o.edges(), x));
                }
            }
        },
        Step::Drop(p) => {
            lemma_drop_shrinks(s, p);
            assert forall|x: usize| #[trigger] d.contains(x) implies b.has(x) && b.held(x) == 0 by {
                assert(b.held(x) == a.held(x) - one(x, p));
                assert(b.held(x) >= 0);
            }
            assert forall|q: usize, x: usize| d.contains(x) && #[trigger] b.edges(q).contains(x) implies d.contains(q) by {
                assert(a.edges(q).contains(x));
            }
        },
        Step::Lend(q0) => {
            if d.contains(q0) {
                law_sealed_is_out_of_reach(a, d, q0);
            }
            lemma_lent_held(s, q0);
            assert forall|x: usize| #[trigger] d.contains(x) implies b.has(x) && b.held(x) == 0 by {
                lemma_occurs(a.edges(q0), x);
                assert(!a.edges(q0).contains(x));
                assert(b.held(x) == a.held(x) + occurrences(a.edges(q0), x));
            }
            assert forall|q: usize, x: usize| d.contains(x) && #[trigger] b.edges(q).contains(x) implies d.contains(q) by {
                assert(a.edges(q).contains(x));
            }
        },
        Step::Return(q0, es) => {
            lemma_returned_held(s, q0, es);
            assert forall|x: usize| #[trigger] d.contains(x) implies b.has(x) && b.held(x) == 0 && !es.contains(x) by {
                lemma_occurs(es, x);
                assert(occurrences(es, x) <= a.held(x));
                assert(b.held(x) == a.held(x) - occurrences(es, x));
            }
            assert forall|q: usize, x: usize| d.contains(x) && #[trigger] b.edges(q).contains(x) implies d.contains(q) by {
                if q == q0 {
                    assert(b.edges(q) == es);
                } else {
                    assert(a.edges(q).contains(x));
                }
            }
        },
    }
}

/// Drops of handles to objects outside of `d` leave the objects in `d` as they
/// are, if nothing outside refers to them.
proof fn lemma_drop_leaves(s: State, work: Seq<usize>, d: Set<usize>)
    requires
        forall|x: usize| #[trigger] d.contains(x) ==> s.heap.has(x),
        forall|q: usize, x: usize| d.contains(x) && #[trigger] s.heap.edges(q).contains(x) ==> d.contains(q),
        forall|i: int| 0 <= i < work.len() ==> !d.contains(#[trigger] work[i]),
    ensures
        forall|x: usize| #[trigger] d.contains(x) ==> s.drop_all(work, false).heap.obj(x) == s.heap.obj(x),
    decreases s.heap.total(), work.len(),
{
    if work.len() == 0 {
    } else if !s.heap.live(work.last()) {
        lemma_drop_leaves(s, work.drop_last(), d);
    } else {
        let p = work.last();
        let n = s.drop_one(p, false);
        let out = s.unwrapped(p);
        let rest = work.drop_last() + out.reverse();
        lemma_drop_total(s, p, false);
        assert(!d.contains(work[work.len() - 1]));
        assert forall|q: usize, x: usize| d.contains(x) && #[trigger] n.heap.edges(q).contains(x) implies d.contains(q) by {
            assert(s.heap.edges(q).contains(x));
        }
        assert forall|i: int| 0 <= i < rest.len() implies !d.contains(#[trigger] rest[i]) by {
            if i < work.len() - 1 {
                assert(rest[i] == work[i]);
            } else {
                let j = out.len() - 1 - (i - (work.len() - 1));
                assert(rest[i] == out[j]);
                assert(s.heap.edges(p).contains(out[j]));
            }
        }
        lemma_drop_leaves(n, rest, d);
        assert forall|x: usize| #[trigger] d.contains(x) implies n.drop_all(rest, false).heap.obj(x) == s.heap.obj(x) by {
            assert(n.heap.obj(x) == s.heap.obj(x));
        }
    }
}

/// What is sealed and in no one's hands is left as it is.
pub proof fn law_step_leaves_sealed(s: State, step: Step, d: Set<usize>)
    requires
        s.heap.wf(),
        step.possible(s.heap),
        sealed(s.heap, d),
        forall|x: usize| #[trigger] d.contains(x) ==> !s.heap.obj(x).locked,
    ensures
        forall|x: usize| #[trigger] d.contains(x) ==> step.taken(s).heap.obj(x) == s.heap.obj(x),
{
    let a = s.heap;
    match step {
        Step::Clone(p) => {
            lemma_reach_live(a, a.held_set(), p);
            if d.contains(p) {
                law_sealed_is_out_of_reach(a, d, p);
            }
        },
        Step::New(_) => {},
        Step::Drop(p) => {
            lemma_drop_leaves(s, seq![p], d);
        },
        Step::Lend(q) => {
            if d.contains(q) {
                law_sealed_is_out_of_reach(a, d, q);
            }
        },
        Step::Return(_, _) => {},
    }
}

/// Each handle to an object of `d` that was counted is still where it was
/// found, if nothing that was traced outside of `d` led to the object. So no
/// more were counted than there are; and if all there are were counted, no one
/// else has one.
proof fn lemma_record(t: Tearing, d: Set<usize>, x: usize)
    requires
        t.faithful(),
        forall|q: usize| #[trigger] d.contains(q) ==> t.heap().live(q) && !dirty(t.heap(), q),
        forall|q: usize| t.recorded.dom().contains(q) && !d.contains(q) ==> !(#[trigger] t.recorded[q]).contains(x),
        d.contains(x),
    ensures
        t.count(x) <= t.heap().internal(x) <= t.heap().strong(x),
        t.count(x) == t.heap().strong(x) ==> t.heap().held(x) == 0 && forall|q: usize|
            #[trigger] t.heap().edges(q).contains(x) ==> d.contains(q),
{
    let n = t.heap().objs.len();
    let f = |i: int|
        if t.recorded.dom().contains((i + 1) as usize) {
            occurrences(t.recorded[(i + 1) as usize], x)
        } else {
            0
        };
    let g = |i: int| occurrences(t.heap().objs[i].edges(), x);
    assert forall|i: int| 0 <= i < n implies #[trigger] f(i) <= g(i) && (f(i) > 0 ==> d.contains((i + 1) as usize)) by {
        let q = (i + 1) as usize;
        assert(t.heap().obj(q) == t.heap().objs[i]);
        if t.recorded.dom().contains(q) {
            lemma_occurs(t.recorded[q], x);
            if d.contains(q) {
                assert(t.heap().obj(q).item == Some(t.recorded[q]));
            }
        }
    }
    lemma_sum_le(n, f, g);
    assert(t.heap().held(x) >= 0);
    if t.count(x) == t.heap().strong(x) {
        assert forall|q: usize| #[trigger] t.heap().edges(q).contains(x) implies d.contains(q) by {
            assert(t.heap().has(q));
            lemma_sum_lt(n, f, g, q - 1);
            assert(f(q - 1) == g(q - 1));
            lemma_occurs(t.heap().edges(q), x);
        }
    }
}

/// What the collector takes for dead is sealed: each object in `d` is live and
/// clean and has as many handles as were found, and no traced object outside of
/// `d` led to it.
pub proof fn law_verdict_seals(t: Tearing, d: Set<usize>)
    requires
        t.faithful(),
        forall|x: usize| #[trigger] d.contains(x) ==> {
            &&& t.heap().live(x)
            &&& !dirty(t.heap(), x)
            &&& t.heap().strong(x) == t.count(x)
        },
        unreferenced(t, d),
    ensures
        sealed(t.heap(), d),
{
    assert forall|x: usize| #[trigger] d.contains(x) implies t.heap().has(x) && t.heap().held(x) == 0 by {
        lemma_record(t, d, x);
    }
    assert forall|q: usize, x: usize| d.contains(x) && #[trigger] t.heap().edges(q).contains(x) implies d.contains(q) by {
        lemma_record(t, d, x);
    }
}

/// A run of mutators' steps.
pub open spec fn is_run(states: Seq<State>, steps: Seq<Step>) -> bool {
    &&& states.len() == steps.len() + 1
    &&& forall|i: int| 0 <= i < steps.len() ==> (#[trigger] steps[i]).possible(states[i].heap)
    &&& forall|i: int, j: int|
        #![trigger steps[i], states[j]]
        0 <= i < steps.len() && j == i + 1 ==> states[j] == steps[i].taken(states[i])
}

pub proof fn lemma_run(states: Seq<State>, steps: Seq<Step>, i: int, j: int)
    requires
        is_run(states, steps),
        states[0].heap.wf(),
        words_ok(states[0].heap),
        0 <= i <= j < states.len(),
    ensures
        states[i].heap.wf(),
        words_ok(states[i].heap),
        states[j].heap.wf(),
        words_ok(states[j].heap),
        marks_changes(states[i].heap, states[j].heap),
    decreases j,
{
    if j == 0 {
        lemma_marks_refl(states[0].heap);
    } else if i == j {
        lemma_run(states, steps, i - 1, i - 1);
        lemma_step(states[i - 1], steps[i - 1]);
        assert(states[i] == steps[i - 1].taken(states[i - 1]));
        lemma_marks_refl(states[i].heap);
    } else {
        lemma_run(states, steps, i, j - 1);
        lemma_step(states[j - 1], steps[j - 1]);
        assert(states[j] == steps[j - 1].taken(states[j - 1]));
        lemma_marks_trans(states[i].heap, states[j - 1].heap, states[j].heap);
    }
}

pub proof fn lemma_run_sealed(states: Seq<State>, steps: Seq<Step>, d: Set<usize>, k: int)
    requires
        is_run(states, steps),
        states[0].heap.wf(),
        words_ok(states[0].heap),
        sealed(states[0].heap, d),
        0 <= k < states.len(),
    ensures
        sealed(states[k].heap, d),
    decreases k,
{
    if k > 0 {
        lemma_run_sealed(states, steps, d, k - 1);
        lemma_run(states, steps, 0, k - 1);
        law_step_keeps_sealed(states[k - 1], steps[k - 1], d);
        assert(states[k] == steps[k - 1].taken(states[k - 1]));
    }
}

pub proof fn lemma_run_leaves(states: Seq<State>, steps: Seq<Step>, d: Set<usize>, k: int)
    requires
        is_run(states, steps),
        states[0].heap.wf(),
        words_ok(states[0].heap),
        sealed(states[0].heap, d),
        forall|x: usize| #[trigger] d.contains(x) ==> !states[0].heap.obj(x).locked,
        0 <= k < states.len(),
    ensures
        forall|x: usize| #[trigger] d.contains(x) ==> states[k].heap.obj(x) == states[0].heap.obj(x),
    decreases k,
{
    if k > 0 {
        lemma_run_leaves(states, steps, d, k - 1);
        lemma_run_sealed(states, steps, d, k - 1);
        lemma_run(states, steps, 0, k - 1);
        law_step_leaves_sealed(states[k - 1], steps[k - 1], d);
        assert(states[k] == steps[k - 1].taken(states[k - 1]));
    }
}

/// The collector looks at each object of `d` at a moment of its own: first it
/// counts the handles, then it reads the flags. There were as many handles as
/// it had found in `t`, and the object was flagged as visited and not as dirty.
pub open spec fn looks_dead(
    t: Tearing,
    states: Seq<State>,
    d: Set<usize>,
    counted: spec_fn(usize) -> int,
    looked: spec_fn(usize) -> int,
) -> bool {
    forall|x: usize| #[trigger] d.contains(x) ==> {
        &&& t.heap().has(x)
        &&& 0 <= counted(x) <= looked(x) < states.len()
        &&& states[counted(x)].heap.strong(x) == t.count(x)
        &&& states[looked(x)].heap.live(x)
        &&& flagged(states[looked(x)].heap, x)
        &&& !dirty(states[looked(x)].heap, x)
    }
}

/// No object that was traced outside of `d` led to one inside.
pub open spec fn unreferenced(t: Tearing, d: Set<usize>) -> bool {
    forall|q: usize, x: usize|
        t.recorded.dom().contains(q) && !d.contains(q) && #[trigger] t.recorded[q].contains(x) ==> !d.contains(x)
}

/// What looks dead one by one was dead all at once, at the end of the scan.
pub proof fn law_looks_do_not_deceive(
    t: Tearing,
    states: Seq<State>,
    steps: Seq<Step>,
    d: Set<usize>,
    counted: spec_fn(usize) -> int,
    looked: spec_fn(usize) -> int,
)
    requires
        t.faithful(),
        is_run(states, steps),
        states[0] == t.state,
        looks_dead(t, states, d, counted, looked),
        unreferenced(t, d),
    ensures
        forall|x: usize| #[trigger] d.contains(x) ==> {
            &&& t.heap().live(x)
            &&& !dirty(t.heap(), x)
            &&& t.heap().strong(x) == t.count(x)
        },
        sealed(t.heap(), d),
{
    assert forall|x: usize| #[trigger] d.contains(x) implies t.heap().live(x) && !dirty(t.heap(), x) && states[counted(
        x,
    )].heap.strong(x) >= t.heap().strong(x) by {
        let i = counted(x);
        let j = looked(x);
        lemma_run(states, steps, 0, i);
        lemma_run(states, steps, i, j);
        lemma_run(states, steps, 0, j);
        assert(t.heap().has(x));
        assert(flagged(t.heap(), x));
        assert(t.heap().live(x));
        assert(states[i].heap.has(x));
        assert(states[i].heap.live(x));
        assert(!dirty(states[i].heap, x));
    }
    assert forall|x: usize| #[trigger] d.contains(x) implies t.heap().strong(x) == t.count(x) by {
        lemma_record(t, d, x);
    }
    law_verdict_seals(t, d);
}

/// What the collector takes for dead while mutators go on is out of their reach
/// from the end of the scan on, whatever they have done meanwhile and do later.
pub proof fn law_dead_stay_out_of_reach(
    t: Tearing,
    states: Seq<State>,
    steps: Seq<Step>,
    d: Set<usize>,
    counted: spec_fn(usize) -> int,
    looked: spec_fn(usize) -> int,
    k: int,
)
    requires
        t.faithful(),
        is_run(states, steps),
        states[0] == t.state,
        looks_dead(t, states, d, counted, looked),
        unreferenced(t, d),
        0 <= k < states.len(),
    ensures
        sealed(states[k].heap, d),
        forall|x: usize| #[trigger] d.contains(x) ==> !states[k].heap.reach(states[k].heap.held_set()).contains(x),
{
    law_looks_do_not_deceive(t, states, steps, d, counted, looked);
    lemma_run_sealed(states, steps, d, k);
    assert forall|x: usize| #[trigger] d.contains(x) implies !states[k].heap.reach(
        states[k].heap.held_set(),
    ).contains(x) by {
        law_sealed_is_out_of_reach(states[k].heap, d, x);
    }
}

/// The contents of what the collector takes for dead stay where the collector
/// found them, so that it finds no one else at work when it takes them out.
pub proof fn law_dead_keep_their_contents(
    t: Tearing,
    states: Seq<State>,
    steps: Seq<Step>,
    d: Set<usize>,
    counted: spec_fn(usize) -> int,
    looked: spec_fn(usize) -> int,
    k: int,
)
    requires
        t.faithful(),
        is_run(states, steps),
        states[0] == t.state,
        looks_dead(t, states, d, counted, looked),
        unreferenced(t, d),
        d.subset_of(t.recorded.dom()),
        0 <= k < states.len(),
    ensures
        forall|x: usize| #[trigger] d.contains(x) ==> {
            &&& states[k].heap.obj(x).item == Some(t.recorded[x])
            &&& !states[k].heap.obj(x).locked
        },
{
    law_looks_do_not_deceive(t, states, steps, d, counted, looked);
    assert forall|x: usize| #[trigger] d.contains(x) implies t.heap().obj(x).item == Some(t.recorded[x])
        && !t.heap().obj(x).locked by {
        assert(t.recorded.dom().contains(x));
        assert(t.heap().has(x));
    }
    lemma_run_leaves(states, steps, d, k);
}

/// The collector's graph is the record: its nodes are the objects that were
/// found, with the number of handles that were found, and its edges are those
/// of the traced objects.
pub open spec fn describes(g: GraphView, t: Tearing) -> bool {
    &&& g.wf()
    &&& forall|p: usize| #[trigger] g.knows(p) <==> t.found.contains(p)
    &&& forall|p: usize| #[trigger] g.count(p) == t.count(p)
    &&& forall|p: usize| #[trigger] t.recorded.dom().contains(p) ==> g.knows(p)
    &&& forall|p: usize, x: u32| g.knows(p) ==> (#[trigger] g.neighbors[g.id(p)].1.contains(x)
        <==> t.recorded.dom().contains(p) && leads(g, t.recorded[p], x))
}

/// An object that is visited becomes a node.
pub proof fn law_visit_is_described(g: GraphView, t: Tearing, p: usize)
    requires
        t.faithful(),
        describes(g, t),
        t.heap().has(p),
        g.knows(p) || g.neighbors.len() <= u32::MAX,
    ensures
        describes(g.add_node(p), Event::Visit(p).after(t)),
{
    let h = g.add_node(p);
    let n = Event::Visit(p).after(t);
    assert forall|x: usize| #[trigger] n.count(x) == t.count(x) by {
        lemma_count_same(t, n, x);
    }
    if !g.knows(p) {
        lemma_add_node_wf(g, p);
        assert forall|x: usize| #[trigger] h.count(x) == n.count(x) by {
            assert(g.count(x) == t.count(x));
            assert(n.count(x) == t.count(x));
        }
        assert forall|x: usize| #[trigger] h.knows(x) <==> n.found.contains(x) by {
            assert(g.knows(x) <==> t.found.contains(x));
        }
        assert forall|a: usize, x: u32| t.recorded.dom().contains(a) implies leads(h, t.recorded[a], x) == leads(
            g,
            t.recorded[a],
            x,
        ) by {
            if leads(h, t.recorded[a], x) {
                let q = choose|q: usize| t.recorded[a].contains(q) && #[trigger] h.visited[q].0 == x;
                assert(t.found.contains(q));
                assert(g.knows(q));
                assert(g.visited[q].0 == x);
            }
            if leads(g, t.recorded[a], x) {
                let q = choose|q: usize| t.recorded[a].contains(q) && #[trigger] g.visited[q].0 == x;
                assert(t.found.contains(q));
                assert(g.knows(q));
                assert(h.visited[q].0 == x);
            }
        }
        assert forall|a: usize, x: u32| h.knows(a) implies (#[trigger] h.neighbors[h.id(a)].1.contains(x)
            <==> n.recorded.dom().contains(a) && leads(h, n.recorded[a], x)) by {
            if a != p {
                assert(g.knows(a));
                assert(h.neighbors[h.id(a)] == g.neighbors[g.id(a)]);
                assert(g.neighbors[g.id(a)].1.contains(x) <==> t.recorded.dom().contains(a) && leads(
                    g,
                    t.recorded[a],
                    x,
                ));
            } else if t.recorded.dom().contains(p) {
                assert(g.knows(p));
            }
        }
        assert forall|a: usize| #[trigger] n.recorded.dom().contains(a) implies h.knows(a) by {
            assert(g.knows(a));
        }
    } else {
        assert forall|x: usize| #[trigger] h.count(x) == n.count(x) by {
            assert(g.count(x) == t.count(x));
            assert(n.count(x) == t.count(x));
        }
        assert forall|x: usize| #[trigger] h.knows(x) <==> n.found.contains(x) by {
            assert(g.knows(x) <==> t.found.contains(x));
        }
        assert forall|a: usize| #[trigger] n.recorded.dom().contains(a) implies h.knows(a) by {
            assert(t.recorded.dom().contains(a));
        }
    }
}

/// The count depends on the record alone.
proof fn lemma_count_same(t: Tearing, n: Tearing, x: usize)
    requires
        n.recorded == t.recorded,
        t.heap().objs.len() <= n.heap().objs.len() < usize::MAX,
        forall|q: usize| #[trigger] t.recorded.dom().contains(q) ==> t.heap().has(q),
    ensures
        n.count(x) == t.count(x),
    decreases n.heap().objs.len(),
{
    let f = |i: int|
        if t.recorded.dom().contains((i + 1) as usize) {
            occurrences(t.recorded[(i + 1) as usize], x)
        } else {
            0
        };
    let g = |i: int|
        if n.recorded.dom().contains((i + 1) as usize) {
            occurrences(n.recorded[(i + 1) as usize], x)
        } else {
            0
        };
    let k = n.heap().objs.len();
    if k == t.heap().objs.len() {
        lemma_sum_same(k, f, g);
    } else {
        let shorter = Tearing { state: State { heap: Model { objs: n.heap().objs.drop_last() }, ..n.state }, ..n };
        lemma_count_same(t, shorter, x);
        let h = |i: int|
            if shorter.recorded.dom().contains((i + 1) as usize) {
                occurrences(shorter.recorded[(i + 1) as usize], x)
            } else {
                0
            };
        lemma_sum_same((k - 1) as nat, h, g);
        assert(g(k - 1) == 0) by {
            if t.recorded.dom().contains(k as usize) {
                assert(t.heap().has(k as usize));
            }
        }
    }
}

/// What does not touch the record leaves the graph as it is.
proof fn lemma_still_described(g: GraphView, t: Tearing, n: Tearing)
    requires
        t.faithful(),
        describes(g, t),
        n.found == t.found,
        n.recorded == t.recorded,
        t.heap().objs.len() <= n.heap().objs.len() < usize::MAX,
    ensures
        describes(g, n),
{
    assert forall|x: usize| #[trigger] g.count(x) == n.count(x) by {
        lemma_count_same(t, n, x);
        assert(g.count(x) == t.count(x));
    }
    assert forall|p: usize| #[trigger] n.recorded.dom().contains(p) implies g.knows(p) by {
        assert(t.recorded.dom().contains(p));
    }
}

/// The handles inside a traced object become edges.
pub proof fn law_trace_is_described(g: GraphView, t: Tearing, p: usize)
    requires
        t.faithful(),
        describes(g, t),
        t.heap().filled(p),
        !t.recorded.dom().contains(p),
        g.ready(p, t.heap().edges(p), t.heap()),
    ensures
        describes(g.add_edges(p, t.heap().edges(p)), Event::Trace(p).after(t)),
{
    let es = t.heap().edges(p);
    let h = g.add_edges(p, es);
    let n = Event::Trace(p).after(t);
    lemma_ready_prefix(g, p, es, t.heap(), es.len() as int);
    assert(es.take(es.len() as int) =~= es);
    assert forall|x: usize| #[trigger] h.count(x) == n.count(x) by {
        lemma_sum_at(
            t.heap().objs.len(),
            |i: int|
                if t.recorded.dom().contains((i + 1) as usize) {
                    occurrences(t.recorded[(i + 1) as usize], x)
                } else {
                    0
                },
            |i: int|
                if n.recorded.dom().contains((i + 1) as usize) {
                    occurrences(n.recorded[(i + 1) as usize], x)
                } else {
                    0
                },
            p - 1,
        );
        assert(g.count(x) == t.count(x));
    }
    assert forall|x: usize| #[trigger] h.knows(x) <==> n.found.contains(x) by {
        assert(g.knows(x) <==> t.found.contains(x));
        assert(es.contains(x) <==> es.to_set().contains(x));
    }
    assert forall|a: usize| #[trigger] n.recorded.dom().contains(a) implies h.knows(a) by {
        assert(a == p || t.recorded.dom().contains(a));
        assert(g.knows(a));
    }
    assert forall|a: usize, x: u32| t.recorded.dom().contains(a) implies leads(h, t.recorded[a], x) == leads(
        g,
        t.recorded[a],
        x,
    ) by {
        if leads(h, t.recorded[a], x) {
            let q = choose|q: usize| t.recorded[a].contains(q) && #[trigger] h.visited[q].0 == x;
            assert(t.found.contains(q));
            assert(g.knows(q));
            assert(h.id(q) == g.id(q));
            assert(g.visited[q].0 == x);
        }
        if leads(g, t.recorded[a], x) {
            let q = choose|q: usize| t.recorded[a].contains(q) && #[trigger] g.visited[q].0 == x;
            assert(t.found.contains(q));
            assert(g.knows(q));
            assert(h.id(q) == g.id(q));
            assert(h.visited[q].0 == x);
        }
    }
    assert forall|a: usize, x: u32| h.knows(a) implies (#[trigger] h.neighbors[h.id(a)].1.contains(x)
        <==> n.recorded.dom().contains(a) && leads(h, n.recorded[a], x)) by {
        if a == p {
            assert(h.id(p) == g.id(p));
            assert(g.neighbors[g.id(p)].1.contains(x) <==> t.recorded.dom().contains(p) && leads(g, t.recorded[p], x));
        } else if g.knows(a) {
            assert(h.id(a) == g.id(a));
            assert(g.id(a) != g.id(p)) by {
                assert(g.neighbors[g.id(a)].0 == a);
                assert(g.neighbors[g.id(p)].0 == p);
            }
            assert(g.neighbors[g.id(a)].1.contains(x) <==> t.recorded.dom().contains(a) && leads(g, t.recorded[a], x));
        } else {
            assert(h.id(a) >= g.neighbors.len()) by {
                if h.id(a) < g.neighbors.len() {
                    let i = h.id(a);
                    let q = g.neighbors[i].0;
                    assert(g.knows(q) && g.id(q) == i);
                    assert(h.id(q) == i);
                    assert(h.neighbors[i].0 == q);
                    assert(h.neighbors[i].0 == a);
                }
            }
            assert(!t.recorded.dom().contains(a));
        }
    }
}

/// The graph is the record, whatever happens.
pub proof fn law_event_is_described(g: GraphView, t: Tearing, event: Event)
    requires
        t.faithful(),
        describes(g, t),
        event.possible(g, t),
    ensures
        describes(event.noted(g, t), event.after(t)),
{
    law_event_keeps_faith(g, t, event);
    match event {
        Event::Step(step) => {
            lemma_step(t.state, step);
            lemma_still_described(g, t, event.after(t));
        },
        Event::Visit(p) => law_visit_is_described(g, t, p),
        Event::GiveUp(_) => lemma_still_described(g, t, event.after(t)),
        Event::Trace(p) => law_trace_is_described(g, t, p),
    }
}

/// A scan alongside mutators: it begins with an empty graph on a heap without
/// flags, and every event leads from one moment to the next.
pub open spec fn is_scan(ts: Seq<Tearing>, gs: Seq<GraphView>, events: Seq<Event>) -> bool {
    &&& ts.len() == gs.len() == events.len() + 1
    &&& ts[0].heap().wf()
    &&& ts[0].heap().clean()
    &&& ts[0].found == Set::<usize>::empty()
    &&& ts[0].recorded.dom() == Set::<usize>::empty()
    &&& ts[0].blind == Set::<usize>::empty()
    &&& gs[0].wf()
    &&& gs[0].visited.dom() == Set::<usize>::empty()
    &&& forall|i: int| 0 <= i < events.len() ==> (#[trigger] events[i]).possible(gs[i], ts[i])
    &&& forall|i: int, j: int|
        #![trigger events[i], ts[j]]
        0 <= i < events.len() && j == i + 1 ==> ts[j] == events[i].after(ts[i]) && gs[j] == events[i].noted(gs[i], ts[i])
}

/// At every moment of a scan the record is faithful, and the graph is the
/// record.
pub proof fn law_scan_is_faithful(ts: Seq<Tearing>, gs: Seq<GraphView>, events: Seq<Event>, k: int)
    requires
        is_scan(ts, gs, events),
        0 <= k < ts.len(),
    ensures
        ts[k].faithful(),
        describes(gs[k], ts[k]),
    decreases k,
{
    if k == 0 {
        let t = ts[0];
        let g = gs[0];
        assert forall|p: usize| #[trigger] g.count(p) == t.count(p) by {
            assert(!g.knows(p));
            if t.count(p) > 0 {
                let f = |i: int|
                    if t.recorded.dom().contains((i + 1) as usize) {
                        occurrences(t.recorded[(i + 1) as usize], p)
                    } else {
                        0
                    };
                let i = lemma_sum_positive(t.heap().objs.len(), f);
                assert(f(i) == 0);
            }
        }
    } else {
        law_scan_is_faithful(ts, gs, events, k - 1);
        let event = events[k - 1];
        assert(ts[k] == event.after(ts[k - 1]) && gs[k] == event.noted(gs[k - 1], ts[k - 1]));
        law_event_keeps_faith(gs[k - 1], ts[k - 1], event);
        law_event_is_described(gs[k - 1], ts[k - 1], event);
    }
}

/// The nodes in `ids` lead to no others.
pub open spec fn closed_under(g: GraphView, ids: Set<usize>) -> bool {
    forall|i: usize, j: usize| ids.contains(i) && #[trigger] g.edge()(i as int, j as int) ==> ids.contains(j)
}

/// All that a node leads to is taken for alive together with it.
pub proof fn law_spread_is_closed(g: GraphView, ids: Set<usize>, from: usize)
    requires
        closed_under(g, ids),
    ensures
        closed_under(g, spread_from(g, ids, from)),
{
    let more = spread_from(g, ids, from);
    let rel = avoiding(g, ids);
    assert forall|i: usize, j: usize| more.contains(i) && #[trigger] g.edge()(i as int, j as int) implies more.contains(
        j,
    ) by {
        if !ids.contains(i) && !ids.contains(j) {
            assert(rel(i as int, j as int));
            lemma_reaches_step(rel, from as int, i as int, j as int);
        }
    }
}

/// Nodes that could not be visited lead nowhere.
pub proof fn law_unread_is_closed(g: GraphView, t: Tearing, ids: Set<usize>)
    requires
        describes(g, t),
        forall|i: usize| #[trigger] ids.contains(i) ==> exists|p: usize|
            g.knows(p) && !t.recorded.dom().contains(p) && #[trigger] g.visited[p].0 == i,
    ensures
        closed_under(g, ids),
{
    assert forall|i: usize, j: usize| ids.contains(i) && #[trigger] g.edge()(i as int, j as int) implies ids.contains(
        j,
    ) by {
        let p = choose|p: usize| g.knows(p) && !t.recorded.dom().contains(p) && #[trigger] g.visited[p].0 == i;
        assert(g.neighbors[g.id(p)].1.contains(j as u32));
    }
}

/// The nodes that are not taken for alive.
pub open spec fn condemned(g: GraphView, ids: Set<usize>) -> Set<usize> {
    Set::new(|x: usize| g.knows(x) && !ids.contains(g.visited[x].0 as usize))
}

/// The graph of a scan leads to a condemned node only from condemned nodes, and
/// counts what the record counts.
proof fn lemma_condemned(g: GraphView, t: Tearing, ids: Set<usize>)
    requires
        t.faithful(),
        describes(g, t),
        closed_under(g, ids),
    ensures
        unreferenced(t, condemned(g, ids)),
        forall|x: usize| #[trigger] condemned(g, ids).contains(x) ==> t.heap().has(x) && g.visited[x].1 == t.count(x),
{
    let d = condemned(g, ids);
    assert forall|x: usize| #[trigger] d.contains(x) implies t.heap().has(x) && g.visited[x].1 == t.count(x) by {
        assert(g.knows(x));
        assert(t.found.contains(x));
        assert(g.count(x) == t.count(x));
    }
    assert forall|q: usize, x: usize|
        t.recorded.dom().contains(q) && !d.contains(q) && #[trigger] t.recorded[q].contains(x) implies !d.contains(x) by {
        assert(t.found.contains(x));
        assert(g.knows(x));
        assert(g.knows(q));
        assert(leads(g, t.recorded[q], g.visited[x].0));
        assert(g.neighbors[g.id(q)].1.contains(g.visited[x].0));
        assert(g.edge()((g.visited[q].0 as usize) as int, (g.visited[x].0 as usize) as int));
    }
}

/// The collector judges the nodes of `g` while mutators run through `states`.
/// Each node that is not taken for alive in the end is looked at: it has as many
/// handles as were found, and then it is flagged as visited and not as dirty.
pub open spec fn is_verdict(
    g: GraphView,
    ids: Set<usize>,
    states: Seq<State>,
    counted: spec_fn(usize) -> int,
    looked: spec_fn(usize) -> int,
) -> bool {
    &&& closed_under(g, ids)
    &&& forall|x: usize| #[trigger] condemned(g, ids).contains(x) ==> {
        &&& 0 <= counted(x) <= looked(x) < states.len()
        &&& states[counted(x)].heap.strong(x) == g.visited[x].1
        &&& states[looked(x)].heap.live(x)
        &&& flagged(states[looked(x)].heap, x)
        &&& !dirty(states[looked(x)].heap, x)
    }
}

/// A collection that runs alongside mutators takes nothing from them.
///
/// The collector scans while mutators copy, drop, make, and change what they can
/// get at. Then it judges, and they still go on. From the end of the scan on no
/// node that it condemns is within reach of a mutator, so that no one misses the
/// contents.
pub proof fn law_concurrent_collection_is_safe(
    ts: Seq<Tearing>,
    gs: Seq<GraphView>,
    events: Seq<Event>,
    ids: Set<usize>,
    states: Seq<State>,
    steps: Seq<Step>,
    counted: spec_fn(usize) -> int,
    looked: spec_fn(usize) -> int,
    k: int,
)
    requires
        is_scan(ts, gs, events),
        is_run(states, steps),
        states[0] == ts.last().state,
        is_verdict(gs.last(), ids, states, counted, looked),
        0 <= k < states.len(),
    ensures
        sealed(states[k].heap, condemned(gs.last(), ids)),
        forall|x: usize| #[trigger] condemned(gs.last(), ids).contains(x) ==> !states[k].heap.reach(
            states[k].heap.held_set(),
        ).contains(x),
{
    let t = ts.last();
    law_scan_is_faithful(ts, gs, events, ts.len() - 1);
    lemma_condemned(gs.last(), t, ids);
    law_dead_stay_out_of_reach(t, states, steps, condemned(gs.last(), ids), counted, looked, k);
}

/// When the collector takes the contents out of the nodes that it condemned, no
/// mutator is at work on them. Each of them was traced.
pub proof fn law_condemned_can_be_emptied(
    ts: Seq<Tearing>,
    gs: Seq<GraphView>,
    events: Seq<Event>,
    ids: Set<usize>,
    states: Seq<State>,
    steps: Seq<Step>,
    counted: spec_fn(usize) -> int,
    looked: spec_fn(usize) -> int,
    k: int,
)
    requires
        is_scan(ts, gs, events),
        is_run(states, steps),
        states[0] == ts.last().state,
        is_verdict(gs.last(), ids, states, counted, looked),
        condemned(gs.last(), ids).subset_of(ts.last().recorded.dom()),
        0 <= k < states.len(),
    ensures
        forall|x: usize| #[trigger] condemned(gs.last(), ids).contains(x) ==> {
            &&& states[k].heap.obj(x).item == Some(ts.last().recorded[x])
            &&& !states[k].heap.obj(x).locked
        },
{
    let t = ts.last();
    law_scan_is_faithful(ts, gs, events, ts.len() - 1);
    lemma_condemned(gs.last(), t, ids);
    law_dead_keep_their_contents(t, states, steps, condemned(gs.last(), ids), counted, looked, k);
}

/// What happens when the verdict is reached: mutators go on, and the collector
/// clears flags and takes the contents out of what it condemned.
pub enum Move {
    /// A mutator takes a step.
    Step(Step),
    /// The collector clears the flags of an object.
    Clear(usize),
    /// The collector takes the contents out of an object.
    Empty(usize),
}

impl Move {
    /// The move can happen; the collector condemned the objects in `d`.
    pub open spec fn possible(self, m: Model, d: Set<usize>) -> bool {
        match self {
            Move::Step(step) => step.possible(m),
            Move::Clear(p) => m.has(p),
            Move::Empty(x) => d.contains(x),
        }
    }

    /// The world after the move.
    pub open spec fn made(self, s: State) -> State {
        match self {
            Move::Step(step) => step.taken(s),
            Move::Clear(p) => s.reflagged(p, 0),
            Move::Empty(x) => s.invalidated(x),
        }
    }
}

/// Handles that the collector drops: no contents gain any, and no one gets or
/// loses hold of contents.
proof fn lemma_collector_drops(s: State, work: Seq<usize>)
    requires
        s.heap.wf(),
        words_ok(s.heap),
        covered(s.heap, work),
    ensures
        s.drop_all(work, true).heap.wf(),
        words_ok(s.drop_all(work, true).heap),
        s.drop_all(work, true).heap.objs.len() == s.heap.objs.len(),
        forall|q: usize| #[trigger] s.heap.has(q) ==> {
            let n = s.drop_all(work, true).heap;
            &&& n.obj(q).locked == s.heap.obj(q).locked
            &&& n.obj(q).item == s.heap.obj(q).item || n.obj(q).item is None
        },
    decreases s.heap.total(), work.len(),
{
    if work.len() > 0 {
        let p = work.last();
        let n = s.drop_one(p, true);
        let rest = work.drop_last() + s.unwrapped(p).reverse();
        lemma_drop_wf(s, work, true);
        lemma_drop_total(s, p, true);
        assert forall|q: usize| #[trigger] n.heap.has(q) implies n.heap.obj(q).bits == 0 || n.heap.obj(q).bits
            == VISITED_BIT || n.heap.obj(q).bits == ALL_BITS by {
            assert(s.heap.has(q));
        }
        lemma_collector_drops(n, rest);
        let end = n.drop_all(rest, true).heap;
        assert(s.drop_all(work, true).heap == end);
        assert forall|q: usize| #[trigger] s.heap.has(q) implies end.obj(q).locked == s.heap.obj(q).locked && (end.obj(
            q,
        ).item == s.heap.obj(q).item || end.obj(q).item is None) by {
            assert(n.heap.has(q));
        }
    }
}

/// The collector takes the contents out of a sealed object: the heap stays
/// well-formed, what is sealed stays sealed, and no locks change.
pub proof fn lemma_emptying(s: State, d: Set<usize>, x: usize)
    requires
        s.heap.wf(),
        words_ok(s.heap),
        sealed(s.heap, d),
        d.contains(x),
    ensures
        s.invalidated(x).heap.wf(),
        words_ok(s.invalidated(x).heap),
        s.invalidated(x).heap.objs.len() == s.heap.objs.len(),
        sealed(s.invalidated(x).heap, d),
        forall|q: usize| #[trigger] s.invalidated(x).heap.held(q) == s.heap.held(q),
        forall|q: usize| #[trigger] s.heap.has(q) ==> s.invalidated(x).heap.obj(q).locked == s.heap.obj(q).locked,
        forall|q: usize| #[trigger] s.heap.has(q) && q != x && s.invalidated(x).heap.live(q)
            ==> s.invalidated(x).heap.obj(q).item == s.heap.obj(q).item,
        forall|q: usize| #[trigger] s.heap.has(q) ==> s.invalidated(x).heap.obj(q).item == s.heap.obj(q).item
            || s.invalidated(x).heap.obj(q).item is None,
        s.invalidated(x).heap.obj(x).item is None,
{
    assert(s.heap.has(x));
    if s.heap.live(x) {
        let a = s.heap;
        let mid = State { heap: a.emptied(x), ..s };
        assert(mid.heap.has(x));
        let work = a.edges(x).reverse();
        let n = s.invalidated(x).heap;
        lemma_emptied(a, x);
        assert forall|q: usize| #[trigger] mid.heap.has(q) implies mid.heap.obj(q).bits == 0 || mid.heap.obj(q).bits
            == VISITED_BIT || mid.heap.obj(q).bits == ALL_BITS by {
            assert(a.has(q));
        }
        lemma_collector_drops(mid, work);
        assert forall|q: usize| #[trigger] n.held(q) == a.held(q) by {
            lemma_drop_all_held(mid, work, true, q);
            lemma_occurrences_reverse(a.edges(x), q);
            assert(mid.heap.held(q) == a.held(q) + occurrences(a.edges(x), q));
        }
        assert forall|q: usize, y: usize| d.contains(y) && #[trigger] n.edges(q).contains(y) implies d.contains(q) by {
            assert(mid.heap.has(q));
            assert(a.has(q));
            assert(a.edges(q).contains(y));
        }
        assert forall|q: usize| #[trigger] a.has(q) implies n.obj(q).locked == a.obj(q).locked && (q != x && n.live(q)
            ==> n.obj(q).item == a.obj(q).item) && (n.obj(q).item == a.obj(q).item || n.obj(q).item is None) by {
            assert(mid.heap.has(q));
            law_drop_keeps_the_living(mid, work, true, q);
        }
    }
}

/// When the collector takes the contents out of a sealed object, all that a
/// mutator can get at keeps its contents and stays within reach.
pub proof fn law_emptying_takes_nothing(s: State, d: Set<usize>, x: usize, y: usize)
    requires
        s.heap.wf(),
        words_ok(s.heap),
        sealed(s.heap, d),
        d.contains(x),
        s.heap.reach(s.heap.held_set()).contains(y),
    ensures
        s.invalidated(x).heap.reach(s.invalidated(x).heap.held_set()).contains(y),
        s.invalidated(x).heap.obj(y).item == s.heap.obj(y).item,
{
    let m = s.heap;
    let n = s.invalidated(x).heap;
    lemma_emptying(s, d, x);
    let r = choose|r: usize| m.held_set().contains(r) && m.live(r) && #[trigger] reaches(m.edge(), r, y);
    let ok = |z: usize| m.reach(m.held_set()).contains(z) && n.reach(n.held_set()).contains(z);
    assert(n.held(r) == m.held(r));
    lemma_reach_root(m, m.held_set(), r);
    lemma_reach_root(n, n.held_set(), r);
    assert forall|a: usize, b: usize| ok(a) && #[trigger] m.edge()(a, b) implies ok(b) by {
        assert(m.edges(a).contains(b));
        lemma_kept(s, d, x, a);
        lemma_reach_edge(m, m.held_set(), a, b);
        lemma_reach_edge(n, n.held_set(), a, b);
    }
    lemma_closed(m.edge(), ok, r, y);
    lemma_kept(s, d, x, y);
}

proof fn lemma_kept(s: State, d: Set<usize>, x: usize, y: usize)
    requires
        s.heap.wf(),
        words_ok(s.heap),
        sealed(s.heap, d),
        d.contains(x),
        s.heap.reach(s.heap.held_set()).contains(y),
        s.invalidated(x).heap.reach(s.invalidated(x).heap.held_set()).contains(y),
    ensures
        s.invalidated(x).heap.obj(y).item == s.heap.obj(y).item,
        s.invalidated(x).heap.edges(y) == s.heap.edges(y),
{
    lemma_emptying(s, d, x);
    lemma_reach_live(s.heap, s.heap.held_set(), y);
    lemma_reach_live(s.invalidated(x).heap, s.invalidated(x).heap.held_set(), y);
    if d.contains(y) {
        law_sealed_is_out_of_reach(s.heap, d, y);
    }
}

/// The collector sweeps while mutators go on; it condemned the objects in `d`.
pub open spec fn is_sweep(states: Seq<State>, moves: Seq<Move>, d: Set<usize>) -> bool {
    &&& states.len() == moves.len() + 1
    &&& states[0].heap.wf()
    &&& words_ok(states[0].heap)
    &&& sealed(states[0].heap, d)
    &&& forall|i: int| 0 <= i < moves.len() ==> (#[trigger] moves[i]).possible(states[i].heap, d)
    &&& forall|i: int, j: int|
        #![trigger moves[i], states[j]]
        0 <= i < moves.len() && j == i + 1 ==> states[j] == moves[i].made(states[i])
}

/// What was condemned stays sealed throughout the sweep, and if no one was at
/// work on the contents when it began, no one ever is.
pub proof fn law_sweep_keeps_sealed(states: Seq<State>, moves: Seq<Move>, d: Set<usize>, k: int)
    requires
        is_sweep(states, moves, d),
        0 <= k < states.len(),
    ensures
        states[k].heap.wf(),
        words_ok(states[k].heap),
        sealed(states[k].heap, d),
        (forall|x: usize| #[trigger] d.contains(x) ==> !states[0].heap.obj(x).locked) ==> (forall|x: usize| #[trigger]
            d.contains(x) ==> !states[k].heap.obj(x).locked),
    decreases k,
{
    if k > 0 {
        law_sweep_keeps_sealed(states, moves, d, k - 1);
        let s = states[k - 1];
        let n = states[k];
        assert(n == moves[k - 1].made(s));
        match moves[k - 1] {
            Move::Step(step) => {
                lemma_step(s, step);
                law_step_keeps_sealed(s, step, d);
                if forall|x: usize| #[trigger] d.contains(x) ==> !s.heap.obj(x).locked {
                    law_step_leaves_sealed(s, step, d);
                }
            },
            Move::Clear(p) => {
                lemma_reflagged(s, p, 0);
                lemma_reflagged_sealed(s, p, 0, d);
            },
            Move::Empty(x) => {
                lemma_emptying(s, d, x);
            },
        }
    }
}

/// The sweep takes nothing from mutators that go on meanwhile: whenever the
/// collector empties an object, all that a mutator can get at keeps its contents
/// and stays within reach.
pub proof fn law_sweep_takes_nothing(states: Seq<State>, moves: Seq<Move>, d: Set<usize>, k: int, y: usize)
    requires
        is_sweep(states, moves, d),
        0 <= k < moves.len(),
        moves[k] is Empty,
        states[k].heap.reach(states[k].heap.held_set()).contains(y),
    ensures
        states[k + 1].heap.reach(states[k + 1].heap.held_set()).contains(y),
        states[k + 1].heap.obj(y).item == states[k].heap.obj(y).item,
{
    law_sweep_keeps_sealed(states, moves, d, k);
    let j = k + 1;
    assert(states[j] == moves[k].made(states[k]));
    match moves[k] {
        Move::Empty(x) => law_emptying_takes_nothing(states[k], d, x, y),
        _ => {},
    }
}

} // verus!
