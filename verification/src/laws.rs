//! What holds of the library as a whole.

use crate::collector::Soul;
use crate::flags::{dirtied, has_bits, law_visited_becomes_dirty, DIRTY_BIT, VISITED_BIT};
use crate::gc::WeakRoot;
use crate::graph::{
    lemma_closed, lemma_occurrences_add, lemma_occurrences_reverse, lemma_occurs, lemma_reaches_self,
    lemma_reaches_step, lemma_sum_at, lemma_sum_positive, lemma_sum_same, occurrences, one, reaches, sum,
};
use crate::heap::{live_count, new_obj};
use crate::model::{
    collectable, covered, lemma_drop_all_held, lemma_drop_held, lemma_drop_total, lemma_drop_wf,
    lemma_edge_live, lemma_emptied, lemma_incoming_le, lemma_incoming_none, lemma_incoming_outside,
    lemma_internal_push, lemma_internal_witness, lemma_internal_with, lemma_lent_held, lemma_process_len,
    lemma_reach_edge, lemma_reach_finite, lemma_reach_live, lemma_reach_root, Model, State,
};
use crate::sweep::{
    lemma_anchored, lemma_outside_witness, lemma_receive_wf, lemma_swept_held, lemma_swept_wf,
};
use vstd::prelude::*;

verus! {

impl State {
    /// The objects to which a weak reference is on its way to the collector.
    pub open spec fn dying(self) -> Set<usize> {
        Set::new(|p: usize| self.queue.contains(Soul::Died(WeakRoot { ptr: p })))
    }

    /// What keeps objects from being leaked: the mutator's handles, the defer
    /// list and what is on its way there.
    pub open spec fn roots(self) -> Set<usize> {
        self.heap.held_set().union(self.deferred).union(self.dying())
    }

    /// Nothing is leaked: every live object is reached from a handle of the
    /// mutator, or the collector knows or will know of one that reaches it; and
    /// what the collector is told is gone, is.
    #[verifier::opaque]
    pub open spec fn accounted(self) -> bool {
        &&& forall|p: usize| #[trigger] self.heap.live(p) ==> self.heap.reach(self.roots()).contains(p)
        &&& forall|p: usize| #[trigger] self.queue.contains(Soul::Reclaimed(p)) ==> !self.heap.live(p)
    }
}

/// A mutator has no handle to a freed object.
proof fn lemma_held_live(m: Model, p: usize)
    requires
        m.held(p) > 0,
    ensures
        m.live(p),
        m.has(p),
{
}

/// Nothing that a pinned object reaches is doomed.
proof fn lemma_spared(m: Model, roots: Set<usize>, u: usize, p: usize)
    requires
        m.pinned(roots, u),
        reaches(m.edge(), u, p),
    ensures
        !m.doomed(roots).contains(p),
{
}

/// Nothing that the mutator can reach is doomed.
///
/// Going from handle to handle from one that it holds, a mutator finds no
/// object that a collection would take the contents of.
pub proof fn law_reachable_is_spared(m: Model, roots: Set<usize>, p: usize)
    requires
        m.wf(),
        m.reach(m.held_set()).contains(p),
    ensures
        !m.doomed(roots).contains(p),
{
    let v = m.reach(roots);
    let d = m.doomed(roots);
    let r = choose|r: usize| m.held_set().contains(r) && m.live(r) && #[trigger] reaches(m.edge(), r, p);
    let ok = |x: usize| !d.contains(x);
    assert(ok(r)) by {
        if v.contains(r) {
            lemma_incoming_le(m, v, r);
            assert(m.held(r) > 0);
            assert(m.pinned(roots, r));
            lemma_reaches_self(m.edge(), r);
        }
    }
    assert forall|x: usize, y: usize| ok(x) && #[trigger] m.edge()(x, y) implies ok(y) by {
        assert(m.edges(x).contains(y));
        if v.contains(y) {
            if v.contains(x) {
                let u = choose|u: usize| m.pinned(roots, u) && #[trigger] reaches(m.edge(), u, x);
                lemma_reaches_step(m.edge(), u, x, y);
            } else {
                lemma_incoming_outside(m, v, x, y);
                assert(m.held(y) >= 0);
                assert(m.pinned(roots, y));
                lemma_reaches_self(m.edge(), y);
            }
        }
    }
    lemma_closed(m.edge(), ok, r, p);
}

/// A collection keeps whatever the mutator can reach: it stays alive, keeps its
/// contents, and stays within reach.
pub proof fn law_collection_keeps_the_reachable(s: State, p: usize)
    requires
        s.wf(),
        s.queue.len() > 0,
        s.queue[0] is Yuga,
        s.heap.reach(s.heap.held_set()).contains(p),
    ensures
        s.receive().heap.live(p),
        s.receive().heap.obj(p).item == s.heap.obj(p).item,
        s.receive().heap.reach(s.receive().heap.held_set()).contains(p),
{
    let m = s.heap;
    let d = m.doomed(s.deferred);
    let w = m.swept(d);
    let r = choose|r: usize| m.held_set().contains(r) && m.live(r) && #[trigger] reaches(m.edge(), r, p);
    lemma_anchored(m, s.deferred);
    lemma_swept_wf(m, d);
    lemma_swept_held(m, d, r);
    lemma_held_live(w, r);
    let ok = |x: usize| m.reach(m.held_set()).contains(x) && w.reach(w.held_set()).contains(x);
    lemma_reach_root(m, m.held_set(), r);
    lemma_reach_root(w, w.held_set(), r);
    assert forall|x: usize, y: usize| ok(x) && #[trigger] m.edge()(x, y) implies ok(y) by {
        assert(m.edges(x).contains(y));
        law_reachable_is_spared(m, s.deferred, x);
        assert(m.has(x));
        assert(w.edges(x) == m.edges(x));
        lemma_reach_edge(m, m.held_set(), x, y);
        lemma_reach_edge(w, w.held_set(), x, y);
    }
    lemma_closed(m.edge(), ok, r, p);
    law_reachable_is_spared(m, s.deferred, p);
    lemma_reach_live(m, m.held_set(), p);
    lemma_reach_live(w, w.held_set(), p);
}

/// A doomed object is freed by the sweep: all handles to it are in doomed
/// objects.
pub proof fn law_doomed_are_freed(m: Model, roots: Set<usize>, p: usize)
    requires
        m.wf(),
        m.doomed(roots).contains(p),
    ensures
        m.live(p),
        !m.swept(m.doomed(roots)).live(p),
{
    let v = m.reach(roots);
    let d = m.doomed(roots);
    lemma_reach_live(m, roots, p);
    lemma_reaches_self(m.edge(), p);
    assert(!m.pinned(roots, p));
    assert forall|a: usize| #[trigger] m.has(a) && v.contains(a) && !d.contains(a) implies !m.edges(a).contains(p) by {
        if m.edges(a).contains(p) {
            let u = choose|u: usize| m.pinned(roots, u) && #[trigger] reaches(m.edge(), u, a);
            assert(m.edge()(a, p));
            lemma_reaches_step(m.edge(), u, a, p);
        }
    }
    let f = |i: int| if v.contains((i + 1) as usize) { occurrences(m.objs[i].edges(), p) } else { 0 };
    let g = |i: int| if d.contains((i + 1) as usize) { occurrences(m.objs[i].edges(), p) } else { 0 };
    assert forall|i: int| 0 <= i < m.objs.len() implies #[trigger] f(i) == g(i) by {
        let a = (i + 1) as usize;
        assert(m.has(a));
        assert(m.obj(a) == m.objs[i]);
        lemma_occurs(m.objs[i].edges(), p);
    }
    lemma_sum_same(m.objs.len(), f, g);
    lemma_swept_held(m, d, p);
}

/// A collection with nothing to start from changes nothing.
pub proof fn law_nothing_deferred_nothing_done(m: Model)
    requires
        m.wf(),
    ensures
        m.swept(m.doomed(Set::empty())) == m,
{
    let d = m.doomed(Set::empty());
    let w = m.swept(d);
    assert(d =~= Set::empty());
    assert forall|i: int| 0 <= i < m.objs.len() implies w.objs[i] == m.objs[i] by {
        lemma_incoming_none(m, (i + 1) as usize);
    }
    assert(w.objs =~= m.objs);
}

/// What is reached in one heap is reached in another, where every root is
/// reached and no handle is lost.
proof fn lemma_carry(m: Model, r0: Set<usize>, n: Model, r1: Set<usize>, q: usize)
    requires
        m.reach(r0).contains(q),
        forall|r: usize| r0.contains(r) && #[trigger] m.live(r) ==> n.reach(r1).contains(r),
        forall|x: usize, y: usize| n.reach(r1).contains(x) && #[trigger] m.edges(x).contains(y)
            ==> n.reach(r1).contains(y),
    ensures
        n.reach(r1).contains(q),
{
    let r = choose|r: usize| r0.contains(r) && m.live(r) && #[trigger] reaches(m.edge(), r, q);
    let ok = |x: usize| n.reach(r1).contains(x);
    assert forall|x: usize, y: usize| ok(x) && #[trigger] m.edge()(x, y) implies ok(y) by {
        assert(m.edges(x).contains(y));
    }
    lemma_closed(m.edge(), ok, r, q);
}

/// In the beginning nothing is leaked.
pub proof fn law_empty_is_accounted(s: State)
    requires
        s.heap.objs.len() == 0,
        s.queue.len() == 0,
    ensures
        s.accounted(),
{
    reveal(State::accounted);
}

/// A new object is the mutator's, and what its contents hold is reached through
/// it: nothing is leaked.
pub proof fn law_new_is_accounted(s: State, item: Option<Seq<usize>>)
    requires
        s.wf(),
        s.accounted(),
        s.heap.objs.len() < usize::MAX - 1,
        item matches Some(es) ==> covered(s.heap, es),
    ensures
        s.allocated(item).accounted(),
{
    reveal(State::accounted);
    let m = s.heap;
    let o = new_obj(item);
    let n = s.allocated(item);
    let p0 = (m.objs.len() + 1) as usize;
    let r0 = s.roots();
    let r1 = n.roots();
    assert forall|q: usize| #[trigger] n.heap.held(q) == m.held(q) - occurrences(o.edges(), q) + one(q, p0) by {
        lemma_internal_push(m, o, q);
        if m.has(q) {
            assert(n.heap.obj(q) == m.obj(q));
        } else if q == p0 {
            assert(n.heap.obj(q) == o);
        }
    }
    assert(m.held(p0) >= occurrences(o.edges(), p0));
    assert(n.heap.held(p0) > 0);
    assert(r1.contains(p0));
    lemma_reach_root(n.heap, r1, p0);
    assert forall|r: usize| r0.contains(r) && #[trigger] m.live(r) implies n.heap.reach(r1).contains(r) by {
        assert(n.heap.obj(r) == m.obj(r));
        if m.held(r) > 0 && n.heap.held(r) <= 0 {
            lemma_occurs(o.edges(), r);
            assert(n.heap.edges(p0) == o.edges());
            lemma_reach_edge(n.heap, r1, p0, r);
        } else {
            assert(r1.contains(r)) by {
                if m.held_set().contains(r) {
                    assert(n.heap.held_set().contains(r));
                }
            }
            lemma_reach_root(n.heap, r1, r);
        }
    }
    assert forall|x: usize, y: usize| n.heap.reach(r1).contains(x) && #[trigger] m.edges(x).contains(y)
        implies n.heap.reach(r1).contains(y) by {
        assert(n.heap.obj(x) == m.obj(x));
        lemma_reach_edge(n.heap, r1, x, y);
    }
    assert forall|q: usize| #[trigger] n.heap.live(q) implies n.heap.reach(r1).contains(q) by {
        if q != p0 {
            assert(m.live(q)) by {
                assert(n.heap.obj(q) == m.obj(q));
            }
            lemma_carry(m, r0, n.heap, r1, q);
        }
    }
    assert forall|q: usize| #[trigger] n.queue.contains(Soul::Reclaimed(q)) implies !n.heap.live(q) by {
        assert(s.queue.contains(Soul::Reclaimed(q)));
        assert(!m.live(q));
        let i = choose|i: int| 0 <= i < s.queue.len() && s.queue[i] == Soul::Reclaimed(q);
        assert(m.knows(s.queue[i]));
        assert(n.heap.obj(q) == m.obj(q));
    }
}

/// Another object at `p` that holds the same handles, or hands them to the
/// mutator, leaks nothing as long as the mutator's handles become no fewer.
proof fn lemma_accounted_with(s: State, n: State, p: usize)
    requires
        s.wf(),
        s.accounted(),
        s.heap.has(p),
        n.deferred == s.deferred,
        n.queue == s.queue,
        n.heap == s.heap.with(p, n.heap.obj(p)),
        n.heap.obj(p).strong > 0 ==> s.heap.obj(p).strong > 0,
        forall|q: usize| #[trigger] n.heap.held(q) >= s.heap.held(q),
        forall|q: usize| #[trigger] s.heap.edges(p).contains(q) ==> n.heap.edges(p).contains(q) || n.heap.held(q) > 0,
        forall|q: usize| s.heap.live(q) ==> #[trigger] n.heap.live(q),
    ensures
        n.accounted(),
{
    reveal(State::accounted);
    let r0 = s.roots();
    let r1 = n.roots();
    assert forall|r: usize| r0.contains(r) && #[trigger] s.heap.live(r) implies n.heap.reach(r1).contains(r) by {
        assert(n.heap.held(r) >= s.heap.held(r));
        assert(n.heap.live(r));
        assert(r1.contains(r));
        lemma_reach_root(n.heap, r1, r);
    }
    assert forall|x: usize, y: usize| n.heap.reach(r1).contains(x) && #[trigger] s.heap.edges(x).contains(y)
        implies n.heap.reach(r1).contains(y) by {
        if x == p && !n.heap.edges(p).contains(y) {
            lemma_held_live(n.heap, y);
            assert(r1.contains(y));
            lemma_reach_root(n.heap, r1, y);
        } else {
            assert(n.heap.edges(x).contains(y));
            lemma_reach_edge(n.heap, r1, x, y);
        }
    }
    assert forall|q: usize| #[trigger] n.heap.live(q) implies n.heap.reach(r1).contains(q) by {
        assert(s.heap.live(q));
        lemma_carry(s.heap, r0, n.heap, r1, q);
    }
    assert forall|q: usize| #[trigger] n.queue.contains(Soul::Reclaimed(q)) implies !n.heap.live(q) by {
        assert(s.queue.contains(Soul::Reclaimed(q)));
        assert(!s.heap.live(q));
    }
}

/// One more handle to an object leaks nothing.
pub proof fn law_clone_is_accounted(s: State, p: usize)
    requires
        s.wf(),
        s.accounted(),
        s.heap.live(p),
    ensures
        s.cloned(p).accounted(),
{
    let n = s.cloned(p);
    let o = n.heap.obj(p);
    assert forall|q: usize| #[trigger] n.heap.held(q) >= s.heap.held(q) by {
        lemma_internal_with(s.heap, p, o, q);
    }
    assert forall|q: usize| s.heap.live(q) implies #[trigger] n.heap.live(q) by {}
    lemma_accounted_with(s, n, p);
}

/// The contents of an object that a mutator works on are the mutator's: nothing
/// is leaked meanwhile.
pub proof fn law_lending_is_accounted(s: State, p: usize)
    requires
        s.wf(),
        s.accounted(),
        s.heap.filled(p),
    ensures
        s.lent(p).accounted(),
{
    let n = s.lent(p);
    lemma_lent_held(s, p);
    assert forall|q: usize| #[trigger] s.heap.edges(p).contains(q) implies n.heap.held(q) > 0 by {
        lemma_occurs(s.heap.edges(p), q);
        assert(s.heap.held(q) >= 0);
    }
    assert forall|q: usize| s.heap.live(q) implies #[trigger] n.heap.live(q) by {}
    lemma_accounted_with(s, n, p);
}

/// Contents that go back into an object leak nothing, as long as the object
/// itself stays within reach. It does: the handle on which the contents were
/// asked for is still where it was.
pub proof fn law_returning_is_accounted(s: State, p: usize, es: Seq<usize>)
    requires
        s.wf(),
        s.accounted(),
        s.heap.live(p),
        s.heap.obj(p).item is None,
        covered(s.heap, es),
        s.returned(p, es).heap.reach(s.returned(p, es).roots()).contains(p),
    ensures
        s.returned(p, es).accounted(),
{
    lemma_put_accounted(s, s.returned(p, es), p, es);
}

proof fn lemma_put_accounted(s: State, n: State, p: usize, es: Seq<usize>)
    requires
        s.wf(),
        s.accounted(),
        s.heap.live(p),
        s.heap.obj(p).item is None,
        n == s.returned(p, es),
        n.heap.reach(n.roots()).contains(p),
    ensures
        n.accounted(),
{
    reveal(State::accounted);
    let o = n.heap.obj(p);
    let r0 = s.roots();
    let r1 = n.roots();
    assert(forall|r: usize| n.heap.live(r) == #[trigger] s.heap.live(r));
    assert forall|r: usize| r0.contains(r) && #[trigger] s.heap.live(r) implies n.heap.reach(r1).contains(r) by {
        lemma_internal_with(s.heap, p, o, r);
        if s.heap.held(r) > 0 && n.heap.held(r) <= 0 {
            lemma_occurs(es, r);
            lemma_reach_edge(n.heap, r1, p, r);
        } else {
            lemma_reach_root(n.heap, r1, r);
        }
    }
    assert forall|x: usize, y: usize| n.heap.reach(r1).contains(x) && #[trigger] s.heap.edges(x).contains(y)
        implies n.heap.reach(r1).contains(y) by {
        assert(n.heap.edges(x) == s.heap.edges(x));
        lemma_reach_edge(n.heap, r1, x, y);
    }
    assert forall|q: usize| #[trigger] n.heap.live(q) implies n.heap.reach(r1).contains(q) by {
        assert(s.heap.live(q));
        lemma_carry(s.heap, r0, n.heap, r1, q);
    }
    assert forall|q: usize| #[trigger] n.queue.contains(Soul::Reclaimed(q)) implies !n.heap.live(q) by {
        assert(s.queue.contains(Soul::Reclaimed(q)));
        assert(!s.heap.live(q));
    }
}

/// An object that lives on with one handle less is deferred.
proof fn lemma_defer_accounted(s: State, n: State, p: usize)
    requires
        s.accounted(),
        n.deferred == s.deferred,
        n.heap.objs.len() == s.heap.objs.len(),
        forall|x: usize| n.heap.edges(x) == #[trigger] s.heap.edges(x),
        forall|x: usize| n.heap.live(x) == #[trigger] s.heap.live(x),
        forall|x: usize| s.dying().contains(x) ==> #[trigger] n.dying().contains(x),
        n.dying().contains(p),
        forall|q: usize| #[trigger] n.queue.contains(Soul::Reclaimed(q)) ==> s.queue.contains(Soul::Reclaimed(q)),
        forall|q: usize| q != p ==> #[trigger] n.heap.held(q) >= s.heap.held(q),
    ensures
        n.accounted(),
{
    reveal(State::accounted);
    let r0 = s.roots();
    let r1 = n.roots();
    assert forall|r: usize| r0.contains(r) && #[trigger] s.heap.live(r) implies n.heap.reach(r1).contains(r) by {
        assert(r1.contains(r)) by {
            if r != p {
                assert(n.heap.held(r) >= s.heap.held(r));
            }
        }
        assert(n.heap.live(r));
        lemma_reach_root(n.heap, r1, r);
    }
    assert forall|x: usize, y: usize| n.heap.reach(r1).contains(x) && #[trigger] s.heap.edges(x).contains(y)
        implies n.heap.reach(r1).contains(y) by {
        assert(n.heap.edges(x).contains(y));
        lemma_reach_edge(n.heap, r1, x, y);
    }
    assert forall|q: usize| #[trigger] n.heap.live(q) implies n.heap.reach(r1).contains(q) by {
        assert(s.heap.live(q));
        lemma_carry(s.heap, r0, n.heap, r1, q);
    }
    assert forall|q: usize| #[trigger] n.queue.contains(Soul::Reclaimed(q)) implies !n.heap.live(q) by {
        assert(!s.heap.live(q));
    }
}

/// What falls out of an object that goes is the mutator's.
proof fn lemma_free_accounted(s: State, n: State, p: usize)
    requires
        s.accounted(),
        n.deferred == s.deferred,
        n.heap.objs.len() == s.heap.objs.len(),
        forall|x: usize| x != p ==> n.heap.edges(x) == #[trigger] s.heap.edges(x),
        forall|x: usize| x != p ==> n.heap.live(x) == #[trigger] s.heap.live(x),
        !n.heap.live(p),
        forall|x: usize| s.dying().contains(x) ==> #[trigger] n.dying().contains(x),
        forall|q: usize| #[trigger] n.queue.contains(Soul::Reclaimed(q)) ==> q == p || s.queue.contains(
            Soul::Reclaimed(q),
        ),
        forall|q: usize| q != p ==> #[trigger] n.heap.held(q) >= s.heap.held(q),
        forall|q: usize| q != p && #[trigger] s.heap.edges(p).contains(q) ==> n.heap.held(q) > 0,
    ensures
        n.accounted(),
{
    reveal(State::accounted);
    let r0 = s.roots();
    let r1 = n.roots();
    let ok = |x: usize| x == p || n.heap.reach(r1).contains(x);
    assert forall|r: usize| r0.contains(r) && #[trigger] s.heap.live(r) implies ok(r) by {
        if r != p {
            assert(n.heap.held(r) >= s.heap.held(r));
            assert(r1.contains(r));
            assert(n.heap.live(r));
            lemma_reach_root(n.heap, r1, r);
        }
    }
    assert forall|x: usize, y: usize| ok(x) && #[trigger] s.heap.edge()(x, y) implies ok(y) by {
        assert(s.heap.edges(x).contains(y));
        if y != p {
            if x == p {
                lemma_held_live(n.heap, y);
                assert(r1.contains(y));
                lemma_reach_root(n.heap, r1, y);
            } else {
                assert(n.heap.edges(x).contains(y));
                lemma_reach_edge(n.heap, r1, x, y);
            }
        }
    }
    assert forall|q: usize| #[trigger] n.heap.live(q) implies n.heap.reach(r1).contains(q) by {
        assert(s.heap.live(q));
        let r = choose|r: usize| r0.contains(r) && s.heap.live(r) && #[trigger] reaches(s.heap.edge(), r, q);
        lemma_closed(s.heap.edge(), ok, r, q);
    }
    assert forall|q: usize| #[trigger] n.queue.contains(Soul::Reclaimed(q)) implies !n.heap.live(q) by {
        if q != p {
            assert(!s.heap.live(q));
        }
    }
}

proof fn lemma_drop_one_accounted(s: State, p: usize)
    requires
        s.heap.wf(),
        s.accounted(),
        s.heap.held(p) > 0,
    ensures
        s.drop_one(p, false).accounted(),
{
    let n = s.drop_one(p, false);
    lemma_held_live(s.heap, p);
    let last = s.heap.obj(p).strong == 1;
    assert forall|soul: Soul| s.queue.contains(soul) implies #[trigger] n.queue.contains(soul) by {
        let i = choose|i: int| 0 <= i < s.queue.len() && s.queue[i] == soul;
        assert(n.queue[i] == soul);
    }
    assert forall|x: usize| s.dying().contains(x) implies #[trigger] n.dying().contains(x) by {
        assert(n.queue.contains(Soul::Died(WeakRoot { ptr: x })));
    }
    assert forall|q: usize| q != p implies #[trigger] n.heap.held(q) >= s.heap.held(q) by {
        lemma_drop_held(s, p, false, q);
    }
    assert forall|q: usize| #[trigger] n.queue.contains(Soul::Reclaimed(q)) implies s.queue.contains(
        Soul::Reclaimed(q),
    ) || (last && q == p) by {
        let i = choose|i: int| 0 <= i < n.queue.len() && n.queue[i] == Soul::Reclaimed(q);
        if i < s.queue.len() {
            assert(s.queue[i] == Soul::Reclaimed(q));
        }
    }
    if last {
        assert forall|q: usize| q != p && #[trigger] s.heap.edges(p).contains(q) implies n.heap.held(q) > 0 by {
            lemma_drop_held(s, p, false, q);
            lemma_occurs(s.heap.edges(p), q);
            assert(s.heap.held(q) >= 0);
        }
        lemma_free_accounted(s, n, p);
    } else {
        assert(n.queue[n.queue.len() - 1] == Soul::Died(WeakRoot { ptr: p }));
        assert(n.dying().contains(p));
        lemma_defer_accounted(s, n, p);
    }
}

/// The drop of handles leaks nothing.
pub proof fn law_drop_is_accounted(s: State, work: Seq<usize>)
    requires
        s.heap.wf(),
        s.accounted(),
        covered(s.heap, work),
    ensures
        s.drop_all(work, false).accounted(),
    decreases s.heap.total(), work.len(),
{
    if work.len() > 0 {
        let p = work.last();
        lemma_drop_wf(s, work, false);
        assert(work[work.len() - 1] == p);
        lemma_occurs(work, p);
        assert(s.heap.held(p) >= occurrences(work, p));
        lemma_drop_one_accounted(s, p);
        lemma_drop_total(s, p, false);
        law_drop_is_accounted(s.drop_one(p, false), work.drop_last() + s.unwrapped(p).reverse());
    }
}

/// The drop of handles takes contents only from objects that are freed, and
/// frees none that the mutator still has a handle to.
pub proof fn law_drop_keeps_the_living(s: State, work: Seq<usize>, on_collector: bool, q: usize)
    requires
        s.heap.wf(),
        covered(s.heap, work),
        s.heap.has(q),
    ensures
        s.drop_all(work, on_collector).heap.live(q) ==> s.heap.live(q) && s.drop_all(work, on_collector).heap.obj(q).item
            == s.heap.obj(q).item,
        s.heap.held(q) > occurrences(work, q) ==> s.drop_all(work, on_collector).heap.live(q),
    decreases s.heap.total(), work.len(),
{
    if work.len() > 0 {
        let p = work.last();
        let n = s.drop_one(p, on_collector);
        let rest = work.drop_last() + s.unwrapped(p).reverse();
        lemma_drop_wf(s, work, on_collector);
        lemma_drop_total(s, p, on_collector);
        lemma_drop_held(s, p, on_collector, q);
        lemma_occurrences_add(work.drop_last(), s.unwrapped(p).reverse(), q);
        lemma_occurrences_reverse(s.unwrapped(p), q);
        law_drop_keeps_the_living(n, rest, on_collector, q);
    }
}

/// What the defer list does not reach, doomed objects do not refer to.
proof fn lemma_outside_untouched(m: Model, roots: Set<usize>, x: usize)
    requires
        m.wf(),
        !m.reach(roots).contains(x),
    ensures
        m.incoming(m.doomed(roots), x) == 0,
{
    let d = m.doomed(roots);
    if m.incoming(d, x) > 0 {
        let i = lemma_sum_positive(
            m.objs.len(),
            |i: int| if d.contains((i + 1) as usize) { occurrences(m.objs[i].edges(), x) } else { 0 },
        );
        let a = (i + 1) as usize;
        assert(m.obj(a) == m.objs[i]);
        lemma_occurs(m.edges(a), x);
        lemma_reach_edge(m, roots, a, x);
    }
}

/// A live object that the defer list does not reach stays within reach of the
/// other roots.
proof fn lemma_outside_accounted(s: State, n: State, x: usize)
    requires
        s.wf(),
        s.accounted(),
        n.heap == s.heap.swept(s.heap.doomed(s.deferred)),
        forall|y: usize| s.dying().contains(y) ==> #[trigger] n.dying().contains(y),
        s.heap.live(x),
        !s.heap.reach(s.deferred).contains(x),
    ensures
        n.heap.reach(n.roots()).contains(x),
{
    reveal(State::accounted);
    let m = s.heap;
    let v = m.reach(s.deferred);
    let d = m.doomed(s.deferred);
    let r1 = n.roots();
    let r = choose|r: usize| s.roots().contains(r) && m.live(r) && #[trigger] reaches(m.edge(), r, x);
    let ok = |y: usize| v.contains(y) || n.heap.reach(r1).contains(y);
    assert(ok(r)) by {
        if !v.contains(r) {
            if s.deferred.contains(r) {
                lemma_reach_root(m, s.deferred, r);
            }
            lemma_outside_untouched(m, s.deferred, r);
            lemma_swept_held(m, d, r);
            assert(n.heap.live(r));
            assert(r1.contains(r));
            lemma_reach_root(n.heap, r1, r);
        }
    }
    assert forall|y: usize, z: usize| ok(y) && #[trigger] m.edge()(y, z) implies ok(z) by {
        assert(m.edges(y).contains(z));
        if v.contains(y) {
            lemma_reach_edge(m, s.deferred, y, z);
        } else {
            assert(n.heap.edges(y) == m.edges(y)) by {
                assert(m.has(y));
            }
            lemma_reach_edge(n.heap, r1, y, z);
        }
    }
    lemma_closed(m.edge(), ok, r, x);
}

/// An object that the defer list reaches and that there is an outside handle to
/// stays within reach of the other roots.
proof fn lemma_pinned_accounted(s: State, n: State, u: usize)
    requires
        s.wf(),
        s.accounted(),
        n.heap == s.heap.swept(s.heap.doomed(s.deferred)),
        forall|y: usize| s.dying().contains(y) ==> #[trigger] n.dying().contains(y),
        s.heap.pinned(s.deferred, u),
        s.heap.filled(u),
    ensures
        n.heap.reach(n.roots()).contains(u),
{
    let m = s.heap;
    let v = m.reach(s.deferred);
    let d = m.doomed(s.deferred);
    let r1 = n.roots();
    assert(m.held(u) >= 0);
    if m.held(u) > 0 {
        lemma_swept_held(m, d, u);
        lemma_held_live(n.heap, u);
        assert(r1.contains(u));
        lemma_reach_root(n.heap, r1, u);
    } else {
        lemma_incoming_le(m, v, u);
        let c = lemma_outside_witness(m, v, u);
        lemma_edge_live(m, c, u);
        lemma_outside_accounted(s, n, c);
        assert(n.heap.edges(c) == m.edges(c)) by {
            assert(m.has(c));
        }
        lemma_reach_edge(n.heap, r1, c, u);
    }
}

/// A sweep leaves all within reach that a pinned object reaches.
proof fn lemma_pinned_spreads(m: Model, roots: Set<usize>, r1: Set<usize>, u: usize, x: usize)
    requires
        m.pinned(roots, u),
        reaches(m.edge(), u, x),
        m.swept(m.doomed(roots)).reach(r1).contains(u),
    ensures
        m.swept(m.doomed(roots)).reach(r1).contains(x),
{
    let w = m.swept(m.doomed(roots));
    let ok = |y: usize| reaches(m.edge(), u, y) && w.reach(r1).contains(y);
    lemma_reaches_self(m.edge(), u);
    assert forall|y: usize, z: usize| ok(y) && #[trigger] m.edge()(y, z) implies ok(z) by {
        assert(m.edges(y).contains(z));
        lemma_reaches_step(m.edge(), u, y, z);
        lemma_spared(m, roots, u, y);
        assert(w.edges(y) == m.edges(y)) by {
            assert(m.has(y));
        }
        lemma_reach_edge(w, r1, y, z);
    }
    lemma_closed(m.edge(), ok, u, x);
}

/// What has contents and reaches something else has a handle inside.
proof fn lemma_start_filled(m: Model, u: usize, x: usize)
    requires
        reaches(m.edge(), u, x),
        m.filled(x),
    ensures
        m.filled(u),
{
    if !m.filled(u) {
        let only = |y: usize| y == u;
        assert forall|y: usize, z: usize| only(y) && #[trigger] m.edge()(y, z) implies only(z) by {
            assert(m.edges(y).contains(z));
        }
        lemma_closed(m.edge(), only, u, x);
    }
}

/// An object that the defer list reaches, that has contents and is not doomed,
/// stays within reach of the other roots.
proof fn lemma_spared_accounted(s: State, n: State, x: usize)
    requires
        s.wf(),
        s.accounted(),
        n.heap == s.heap.swept(s.heap.doomed(s.deferred)),
        forall|y: usize| s.dying().contains(y) ==> #[trigger] n.dying().contains(y),
        s.heap.filled(x),
        s.heap.reach(s.deferred).contains(x),
        !s.heap.doomed(s.deferred).contains(x),
    ensures
        n.heap.reach(n.roots()).contains(x),
{
    let m = s.heap;
    let u = choose|u: usize| m.pinned(s.deferred, u) && #[trigger] reaches(m.edge(), u, x);
    lemma_start_filled(m, u, x);
    lemma_pinned_accounted(s, n, u);
    lemma_pinned_spreads(m, s.deferred, n.roots(), u, x);
}

/// What has contents and is not doomed stays within reach of the other roots.
proof fn lemma_filled_accounted(s: State, n: State, x: usize)
    requires
        s.wf(),
        s.accounted(),
        n.heap == s.heap.swept(s.heap.doomed(s.deferred)),
        forall|y: usize| s.dying().contains(y) ==> #[trigger] n.dying().contains(y),
        s.heap.filled(x),
        s.heap.live(x),
        !s.heap.doomed(s.deferred).contains(x),
    ensures
        n.heap.reach(n.roots()).contains(x),
{
    if s.heap.reach(s.deferred).contains(x) {
        lemma_spared_accounted(s, n, x);
    } else {
        lemma_outside_accounted(s, n, x);
    }
}

/// What a sweep leaves alive stays within reach of the other roots.
proof fn lemma_left_accounted(s: State, n: State, q: usize)
    requires
        s.wf(),
        s.accounted(),
        n.heap == s.heap.swept(s.heap.doomed(s.deferred)),
        forall|y: usize| s.dying().contains(y) ==> #[trigger] n.dying().contains(y),
        n.heap.live(q),
    ensures
        n.heap.reach(n.roots()).contains(q),
{
    let m = s.heap;
    let d = m.doomed(s.deferred);
    let w = n.heap;
    let r1 = n.roots();
    lemma_anchored(m, s.deferred);
    lemma_swept_wf(m, d);
    lemma_swept_held(m, d, q);
    assert(m.has(q));
    assert(m.live(q));
    if d.contains(q) {
        law_doomed_are_freed(m, s.deferred, q);
    } else if !m.reach(s.deferred).contains(q) {
        lemma_outside_accounted(s, n, q);
    } else if m.filled(q) {
        lemma_filled_accounted(s, n, q);
    } else if w.held(q) > 0 {
        assert(r1.contains(q));
        lemma_reach_root(w, r1, q);
    } else {
        let a = lemma_internal_witness(w, q);
        assert(w.has(a) && !d.contains(a) && m.edges(a) == w.edges(a));
        lemma_edge_live(m, a, q);
        lemma_filled_accounted(s, n, a);
        lemma_reach_edge(w, r1, a, q);
    }
}

/// A collection leaks nothing.
proof fn lemma_collection_accounted(s: State, n: State)
    requires
        s.wf(),
        s.accounted(),
        n.heap == s.heap.swept(s.heap.doomed(s.deferred)),
        forall|y: usize| s.dying().contains(y) ==> #[trigger] n.dying().contains(y),
        forall|q: usize| #[trigger] n.queue.contains(Soul::Reclaimed(q)) ==> s.queue.contains(Soul::Reclaimed(q)),
    ensures
        n.accounted(),
{
    assert forall|q: usize| #[trigger] n.heap.live(q) implies n.heap.reach(n.roots()).contains(q) by {
        lemma_left_accounted(s, n, q);
    }
    assert forall|q: usize| #[trigger] n.queue.contains(Soul::Reclaimed(q)) implies !n.heap.live(q) by {
        lemma_reclaimed_dead(s, q);
        lemma_swept_held(s.heap, s.heap.doomed(s.deferred), q);
    }
    reveal(State::accounted);
}

proof fn lemma_reclaimed_dead(s: State, q: usize)
    requires
        s.accounted(),
        s.queue.contains(Soul::Reclaimed(q)),
    ensures
        !s.heap.live(q),
{
    reveal(State::accounted);
}

/// What the collector does on a message leaks nothing.
pub proof fn law_receiving_is_accounted(s: State)
    requires
        s.wf(),
        s.accounted(),
        s.queue.len() > 0,
    ensures
        s.receive().accounted(),
{
    reveal(State::accounted);
    let n = s.receive();
    assert forall|i: int| 0 <= i < n.queue.len() implies n.queue[i] == #[trigger] s.queue[i + 1] by {}
    assert forall|soul: Soul| #[trigger] n.queue.contains(soul) implies s.queue.contains(soul) by {
        let i = choose|i: int| 0 <= i < n.queue.len() && n.queue[i] == soul;
        assert(s.queue[i + 1] == soul);
    }
    assert forall|soul: Soul| s.queue.contains(soul) && soul != s.queue[0] implies #[trigger] n.queue.contains(soul) by {
        let i = choose|i: int| 0 <= i < s.queue.len() && s.queue[i] == soul;
        assert(n.queue[i - 1] == soul);
    }
    if s.queue[0] is Yuga {
        assert forall|y: usize| s.dying().contains(y) implies #[trigger] n.dying().contains(y) by {
            assert(n.queue.contains(Soul::Died(WeakRoot { ptr: y })));
        }
        lemma_collection_accounted(s, n);
    } else {
        let m = s.heap;
        assert(s.queue.contains(s.queue[0]));
        assert forall|r: usize| s.roots().contains(r) && #[trigger] m.live(r) implies n.roots().contains(r) by {
            if s.dying().contains(r) && !n.dying().contains(r) {
                assert(s.queue[0] == Soul::Died(WeakRoot { ptr: r })) by {
                    if s.queue[0] != Soul::Died(WeakRoot { ptr: r }) {
                        assert(n.queue.contains(Soul::Died(WeakRoot { ptr: r })));
                    }
                }
            }
        }
        assert forall|q: usize| #[trigger] m.live(q) implies m.reach(n.roots()).contains(q) by {
            let r = choose|r: usize| s.roots().contains(r) && m.live(r) && #[trigger] reaches(m.edge(), r, q);
            assert(n.roots().contains(r));
        }
    }
}

/// What the collector does on all messages leaks nothing, and leaves the
/// mutator's handles alone.
pub proof fn law_processing_is_accounted(s: State)
    requires
        s.wf(),
        s.accounted(),
    ensures
        s.process().wf(),
        s.process().accounted(),
        forall|p: usize| #[trigger] s.process().heap.held(p) == s.heap.held(p),
    decreases s.queue.len(),
{
    if s.queue.len() > 0 {
        let n = s.receive();
        lemma_receive_wf(s);
        law_receiving_is_accounted(s);
        law_processing_is_accounted(n);
        assert forall|p: usize| #[trigger] s.process().heap.held(p) == s.heap.held(p) by {
            assert(s.process() == n.process());
            if s.queue[0] is Yuga {
                lemma_swept_held(s.heap, s.heap.doomed(s.deferred), p);
            }
        }
    }
}

/// A collection is the last thing that a request leads to: nothing is deferred
/// after it.
proof fn lemma_request_empties(s: State)
    ensures
        s.requested().process().deferred == Set::<usize>::empty(),
        s.requested().process().queue.len() == 0,
    decreases s.queue.len(),
{
    let a = s.requested();
    lemma_process_len(a);
    if s.queue.len() == 0 {
        assert(a.queue[0] is Yuga);
        assert(a.receive().queue.len() == 0);
        assert(a.process() == a.receive().process());
        assert(a.receive().process() == a.receive());
    } else {
        let n = s.receive();
        assert(a.queue[0] == s.queue[0]);
        assert(a.queue.drop_first() =~= n.queue.push(Soul::Yuga));
        assert(a.receive() == n.requested());
        lemma_request_empties(n);
    }
}

/// After a collection that was waited for, exactly those objects are alive that
/// the mutator can reach. No cycle keeps itself alive, and neither does an object
/// that refers to itself.
pub proof fn law_yuga_frees_all_leaks(s: State, p: usize)
    requires
        s.wf(),
        s.accounted(),
    ensures
        ({
            let end = s.requested().process();
            end.heap.live(p) <==> end.heap.reach(end.heap.held_set()).contains(p)
        }),
{
    reveal(State::accounted);
    let a = s.requested();
    let end = a.process();
    law_request_is_accounted(s);
    law_processing_is_accounted(a);
    lemma_request_empties(s);
    if end.heap.live(p) {
        assert(end.heap.reach(end.roots()).contains(p));
        let r = choose|r: usize|
            end.roots().contains(r) && end.heap.live(r) && #[trigger] reaches(end.heap.edge(), r, p);
        assert(!end.dying().contains(r));
        assert(end.heap.held_set().contains(r));
    }
    if end.heap.reach(end.heap.held_set()).contains(p) {
        lemma_reach_live(end.heap, end.heap.held_set(), p);
    }
}

/// A request for a collection keeps a state well-formed and leaks nothing.
pub proof fn law_request_is_accounted(s: State)
    requires
        s.wf(),
        s.accounted(),
    ensures
        s.requested().wf(),
        s.requested().accounted(),
{
    reveal(State::accounted);
    let a = s.requested();
    assert forall|i: int| 0 <= i < a.queue.len() implies a.heap.knows(#[trigger] a.queue[i]) by {
        if i < s.queue.len() {
            assert(s.heap.knows(s.queue[i]));
        }
    }
    assert forall|soul: Soul| s.queue.contains(soul) implies #[trigger] a.queue.contains(soul) by {
        let i = choose|i: int| 0 <= i < s.queue.len() && s.queue[i] == soul;
        assert(a.queue[i] == soul);
    }
    assert forall|soul: Soul| #[trigger] a.queue.contains(soul) && !(soul is Yuga) implies s.queue.contains(soul) by {
        let i = choose|i: int| 0 <= i < a.queue.len() && a.queue[i] == soul;
        assert(s.queue[i] == soul);
    }
    assert(a.dying() =~= s.dying()) by {
        assert forall|p: usize| a.dying().contains(p) <==> s.dying().contains(p) by {
            assert(a.queue.contains(Soul::Died(WeakRoot { ptr: p })) <==> s.queue.contains(
                Soul::Died(WeakRoot { ptr: p }),
            ));
        }
    }
    assert(a.roots() =~= s.roots());
}

/// When the mutator has no handle left, a collection that was waited for leaves
/// no object.
pub proof fn law_no_handles_no_objects(s: State)
    requires
        s.wf(),
        s.accounted(),
        forall|p: usize| #[trigger] s.heap.held(p) == 0,
    ensures
        live_count(s.requested().process().heap) == 0,
{
    let end = s.requested().process();
    law_request_is_accounted(s);
    law_processing_is_accounted(s.requested());
    let m = end.heap;
    if live_count(m) > 0 {
        let i = lemma_sum_positive(m.objs.len(), |i: int| if m.objs[i].strong > 0 { 1nat } else { 0nat });
        let p = (i + 1) as usize;
        assert(m.obj(p) == m.objs[i]);
        law_yuga_frees_all_leaks(s, p);
        let r = choose|r: usize|
            m.held_set().contains(r) && m.live(r) && #[trigger] reaches(m.edge(), r, p);
        assert(m.held(r) == s.requested().heap.held(r));
        assert(s.heap.held(r) == 0);
    }
}

/// Where no collection is under way, and there are node ids for all objects, any
/// messages may be on their way: the collections that they ask for can all be
/// done.
pub proof fn law_collections_can_be_done(s: State)
    requires
        s.wf(),
        s.heap.clean(),
        s.heap.objs.len() <= u32::MAX + 1,
    ensures
        s.all_ready(),
    decreases s.queue.len(),
{
    if s.queue.len() > 0 {
        lemma_reach_finite(s.heap, s.deferred);
        lemma_receive_wf(s);
        law_collections_can_be_done(s.receive());
    }
}

/// Another flag word, whether the collector sets or clears it or a mutator marks
/// the object, leaks nothing.
pub proof fn law_flags_are_accounted(s: State, p: usize, bits: usize)
    requires
        s.wf(),
        s.accounted(),
        s.heap.has(p),
    ensures
        s.reflagged(p, bits).accounted(),
{
    let n = s.reflagged(p, bits);
    lemma_same_handles(s, n, p);
}

/// A mark that a mutator leaves on an object leaks nothing.
pub proof fn law_marking_is_accounted(s: State, p: usize)
    requires
        s.wf(),
        s.accounted(),
        s.heap.has(p),
    ensures
        s.touched(p).accounted(),
{
    law_flags_are_accounted(s, p, dirtied(s.heap.obj(p).bits));
}

/// A weak reference that a mutator keeps or lets go of leaks nothing.
pub proof fn law_keeping_is_accounted(s: State, p: usize)
    requires
        s.wf(),
        s.accounted(),
        s.heap.has(p),
    ensures
        s.kept(p).accounted(),
        s.forgotten(p).accounted(),
{
    lemma_same_handles(s, s.kept(p), p);
    lemma_same_handles(s, s.forgotten(p), p);
}

/// What changes no handles leaks nothing.
proof fn lemma_same_handles(s: State, n: State, p: usize)
    requires
        s.wf(),
        s.accounted(),
        s.heap.has(p),
        n.deferred == s.deferred,
        n.queue == s.queue,
        n.heap == s.heap.with(p, n.heap.obj(p)),
        n.heap.obj(p).strong == s.heap.obj(p).strong,
        n.heap.obj(p).item == s.heap.obj(p).item,
    ensures
        n.accounted(),
{
    assert forall|q: usize| #[trigger] n.heap.held(q) >= s.heap.held(q) by {
        lemma_internal_with(s.heap, p, n.heap.obj(p), q);
    }
    assert forall|q: usize| s.heap.live(q) implies #[trigger] n.heap.live(q) by {}
    lemma_accounted_with(s, n, p);
}

/// A collection leaves no flags: neither on what it visited nor on what a mutator
/// works on, nor on any other object.
pub proof fn law_collection_leaves_no_flags(s: State, p: usize)
    requires
        s.wf(),
        s.heap.clean(),
        s.queue.len() > 0,
        s.queue[0] is Yuga,
        s.heap.has(p),
    ensures
        s.receive().heap.has(p),
        s.receive().heap.obj(p).bits == 0,
{
    lemma_receive_wf(s);
}

/// Which roots a collection starts from, and in what order, does not matter: if
/// two defer lists reach the same objects, the same objects lose their contents.
pub proof fn law_only_reach_matters(m: Model, r1: Set<usize>, r2: Set<usize>)
    requires
        m.reach(r1) == m.reach(r2),
    ensures
        m.doomed(r1) == m.doomed(r2),
        m.swept(m.doomed(r1)) == m.swept(m.doomed(r2)),
{
    assert forall|u: usize| m.pinned(r1, u) == #[trigger] m.pinned(r2, u) by {}
    assert forall|p: usize| m.doomed(r1).contains(p) <==> m.doomed(r2).contains(p) by {
        if exists|u: usize| m.pinned(r1, u) && #[trigger] reaches(m.edge(), u, p) {
            let u = choose|u: usize| m.pinned(r1, u) && #[trigger] reaches(m.edge(), u, p);
            assert(m.pinned(r2, u) && reaches(m.edge(), u, p));
        }
        if exists|u: usize| m.pinned(r2, u) && #[trigger] reaches(m.edge(), u, p) {
            let u = choose|u: usize| m.pinned(r2, u) && #[trigger] reaches(m.edge(), u, p);
            assert(m.pinned(r1, u) && reaches(m.edge(), u, p));
        }
    }
    assert(m.doomed(r1) =~= m.doomed(r2));
}

/// Entries on the defer list whose objects were freed do not matter: the same
/// objects lose their contents as without them, and the collection can be done
/// if and only if it could without them.
pub proof fn law_stale_entries_do_not_matter(m: Model, roots: Set<usize>, stale: Set<usize>)
    requires
        forall|p: usize| #[trigger] stale.contains(p) ==> !m.live(p),
    ensures
        m.reach(roots.union(stale)) == m.reach(roots),
        m.doomed(roots.union(stale)) == m.doomed(roots),
        m.swept(m.doomed(roots.union(stale))) == m.swept(m.doomed(roots)),
        collectable(m, roots.union(stale)) <==> collectable(m, roots),
{
    let more = roots.union(stale);
    assert forall|p: usize| m.reach(more).contains(p) <==> m.reach(roots).contains(p) by {
        if m.reach(more).contains(p) {
            let r = choose|r: usize| more.contains(r) && m.live(r) && #[trigger] reaches(m.edge(), r, p);
            assert(roots.contains(r) && m.live(r) && reaches(m.edge(), r, p));
        }
        if m.reach(roots).contains(p) {
            let r = choose|r: usize| roots.contains(r) && m.live(r) && #[trigger] reaches(m.edge(), r, p);
            assert(more.contains(r) && m.live(r) && reaches(m.edge(), r, p));
        }
    }
    assert(m.reach(more) =~= m.reach(roots));
    law_only_reach_matters(m, more, roots);
}

/// Whether a collection is asked for at random is up to the coin and to nothing
/// else. In any two states, whatever is alive in them, the same side of the coin
/// does the same: if it comes up, one more message asks for a collection, behind
/// all that are on their way; if not, none does. Nothing else changes.
pub proof fn law_the_coin_alone_decides(a: State, b: State, up: bool)
    ensures
        a.tossed(up).heap == a.heap,
        a.tossed(up).deferred == a.deferred,
        a.tossed(up).queue.len() - a.queue.len() == b.tossed(up).queue.len() - b.queue.len(),
        a.tossed(up).queue.len() > a.queue.len() <==> up,
        up ==> a.tossed(up).queue == a.queue.push(Soul::Yuga),
        !up ==> a.tossed(up) == a,
        up ==> a.tossed(up) == a.requested() && a.tossed(up) != a.tossed(!up),
{
    assert(a.requested().queue.len() == a.queue.len() + 1);
}

/// A dropped handle is one handle less to its object, and to no other. The
/// contents stay until the last handle goes, and go with it. The collector is
/// told of an object that someone else still has a handle to, and of one that
/// goes while there is a weak reference to it; its own drops it needs not be told
/// of. What was visited is marked dirty.
pub proof fn law_one_handle_less(s: State, p: usize, on_collector: bool)
    requires
        s.wf(),
        s.heap.live(p),
    ensures
        ({
            let t = s.drop_one(p, on_collector);
            let known = s.deferred.contains(p) || s.queue.contains(Soul::Died(WeakRoot { ptr: p })) || s.heap.obj(p).kept
                > 0;
            let last = s.heap.strong(p) == 1;
            &&& t.heap.objs.len() == s.heap.objs.len()
            &&& t.heap.strong(p) + 1 == s.heap.strong(p)
            &&& t.heap.obj(p).kept == s.heap.obj(p).kept
            &&& t.heap.obj(p).locked == s.heap.obj(p).locked
            &&& t.heap.obj(p).item == (if last { None } else { s.heap.obj(p).item })
            &&& forall|q: usize| #[trigger] s.heap.has(q) && q != p ==> t.heap.obj(q) == s.heap.obj(q)
            &&& t.deferred == s.deferred
            &&& on_collector ==> t.queue == s.queue
            &&& !on_collector && !last ==> t.queue == s.queue.push(Soul::Died(WeakRoot { ptr: p }))
            &&& !on_collector && last && known ==> t.queue == s.queue.push(Soul::Reclaimed(p))
            &&& !on_collector && last && !known ==> t.queue == s.queue
            &&& last ==> t.heap.obj(p).bits == 0
            &&& !last && (on_collector || !has_bits(s.heap.obj(p).bits, VISITED_BIT)) ==> t.heap.obj(p).bits
                == s.heap.obj(p).bits
            &&& !last && !on_collector && has_bits(s.heap.obj(p).bits, VISITED_BIT) ==> has_bits(
                t.heap.obj(p).bits,
                DIRTY_BIT,
            ) && has_bits(t.heap.obj(p).bits, VISITED_BIT)
        }),
{
    assert(s.heap.has(p));
    law_visited_becomes_dirty(s.heap.obj(p).bits);
}

/// The defer list follows the drops. Once the collector has heard of a drop, an
/// object that someone else still has a handle to is on the list, and one that
/// went with its last handle is not; all others are on it as before.
pub proof fn law_defer_list_follows_the_drops(s: State, p: usize)
    requires
        s.wf(),
        s.heap.live(p),
        s.queue.len() == 0,
    ensures
        s.drop_one(p, false).process().queue.len() == 0,
        s.drop_one(p, false).process().heap == s.drop_one(p, false).heap,
        s.heap.strong(p) > 1 ==> s.drop_one(p, false).process().deferred == s.deferred.insert(p),
        s.heap.strong(p) == 1 ==> s.drop_one(p, false).process().deferred == s.deferred.remove(p),
{
    let t = s.drop_one(p, false);
    assert(s.heap.has(p));
    law_one_handle_less(s, p, false);
    if t.queue.len() > 0 {
        let u = t.receive();
        assert(u.queue.len() == 0);
        assert(u.process() == u);
    } else {
        assert(!s.deferred.contains(p));
        assert(s.deferred.remove(p) =~= s.deferred);
    }
}

/// Messages reach the collector in the order in which they were sent: those that
/// were sent first have done all that they do before the others do anything.
pub proof fn law_messages_arrive_in_order(s: State, first: Seq<Soul>, then: Seq<Soul>)
    requires
        s.queue == first + then,
    ensures
        s.process() == (State { queue: then, ..(State { queue: first, ..s }).process() }).process(),
    decreases first.len(),
{
    let head = State { queue: first, ..s };
    if first.len() == 0 {
        assert(s.queue =~= then);
        assert(s == (State { queue: then, ..head }));
    } else {
        assert(s.queue[0] == first[0]);
        assert(s.queue.drop_first() =~= first.drop_first() + then);
        law_messages_arrive_in_order(s.receive(), first.drop_first(), then);
        assert((State { queue: first.drop_first(), ..s.receive() }) == head.receive());
    }
}

/// A message does to the defer list what it says, and nothing else unless it
/// asks for a collection; a collection takes everything off the list.
pub proof fn law_message_does_what_it_says(s: State)
    requires
        s.queue.len() > 0,
    ensures
        s.receive().queue == s.queue.drop_first(),
        s.queue[0] matches Soul::Died(weak) ==> {
            &&& s.receive().heap == s.heap
            &&& forall|q: usize| #[trigger] s.receive().deferred.contains(q) <==> s.deferred.contains(q) || q == weak.ptr
                && q != 0
        },
        s.queue[0] matches Soul::Reclaimed(p) ==> {
            &&& s.receive().heap == s.heap
            &&& forall|q: usize| #[trigger] s.receive().deferred.contains(q) <==> s.deferred.contains(q) && q != p
        },
        s.queue[0] is Yuga ==> s.receive().deferred == Set::<usize>::empty(),
{
}

/// A collection takes nothing from an object that is not doomed but handles that
/// doomed ones held: its contents, its weak references and its lock stay, and so
/// does every handle that a mutator has.
pub proof fn law_sweep_leaves_the_others(m: Model, roots: Set<usize>, p: usize)
    requires
        m.wf(),
        m.has(p),
        !m.doomed(roots).contains(p),
    ensures
        m.swept(m.doomed(roots)).objs.len() == m.objs.len(),
        m.swept(m.doomed(roots)).obj(p).item == m.obj(p).item,
        m.swept(m.doomed(roots)).obj(p).kept == m.obj(p).kept,
        m.swept(m.doomed(roots)).obj(p).locked == m.obj(p).locked,
        m.swept(m.doomed(roots)).held(p) == m.held(p),
        m.swept(m.doomed(roots)).strong(p) <= m.strong(p),
{
    let d = m.doomed(roots);
    lemma_anchored(m, roots);
    lemma_swept_held(m, d, p);
    lemma_incoming_le(m, d, p);
    assert(m.held(p) >= 0);
}

/// A handle that is copied, and dropped again by the collector, leaves all as it
/// was.
pub proof fn law_clone_and_drop_cancel(s: State, p: usize)
    requires
        s.heap.live(p),
    ensures
        s.cloned(p).drop_one(p, true) == s,
        s.cloned(p).heap.strong(p) == s.heap.strong(p) + 1,
        forall|q: usize| #[trigger] s.heap.has(q) && q != p ==> s.cloned(p).heap.obj(q) == s.heap.obj(q),
{
    assert(s.heap.has(p));
    assert(s.cloned(p).drop_one(p, true).heap.objs =~= s.heap.objs);
}

/// A weak reference that is kept, and forgotten again, leaves all as it was.
/// While it is kept, there is a weak reference to the object; it keeps nothing
/// alive.
pub proof fn law_keep_and_forget_cancel(s: State, p: usize)
    requires
        s.heap.has(p),
    ensures
        s.kept(p).forgotten(p) == s,
        s.kept(p).weak(p),
        s.kept(p).heap.obj(p).kept == s.heap.obj(p).kept + 1,
        forall|q: usize| #[trigger] s.kept(p).heap.strong(q) == s.heap.strong(q),
        forall|q: usize| #[trigger] s.heap.has(q) && q != p ==> s.kept(p).heap.obj(q) == s.heap.obj(q),
{
    assert(s.kept(p).forgotten(p).heap.objs =~= s.heap.objs);
}

/// Contents that are taken out and put back unchanged are there again, and
/// nothing but the flags of the object has changed. In between the object is
/// locked and has none.
pub proof fn law_lend_and_return_cancel(s: State, p: usize)
    requires
        s.wf(),
        s.heap.filled(p),
    ensures
        s.lent(p).heap.obj(p).locked,
        s.lent(p).heap.obj(p).item is None,
        s.lent(p).returned(p, s.heap.edges(p)) == s.touched(p),
        forall|q: usize| #[trigger] s.heap.strong(q) == s.lent(p).heap.strong(q),
        forall|q: usize| #[trigger] s.heap.has(q) && q != p ==> s.lent(p).heap.obj(q) == s.heap.obj(q),
{
    assert(!s.heap.obj(p).locked);
    assert(s.lent(p).returned(p, s.heap.edges(p)).heap.objs =~= s.touched(p).heap.objs);
}

/// What is put into an object is in it, and the object is not locked any more.
pub proof fn law_returned_is_there(s: State, p: usize, es: Seq<usize>)
    requires
        s.heap.has(p),
    ensures
        s.returned(p, es).heap.filled(p),
        s.returned(p, es).heap.edges(p) == es,
        !s.returned(p, es).heap.obj(p).locked,
        s.returned(p, es).heap.obj(p).bits == s.heap.obj(p).bits,
        s.returned(p, es).deferred == s.deferred,
        s.returned(p, es).queue == s.queue,
        forall|q: usize| #[trigger] s.heap.strong(q) == s.returned(p, es).heap.strong(q),
        forall|q: usize| #[trigger] s.heap.has(q) && q != p ==> s.returned(p, es).heap.obj(q) == s.heap.obj(q),
{
}

/// A mark of a mutator is left on what the collector has visited, and on nothing
/// else; the mark changes nothing but the flags.
pub proof fn law_mark_is_left_on_the_visited(s: State, p: usize)
    requires
        s.wf(),
        s.heap.has(p),
    ensures
        has_bits(s.heap.obj(p).bits, VISITED_BIT) ==> has_bits(s.touched(p).heap.obj(p).bits, DIRTY_BIT) && has_bits(
            s.touched(p).heap.obj(p).bits,
            VISITED_BIT,
        ),
        !has_bits(s.heap.obj(p).bits, VISITED_BIT) ==> s.touched(p) == s,
        s.touched(p).touched(p) == s.touched(p),
        s.touched(p).reflagged(p, s.heap.obj(p).bits) == s,
{
    law_visited_becomes_dirty(s.heap.obj(p).bits);
    law_visited_becomes_dirty(dirtied(s.heap.obj(p).bits));
    assert(s.touched(p).reflagged(p, s.heap.obj(p).bits).heap.objs =~= s.heap.objs);
    assert(s.touched(p).touched(p).heap.objs =~= s.touched(p).heap.objs);
    if !has_bits(s.heap.obj(p).bits, VISITED_BIT) {
        assert(s.touched(p).heap.objs =~= s.heap.objs);
    }
}

/// A new object is at an address that none had before, with one handle to it,
/// the contents it was given, and no weak reference, flag or lock. All other
/// objects are as they were, and the collector hears nothing.
pub proof fn law_new_object_is_fresh(s: State, item: Option<Seq<usize>>)
    requires
        s.wf(),
    ensures
        ({
            let p = (s.heap.objs.len() + 1) as usize;
            let t = s.allocated(item);
            &&& !s.heap.has(p)
            &&& t.heap.has(p)
            &&& t.heap.strong(p) == 1
            &&& t.heap.obj(p).item == item
            &&& t.heap.obj(p).kept == 0
            &&& t.heap.obj(p).bits == 0
            &&& !t.heap.obj(p).locked
            &&& t.heap.objs.len() == s.heap.objs.len() + 1
            &&& forall|q: usize| #[trigger] s.heap.has(q) ==> t.heap.obj(q) == s.heap.obj(q)
            &&& t.deferred == s.deferred
            &&& t.queue == s.queue
        }),
{
}

/// The count of live objects goes up by one with each new object and down by one
/// with each last handle, and nothing else changes it. It is none for a heap
/// without objects.
pub proof fn law_live_objects_are_counted(s: State, item: Option<Seq<usize>>, p: usize, on_collector: bool)
    requires
        s.wf(),
        s.heap.live(p),
    ensures
        live_count(Model { objs: Seq::empty() }) == 0,
        live_count(s.allocated(item).heap) == live_count(s.heap) + 1,
        live_count(s.drop_one(p, on_collector).heap) == live_count(s.heap) - (if s.heap.strong(p) == 1 {
            1int
        } else {
            0
        }),
        live_count(s.cloned(p).heap) == live_count(s.heap),
        live_count(s.heap) > 0,
{
    let m = s.heap;
    let f = |i: int| if m.objs[i].strong > 0 { 1nat } else { 0nat };
    let x = p - 1;
    assert(m.has(p));
    let a = s.allocated(item).heap;
    let fa = |i: int| if a.objs[i].strong > 0 { 1nat } else { 0nat };
    lemma_sum_same(m.objs.len(), f, fa);
    assert(sum(a.objs.len(), fa) == sum(m.objs.len(), fa) + fa(m.objs.len() as int));
    let d = s.drop_one(p, on_collector).heap;
    lemma_sum_at(m.objs.len(), f, |i: int| if d.objs[i].strong > 0 { 1nat } else { 0nat }, x);
    let c = s.cloned(p).heap;
    lemma_sum_at(m.objs.len(), f, |i: int| if c.objs[i].strong > 0 { 1nat } else { 0nat }, x);
    lemma_sum_at(m.objs.len(), f, |i: int| if i == x { 0nat } else { f(i) }, x);
}

/// A flag word that is set is the flag word of that object, and changes nothing
/// else.
pub proof fn law_flags_are_what_was_set(s: State, p: usize, bits: usize)
    requires
        s.heap.has(p),
    ensures
        s.reflagged(p, bits).heap.obj(p).bits == bits,
        s.reflagged(p, bits).reflagged(p, s.heap.obj(p).bits) == s,
        forall|q: usize| #[trigger] s.heap.has(q) && q != p ==> s.reflagged(p, bits).heap.obj(q) == s.heap.obj(q),
{
    assert(s.reflagged(p, bits).reflagged(p, s.heap.obj(p).bits).heap.objs =~= s.heap.objs);
}

/// What the collector drops it tells no one of, and nothing gets contents by it.
proof fn lemma_collector_drops(s: State, work: Seq<usize>)
    requires
        s.heap.wf(),
        covered(s.heap, work),
    ensures
        s.drop_all(work, true).queue == s.queue,
        s.drop_all(work, true).deferred == s.deferred,
        s.drop_all(work, true).heap.objs.len() == s.heap.objs.len(),
        forall|q: usize| #[trigger] s.heap.has(q) ==> s.drop_all(work, true).heap.obj(q).strong <= s.heap.obj(q).strong,
        forall|q: usize| #[trigger]
            s.heap.has(q) && s.heap.obj(q).item is None ==> s.drop_all(work, true).heap.obj(q).item is None,
    decreases s.heap.total(), work.len(),
{
    if work.len() > 0 {
        let p = work.last();
        let t = s.drop_one(p, true);
        let rest = work.drop_last() + s.unwrapped(p).reverse();
        lemma_drop_wf(s, work, true);
        lemma_drop_total(s, p, true);
        lemma_collector_drops(t, rest);
        assert forall|q: usize| #[trigger] s.heap.has(q) implies s.drop_all(work, true).heap.obj(q).strong
            <= s.heap.obj(q).strong && (s.heap.obj(q).item is None ==> s.drop_all(work, true).heap.obj(q).item is None) by {
            assert(t.heap.has(q));
        }
    }
}

/// An object that the collector empties has no contents after that, and all the
/// handles that were inside are dropped: no mutator has more or fewer handles
/// than before. No one is told. An object that was freed is left alone.
pub proof fn law_emptied_object_holds_nothing(s: State, p: usize)
    requires
        s.wf(),
        s.heap.has(p),
    ensures
        s.invalidated(p).queue == s.queue,
        s.invalidated(p).deferred == s.deferred,
        s.invalidated(p).heap.objs.len() == s.heap.objs.len(),
        s.invalidated(p).heap.obj(p).item is None,
        !s.heap.live(p) ==> s.invalidated(p) == s,
        forall|q: usize| #[trigger] s.invalidated(p).heap.held(q) == s.heap.held(q),
        forall|q: usize| #[trigger] s.heap.has(q) ==> s.invalidated(p).heap.strong(q) <= s.heap.strong(q),
{
    if s.heap.live(p) {
        let t = State { heap: s.heap.emptied(p), ..s };
        let es = s.heap.edges(p);
        lemma_emptied(s.heap, p);
        lemma_collector_drops(t, es.reverse());
        assert forall|q: usize| #[trigger] s.invalidated(p).heap.held(q) == s.heap.held(q) by {
            lemma_drop_all_held(t, es.reverse(), true, q);
            lemma_occurrences_reverse(es, q);
        }
        assert(t.heap.has(p));
        assert forall|q: usize| #[trigger] s.heap.has(q) implies s.invalidated(p).heap.strong(q) <= s.heap.strong(q) by {
            assert(t.heap.has(q));
        }
    }
}

/// All messages are taken: none is on its way when the collector has processed
/// them, however many there were.
pub proof fn law_processing_takes_all_messages(s: State)
    ensures
        s.process().queue.len() == 0,
        s.queue.len() == 0 ==> s.process() == s,
        s.process().process() == s.process(),
    decreases s.queue.len(),
{
    if s.queue.len() > 0 {
        law_processing_takes_all_messages(s.receive());
    }
}

/// Handles are dropped one after another: a drop has done all that it does, down
/// to the last handle that falls out of what it frees, before the next one does
/// anything.
pub proof fn law_drops_come_one_after_another(s: State, then: Seq<usize>, first: Seq<usize>, on_collector: bool)
    ensures
        s.drop_all(then + first, on_collector) == s.drop_all(first, on_collector).drop_all(then, on_collector),
        s.drop_all(Seq::empty(), on_collector) == s,
    decreases s.heap.total(), first.len(),
{
    let all = then + first;
    if first.len() == 0 {
        assert(all =~= then);
    } else {
        let p = first.last();
        assert(all.last() == p);
        assert(all.drop_last() =~= then + first.drop_last());
        if !s.heap.live(p) {
            law_drops_come_one_after_another(s, then, first.drop_last(), on_collector);
        } else {
            let fallen = s.unwrapped(p).reverse();
            lemma_drop_total(s, p, on_collector);
            assert(then + first.drop_last() + fallen =~= then + (first.drop_last() + fallen));
            law_drops_come_one_after_another(
                s.drop_one(p, on_collector),
                then,
                first.drop_last() + fallen,
                on_collector,
            );
        }
    }
}

/// The drop of one handle to a live object is one handle less to it, and then the
/// drop of what was in it if that was the last one, in the order in which it held
/// them.
pub proof fn law_last_drop_takes_the_contents(s: State, p: usize, on_collector: bool)
    requires
        s.heap.live(p),
    ensures
        s.heap.strong(p) > 1 ==> s.drop_all(seq![p], on_collector) == s.drop_one(p, on_collector),
        s.heap.strong(p) == 1 ==> s.drop_all(seq![p], on_collector) == s.drop_one(p, on_collector).drop_all(
            s.heap.edges(p).reverse(),
            on_collector,
        ),
{
    let work = seq![p];
    assert(work.last() == p && work.drop_last() =~= Seq::empty());
    let rest = s.unwrapped(p).reverse();
    assert(Seq::<usize>::empty() + rest =~= rest);
    assert(s.heap.has(p));
    if s.heap.strong(p) > 1 {
        assert(rest =~= Seq::empty());
        let t = s.drop_one(p, on_collector);
        assert(t.drop_all(Seq::empty(), on_collector) == t);
    } else {
        assert(s.heap.edges(p) == s.heap.obj(p).edges());
    }
}

} // verus!
