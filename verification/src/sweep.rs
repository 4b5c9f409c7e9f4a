//! What is left of a heap while doomed objects lose their contents.

use crate::collector::Soul;
use crate::gc::WeakRoot;
use crate::graph::{
    lemma_occurrences_add, lemma_occurrences_reverse, lemma_occurs, lemma_reaches_last, lemma_sum_add,
    lemma_sum_positive, lemma_sum_same, occurrences, reaches,
};
use crate::model::{
    covered, lemma_drop_held, lemma_drop_total, lemma_drop_wf, lemma_emptied, lemma_incoming_le,
    lemma_internal_edge, lemma_internal_witness, lemma_reach_edge, Model, State,
};
use vstd::prelude::*;

verus! {

/// Everything with contents outside of `d` is held by a mutator or by something
/// outside of `d`.
pub open spec fn anchored(m: Model, d: Set<usize>) -> bool {
    forall|p: usize| #[trigger] m.filled(p) && !d.contains(p) ==> m.held(p) > 0 || exists|q: usize|
        !d.contains(q) && #[trigger] m.edges(q).contains(p)
}

/// `h` is what is left of `m` after objects in `d` have lost their contents
/// while handles to `work` are yet to be dropped.
pub open spec fn wanes(m: Model, d: Set<usize>, h: Model, work: Seq<usize>) -> bool {
    &&& h.wf()
    &&& h.objs.len() == m.objs.len()
    &&& forall|p: usize| #[trigger] h.has(p) ==> {
        &&& h.obj(p).locked == m.obj(p).locked
        &&& h.obj(p).kept == m.obj(p).kept
        &&& h.obj(p).item == m.obj(p).item || (h.obj(p).item is None && d.contains(p))
    }
    &&& forall|p: usize| #[trigger] h.held(p) == m.held(p) + occurrences(work, p)
}

/// Flags are gone or as they were, and freed objects have none.
pub open spec fn flags_fade(before: Model, after: Model) -> bool {
    &&& before.objs.len() == after.objs.len()
    &&& forall|p: usize| #[trigger] after.has(p) ==> after.obj(p).bits == 0 || (after.live(p) && after.obj(p).bits
        == before.obj(p).bits)
}

/// What is not doomed is anchored.
pub proof fn lemma_anchored(m: Model, roots: Set<usize>)
    requires
        m.wf(),
    ensures
        anchored(m, m.doomed(roots)),
{
    let d = m.doomed(roots);
    let v = m.reach(roots);
    assert forall|p: usize| #[trigger] m.filled(p) && !d.contains(p) implies m.held(p) > 0 || exists|q: usize|
        !d.contains(q) && #[trigger] m.edges(q).contains(p) by {
        assert(m.has(p));
        assert(m.live(p));
        assert(m.held(p) >= 0);
        if m.held(p) == 0 {
            if !v.contains(p) {
                let q = lemma_internal_witness(m, p);
                if v.contains(q) {
                    lemma_reach_edge(m, roots, q, p);
                }
                assert(!d.contains(q) && m.edges(q).contains(p));
            } else {
                let u = choose|u: usize| m.pinned(roots, u) && #[trigger] reaches(m.edge(), u, p);
                lemma_reaches_last(m.edge(), u, p);
                if u == p {
                    lemma_incoming_le(m, v, p);
                    let q = lemma_outside_witness(m, v, p);
                    assert(!d.contains(q) && m.edges(q).contains(p));
                } else {
                    let q = choose|q: usize| reaches(m.edge(), u, q) && #[trigger] m.edge()(q, p);
                    assert(!d.contains(q) && m.edges(q).contains(p));
                }
            }
        }
    }
}

/// A handle to `p` that the objects in `s` do not hold is held outside.
pub proof fn lemma_outside_witness(m: Model, s: Set<usize>, p: usize) -> (q: usize)
    requires
        m.objs.len() < usize::MAX,
        m.incoming(s, p) < m.internal(p),
    ensures
        !s.contains(q),
        m.edges(q).contains(p),
{
    let rest = s.complement();
    lemma_split(m, s, p);
    let i = lemma_sum_positive(
        m.objs.len(),
        |i: int| if rest.contains((i + 1) as usize) { occurrences(m.objs[i].edges(), p) } else { 0 },
    );
    lemma_occurs(m.objs[i].edges(), p);
    (i + 1) as usize
}

/// Handles are held inside of `s` or outside.
pub proof fn lemma_split(m: Model, s: Set<usize>, p: usize)
    ensures
        m.internal(p) == m.incoming(s, p) + m.incoming(s.complement(), p),
{
    lemma_sum_add(
        m.objs.len(),
        |i: int| if s.contains((i + 1) as usize) { occurrences(m.objs[i].edges(), p) } else { 0 },
        |i: int| if s.complement().contains((i + 1) as usize) { occurrences(m.objs[i].edges(), p) } else { 0 },
        |i: int| occurrences(m.objs[i].edges(), p),
    );
}

/// The drop of a handle frees nothing outside of `d` that has contents.
proof fn lemma_wanes_step(m: Model, d: Set<usize>, s: State, work: Seq<usize>, on_collector: bool)
    requires
        m.wf(),
        anchored(m, d),
        wanes(m, d, s.heap, work),
        work.len() > 0,
    ensures
        covered(s.heap, work),
        s.heap.live(work.last()),
        wanes(
            m,
            d,
            s.drop_one(work.last(), on_collector).heap,
            work.drop_last() + s.unwrapped(work.last()).reverse(),
        ),
{
    let q = work.last();
    let h = s.heap;
    let n = s.drop_one(q, on_collector).heap;
    let rest = work.drop_last() + s.unwrapped(q).reverse();
    assert forall|p: usize| occurrences(work, p) <= #[trigger] h.held(p) by {
        assert(m.held(p) >= 0);
    }
    lemma_drop_wf(s, work, on_collector);
    assert forall|p: usize| #[trigger] n.held(p) == m.held(p) + occurrences(rest, p) by {
        lemma_drop_held(s, q, on_collector, p);
        lemma_occurrences_add(work.drop_last(), s.unwrapped(q).reverse(), p);
        lemma_occurrences_reverse(s.unwrapped(q), p);
        assert(h.held(p) == m.held(p) + occurrences(work, p));
    }
    if h.obj(q).strong == 1 && h.obj(q).item is Some && !d.contains(q) {
        assert(h.has(q));
        assert(m.filled(q));
        assert(work[work.len() - 1] == q);
        lemma_occurs(work, q);
        assert(h.held(q) == m.held(q) + occurrences(work, q));
        if m.held(q) == 0 {
            let x = choose|x: usize| !d.contains(x) && #[trigger] m.edges(x).contains(q);
            assert(m.has(x));
            assert(h.has(x));
            assert(h.edges(x).contains(q));
            lemma_internal_edge(h, x, q);
        }
        assert(false);
    }
    assert forall|p: usize| #[trigger] n.has(p) implies n.obj(p).locked == m.obj(p).locked && n.obj(p).kept
        == m.obj(p).kept && (n.obj(p).item
        == m.obj(p).item || (n.obj(p).item is None && d.contains(p))) by {
        assert(h.has(p));
    }
}

/// The drop of handles, and of those that they set free, frees nothing outside
/// of `d` that has contents; on the collector's thread nobody is told.
pub proof fn lemma_wanes_all(m: Model, d: Set<usize>, s: State, work: Seq<usize>)
    requires
        m.wf(),
        anchored(m, d),
        wanes(m, d, s.heap, work),
        flags_fade(s.heap, s.heap),
    ensures
        wanes(m, d, s.drop_all(work, true).heap, Seq::empty()),
        flags_fade(s.heap, s.drop_all(work, true).heap),
        s.drop_all(work, true).queue == s.queue,
        s.drop_all(work, true).deferred == s.deferred,
        forall|p: usize| #[trigger] s.heap.has(p) && s.heap.obj(p).item is None ==> s.drop_all(
            work,
            true,
        ).heap.obj(p).item is None,
    decreases s.heap.total(), work.len(),
{
    if work.len() == 0 {
        assert(work =~= Seq::empty());
    } else {
        let q = work.last();
        let n = s.drop_one(q, true);
        let rest = work.drop_last() + s.unwrapped(q).reverse();
        lemma_wanes_step(m, d, s, work, true);
        lemma_drop_total(s, q, true);
        assert(flags_fade(s.heap, n.heap)) by {
            assert forall|p: usize| #[trigger] n.heap.has(p) implies n.heap.obj(p).bits == 0 || (n.heap.live(p)
                && n.heap.obj(p).bits == s.heap.obj(p).bits) by {
                assert(s.heap.has(p));
            }
        }
        assert(flags_fade(n.heap, n.heap)) by {
            assert forall|p: usize| #[trigger] n.heap.has(p) implies n.heap.obj(p).bits == 0 || n.heap.live(p) by {
                assert(s.heap.has(p));
            }
        }
        lemma_wanes_all(m, d, n, rest);
        let end = n.drop_all(rest, true);
        assert(s.drop_all(work, true) == end);
        assert forall|p: usize| #[trigger] end.heap.has(p) implies end.heap.obj(p).bits == 0 || (end.heap.live(p)
            && end.heap.obj(p).bits == s.heap.obj(p).bits) by {
            assert(n.heap.has(p));
        }
        assert forall|p: usize| #[trigger] s.heap.has(p) && s.heap.obj(p).item is None implies end.heap.obj(
            p,
        ).item is None by {
            assert(n.heap.has(p));
        }
    }
}

/// An object in `d` loses its contents.
pub proof fn lemma_wanes_emptied(m: Model, d: Set<usize>, h: Model, q: usize)
    requires
        wanes(m, d, h, Seq::empty()),
        h.has(q),
        d.contains(q),
    ensures
        wanes(m, d, h.emptied(q), h.edges(q).reverse()),
{
    lemma_emptied(h, q);
    let n = h.emptied(q);
    assert forall|p: usize| #[trigger] n.held(p) == m.held(p) + occurrences(h.edges(q).reverse(), p) by {
        lemma_occurrences_reverse(h.edges(q), p);
        assert(h.held(p) == m.held(p) + occurrences(Seq::empty(), p));
    }
    assert forall|p: usize| #[trigger] n.has(p) implies n.obj(p).locked == m.obj(p).locked && n.obj(p).kept
        == m.obj(p).kept && (n.obj(p).item
        == m.obj(p).item || (n.obj(p).item is None && d.contains(p))) by {
        assert(h.has(p));
    }
}

/// When all of `d` have lost their contents and no flags are left, the heap is
/// the swept one.
pub proof fn lemma_swept(m: Model, d: Set<usize>, h: Model)
    requires
        m.wf(),
        m.clean(),
        wanes(m, d, h, Seq::empty()),
        h.clean(),
        forall|p: usize| #[trigger] h.has(p) && d.contains(p) ==> h.obj(p).item is None,
    ensures
        h == m.swept(d),
{
    let w = m.swept(d);
    assert forall|i: int| 0 <= i < h.objs.len() implies h.objs[i] == w.objs[i] by {
        let p = (i + 1) as usize;
        assert(h.has(p) && m.has(p));
        assert(h.obj(p) == h.objs[i]);
        let rest = d.complement();
        lemma_split(m, d, p);
        lemma_split(h, d, p);
        assert(h.held(p) == m.held(p) + occurrences(Seq::empty(), p));
        let fm = |j: int| if rest.contains((j + 1) as usize) { occurrences(m.objs[j].edges(), p) } else { 0 };
        let fh = |j: int| if rest.contains((j + 1) as usize) { occurrences(h.objs[j].edges(), p) } else { 0 };
        assert forall|j: int| 0 <= j < m.objs.len() implies #[trigger] fm(j) == fh(j) by {
            assert(h.has((j + 1) as usize));
        }
        lemma_sum_same(m.objs.len(), fm, fh);
        assert(h.incoming(d, p) == 0) by {
            let f = |j: int| if d.contains((j + 1) as usize) { occurrences(h.objs[j].edges(), p) } else { 0 };
            if h.incoming(d, p) > 0 {
                let j = lemma_sum_positive(h.objs.len(), f);
                assert(h.has((j + 1) as usize));
                assert(f(j) == 0);
            }
        }
    }
    assert(h.objs =~= w.objs);
}

/// A sweep leaves the mutator's handles alone.
pub proof fn lemma_swept_held(m: Model, d: Set<usize>, p: usize)
    requires
        m.wf(),
    ensures
        m.swept(d).held(p) == m.held(p),
        m.has(p) ==> m.swept(d).strong(p) == m.strong(p) - m.incoming(d, p),
        m.swept(d).internal(p) == m.internal(p) - m.incoming(d, p),
{
    let w = m.swept(d);
    let rest = d.complement();
    lemma_split(m, d, p);
    let f = |i: int| if rest.contains((i + 1) as usize) { occurrences(m.objs[i].edges(), p) } else { 0 };
    let g = |i: int| occurrences(w.objs[i].edges(), p);
    assert forall|i: int| 0 <= i < m.objs.len() implies #[trigger] f(i) == g(i) by {}
    lemma_sum_same(m.objs.len(), f, g);
    assert(m.held(p) >= 0);
    if m.has(p) {
        assert(w.obj(p).strong == (m.obj(p).strong - m.incoming(d, p)) as nat);
    }
}

/// A swept heap is well-formed, and no object in it is flagged.
pub proof fn lemma_swept_wf(m: Model, d: Set<usize>)
    requires
        m.wf(),
        anchored(m, d),
    ensures
        m.swept(d).wf(),
        m.clean() ==> m.swept(d).clean(),
        m.defined() ==> m.swept(d).defined(),
{
    let w = m.swept(d);
    assert forall|p: usize| #[trigger] w.held(p) >= 0 by {
        lemma_swept_held(m, d, p);
        assert(m.held(p) >= 0);
    }
    assert forall|p: usize| #[trigger] w.has(p) && (w.obj(p).strong == 0 || w.obj(p).locked)
        implies w.obj(p).item is None by {
        assert(m.has(p));
        if w.obj(p).item is Some && w.obj(p).strong == 0 {
            assert(m.filled(p) && !d.contains(p));
            lemma_swept_held(m, d, p);
            assert(m.held(p) >= 0);
            assert(w.strong(p) == 0);
            if m.held(p) == 0 {
                let q = choose|q: usize| !d.contains(q) && #[trigger] m.edges(q).contains(p);
                assert(w.edges(q) == m.edges(q)) by {
                    assert(m.has(q));
                }
                lemma_internal_edge(w, q, p);
            }
        }
    }
    assert forall|p: usize| #[trigger] w.has(p) implies m.has(p) && w.obj(p).bits == m.obj(p).bits by {}
}

/// A message keeps a state well-formed.
pub proof fn lemma_receive_wf(s: State)
    requires
        s.wf(),
        s.queue.len() > 0,
    ensures
        s.receive().wf(),
        s.heap.clean() ==> s.receive().heap.clean(),
        s.receive().heap.objs.len() == s.heap.objs.len(),
{
    let n = s.receive();
    if s.queue[0] is Yuga {
        lemma_anchored(s.heap, s.deferred);
        lemma_swept_wf(s.heap, s.heap.doomed(s.deferred));
    }
    assert(s.heap.knows(s.queue[0]));
    assert forall|i: int| 0 <= i < n.queue.len() implies n.heap.knows(#[trigger] n.queue[i]) by {
        assert(n.queue[i] == s.queue[i + 1]);
    }
    assert forall|p: usize| #[trigger] n.deferred.contains(p) implies n.heap.has(p) by {
        assert(s.deferred.contains(p) || s.queue[0] == Soul::Died(WeakRoot { ptr: p }));
    }
}

} // verus!
