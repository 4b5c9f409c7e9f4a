//! The heap, its mutator and its collector put together.

use crate::collect::collect;
use crate::collector::{Coin, Collector, LocalSender, Soul};
use crate::flags::{GcFlags, ALL_BITS, VISITED_BIT};
use crate::gc::WeakRoot;
use crate::graph::{lemma_occurrences_push, occurrences};
use crate::heap::{live_count, new_obj, Heap};
use crate::model::{
    covered, lemma_drop_all_wf, lemma_internal_push, lemma_internal_with, Model, State,
};
use crate::release::release_all;
use crate::sweep::lemma_receive_wf;
use crate::trace::{Handles, Trace};
use vstd::prelude::*;

verus! {

/// A heap of objects with contents of type `T`, what was sent to its collector,
/// and the collector.
pub struct Runtime<T> {
    heap: Heap<T>,
    sender: LocalSender,
    collector: Collector,
}

/// The addresses of the handles inside contents, if there are contents.
pub open spec fn edges_of<T: Handles>(item: Option<T>) -> Option<Seq<usize>> {
    match item {
        Some(t) => Some(t.edges()),
        None => None,
    }
}

/// The handles inside `t` are the mutator's.
pub open spec fn owns<T: Handles>(m: Model, t: T) -> bool {
    covered(m, t.edges())
}

impl<T: Handles> Runtime<T> {
    /// The heap, the defer list and the messages on their way.
    pub closed spec fn state(&self) -> State {
        State {
            heap: self.heap.model(),
            deferred: self.collector@.deferred.dom(),
            queue: self.sender.chan@,
        }
    }

    /// The heap as a graph.
    pub open spec fn model(&self) -> Model {
        self.state().heap
    }

    /// The contents of the object at `p`.
    pub closed spec fn item(&self, p: usize) -> Option<T> {
        self.heap.item(p)
    }

    /// The parts are consistent.
    pub closed spec fn consistent(&self) -> bool {
        &&& self.heap.count_ok()
        &&& self.collector@.wf()
        &&& self.collector@.visited.dom() == Set::<usize>::empty()
        &&& self.collector@.neighbors.len() == 0
    }

    /// No operation is under way.
    pub open spec fn wf(&self) -> bool {
        &&& self.state().wf()
        &&& self.consistent()
    }

    /// No collection is under way: no object is flagged.
    pub open spec fn idle(&self) -> bool {
        self.model().clean()
    }

    /// The contents of all objects but the one at `q` are those of `before`.
    pub open spec fn keeps_items_but(&self, before: &Self, q: usize) -> bool {
        forall|p: usize| self.model().has(p) && p != q ==> #[trigger] self.item(p) == before.item(p)
    }

    /// The contents of all objects are those of `before`.
    pub open spec fn keeps_items(&self, before: &Self) -> bool {
        forall|p: usize| self.model().has(p) ==> #[trigger] self.item(p) == before.item(p)
    }

    /// The contents that are left are those of `before`.
    pub open spec fn loses_items(&self, before: &Self) -> bool {
        forall|p: usize| self.model().has(p) ==> (#[trigger] self.item(p)) is None || self.item(p) == before.item(p)
    }

    /// The model tells truly of the contents.
    pub proof fn lemma_items(&self)
        ensures
            forall|p: usize| #[trigger] self.model().has(p) ==> self.model().obj(p).item == edges_of(self.item(p)),
    {
        self.heap.lemma_items();
        assert forall|p: usize| #[trigger] self.model().has(p) implies self.model().obj(p).item == edges_of(
            self.item(p),
        ) by {
            assert(self.heap.item_agrees(p));
        }
    }

    /// A heap without objects, whose collector knows nothing.
    pub fn new() -> (r: Self)
        ensures
            r.wf(),
            r.idle(),
            r.model().objs.len() == 0,
            r.state().deferred == Set::<usize>::empty(),
            r.state().queue.len() == 0,
    {
        let r = Runtime { heap: Heap::new(), sender: LocalSender::new(), collector: Collector::new() };
        proof {
            let m = r.model();
            assert forall|p: usize| #[trigger] m.held(p) >= 0 by {
                assert(m.internal(p) == 0);
            }
        }
        r
    }

    /// The number of objects that are alive.
    pub fn live_objects(&self) -> (r: usize)
        requires
            self.wf(),
        ensures
            r == live_count(self.model()),
    {
        self.heap.number_of_live_objects()
    }

    /// The number of handles to the object at `p`.
    pub fn strong_count(&self, p: usize) -> (r: usize)
        requires
            self.model().has(p),
        ensures
            r == self.model().strong(p),
    {
        self.heap.strong_count(p)
    }

    /// Whether the object at `p` is on the collector's defer list.
    pub fn is_deferred(&self, p: usize) -> (r: bool)
        ensures
            r == self.state().deferred.contains(p),
    {
        self.collector.defers(p)
    }

    /// The number of messages on their way to the collector.
    pub fn pending(&self) -> (r: usize)
        ensures
            r == self.state().queue.len(),
    {
        self.sender.chan.len()
    }

    /// The contents of the object at `p`.
    pub fn contents(&self, p: usize) -> (r: Option<&T>)
        requires
            self.model().has(p),
        ensures
            r == (match self.item(p) {
                Some(t) => Some(&t),
                None => None,
            }),
    {
        self.heap.contents(p)
    }

    /// A new object with one handle to it. The handles inside its contents are
    /// the mutator's before and the object's after.
    pub(crate) fn allocate(&mut self, item: Option<T>) -> (p: usize)
        requires
            old(self).wf(),
            old(self).model().objs.len() < usize::MAX - 1,
            item matches Some(t) ==> owns(old(self).model(), t),
        ensures
            final(self).wf(),
            old(self).idle() ==> final(self).idle(),
            p == old(self).model().objs.len() + 1,
            final(self).state() == old(self).state().allocated(edges_of(item)),
            final(self).item(p) == item,
            final(self).keeps_items_but(old(self), p),
    {
        let ghost before = self.state();
        let p = self.heap.allocate(item);
        proof {
            let m = before.heap;
            let o = new_obj(edges_of(item));
            let n = self.state().heap;
            assert(n == (Model { objs: m.objs.push(o) }));
            assert forall|q: usize| #[trigger] n.held(q) >= 0 by {
                lemma_internal_push(m, o, q);
                assert(m.held(q) >= occurrences(o.edges(), q));
                if m.has(q) {
                    assert(n.obj(q) == m.obj(q));
                }
            }
            assert forall|q: usize| #[trigger] n.has(q) implies n.obj(q).bits <= ALL_BITS && (m.clean() ==> n.obj(
                q,
            ).bits == 0) && (n.obj(q).strong == 0 || n.obj(q).locked ==> n.obj(q).item is None) by {
                if m.has(q) {
                    assert(n.obj(q) == m.obj(q));
                }
            }
            assert forall|q: usize| #[trigger] self.state().deferred.contains(q) implies n.has(q) by {
                assert(before.deferred.contains(q));
                assert(m.has(q));
            }
            assert forall|i: int| 0 <= i < self.state().queue.len() implies n.knows(#[trigger] self.state().queue[i]) by {
                assert(m.knows(before.queue[i]));
            }
        }
        p
    }

    /// One more handle to the object at `p`.
    pub(crate) fn retain(&mut self, p: usize)
        requires
            old(self).wf(),
            old(self).model().live(p),
            old(self).model().strong(p) < usize::MAX,
        ensures
            final(self).wf(),
            old(self).idle() ==> final(self).idle(),
            final(self).state() == old(self).state().cloned(p),
            final(self).keeps_items(old(self)),
    {
        let ghost before = self.state();
        self.heap.retain(p);
        proof {
            lemma_replaced(before, self.state(), p);
        }
    }

    /// Drops a handle to the object at `p` that no object holds.
    pub(crate) fn release(&mut self, p: usize)
        requires
            old(self).wf(),
            old(self).model().held(p) > 0,
        ensures
            final(self).wf(),
            old(self).idle() ==> final(self).idle(),
            final(self).state() == old(self).state().drop_all(seq![p], false),
            final(self).loses_items(old(self)),
    {
        let mut work: Vec<usize> = Vec::new();
        work.push(p);
        proof {
            assert(work@ =~= seq![p]);
            assert forall|q: usize| occurrences(work@, q) <= #[trigger] self.model().held(q) by {
                lemma_occurrences_push(Seq::empty(), p, q);
                assert(Seq::<usize>::empty().push(p) =~= work@);
                assert(self.model().held(q) >= 0);
            }
            assert forall|q: usize| #[trigger] self.model().has(q) implies self.model().obj(q).bits <= ALL_BITS by {}
            lemma_drop_all_wf(self.state(), work@, false);
        }
        release_all(&mut self.heap, &mut self.sender, &self.collector, work, false);
    }

    /// Takes the contents out of the object at `p` for a mutator to work on,
    /// and locks it until they are put back.
    pub(crate) fn take(&mut self, p: usize) -> (r: T)
        requires
            old(self).wf(),
            old(self).model().filled(p),
        ensures
            final(self).wf(),
            old(self).idle() ==> final(self).idle(),
            Some(r) == old(self).item(p),
            final(self).state() == old(self).state().lent(p),
            final(self).item(p) is None,
            final(self).keeps_items_but(old(self), p),
    {
        let ghost before = self.state();
        proof {
            self.lemma_items();
            assert(self.model().has(p));
        }
        let r = self.heap.take(p);
        proof {
            lemma_replaced(before, self.state(), p);
        }
        match r {
            Some(t) => t,
            None => vstd::pervasive::unreached(),
        }
    }

    /// The number of weak references to the object at `p` that mutators keep.
    pub fn kept_count(&self, p: usize) -> (r: usize)
        requires
            self.model().has(p),
        ensures
            r == self.model().obj(p).kept,
    {
        self.heap.kept_count(p)
    }

    /// One more weak reference to the object at `p` that a mutator keeps.
    pub(crate) fn keep(&mut self, p: usize)
        requires
            old(self).wf(),
            old(self).model().has(p),
            old(self).model().obj(p).kept < usize::MAX,
        ensures
            final(self).wf(),
            old(self).idle() ==> final(self).idle(),
            final(self).state() == old(self).state().kept(p),
            forall|q: usize| #[trigger] final(self).model().held(q) == old(self).model().held(q),
            final(self).keeps_items(old(self)),
    {
        let ghost before = self.state();
        let n = self.heap.kept_count(p);
        self.heap.set_kept(p, n + 1);
        proof {
            lemma_replaced(before, self.state(), p);
            assert forall|q: usize| #[trigger] self.model().held(q) == before.heap.held(q) by {
                lemma_internal_with(before.heap, p, self.model().obj(p), q);
            }
        }
    }

    /// One weak reference less to the object at `p` that a mutator keeps.
    pub(crate) fn forget(&mut self, p: usize)
        requires
            old(self).wf(),
            old(self).model().has(p),
            old(self).model().obj(p).kept > 0,
        ensures
            final(self).wf(),
            old(self).idle() ==> final(self).idle(),
            final(self).state() == old(self).state().forgotten(p),
            forall|q: usize| #[trigger] final(self).model().held(q) == old(self).model().held(q),
            final(self).keeps_items(old(self)),
    {
        let ghost before = self.state();
        let n = self.heap.kept_count(p);
        self.heap.set_kept(p, n - 1);
        proof {
            lemma_replaced(before, self.state(), p);
            assert forall|q: usize| #[trigger] self.model().held(q) == before.heap.held(q) by {
                lemma_internal_with(before.heap, p, self.model().obj(p), q);
            }
        }
    }

    /// Marks the object at `p` dirty if the collector has visited it.
    pub(crate) fn visited_to_dirty(&mut self, p: usize)
        requires
            old(self).wf(),
            old(self).model().has(p),
        ensures
            final(self).wf(),
            old(self).idle() ==> final(self).idle(),
            final(self).state() == old(self).state().touched(p),
            forall|q: usize| #[trigger] final(self).model().held(q) == old(self).model().held(q),
            final(self).keeps_items(old(self)),
    {
        let ghost before = self.state();
        self.heap.visited_to_dirty(p);
        proof {
            lemma_replaced(before, self.state(), p);
            assert forall|q: usize| #[trigger] self.model().held(q) == before.heap.held(q) by {
                lemma_internal_with(before.heap, p, self.model().obj(p), q);
            }
        }
    }

    /// Puts contents into the object at `p` and unlocks it. The handles inside
    /// are the mutator's before and the object's after.
    pub(crate) fn put(&mut self, p: usize, t: T)
        requires
            old(self).wf(),
            old(self).model().live(p),
            old(self).model().obj(p).item is None,
            owns(old(self).model(), t),
        ensures
            final(self).wf(),
            old(self).idle() ==> final(self).idle(),
            final(self).state() == old(self).state().returned(p, t.edges()),
            final(self).item(p) == Some(t),
            final(self).keeps_items_but(old(self), p),
    {
        let ghost before = self.state();
        self.heap.put(p, t);
        proof {
            lemma_replaced(before, self.state(), p);
        }
    }
}

impl<T: Trace> Runtime<T> {
    /// The flags of the object; none if it was freed.
    pub fn flags(&self, root: &WeakRoot) -> (r: Option<GcFlags>)
        requires
            self.wf(),
            self.model().has(root.ptr),
        ensures
            r is Some <==> self.model().live(root.ptr),
            r matches Some(f) ==> f@ == self.model().obj(root.ptr).bits,
    {
        root.flags(&self.heap)
    }

    /// Flags the object as visited, unless it was freed.
    pub fn mark_visited(&mut self, root: &WeakRoot)
        requires
            old(self).wf(),
            old(self).model().has(root.ptr),
        ensures
            final(self).wf(),
            final(self).state() == (if old(self).model().live(root.ptr) {
                old(self).state().reflagged(root.ptr, VISITED_BIT)
            } else {
                old(self).state()
            }),
            forall|q: usize| #[trigger] final(self).model().held(q) == old(self).model().held(q),
            final(self).keeps_items(old(self)),
    {
        let ghost before = self.state();
        root.mark_visited(&mut self.heap);
        proof {
            if before.heap.live(root.ptr) {
                lemma_replaced(before, self.state(), root.ptr);
                assert forall|q: usize| #[trigger] self.model().held(q) == before.heap.held(q) by {
                    lemma_internal_with(before.heap, root.ptr, self.model().obj(root.ptr), q);
                }
            }
        }
    }

    /// Clears the flags of the object, unless it was freed.
    pub fn clear_visited(&mut self, root: &WeakRoot)
        requires
            old(self).wf(),
            old(self).model().has(root.ptr),
        ensures
            final(self).wf(),
            old(self).idle() ==> final(self).idle(),
            final(self).state() == (if old(self).model().live(root.ptr) {
                old(self).state().reflagged(root.ptr, 0)
            } else {
                old(self).state()
            }),
            forall|q: usize| #[trigger] final(self).model().held(q) == old(self).model().held(q),
            final(self).keeps_items(old(self)),
    {
        let ghost before = self.state();
        root.clear_visited(&mut self.heap);
        proof {
            if before.heap.live(root.ptr) {
                lemma_replaced(before, self.state(), root.ptr);
                assert forall|q: usize| #[trigger] self.model().held(q) == before.heap.held(q) by {
                    lemma_internal_with(before.heap, root.ptr, self.model().obj(root.ptr), q);
                }
            }
        }
    }

    /// Hands the first message on its way to the collector, if there is one: a
    /// deferred object goes on the defer list, a reclaimed one comes off it,
    /// and a yuga is a collection.
    pub fn receive(&mut self) -> (r: Option<Soul>)
        requires
            old(self).wf(),
            old(self).state().queue.len() > 0 ==> old(self).state().ready(),
        ensures
            final(self).wf(),
            old(self).idle() ==> final(self).idle(),
            old(self).state().queue.len() == 0 ==> r is None && final(self).state() == old(self).state(),
            old(self).state().queue.len() > 0 ==> r == Some(old(self).state().queue[0]) && final(self).state()
                == old(self).state().receive(),
            final(self).loses_items(old(self)),
    {
        let ghost before = self.state();
        let r = self.sender.recv();
        proof {
            if before.queue.len() > 0 {
                lemma_receive_wf(before);
            }
        }
        match r {
            Some(Soul::Died(weak)) => {
                self.collector.defer(weak.ptr);
                assert(self.state().deferred =~= before.receive().deferred);
            },
            Some(Soul::Reclaimed(p)) => {
                self.collector.reclaim(p);
                assert(self.state().deferred =~= before.receive().deferred);
            },
            Some(Soul::Yuga) => {
                collect(&mut self.heap, &mut self.sender, &mut self.collector);
            },
            None => {},
        }
        r
    }

    /// Hands all messages on their way to the collector, first to last.
    pub fn process(&mut self)
        requires
            old(self).wf(),
            old(self).state().all_ready(),
        ensures
            final(self).wf(),
            old(self).idle() ==> final(self).idle(),
            final(self).state() == old(self).state().process(),
            final(self).loses_items(old(self)),
    {
        let ghost end = self.state().process();
        let ghost before = *self;
        while self.pending() > 0
            invariant
                self.wf(),
                before.idle() ==> self.idle(),
                self.state().all_ready(),
                self.state().process() == end,
                self.loses_items(&before),
                self.model().objs.len() == before.model().objs.len(),
            decreases self.state().queue.len(),
        {
            let ghost here = *self;
            proof {
                lemma_receive_wf(self.state());
            }
            self.receive();
            assert forall|p: usize| #[trigger] self.model().has(p) implies self.item(p) is None || self.item(p)
                == before.item(p) by {
                assert(here.model().has(p));
            }
        }
    }

    /// Asks the collector for a collection.
    pub fn request(&mut self)
        requires
            old(self).wf(),
        ensures
            final(self).wf(),
            old(self).idle() ==> final(self).idle(),
            final(self).state() == old(self).state().requested(),
            final(self).keeps_items(old(self)),
    {
        let ghost before = self.state();
        self.sender.send(Soul::Yuga);
        assert forall|i: int| 0 <= i < self.state().queue.len() implies self.model().knows(
            #[trigger] self.state().queue[i],
        ) by {
            if i < before.queue.len() {
                assert(before.heap.knows(before.queue[i]));
            }
        }
        assert forall|q: usize| #[trigger] self.state().deferred.contains(q) implies self.model().has(q) by {
            assert(before.deferred.contains(q));
        }
    }

    /// Asks for a collection if `go` is true.
    pub fn maybe_request(&mut self, go: bool)
        requires
            old(self).wf(),
        ensures
            final(self).wf(),
            old(self).idle() ==> final(self).idle(),
            final(self).state() == (if go { old(self).state().requested() } else { old(self).state() }),
            final(self).keeps_items(old(self)),
    {
        if go {
            self.request();
        }
    }
}

/// What mutators leave to chance.
impl Collector {
    /// Triggers a collection or does not, at random, and waits for nothing. Gives
    /// back the coin that decided: a collection was asked for exactly if it came
    /// up, whatever is in the heap.
    pub fn maybe_yuga<T: Trace>(rt: &mut Runtime<T>) -> (coin: Coin)
        requires
            old(rt).wf(),
        ensures
            final(rt).wf(),
            old(rt).idle() ==> final(rt).idle(),
            final(rt).state() == old(rt).state().tossed(coin.up()),
            final(rt).keeps_items(old(rt)),
    {
        let coin = Coin::toss();
        rt.maybe_request(coin.is_up());
        coin
    }
}

/// Another object at one address keeps a state well-formed if the handles that
/// it holds are there to hold.
proof fn lemma_replaced(s: State, n: State, p: usize)
    requires
        s.wf(),
        s.heap.has(p),
        n.deferred == s.deferred,
        n.queue == s.queue,
        n.heap == s.heap.with(p, n.heap.obj(p)),
        n.heap.obj(p).bits <= ALL_BITS,
        n.heap.obj(p).strong == 0 || n.heap.obj(p).locked ==> n.heap.obj(p).item is None,
        forall|q: usize| #[trigger] s.heap.held(q) + occurrences(s.heap.edges(p), q) + (if q == p {
            n.heap.obj(p).strong - s.heap.obj(p).strong
        } else {
            0
        }) >= occurrences(n.heap.obj(p).edges(), q),
    ensures
        n.wf(),
        s.heap.clean() && n.heap.obj(p).bits == 0 ==> n.heap.clean(),
{
    assert forall|q: usize| #[trigger] n.heap.held(q) >= 0 by {
        lemma_internal_with(s.heap, p, n.heap.obj(p), q);
        assert(s.heap.held(q) + occurrences(s.heap.edges(p), q) >= 0);
    }
    assert forall|q: usize| #[trigger] n.heap.has(q) implies n.heap.obj(q).bits <= ALL_BITS && (s.heap.clean()
        && n.heap.obj(p).bits == 0 ==> n.heap.obj(q).bits == 0) && (n.heap.obj(q).strong == 0 || n.heap.obj(q).locked
        ==> n.heap.obj(q).item is None) by {
        assert(s.heap.has(q));
    }
    assert forall|q: usize| #[trigger] n.deferred.contains(q) implies n.heap.has(q) by {
        assert(s.deferred.contains(q));
    }
    assert forall|i: int| 0 <= i < n.queue.len() implies n.heap.knows(#[trigger] n.queue[i]) by {
        assert(s.heap.knows(s.queue[i]));
    }
}

} // verus!
