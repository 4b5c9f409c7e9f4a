//! Handles to objects.

use crate::collector::{lemma_id_left, lemma_nodes, Collector, LocalSender};
use crate::flags::{dirtied, GcFlags, ALL_BITS, VISITED_BIT};
use crate::graph::{lemma_occurrences_push, occurrences};
use crate::heap::{live_count, Heap};
use crate::model::{lemma_drop_among_others, lemma_emptied, Obj, State};
use crate::release::{items_kept, push_reversed, release_all};
use crate::runtime::{owns, Runtime};
use crate::trace::{Handles, Trace};
use core::marker::PhantomData;
use vstd::prelude::*;

verus! {

/// Handles are told apart by their addresses alone.
pub proof fn lemma_same_handle<T>(a: Gc<T>, b: Gc<T>)
    ensures
        a.ptr() == b.ptr() ==> a == b,
{
}

/// A handle that keeps an object alive.
#[derive(Debug)]
pub struct Gc<T> {
    ptr: usize,
    marker: PhantomData<T>,
}

impl<T> Gc<T> {
    /// The address of the object.
    pub closed spec fn ptr(&self) -> usize {
        self.ptr
    }

    /// The address of the object.
    pub fn as_ptr(&self) -> (r: usize)
        ensures
            r == self.ptr(),
    {
        self.ptr
    }
}

/// An object as the collector works on it.
pub trait GcObject<T: Trace> {
    /// The object as the model has it.
    spec fn object(&self) -> Obj;

    /// The contents.
    spec fn item(&self) -> Option<T>;

    /// The object is counted among the live ones.
    spec fn counted(&self) -> bool;

    /// Traces the contents, and tells whether there were any to read. Contents
    /// that a mutator works on are not read. A reader borrows the whole runtime,
    /// so that the collector has to itself what no mutator works on, also where
    /// handles could be moved through a shared reference.
    fn read_and_trace(&self, root: &WeakRoot, c: &mut Collector, heap: &Heap<T>) -> (r: bool)
        requires
            !self.object().locked && self.object().item is Some ==> old(c)@.ready(
                root.ptr,
                self.object().edges(),
                heap.model(),
            ),
        ensures
            r == (!self.object().locked && self.object().item is Some),
            final(c)@ == (if r { old(c)@.add_edges(root.ptr, self.object().edges()) } else { old(c)@ }),
    ;

    /// The flags; none if an undefined bit is set.
    fn flags(&self) -> (r: Option<GcFlags>)
        ensures
            r is Some <==> self.object().bits <= ALL_BITS,
            r matches Some(f) ==> f@ == self.object().bits,
    ;

    /// The collector visits the object.
    fn mark_visited(&mut self)
        ensures
            final(self).object() == (Obj { bits: VISITED_BIT, ..old(self).object() }),
            final(self).item() == old(self).item(),
            final(self).counted() == old(self).counted(),
    ;

    /// The collector is done with the object.
    fn clear_visited(&mut self)
        ensures
            final(self).object() == (Obj { bits: 0, ..old(self).object() }),
            final(self).item() == old(self).item(),
            final(self).counted() == old(self).counted(),
    ;

    /// Takes the contents out for good.
    fn invalidate(&mut self) -> (r: Option<T>)
        requires
            !old(self).object().locked,
        ensures
            r == old(self).item(),
            final(self).item() is None,
            final(self).object() == (Obj { item: None, ..old(self).object() }),
            final(self).counted() == old(self).counted(),
    ;
}

/// A reference to an object that does not keep it alive: its address. One that a
/// mutator keeps is counted from [`WeakRoot::keep`] to [`WeakRoot::forget`].
#[derive(Clone, Copy, Debug, PartialEq, Eq, Structural)]
pub struct WeakRoot {
    pub ptr: usize,
}

impl WeakRoot {
    /// The address of the object.
    pub fn as_ptr(&self) -> (r: usize)
        ensures
            r == self.ptr,
    {
        self.ptr
    }

    /// One more weak reference to the object, for a mutator to keep. While it is
    /// kept, the collector is told when the object goes.
    pub fn keep<T: Handles>(&self, rt: &mut Runtime<T>) -> (r: WeakRoot)
        requires
            old(rt).wf(),
            old(rt).model().has(self.ptr),
            old(rt).model().obj(self.ptr).kept < usize::MAX,
        ensures
            r == *self,
            final(rt).wf(),
            old(rt).idle() ==> final(rt).idle(),
            final(rt).state() == old(rt).state().kept(self.ptr),
            forall|q: usize| #[trigger] final(rt).model().held(q) == old(rt).model().held(q),
            final(rt).keeps_items(old(rt)),
    {
        rt.keep(self.ptr);
        WeakRoot { ptr: self.ptr }
    }

    /// A weak reference that was kept is let go of.
    pub fn forget<T: Handles>(self, rt: &mut Runtime<T>)
        requires
            old(rt).wf(),
            old(rt).model().has(self.ptr),
            old(rt).model().obj(self.ptr).kept > 0,
        ensures
            final(rt).wf(),
            old(rt).idle() ==> final(rt).idle(),
            final(rt).state() == old(rt).state().forgotten(self.ptr),
            forall|q: usize| #[trigger] final(rt).model().held(q) == old(rt).model().held(q),
            final(rt).keeps_items(old(rt)),
    {
        rt.forget(self.ptr);
    }

    /// Traces the contents of the object, and tells whether there were any to
    /// read: a freed object has none, and contents that a mutator works on are
    /// not read.
    pub fn visit<T: Trace>(&self, c: &mut Collector, heap: &Heap<T>) -> (r: bool)
        requires
            heap.model().wf(),
            heap.model().has(self.ptr),
            heap.model().filled(self.ptr) ==> old(c)@.ready(
                self.ptr,
                heap.model().edges(self.ptr),
                heap.model(),
            ),
        ensures
            r == heap.model().filled(self.ptr),
            final(c)@ == (if r { old(c)@.add_edges(self.ptr, heap.model().edges(self.ptr)) } else { old(c)@ }),
    {
        if heap.strong_count(self.ptr) == 0 {
            return false;
        }
        heap.object(self.ptr).read_and_trace(self, c, heap)
    }

    /// The flags of the object; none if it was freed.
    pub fn flags<T: Trace>(&self, heap: &Heap<T>) -> (r: Option<GcFlags>)
        requires
            heap.model().has(self.ptr),
        ensures
            r is Some <==> heap.model().live(self.ptr) && heap.model().obj(self.ptr).bits <= ALL_BITS,
            r matches Some(f) ==> f@ == heap.model().obj(self.ptr).bits,
    {
        if heap.strong_count(self.ptr) == 0 {
            return None;
        }
        heap.object(self.ptr).flags()
    }

    /// The collector visits the object, unless it was freed.
    pub fn mark_visited<T: Trace>(&self, heap: &mut Heap<T>)
        requires
            old(heap).count_ok(),
            old(heap).model().has(self.ptr),
        ensures
            final(heap).count_ok(),
            final(heap).model() == (if old(heap).model().live(self.ptr) {
                old(heap).model().with(self.ptr, (Obj { bits: VISITED_BIT, ..old(heap).model().obj(self.ptr) }))
            } else {
                old(heap).model()
            }),
            final(heap).same_items(old(heap)),
    {
        if heap.strong_count(self.ptr) > 0 {
            heap.mark_visited(self.ptr);
        }
    }

    /// The collector is done with the object, unless it was freed.
    pub fn clear_visited<T: Trace>(&self, heap: &mut Heap<T>)
        requires
            old(heap).count_ok(),
            old(heap).model().has(self.ptr),
        ensures
            final(heap).count_ok(),
            final(heap).model() == (if old(heap).model().live(self.ptr) {
                old(heap).model().with(self.ptr, (Obj { bits: 0, ..old(heap).model().obj(self.ptr) }))
            } else {
                old(heap).model()
            }),
            final(heap).same_items(old(heap)),
    {
        if heap.strong_count(self.ptr) > 0 {
            heap.clear_visited(self.ptr);
        }
    }

    /// Takes the contents out of the object for good, and drops the handles
    /// that were inside as the collector does: nothing is deferred.
    pub fn invalidate<T: Trace>(&self, heap: &mut Heap<T>, sender: &mut LocalSender, c: &Collector)
        requires
            old(heap).count_ok(),
            old(heap).model().wf(),
            old(heap).model().defined(),
            old(heap).model().has(self.ptr),
            old(heap).model().live(self.ptr) ==> !old(heap).model().obj(self.ptr).locked,
        ensures
            final(heap).count_ok(),
            final(heap).model().wf(),
            final(heap).model().defined(),
            ({
                let before = State {
                    heap: old(heap).model(),
                    deferred: c@.deferred.dom(),
                    queue: old(sender).chan@,
                };
                (State { heap: final(heap).model(), deferred: c@.deferred.dom(), queue: final(sender).chan@ })
                    == before.invalidated(self.ptr)
            }),
            items_kept(old(heap), final(heap)),
    {
        let p = self.ptr;
        if heap.strong_count(p) == 0 {
            return;
        }
        let ghost before = *heap;
        proof {
            lemma_emptied(heap.model(), p);
            heap.lemma_items();
        }
        let contents = heap.invalidate(p);
        let mut work: Vec<usize> = Vec::new();
        match contents {
            Some(t) => {
                let handles = t.handles();
                push_reversed(&mut work, &handles);
            },
            None => {},
        }
        let ghost between = *heap;
        proof {
            assert(before.model().has(p) && before.item_agrees(p));
            assert(work@ =~= before.model().edges(p).reverse());
            assert forall|q: usize| #[trigger] heap.model().has(q) implies heap.model().obj(q).bits <= ALL_BITS by {
                assert(before.model().has(q));
            }
        }
        release_all(heap, sender, c, work, true);
        proof {
            assert forall|q: usize| #[trigger] heap.model().has(q) implies heap.item(q) is None || heap.item(q)
                == before.item(q) by {
                assert(between.model().has(q));
            }
        }
    }
}

impl<T: Handles> Gc<T> {
    /// Tells the collector of this handle, found inside the object `root`. An
    /// object that was visited is a node of the collector's graph already.
    pub fn trace(&self, root: &WeakRoot, c: &mut Collector, heap: &Heap<T>)
        requires
            old(c)@.ready(root.ptr, seq![self.ptr()], heap.model()),
        ensures
            final(c)@ == old(c)@.add_node(self.ptr()).add_edge(root.ptr, self.ptr()),
    {
        let ghost g = c@;
        proof {
            assert(seq![self.ptr()][0] == self.ptr());
            let all = g.visited.dom().union(seq![self.ptr()].to_set());
            lemma_nodes(g);
            vstd::seq_lib::seq_to_set_is_finite(seq![self.ptr()]);
            assert(seq![self.ptr()].contains(self.ptr()));
            if !g.knows(self.ptr()) {
                lemma_id_left(g, all, self.ptr());
            }
            lemma_occurrences_push(Seq::empty(), self.ptr(), self.ptr());
            assert(Seq::<usize>::empty().push(self.ptr()) =~= seq![self.ptr()]);
            assert(g.count(self.ptr()) + occurrences(seq![self.ptr()], self.ptr()) <= usize::MAX);
        }
        let bits = heap.bits(self.ptr);
        c.trace_handle(root, WeakRoot { ptr: self.ptr }, bits);
    }
}

/// The number of objects that are alive.
pub fn number_of_live_objects<T: Handles>(rt: &Runtime<T>) -> (r: usize)
    requires
        rt.wf(),
    ensures
        r == live_count(rt.model()),
{
    rt.live_objects()
}

/// `now` is `before` with the contents of the object at `p` taken out for a
/// mutator to work on. The object is marked dirty if a running collection has
/// visited it.
pub open spec fn lent<T: Handles>(before: Runtime<T>, now: Runtime<T>, p: usize) -> bool {
    &&& now.wf()
    &&& before.idle() ==> now.idle()
    &&& now.state() == before.state().lent(p)
    &&& now.model().obj(p).bits == dirtied(before.model().obj(p).bits)
    &&& now.item(p) is None
    &&& now.keeps_items_but(&before, p)
}

/// The contents `t` can be put back into the object at `p`.
pub open spec fn returnable<T: Handles>(now: Runtime<T>, t: T, p: usize) -> bool {
    &&& now.wf()
    &&& now.model().live(p)
    &&& now.model().obj(p).item is None
    &&& owns(now.model(), t)
}

/// `after` is `now` with the contents `t` put back into the object at `p`.
pub open spec fn returned<T: Handles>(now: Runtime<T>, after: Runtime<T>, t: T, p: usize) -> bool {
    &&& now.idle() ==> after.idle()
    &&& after.state() == now.state().returned(p, t.edges())
    &&& after.model().obj(p).bits == now.model().obj(p).bits
    &&& after.item(p) == Some(t)
    &&& after.keeps_items_but(&now, p)
}

impl<T: Handles> Gc<T> {
    /// A new object, and the first handle to it. The handles inside its
    /// contents are the mutator's before and the object's after.
    pub fn new(rt: &mut Runtime<T>, t: T) -> (r: Self)
        requires
            old(rt).wf(),
            old(rt).model().objs.len() < usize::MAX - 1,
            owns(old(rt).model(), t),
        ensures
            final(rt).wf(),
            old(rt).idle() ==> final(rt).idle(),
            r.ptr() == old(rt).model().objs.len() + 1,
            final(rt).state() == old(rt).state().allocated(Some(t.edges())),
            final(rt).item(r.ptr()) == Some(t),
            final(rt).keeps_items_but(old(rt), r.ptr()),
    {
        let ptr = rt.allocate(Some(t));
        Gc { ptr, marker: PhantomData }
    }

    /// A new object without contents, and the first handle to it.
    pub fn empty(rt: &mut Runtime<T>) -> (r: Self)
        requires
            old(rt).wf(),
            old(rt).model().objs.len() < usize::MAX - 1,
        ensures
            final(rt).wf(),
            old(rt).idle() ==> final(rt).idle(),
            r.ptr() == old(rt).model().objs.len() + 1,
            final(rt).state() == old(rt).state().allocated(None),
            final(rt).item(r.ptr()) is None,
            final(rt).keeps_items_but(old(rt), r.ptr()),
    {
        let ptr = rt.allocate(None);
        Gc { ptr, marker: PhantomData }
    }

    /// One more handle to the object.
    pub fn clone(&self, rt: &mut Runtime<T>) -> (r: Self)
        requires
            old(rt).wf(),
            old(rt).model().live(self.ptr()),
            old(rt).model().strong(self.ptr()) < usize::MAX,
        ensures
            final(rt).wf(),
            old(rt).idle() ==> final(rt).idle(),
            r.ptr() == self.ptr(),
            final(rt).state() == old(rt).state().cloned(self.ptr()),
            final(rt).keeps_items(old(rt)),
    {
        rt.retain(self.ptr);
        Gc { ptr: self.ptr, marker: PhantomData }
    }

    /// One more handle to the object at `p`, to which there is one.
    pub(crate) fn another(rt: &mut Runtime<T>, p: usize) -> (r: Self)
        requires
            old(rt).wf(),
            old(rt).model().live(p),
            old(rt).model().strong(p) < usize::MAX,
        ensures
            final(rt).wf(),
            old(rt).idle() ==> final(rt).idle(),
            r.ptr() == p,
            final(rt).state() == old(rt).state().cloned(p),
            final(rt).keeps_items(old(rt)),
    {
        rt.retain(p);
        Gc { ptr: p, marker: PhantomData }
    }

    /// One handle less to the object. An object that lives on may be part of a
    /// cycle and is deferred, and it is marked dirty if a running collection has
    /// visited it; one that goes takes its contents with it, and the handles
    /// inside are dropped in turn.
    pub fn drop(self, rt: &mut Runtime<T>)
        requires
            old(rt).wf(),
            old(rt).model().held(self.ptr()) > 0,
        ensures
            final(rt).wf(),
            old(rt).idle() ==> final(rt).idle(),
            final(rt).state() == old(rt).state().drop_all(seq![self.ptr()], false),
            old(rt).model().strong(self.ptr()) > 1 ==> final(rt).model().obj(self.ptr()).bits == dirtied(
                old(rt).model().obj(self.ptr()).bits,
            ),
            final(rt).loses_items(old(rt)),
    {
        proof {
            if rt.model().strong(self.ptr()) > 1 {
                lemma_drop_among_others(rt.state(), self.ptr(), false);
            }
        }
        rt.release(self.ptr);
    }

    /// Works on the contents of the object, which must be there. `f` may use
    /// the rest of the heap meanwhile, and leaves handles that it owns. An
    /// object that a running collection has visited is marked dirty before `f`
    /// begins, so that the collection spares it.
    pub fn set<F, O>(&self, rt: &mut Runtime<T>, f: F) -> (o: O)
        where F: FnOnce(&mut T, &mut Runtime<T>) -> O
        requires
            old(rt).wf(),
            old(rt).model().filled(self.ptr()),
            forall|a: &mut T, b: &mut Runtime<T>|
                old(rt).item(self.ptr()) == Some(*a) && lent(*old(rt), *b, self.ptr()) ==> #[trigger] f.requires(
                    (a, b),
                ),
            forall|a: &mut T, b: &mut Runtime<T>, o: O|
                old(rt).item(self.ptr()) == Some(*a) && lent(*old(rt), *b, self.ptr()) && #[trigger] f.ensures(
                    (a, b),
                    o,
                ) ==> returnable(*final(b), *final(a), self.ptr()),
        ensures
            final(rt).wf(),
            exists|a: &mut T, b: &mut Runtime<T>|
                old(rt).item(self.ptr()) == Some(*a) && lent(*old(rt), *b, self.ptr()) && #[trigger] f.ensures(
                    (a, b),
                    o,
                ) && returned(*final(b), *final(rt), *final(a), self.ptr()),
    {
        let mut t = rt.take(self.ptr);
        let o = f(&mut t, rt);
        rt.put(self.ptr, t);
        o
    }
}

impl<T: Trace> Gc<T> {
    /// Reads the contents of the object. They must be there: they are absent in
    /// an empty object, in one whose cycle was broken, and while a mutator
    /// works on them. Contents that handles could be moved out of through a
    /// shared reference are marked before they are read: see
    /// [`Gc::get_marked`].
    pub fn get<F, O>(&self, rt: &Runtime<T>, f: F) -> (o: O)
        where F: Fn(&T) -> O
        requires
            rt.wf(),
            rt.model().filled(self.ptr()),
            T::MUT ==> rt.model().obj(self.ptr()).bits != VISITED_BIT,
            forall|t: T| rt.item(self.ptr()) == Some(t) ==> #[trigger] f.requires((&t,)),
        ensures
            exists|t: T| rt.item(self.ptr()) == Some(t) && #[trigger] f.ensures((&t,), o),
    {
        proof {
            rt.lemma_items();
            assert(rt.model().has(self.ptr()));
        }
        match rt.contents(self.ptr) {
            Some(t) => {
                assert(rt.item(self.ptr()) == Some(*t));
                f(t)
            },
            None => vstd::pervasive::unreached(),
        }
    }

    /// Reads the contents of the object, which must be there. If handles could
    /// be moved out of them through a shared reference, then an object that a
    /// running collection has visited is marked dirty first.
    pub fn get_marked<F, O>(&self, rt: &mut Runtime<T>, f: F) -> (o: O)
        where F: Fn(&T) -> O
        requires
            old(rt).wf(),
            old(rt).model().filled(self.ptr()),
            forall|t: T| old(rt).item(self.ptr()) == Some(t) ==> #[trigger] f.requires((&t,)),
        ensures
            final(rt).wf(),
            old(rt).idle() ==> final(rt).idle(),
            final(rt).state() == (if T::MUT { old(rt).state().touched(self.ptr()) } else { old(rt).state() }),
            forall|q: usize| #[trigger] final(rt).model().held(q) == old(rt).model().held(q),
            final(rt).keeps_items(old(rt)),
            exists|t: T| old(rt).item(self.ptr()) == Some(t) && #[trigger] f.ensures((&t,), o),
    {
        proof {
            assert(rt.model().has(self.ptr()));
        }
        if T::MUT {
            rt.visited_to_dirty(self.ptr);
        }
        assert(rt.item(self.ptr()) == old(rt).item(self.ptr()));
        self.get(rt, f)
    }
}

/// What is owed to the collector when a handle is dropped.
#[derive(Clone, Copy, Debug, PartialEq, Eq, Structural)]
pub enum DropAction {
    /// The collector's own handles are never deferred.
    Release,
    /// The object goes, and the defer list may hold it: tell the collector.
    Reclaim,
    /// The object goes, and no one else knows of it.
    Free,
    /// The object stays and may be part of a cycle: defer it.
    Defer,
}

/// What is owed to the collector when one of `strong` handles is dropped.
pub open spec fn drop_choice(on_collector: bool, strong: nat, weak: bool) -> DropAction {
    if on_collector {
        DropAction::Release
    } else if strong > 1 {
        DropAction::Defer
    } else if weak {
        DropAction::Reclaim
    } else {
        DropAction::Free
    }
}

/// What is owed to the collector when one of `strong` handles is dropped: on
/// the collector's own thread or on another, with a weak reference outstanding
/// or without one.
pub fn drop_action(on_collector: bool, strong: usize, weak: bool) -> (r: DropAction)
    requires
        strong >= 1,
    ensures
        r == drop_choice(on_collector, strong as nat, weak),
{
    if on_collector {
        return DropAction::Release;
    }
    if strong <= 1 {
        if weak {
            DropAction::Reclaim
        } else {
            DropAction::Free
        }
    } else {
        DropAction::Defer
    }
}

/// A drop owes the collector what it can not find out by itself: that an object
/// lives on which someone let go of, and that one is gone which it may be told of
/// by a weak reference. It is owed nothing by itself.
pub proof fn law_drop_owes_what_is_not_known(on_collector: bool, strong: nat, weak: bool)
    requires
        strong >= 1,
    ensures
        drop_choice(on_collector, strong, weak) is Release <==> on_collector,
        drop_choice(on_collector, strong, weak) is Defer <==> !on_collector && strong - 1 > 0,
        drop_choice(on_collector, strong, weak) is Reclaim <==> !on_collector && strong - 1 == 0 && weak,
        drop_choice(on_collector, strong, weak) is Free <==> !on_collector && strong - 1 == 0 && !weak,
{
}

} // verus!
