//! The objects.

use crate::collector::Collector;
use crate::flags::{dirtied, visited_to_dirty, GcFlags, ALL_BITS, VISITED_BIT};
use crate::gc::{GcObject, WeakRoot};
use crate::graph::{lemma_sum_at, lemma_sum_same, sum};
use crate::model::{Model, Obj};
use crate::trace::{Handles, Trace};
use crate::tracker::{Tracker, TrackerLocation};
use vstd::prelude::*;

verus! {

/// An object: its contents, which are absent in an empty object, in one whose
/// cycle was broken, and while a mutator works on them; its flag word; whether
/// a mutator works on the contents; the number of handles to it; and the number
/// of weak references to it that mutators keep.
pub struct GcBox<T> {
    item: Option<T>,
    bits: usize,
    locked: bool,
    strong: usize,
    kept: usize,
    tracker: Option<Tracker>,
}

impl<T: Handles> GcBox<T> {
    /// The object as the model has it.
    pub closed spec fn obj(self) -> Obj {
        Obj {
            strong: self.strong as nat,
            kept: self.kept as nat,
            bits: self.bits,
            locked: self.locked,
            item: match self.item {
                Some(t) => Some(t.edges()),
                None => None,
            },
        }
    }
}

impl<T: Trace> GcObject<T> for GcBox<T> {
    closed spec fn object(&self) -> Obj {
        self.obj()
    }

    closed spec fn item(&self) -> Option<T> {
        self.item
    }

    closed spec fn counted(&self) -> bool {
        self.tracker is Some
    }

    fn read_and_trace(&self, root: &WeakRoot, c: &mut Collector, heap: &Heap<T>) -> (r: bool) {
        if self.locked {
            return false;
        }
        match &self.item {
            Some(t) => {
                t.trace(root, c, heap);
                true
            },
            None => false,
        }
    }

    fn flags(&self) -> (r: Option<GcFlags>) {
        GcFlags::from_bits(self.bits)
    }

    fn mark_visited(&mut self) {
        self.bits = GcFlags::visited().bits();
    }

    fn clear_visited(&mut self) {
        self.bits = GcFlags::none().bits();
    }

    fn invalidate(&mut self) -> (r: Option<T>) {
        self.item.take()
    }
}

/// All objects, by address, and their count.
pub struct Heap<T> {
    objects: Vec<GcBox<T>>,
    live: TrackerLocation,
}

/// The number of live objects of a heap.
pub open spec fn live_count(m: Model) -> nat {
    sum(m.objs.len(), |i: int| if m.objs[i].strong > 0 { 1nat } else { 0nat })
}

/// A new object: one handle, no weak reference, no flags, not locked.
pub open spec fn new_obj(item: Option<Seq<usize>>) -> Obj {
    Obj { strong: 1, kept: 0, bits: 0, locked: false, item }
}

/// What one handle less leaves of an object.
pub open spec fn shed(o: Obj) -> Obj {
    if o.strong == 1 {
        Obj { strong: 0, kept: o.kept, bits: 0, locked: o.locked, item: None }
    } else {
        Obj { strong: (o.strong - 1) as nat, ..o }
    }
}

/// There are no more live objects than addresses.
pub proof fn lemma_live_count_le(m: Model)
    ensures
        live_count(m) <= m.objs.len(),
{
    lemma_ones_le(m.objs.len(), |i: int| if m.objs[i].strong > 0 { 1nat } else { 0nat });
}

proof fn lemma_ones_le(n: nat, f: spec_fn(int) -> nat)
    requires
        forall|i: int| #[trigger] f(i) <= 1,
    ensures
        sum(n, f) <= n,
    decreases n,
{
    if n > 0 {
        lemma_ones_le((n - 1) as nat, f);
        assert(f(n - 1) <= 1);
    }
}

/// Another object at one address changes the number of live objects only if it
/// is freed, or if it was.
pub proof fn lemma_live_count_with(m: Model, p: usize, o: Obj)
    requires
        m.has(p),
    ensures
        live_count(m.with(p, o)) + (if m.live(p) { 1nat } else { 0nat })
            == live_count(m) + (if o.strong > 0 { 1nat } else { 0nat }),
{
    let n = m.with(p, o);
    lemma_sum_at(
        m.objs.len(),
        |i: int| if m.objs[i].strong > 0 { 1nat } else { 0nat },
        |i: int| if n.objs[i].strong > 0 { 1nat } else { 0nat },
        p - 1,
    );
}

impl<T: Handles> Heap<T> {
    /// The heap as a graph.
    pub closed spec fn model(&self) -> Model {
        Model { objs: Seq::new(self.objects@.len(), |i: int| self.objects@[i].obj()) }
    }

    /// The contents of the object at `p`.
    pub closed spec fn item(&self, p: usize) -> Option<T> {
        self.objects@[p - 1].item
    }

    /// The contents agree with the model's account of them.
    pub open spec fn item_agrees(&self, p: usize) -> bool {
        self.model().obj(p).item == (match self.item(p) {
            Some(t) => Some(t.edges()),
            None => None,
        })
    }

    /// The count is that of the live objects.
    pub closed spec fn count_ok(&self) -> bool {
        &&& self.live@ == live_count(self.model())
        &&& forall|i: int| 0 <= i < self.objects@.len() ==> (#[trigger] self.objects@[i]).strong > 0
            ==> self.objects@[i].tracker is Some
    }

    /// The contents of all objects are those of `other`.
    pub open spec fn same_items(&self, other: &Self) -> bool {
        forall|p: usize| #[trigger] self.model().has(p) ==> self.item(p) == other.item(p)
    }

    /// The contents of all objects but the one at `q` are those of `other`.
    pub open spec fn same_items_but(&self, other: &Self, q: usize) -> bool {
        forall|p: usize| #[trigger] self.model().has(p) && p != q ==> self.item(p) == other.item(p)
    }

    /// The model tells truly of the contents.
    pub proof fn lemma_items(&self)
        ensures
            forall|p: usize| #[trigger] self.model().has(p) ==> self.item_agrees(p),
    {
    }

    /// Handles are counted in machine words.
    pub proof fn lemma_counts_fit(&self)
        ensures
            forall|p: usize| #[trigger] self.model().has(p) ==> self.model().obj(p).strong <= usize::MAX,
    {
    }

    /// A heap without objects.
    pub fn new() -> (r: Self)
        ensures
            r.count_ok(),
            r.model().objs.len() == 0,
    {
        Heap { objects: Vec::new(), live: TrackerLocation::new(0) }
    }

    /// The number of addresses in use.
    pub fn len(&self) -> (r: usize)
        ensures
            r == self.model().objs.len(),
    {
        self.objects.len()
    }

    /// The number of objects that are alive.
    pub fn number_of_live_objects(&self) -> (r: usize)
        requires
            self.count_ok(),
        ensures
            r == live_count(self.model()),
    {
        self.live.get()
    }

    /// The number of handles to the object at `p`.
    pub fn strong_count(&self, p: usize) -> (r: usize)
        requires
            self.model().has(p),
        ensures
            r == self.model().strong(p),
    {
        self.objects[p - 1].strong
    }

    /// The number of weak references to the object at `p` that mutators keep.
    pub fn kept_count(&self, p: usize) -> (r: usize)
        requires
            self.model().has(p),
        ensures
            r == self.model().obj(p).kept,
    {
        self.objects[p - 1].kept
    }

    /// The flag word of the object at `p`.
    pub fn bits(&self, p: usize) -> (r: usize)
        requires
            self.model().has(p),
        ensures
            r == self.model().obj(p).bits,
    {
        self.objects[p - 1].bits
    }

    /// The contents of the object at `p`.
    pub fn contents(&self, p: usize) -> (r: Option<&T>)
        requires
            self.model().has(p),
        ensures
            r == (match self.item(p) {
                Some(t) => Some(&t),
                None => None,
            }),
    {
        self.objects[p - 1].item.as_ref()
    }

    /// A new object with one handle to it.
    pub(crate) fn allocate(&mut self, item: Option<T>) -> (p: usize)
        requires
            old(self).count_ok(),
            old(self).model().objs.len() < usize::MAX - 1,
        ensures
            final(self).count_ok(),
            p == old(self).model().objs.len() + 1,
            final(self).model().objs == old(self).model().objs.push(new_obj(match item {
                Some(t) => Some(t.edges()),
                None => None,
            })),
            final(self).item(p) == item,
            final(self).same_items_but(old(self), p),
    {
        let ghost before = self.model();
        proof {
            lemma_live_count_le(before);
        }
        let tracker = Tracker::of(&mut self.live);
        let boxed = GcBox { item, bits: 0, locked: false, strong: 1, kept: 0, tracker: Some(tracker) };
        self.objects.push(boxed);
        proof {
            assert(self.model().objs =~= before.objs.push(boxed.obj()));
            lemma_sum_same(
                before.objs.len(),
                |i: int| if before.objs[i].strong > 0 { 1nat } else { 0nat },
                |i: int| if self.model().objs[i].strong > 0 { 1nat } else { 0nat },
            );
        }
        self.objects.len()
    }

    /// One more handle to the object at `p`.
    pub(crate) fn retain(&mut self, p: usize)
        requires
            old(self).count_ok(),
            old(self).model().live(p),
            old(self).model().strong(p) < usize::MAX,
        ensures
            final(self).count_ok(),
            final(self).model() == old(self).model().with(
                p,
                (Obj { strong: old(self).model().obj(p).strong + 1, ..old(self).model().obj(p) }),
            ),
            final(self).same_items(old(self)),
    {
        let ghost before = self.model();
        let n = self.objects[p - 1].strong;
        self.objects[p - 1].strong = n + 1;
        proof {
            let o = Obj { strong: before.obj(p).strong + 1, ..before.obj(p) };
            assert(self.model().objs =~= before.with(p, o).objs);
            lemma_live_count_with(before, p, o);
        }
    }

    /// One handle less to the object at `p`. With the last one the object is
    /// freed, and its contents are handed out.
    pub(crate) fn let_go(&mut self, p: usize) -> (r: Option<T>)
        requires
            old(self).count_ok(),
            old(self).model().live(p),
        ensures
            final(self).count_ok(),
            final(self).model() == old(self).model().with(p, shed(old(self).model().obj(p))),
            old(self).model().strong(p) > 1 ==> r is None && final(self).same_items(old(self)),
            old(self).model().strong(p) == 1 ==> r == old(self).item(p) && final(self).item(p) is None
                && final(self).same_items_but(old(self), p),
    {
        let ghost before = self.model();
        proof {
            lemma_live_count_with(before, p, shed(before.obj(p)));
        }
        let n = self.objects[p - 1].strong;
        self.objects[p - 1].strong = n - 1;
        let mut freed: Option<T> = None;
        if n == 1 {
            self.objects[p - 1].bits = 0;
            freed = self.objects[p - 1].item.take();
            match self.objects[p - 1].tracker.take() {
                Some(tracker) => tracker.drop(&mut self.live),
                None => {},
            }
        }
        proof {
            assert(self.model().objs =~= before.with(p, shed(before.obj(p))).objs);
        }
        freed
    }

    /// Another number of weak references to the object at `p` that mutators
    /// keep.
    pub(crate) fn set_kept(&mut self, p: usize, kept: usize)
        requires
            old(self).count_ok(),
            old(self).model().has(p),
        ensures
            final(self).count_ok(),
            final(self).model() == old(self).model().with(
                p,
                (Obj { kept: kept as nat, ..old(self).model().obj(p) }),
            ),
            final(self).same_items(old(self)),
    {
        let ghost before = self.model();
        self.objects[p - 1].kept = kept;
        proof {
            let o = Obj { kept: kept as nat, ..before.obj(p) };
            assert(self.model().objs =~= before.with(p, o).objs);
            lemma_live_count_with(before, p, o);
        }
    }

    /// Another flag word for the object at `p`.
    pub(crate) fn set_bits(&mut self, p: usize, bits: usize)
        requires
            old(self).count_ok(),
            old(self).model().has(p),
        ensures
            final(self).count_ok(),
            final(self).model() == old(self).model().with(
                p,
                (Obj { bits, ..old(self).model().obj(p) }),
            ),
            final(self).same_items(old(self)),
    {
        let ghost before = self.model();
        self.objects[p - 1].bits = bits;
        proof {
            let o = Obj { bits, ..before.obj(p) };
            assert(self.model().objs =~= before.with(p, o).objs);
            lemma_live_count_with(before, p, o);
        }
    }

    /// Marks the object at `p` dirty if the collector has visited it.
    pub(crate) fn visited_to_dirty(&mut self, p: usize)
        requires
            old(self).count_ok(),
            old(self).model().has(p),
            old(self).model().obj(p).bits <= ALL_BITS,
        ensures
            final(self).count_ok(),
            final(self).model() == old(self).model().with(
                p,
                (Obj { bits: dirtied(old(self).model().obj(p).bits), ..old(self).model().obj(p) }),
            ),
            final(self).same_items(old(self)),
    {
        let bits = self.objects[p - 1].bits;
        match visited_to_dirty(bits) {
            Some((expected, dirty)) => {
                if bits == expected {
                    self.set_bits(p, dirty);
                }
            },
            None => {},
        }
        assert(self.model().objs =~= old(self).model().with(
            p,
            Obj { bits: dirtied(bits), ..old(self).model().obj(p) },
        ).objs);
    }

    /// Takes the contents out of the object at `p` for a mutator to work on, and
    /// locks it until they are put back.
    pub(crate) fn take(&mut self, p: usize) -> (r: Option<T>)
        requires
            old(self).count_ok(),
            old(self).model().has(p),
            old(self).model().obj(p).bits <= ALL_BITS,
        ensures
            final(self).count_ok(),
            r == old(self).item(p),
            final(self).model() == old(self).model().with(
                p,
                (Obj {
                    item: None,
                    locked: true,
                    bits: dirtied(old(self).model().obj(p).bits),
                    ..old(self).model().obj(p)
                }),
            ),
            final(self).item(p) is None,
            final(self).same_items_but(old(self), p),
    {
        let ghost before = self.model();
        self.visited_to_dirty(p);
        let ghost marked = *self;
        let r = self.objects[p - 1].item.take();
        self.objects[p - 1].locked = true;
        proof {
            let o = Obj { item: None, locked: true, bits: dirtied(before.obj(p).bits), ..before.obj(p) };
            assert(marked.model().has(p));
            assert(marked.model().obj(p) == marked.objects@[p - 1].obj());
            assert forall|i: int| 0 <= i < before.objs.len() && i != p - 1 implies self.objects@[i].obj()
                == before.objs[i] by {
                assert(marked.model().objs[i] == before.objs[i]);
            }
            assert(self.model().objs =~= before.with(p, o).objs);
            assert(self.same_items_but(old(self), p)) by {
                assert forall|q: usize| #[trigger] self.model().has(q) && q != p implies self.item(q) == old(
                    self,
                ).item(q) by {
                    assert(marked.model().has(q));
                }
            }
            assert(self.model().objs =~= marked.model().with(p, o).objs);
            lemma_live_count_with(marked.model(), p, o);
        }
        r
    }

    /// Puts contents into the object at `p` and unlocks it.
    pub(crate) fn put(&mut self, p: usize, t: T)
        requires
            old(self).count_ok(),
            old(self).model().has(p),
        ensures
            final(self).count_ok(),
            final(self).model() == old(self).model().with(
                p,
                (Obj { item: Some(t.edges()), locked: false, ..old(self).model().obj(p) }),
            ),
            final(self).item(p) == Some(t),
            final(self).same_items_but(old(self), p),
    {
        let ghost before = self.model();
        self.objects[p - 1].item = Some(t);
        self.objects[p - 1].locked = false;
        proof {
            let o = Obj { item: Some(t.edges()), locked: false, ..before.obj(p) };
            assert(self.model().objs =~= before.with(p, o).objs);
            lemma_live_count_with(before, p, o);
        }
    }
}

impl<T: Trace> Heap<T> {
    /// The object at `p`.
    pub(crate) fn object(&self, p: usize) -> (r: &GcBox<T>)
        requires
            self.model().has(p),
        ensures
            r.object() == self.model().obj(p),
            r.item() == self.item(p),
    {
        &self.objects[p - 1]
    }

    /// Marks the object at `p` as visited.
    pub(crate) fn mark_visited(&mut self, p: usize)
        requires
            old(self).count_ok(),
            old(self).model().has(p),
        ensures
            final(self).count_ok(),
            final(self).model() == old(self).model().with(
                p,
                (Obj { bits: VISITED_BIT, ..old(self).model().obj(p) }),
            ),
            final(self).same_items(old(self)),
    {
        let ghost before = self.model();
        let ghost o = Obj { bits: VISITED_BIT, ..before.obj(p) };
        self.objects[p - 1].mark_visited();
        proof {
            assert(self.model().objs =~= before.with(p, o).objs);
            lemma_live_count_with(before, p, o);
        }
    }

    /// Clears the flags of the object at `p`.
    pub(crate) fn clear_visited(&mut self, p: usize)
        requires
            old(self).count_ok(),
            old(self).model().has(p),
        ensures
            final(self).count_ok(),
            final(self).model() == old(self).model().with(
                p,
                (Obj { bits: 0, ..old(self).model().obj(p) }),
            ),
            final(self).same_items(old(self)),
    {
        let ghost before = self.model();
        let ghost o = Obj { bits: 0, ..before.obj(p) };
        self.objects[p - 1].clear_visited();
        proof {
            assert(self.model().objs =~= before.with(p, o).objs);
            lemma_live_count_with(before, p, o);
        }
    }

    /// Takes the contents out of the object at `p` for good.
    pub(crate) fn invalidate(&mut self, p: usize) -> (r: Option<T>)
        requires
            old(self).count_ok(),
            old(self).model().has(p),
            !old(self).model().obj(p).locked,
        ensures
            final(self).count_ok(),
            r == old(self).item(p),
            final(self).model() == old(self).model().with(
                p,
                (Obj { item: None, ..old(self).model().obj(p) }),
            ),
            final(self).item(p) is None,
            final(self).same_items_but(old(self), p),
    {
        let ghost before = self.model();
        let ghost o = Obj { item: None, ..before.obj(p) };
        let r = self.objects[p - 1].invalidate();
        proof {
            assert(self.model().objs =~= before.with(p, o).objs);
            lemma_live_count_with(before, p, o);
        }
        r
    }
}

} // verus!
