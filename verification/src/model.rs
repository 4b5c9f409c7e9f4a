//! The heap as a graph of counted references, and what the operations on
//! handles do to it.

use crate::collector::Soul;
use crate::flags::{dirtied, ALL_BITS, VISITED_BIT};
use crate::heap::new_obj;
use crate::gc::{drop_choice, DropAction, WeakRoot};
use crate::graph::{
    lemma_closed, lemma_occurrences_add, lemma_occurrences_reverse, lemma_occurs, lemma_reaches_self,
    lemma_reaches_step, lemma_sum_at, lemma_sum_has, lemma_sum_le, lemma_sum_lt, lemma_sum_positive,
    lemma_sum_same, occurrences, one, reaches, sum,
};
use vstd::prelude::*;

verus! {

/// An object: how many handles refer to it, how many weak references to it
/// mutators keep, its flag word, whether a mutator holds its lock, and the
/// addresses of the handles inside its contents, if it has contents.
pub struct Obj {
    pub strong: nat,
    pub kept: nat,
    pub bits: usize,
    pub locked: bool,
    pub item: Option<Seq<usize>>,
}

impl Obj {
    /// The addresses of the handles inside the object.
    pub open spec fn edges(self) -> Seq<usize> {
        match self.item {
            Some(es) => es,
            None => Seq::empty(),
        }
    }
}

/// A heap: the object at address `p` is `objs[p - 1]`. Addresses are not
/// reused.
pub struct Model {
    pub objs: Seq<Obj>,
}

impl Model {
    /// An object was allocated at `p`.
    pub open spec fn has(self, p: usize) -> bool {
        1 <= p <= self.objs.len()
    }

    /// The object at `p`.
    pub open spec fn obj(self, p: usize) -> Obj {
        self.objs[p - 1]
    }

    /// The number of handles to `p`.
    pub open spec fn strong(self, p: usize) -> nat {
        if self.has(p) { self.obj(p).strong } else { 0 }
    }

    /// The object at `p` has not been freed.
    pub open spec fn live(self, p: usize) -> bool {
        self.strong(p) > 0
    }

    /// The object at `p` has contents that can be read.
    pub open spec fn filled(self, p: usize) -> bool {
        self.has(p) && self.obj(p).item is Some
    }

    /// The addresses of the handles inside the object at `p`.
    pub open spec fn edges(self, p: usize) -> Seq<usize> {
        if self.has(p) { self.obj(p).edges() } else { Seq::empty() }
    }

    /// "The object at `a` holds a handle to `b`."
    pub open spec fn edge(self) -> spec_fn(usize, usize) -> bool {
        |a: usize, b: usize| self.edges(a).contains(b)
    }

    /// The number of handles to `p` that objects hold.
    pub open spec fn internal(self, p: usize) -> nat {
        sum(self.objs.len(), |i: int| occurrences(self.objs[i].edges(), p))
    }

    /// The number of handles to `p` that no object holds: the mutators have them.
    pub open spec fn held(self, p: usize) -> int {
        self.strong(p) - self.internal(p)
    }

    /// No object holds more handles than were handed out; a freed object has
    /// no contents, and neither has a locked one; there is an address left.
    pub open spec fn wf(self) -> bool {
        &&& self.objs.len() < usize::MAX
        &&& forall|p: usize| #[trigger] self.held(p) >= 0
        &&& forall|p: usize| #[trigger] self.has(p) && (self.obj(p).strong == 0 || self.obj(p).locked)
            ==> self.obj(p).item is None
    }

    /// The number of all handles.
    pub open spec fn total(self) -> nat {
        sum(self.objs.len(), |i: int| self.objs[i].strong)
    }

    /// What the message speaks of was allocated.
    pub open spec fn knows(self, soul: Soul) -> bool {
        match soul {
            Soul::Died(weak) => weak.ptr == 0 || self.has(weak.ptr),
            Soul::Reclaimed(p) => self.has(p),
            Soul::Yuga => true,
        }
    }

    /// The heap with another object at `p`.
    pub open spec fn with(self, p: usize, o: Obj) -> Model {
        Model { objs: self.objs.update(p - 1, o) }
    }

    /// The heap after the object at `p` has lost its contents.
    pub open spec fn emptied(self, p: usize) -> Model {
        self.with(p, Obj { item: None, ..self.obj(p) })
    }

    /// All that is reached from the live objects among `roots`.
    pub open spec fn reach(self, roots: Set<usize>) -> Set<usize> {
        Set::new(|p: usize| exists|r: usize|
            roots.contains(r) && self.live(r) && #[trigger] reaches(self.edge(), r, p))
    }

    /// The objects to which a mutator has a handle.
    pub open spec fn held_set(self) -> Set<usize> {
        Set::new(|p: usize| self.held(p) > 0)
    }

    /// The number of handles to `p` that the objects in `s` hold.
    pub open spec fn incoming(self, s: Set<usize>, p: usize) -> nat {
        sum(self.objs.len(), |i: int|
            if s.contains((i + 1) as usize) { occurrences(self.objs[i].edges(), p) } else { 0 })
    }

    /// Of the objects reached from `roots`: it has no contents to read, or
    /// there is a handle to it that the reached objects do not hold.
    pub open spec fn pinned(self, roots: Set<usize>, p: usize) -> bool {
        &&& self.reach(roots).contains(p)
        &&& !self.filled(p) || self.strong(p) != self.incoming(self.reach(roots), p)
    }

    /// Of the objects reached from `roots`: those that no pinned object reaches.
    pub open spec fn doomed(self, roots: Set<usize>) -> Set<usize> {
        Set::new(|p: usize|
            self.reach(roots).contains(p)
            && !(exists|u: usize| self.pinned(roots, u) && #[trigger] reaches(self.edge(), u, p)))
    }

    /// No object is flagged.
    pub open spec fn clean(self) -> bool {
        forall|p: usize| #[trigger] self.has(p) ==> self.obj(p).bits == 0
    }

    /// Only flags that are defined are set.
    pub open spec fn defined(self) -> bool {
        forall|p: usize| #[trigger] self.has(p) ==> self.obj(p).bits <= ALL_BITS
    }

    /// The heap with the objects in `t` flagged as visited, and no other flags.
    pub open spec fn marked(self, t: Set<usize>) -> Model {
        Model {
            objs: Seq::new(self.objs.len(), |i: int| Obj {
                bits: if t.contains((i + 1) as usize) { VISITED_BIT } else { 0 },
                ..self.objs[i]
            }),
        }
    }

    /// The heap after the objects in `d` have lost their contents, and with
    /// them the handles inside.
    pub open spec fn swept(self, d: Set<usize>) -> Model {
        Model {
            objs: Seq::new(self.objs.len(), |i: int| Obj {
                strong: (self.objs[i].strong - self.incoming(d, (i + 1) as usize)) as nat,
                kept: self.objs[i].kept,
                bits: self.objs[i].bits,
                locked: self.objs[i].locked,
                item: if d.contains((i + 1) as usize) { None } else { self.objs[i].item },
            }),
        }
    }
}

/// Another object at one address changes the counts by what it holds.
pub proof fn lemma_internal_with(m: Model, q: usize, o: Obj, p: usize)
    requires
        m.has(q),
    ensures
        m.with(q, o).internal(p) + occurrences(m.obj(q).edges(), p)
            == m.internal(p) + occurrences(o.edges(), p),
{
    let n = m.with(q, o);
    let f = |i: int| occurrences(m.objs[i].edges(), p);
    let g = |i: int| occurrences(n.objs[i].edges(), p);
    lemma_sum_at(m.objs.len(), f, g, q - 1);
}

/// One more object.
pub proof fn lemma_internal_push(m: Model, o: Obj, p: usize)
    ensures
        (Model { objs: m.objs.push(o) }).internal(p) == m.internal(p) + occurrences(o.edges(), p),
{
    let n = Model { objs: m.objs.push(o) };
    let f = |i: int| occurrences(m.objs[i].edges(), p);
    let g = |i: int| occurrences(n.objs[i].edges(), p);
    lemma_sum_same(m.objs.len(), f, g);
    assert(n.objs.len() == m.objs.len() + 1);
    assert(n.objs[m.objs.len() as int] == o);
}

/// A handle inside an object is counted.
pub proof fn lemma_internal_edge(m: Model, a: usize, p: usize)
    requires
        m.edges(a).contains(p),
    ensures
        m.has(a),
        m.internal(p) >= occurrences(m.edges(a), p) >= 1,
{
    lemma_occurs(m.edges(a), p);
    lemma_sum_has(m.objs.len(), |i: int| occurrences(m.objs[i].edges(), p), a - 1);
}

/// A counted handle is inside some object.
pub proof fn lemma_internal_witness(m: Model, p: usize) -> (a: usize)
    requires
        m.internal(p) > 0,
        m.objs.len() < usize::MAX,
    ensures
        m.edges(a).contains(p),
{
    let i = lemma_sum_positive(m.objs.len(), |i: int| occurrences(m.objs[i].edges(), p));
    lemma_occurs(m.objs[i].edges(), p);
    (i + 1) as usize
}

/// In a well-formed heap handles lead to live objects.
pub proof fn lemma_edge_live(m: Model, a: usize, p: usize)
    requires
        m.wf(),
        m.edges(a).contains(p),
    ensures
        m.filled(a),
        m.live(a),
        m.live(p),
        m.has(p),
{
    lemma_internal_edge(m, a, p);
    assert(m.held(p) >= 0);
    assert(m.has(a));
}

/// All that is reached from a live object is live.
pub proof fn lemma_reach_live(m: Model, roots: Set<usize>, p: usize)
    requires
        m.wf(),
        m.reach(roots).contains(p),
    ensures
        m.live(p),
        m.has(p),
{
    let r = choose|r: usize| roots.contains(r) && m.live(r) && #[trigger] reaches(m.edge(), r, p);
    assert forall|x: usize, y: usize| m.live(x) && #[trigger] m.edge()(x, y) implies m.live(y) by {
        lemma_edge_live(m, x, y);
    }
    lemma_closed(m.edge(), |x: usize| m.live(x), r, p);
}

/// No more is reached than there is.
pub proof fn lemma_reach_finite(m: Model, roots: Set<usize>)
    requires
        m.wf(),
    ensures
        m.reach(roots).finite(),
        m.reach(roots).len() <= m.objs.len(),
{
    let all = Seq::new(m.objs.len(), |i: int| (i + 1) as usize);
    all.lemma_cardinality_of_set();
    vstd::seq_lib::seq_to_set_is_finite(all);
    assert forall|p: usize| m.reach(roots).contains(p) implies all.to_set().contains(p) by {
        lemma_reach_live(m, roots, p);
        assert(all[p - 1] == p);
    }
    vstd::set_lib::lemma_len_subset(m.reach(roots), all.to_set());
}

/// A live root is reached.
pub proof fn lemma_reach_root(m: Model, roots: Set<usize>, r: usize)
    requires
        roots.contains(r),
        m.live(r),
    ensures
        m.reach(roots).contains(r),
{
    lemma_reaches_self(m.edge(), r);
}

/// What a reached object holds a handle to is reached.
pub proof fn lemma_reach_edge(m: Model, roots: Set<usize>, a: usize, b: usize)
    requires
        m.reach(roots).contains(a),
        m.edges(a).contains(b),
    ensures
        m.reach(roots).contains(b),
{
    let r = choose|r: usize| roots.contains(r) && m.live(r) && #[trigger] reaches(m.edge(), r, a);
    assert(m.edge()(a, b));
    lemma_reaches_step(m.edge(), r, a, b);
}

/// The handles that some objects hold are among those that all objects hold.
pub proof fn lemma_incoming_le(m: Model, s: Set<usize>, p: usize)
    ensures
        m.incoming(s, p) <= m.internal(p),
{
    lemma_sum_le(
        m.objs.len(),
        |i: int| if s.contains((i + 1) as usize) { occurrences(m.objs[i].edges(), p) } else { 0 },
        |i: int| occurrences(m.objs[i].edges(), p),
    );
}

/// A handle to `p` outside `s` is missing from the count over `s`.
pub proof fn lemma_incoming_outside(m: Model, s: Set<usize>, a: usize, p: usize)
    requires
        m.edges(a).contains(p),
        !s.contains(a),
    ensures
        m.incoming(s, p) < m.internal(p),
{
    lemma_occurs(m.edges(a), p);
    lemma_sum_lt(
        m.objs.len(),
        |i: int| if s.contains((i + 1) as usize) { occurrences(m.objs[i].edges(), p) } else { 0 },
        |i: int| occurrences(m.objs[i].edges(), p),
        a - 1,
    );
}

/// The heap can be collected from the addresses in `roots`: no collection is
/// under way, and there are node ids for all that is reached.
pub open spec fn collectable(m: Model, roots: Set<usize>) -> bool {
    &&& m.clean()
    &&& m.reach(roots).len() <= u32::MAX + 1
}

/// No objects hold nothing.
pub proof fn lemma_incoming_none(m: Model, p: usize)
    ensures
        m.incoming(Set::empty(), p) == 0,
{
    if m.incoming(Set::empty(), p) > 0 {
        let f = |i: int|
            if Set::<usize>::empty().contains((i + 1) as usize) { occurrences(m.objs[i].edges(), p) } else { 0 };
        let i = lemma_sum_positive(m.objs.len(), f);
        assert(f(i) == 0);
    }
}

/// Flags change nothing but themselves.
pub proof fn lemma_marked(m: Model, t: Set<usize>)
    ensures
        m.marked(t).objs.len() == m.objs.len(),
        forall|p: usize| #[trigger] m.marked(t).held(p) == m.held(p),
        m.wf() ==> m.marked(t).wf(),
        m.clean() && m.objs.len() < usize::MAX ==> m.marked(Set::empty()).objs == m.objs,
{
    let n = m.marked(t);
    assert forall|p: usize| #[trigger] n.held(p) == m.held(p) by {
        lemma_sum_same(
            m.objs.len(),
            |i: int| occurrences(n.objs[i].edges(), p),
            |i: int| occurrences(m.objs[i].edges(), p),
        );
    }
    if m.wf() {
        assert forall|p: usize| #[trigger] n.held(p) >= 0 by {
            assert(m.held(p) >= 0);
        }
        assert forall|p: usize| #[trigger] n.has(p) && (n.obj(p).strong == 0 || n.obj(p).locked)
            implies n.obj(p).item is None by {
            assert(m.has(p));
        }
    }
    if m.clean() && m.objs.len() < usize::MAX {
        assert forall|i: int| 0 <= i < m.objs.len() implies m.marked(Set::empty()).objs[i] == m.objs[i] by {
            assert(m.has((i + 1) as usize));
        }
        assert(m.marked(Set::empty()).objs =~= m.objs);
    }
}

/// One more object in `s` adds what it holds.
pub proof fn lemma_incoming_insert(m: Model, s: Set<usize>, a: usize, p: usize)
    requires
        m.has(a),
        m.objs.len() < usize::MAX,
        !s.contains(a),
    ensures
        m.incoming(s.insert(a), p) == m.incoming(s, p) + occurrences(m.edges(a), p),
{
    lemma_sum_at(
        m.objs.len(),
        |i: int| if s.contains((i + 1) as usize) { occurrences(m.objs[i].edges(), p) } else { 0 },
        |i: int| if s.insert(a).contains((i + 1) as usize) { occurrences(m.objs[i].edges(), p) } else { 0 },
        a - 1,
    );
}

/// Objects that hold the same handles are counted alike, and those without
/// contents hold none.
pub proof fn lemma_incoming_same(m: Model, s: Set<usize>, t: Set<usize>, p: usize)
    requires
        m.objs.len() < usize::MAX,
        forall|a: usize| #[trigger] m.has(a) && m.filled(a) ==> (s.contains(a) <==> t.contains(a)),
    ensures
        m.incoming(s, p) == m.incoming(t, p),
{
    let f = |i: int| if s.contains((i + 1) as usize) { occurrences(m.objs[i].edges(), p) } else { 0 };
    let g = |i: int| if t.contains((i + 1) as usize) { occurrences(m.objs[i].edges(), p) } else { 0 };
    assert forall|i: int| 0 <= i < m.objs.len() implies #[trigger] f(i) == g(i) by {
        assert(m.has((i + 1) as usize));
    }
    lemma_sum_same(m.objs.len(), f, g);
}

/// The collector's world: the heap, the addresses on the defer list, and the
/// messages on their way to the collector.
pub struct State {
    pub heap: Model,
    pub deferred: Set<usize>,
    pub queue: Seq<Soul>,
}

impl State {
    /// There is a weak reference to `p`: on the defer list, on its way there, or
    /// kept by a mutator.
    pub open spec fn weak(self, p: usize) -> bool {
        ||| self.deferred.contains(p)
        ||| self.queue.contains(Soul::Died(WeakRoot { ptr: p }))
        ||| self.heap.obj(p).kept > 0
    }

    /// One handle to `p` is dropped: the collector is told what it needs to
    /// know, and the last handle takes the contents with it.
    pub open spec fn drop_one(self, p: usize, on_collector: bool) -> State {
        let o = self.heap.obj(p);
        let action = drop_choice(on_collector, o.strong, self.weak(p));
        let last = o.strong == 1;
        State {
            heap: self.heap.with(p, Obj {
                strong: (o.strong - 1) as nat,
                kept: o.kept,
                bits: if last { 0 } else if action is Defer { dirtied(o.bits) } else { o.bits },
                locked: o.locked,
                item: if last { None } else { o.item },
            }),
            deferred: self.deferred,
            queue: match action {
                DropAction::Reclaim => self.queue.push(Soul::Reclaimed(p)),
                DropAction::Defer => self.queue.push(Soul::Died(WeakRoot { ptr: p })),
                _ => self.queue,
            },
        }
    }

    /// The handles that the drop of one handle to `p` sets free.
    pub open spec fn unwrapped(self, p: usize) -> Seq<usize> {
        if self.heap.obj(p).strong == 1 { self.heap.obj(p).edges() } else { Seq::empty() }
    }

    /// The handles in `work` are dropped, the last first, and those that fall
    /// out of freed objects right after the drop that freed them.
    pub open spec fn drop_all(self, work: Seq<usize>, on_collector: bool) -> State
        decreases self.heap.total(), work.len(),
    {
        if work.len() == 0 {
            self
        } else if !self.heap.live(work.last()) {
            self.drop_all(work.drop_last(), on_collector)
        } else {
            proof {
                lemma_drop_total(self, work.last(), on_collector);
            }
            self.drop_one(work.last(), on_collector).drop_all(
                work.drop_last() + self.unwrapped(work.last()).reverse(),
                on_collector,
            )
        }
    }
}

impl State {
    /// Between two operations: the heap is well-formed, only defined flags are
    /// set, and what the collector knows of was allocated.
    pub open spec fn wf(self) -> bool {
        &&& self.heap.wf()
        &&& self.heap.defined()
        &&& forall|p: usize| #[trigger] self.deferred.contains(p) ==> self.heap.has(p)
        &&& forall|i: int| 0 <= i < self.queue.len() ==> self.heap.knows(#[trigger] self.queue[i])
    }

    /// One more handle to the object at `p`.
    pub open spec fn cloned(self, p: usize) -> State {
        State { heap: self.heap.with(p, Obj { strong: self.heap.obj(p).strong + 1, ..self.heap.obj(p) }), ..self }
    }

    /// The contents of the object at `p` are taken out for a mutator to work
    /// on. If the collector has visited them, the object is marked dirty.
    pub open spec fn lent(self, p: usize) -> State {
        let o = self.heap.obj(p);
        State { heap: self.heap.with(p, Obj { item: None, locked: true, bits: dirtied(o.bits), ..o }), ..self }
    }

    /// Contents that hold the handles `es` are put back into the object at `p`.
    pub open spec fn returned(self, p: usize, es: Seq<usize>) -> State {
        State { heap: self.heap.with(p, Obj { item: Some(es), locked: false, ..self.heap.obj(p) }), ..self }
    }

    /// A mutator keeps one more weak reference to the object at `p`.
    pub open spec fn kept(self, p: usize) -> State {
        State { heap: self.heap.with(p, Obj { kept: self.heap.obj(p).kept + 1, ..self.heap.obj(p) }), ..self }
    }

    /// A mutator keeps one weak reference less to the object at `p`.
    pub open spec fn forgotten(self, p: usize) -> State {
        State {
            heap: self.heap.with(p, Obj { kept: (self.heap.obj(p).kept - 1) as nat, ..self.heap.obj(p) }),
            ..self
        }
    }

    /// The object at `p` has another flag word.
    pub open spec fn reflagged(self, p: usize, bits: usize) -> State {
        State { heap: self.heap.with(p, Obj { bits, ..self.heap.obj(p) }), ..self }
    }

    /// The object at `p` is marked dirty if the collector has visited it.
    pub open spec fn touched(self, p: usize) -> State {
        self.reflagged(p, dirtied(self.heap.obj(p).bits))
    }

    /// The collector takes the contents out of the object at `p`, unless it was
    /// freed, and drops the handles that were inside.
    pub open spec fn invalidated(self, p: usize) -> State {
        if self.heap.live(p) {
            (State { heap: self.heap.emptied(p), ..self }).drop_all(self.heap.edges(p).reverse(), true)
        } else {
            self
        }
    }

    /// A new object with one handle to it.
    pub open spec fn allocated(self, item: Option<Seq<usize>>) -> State {
        State { heap: Model { objs: self.heap.objs.push(new_obj(item)) }, ..self }
    }

    /// One more message asks for a collection.
    pub open spec fn requested(self) -> State {
        State { queue: self.queue.push(Soul::Yuga), ..self }
    }

    /// A coin was tossed: one more message asks for a collection if it came up.
    pub open spec fn tossed(self, up: bool) -> State {
        if up { self.requested() } else { self }
    }

    /// The first message on its way reaches the collector.
    pub open spec fn receive(self) -> State {
        let queue = self.queue.drop_first();
        match self.queue[0] {
            Soul::Died(weak) => State {
                heap: self.heap,
                deferred: if weak.ptr == 0 { self.deferred } else { self.deferred.insert(weak.ptr) },
                queue,
            },
            Soul::Reclaimed(p) => State { heap: self.heap, deferred: self.deferred.remove(p), queue },
            Soul::Yuga => State {
                heap: self.heap.swept(self.heap.doomed(self.deferred)),
                deferred: Set::empty(),
                queue,
            },
        }
    }

    /// All messages on their way have reached the collector.
    pub open spec fn process(self) -> State
        decreases self.queue.len(),
    {
        if self.queue.len() == 0 {
            self
        } else {
            self.receive().process()
        }
    }

    /// The collection that the first message asks for, if it asks for one, can
    /// be done.
    pub open spec fn ready(self) -> bool {
        self.queue[0] is Yuga ==> collectable(self.heap, self.deferred)
    }

    /// The collections that the messages on their way ask for can all be done.
    pub open spec fn all_ready(self) -> bool
        decreases self.queue.len(),
    {
        self.queue.len() > 0 ==> self.ready() && self.receive().all_ready()
    }
}

/// The handles in `work` are ones that no object holds.
pub open spec fn covered(m: Model, work: Seq<usize>) -> bool {
    forall|p: usize| occurrences(work, p) <= #[trigger] m.held(p)
}

/// A handle that no object holds belongs to a live object.
pub proof fn lemma_covered_live(m: Model, work: Seq<usize>, p: usize)
    requires
        covered(m, work),
        work.contains(p),
    ensures
        m.live(p),
        m.has(p),
        m.held(p) > 0,
{
    lemma_occurs(work, p);
    assert(occurrences(work, p) <= m.held(p));
}

/// The handles of contents that are out are the mutator's.
pub proof fn lemma_lent_held(s: State, p: usize)
    requires
        s.heap.filled(p),
    ensures
        forall|q: usize| #[trigger] s.lent(p).heap.held(q) == s.heap.held(q) + occurrences(s.heap.edges(p), q),
{
    let n = s.lent(p);
    assert forall|q: usize| #[trigger] n.heap.held(q) == s.heap.held(q) + occurrences(s.heap.edges(p), q) by {
        lemma_internal_with(s.heap, p, n.heap.obj(p), q);
    }
}

/// Contents that are taken out leave a heap well-formed.
pub proof fn lemma_lent_wf(s: State, p: usize)
    requires
        s.heap.wf(),
        s.heap.filled(p),
    ensures
        s.lent(p).heap.wf(),
{
    let n = s.lent(p).heap;
    lemma_lent_held(s, p);
    assert forall|q: usize| #[trigger] n.held(q) >= 0 by {
        assert(s.heap.held(q) >= 0);
    }
    assert forall|q: usize| #[trigger] n.has(q) && (n.obj(q).strong == 0 || n.obj(q).locked) implies n.obj(
        q,
    ).item is None by {
        assert(s.heap.has(q));
    }
}

/// Contents that go back take their handles from the mutator.
pub proof fn lemma_returned_held(s: State, p: usize, es: Seq<usize>)
    requires
        s.heap.has(p),
        s.heap.obj(p).item is None,
    ensures
        forall|q: usize| #[trigger] s.returned(p, es).heap.held(q) == s.heap.held(q) - occurrences(es, q),
{
    let n = s.returned(p, es);
    assert forall|q: usize| #[trigger] n.heap.held(q) == s.heap.held(q) - occurrences(es, q) by {
        lemma_internal_with(s.heap, p, n.heap.obj(p), q);
    }
}

/// Contents that go back leave a heap well-formed if the mutator has their
/// handles.
pub proof fn lemma_returned_wf(s: State, p: usize, es: Seq<usize>)
    requires
        s.heap.wf(),
        s.heap.live(p),
        s.heap.obj(p).item is None,
        covered(s.heap, es),
    ensures
        s.returned(p, es).heap.wf(),
{
    let n = s.returned(p, es).heap;
    lemma_returned_held(s, p, es);
    assert forall|q: usize| #[trigger] n.held(q) >= 0 by {
        assert(occurrences(es, q) <= s.heap.held(q));
    }
    assert forall|q: usize| #[trigger] n.has(q) && (n.obj(q).strong == 0 || n.obj(q).locked) implies n.obj(
        q,
    ).item is None by {
        assert(s.heap.has(q));
    }
}

/// The drop of a handle changes who holds what: the mutator has that handle
/// less, and those more that fell out of the object if it was freed.
pub proof fn lemma_drop_held(s: State, q: usize, on_collector: bool, p: usize)
    requires
        s.heap.live(q),
    ensures
        s.drop_one(q, on_collector).heap.held(p) == s.heap.held(p) - one(p, q)
            + occurrences(s.unwrapped(q), p),
{
    let n = s.drop_one(q, on_collector).heap;
    lemma_internal_with(s.heap, q, n.obj(q), p);
}

/// The drop of a handle that no object holds keeps a heap well-formed.
pub proof fn lemma_drop_wf(s: State, work: Seq<usize>, on_collector: bool)
    requires
        s.heap.wf(),
        covered(s.heap, work),
        work.len() > 0,
    ensures
        s.heap.live(work.last()),
        s.heap.has(work.last()),
        s.drop_one(work.last(), on_collector).heap.wf(),
        covered(
            s.drop_one(work.last(), on_collector).heap,
            work.drop_last() + s.unwrapped(work.last()).reverse(),
        ),
{
    let q = work.last();
    lemma_covered_live(s.heap, work, q);
    let n = s.drop_one(q, on_collector).heap;
    let rest = work.drop_last() + s.unwrapped(q).reverse();
    assert forall|p: usize| occurrences(rest, p) <= #[trigger] n.held(p) by {
        lemma_drop_held(s, q, on_collector, p);
        lemma_occurrences_add(work.drop_last(), s.unwrapped(q).reverse(), p);
        lemma_occurrences_reverse(s.unwrapped(q), p);
        assert(s.heap.held(p) >= occurrences(work, p));
    }
    assert forall|p: usize| #[trigger] n.has(p) && (n.obj(p).strong == 0 || n.obj(p).locked)
        implies n.obj(p).item is None by {
        assert(s.heap.has(p));
    }
}

/// The handles that were inside an object are the mutator's once the object has
/// lost its contents.
pub proof fn lemma_emptied(m: Model, q: usize)
    requires
        m.wf(),
        m.has(q),
    ensures
        m.emptied(q).wf(),
        forall|p: usize| #[trigger] m.emptied(q).held(p) == m.held(p) + occurrences(m.edges(q), p),
        covered(m.emptied(q), m.edges(q).reverse()),
{
    let n = m.emptied(q);
    assert forall|p: usize| #[trigger] n.held(p) == m.held(p) + occurrences(m.edges(q), p) by {
        lemma_internal_with(m, q, n.obj(q), p);
    }
    assert forall|p: usize| occurrences(m.edges(q).reverse(), p) <= #[trigger] n.held(p) by {
        lemma_occurrences_reverse(m.edges(q), p);
        assert(m.held(p) >= 0);
    }
    assert forall|p: usize| #[trigger] n.has(p) && (n.obj(p).strong == 0 || n.obj(p).locked)
        implies n.obj(p).item is None by {
        assert(m.has(p));
    }
}

/// The drop of handles takes them from the mutator, and no others.
pub proof fn lemma_drop_all_held(s: State, work: Seq<usize>, on_collector: bool, p: usize)
    requires
        s.heap.wf(),
        covered(s.heap, work),
    ensures
        s.drop_all(work, on_collector).heap.held(p) == s.heap.held(p) - occurrences(work, p),
    decreases s.heap.total(), work.len(),
{
    if work.len() > 0 {
        let q = work.last();
        let rest = work.drop_last() + s.unwrapped(q).reverse();
        lemma_drop_wf(s, work, on_collector);
        lemma_drop_total(s, q, on_collector);
        lemma_drop_held(s, q, on_collector, p);
        lemma_occurrences_add(work.drop_last(), s.unwrapped(q).reverse(), p);
        lemma_occurrences_reverse(s.unwrapped(q), p);
        lemma_drop_all_held(s.drop_one(q, on_collector), rest, on_collector, p);
    }
}

/// The drop of handles fills no object.
pub proof fn lemma_drop_all_empty(s: State, work: Seq<usize>, on_collector: bool, p: usize)
    requires
        s.heap.wf(),
        covered(s.heap, work),
        s.heap.has(p),
        s.heap.obj(p).item is None,
    ensures
        s.drop_all(work, on_collector).heap.objs.len() == s.heap.objs.len(),
        s.drop_all(work, on_collector).heap.obj(p).item is None,
    decreases s.heap.total(), work.len(),
{
    if work.len() > 0 {
        let q = work.last();
        lemma_drop_wf(s, work, on_collector);
        lemma_drop_total(s, q, on_collector);
        lemma_drop_all_empty(
            s.drop_one(q, on_collector),
            work.drop_last() + s.unwrapped(q).reverse(),
            on_collector,
            p,
        );
    }
}

/// Messages allocate nothing, and none is left when all were received.
pub proof fn lemma_process_len(s: State)
    ensures
        s.process().heap.objs.len() == s.heap.objs.len(),
        s.process().queue.len() == 0,
    decreases s.queue.len(),
{
    if s.queue.len() > 0 {
        lemma_process_len(s.receive());
    }
}

/// The drop of handles that no object holds keeps a state well-formed.
pub proof fn lemma_drop_all_wf(s: State, work: Seq<usize>, on_collector: bool)
    requires
        s.wf(),
        covered(s.heap, work),
    ensures
        s.drop_all(work, on_collector).wf(),
        s.heap.clean() ==> s.drop_all(work, on_collector).heap.clean(),
        s.drop_all(work, on_collector).heap.objs.len() == s.heap.objs.len(),
        s.drop_all(work, on_collector).deferred == s.deferred,
        s.queue.is_prefix_of(s.drop_all(work, on_collector).queue),
    decreases s.heap.total(), work.len(),
{
    if work.len() > 0 {
        let q = work.last();
        let n = s.drop_one(q, on_collector);
        lemma_drop_wf(s, work, on_collector);
        lemma_drop_total(s, q, on_collector);
        assert forall|p: usize| #[trigger] n.heap.has(p) implies n.heap.obj(p).bits <= ALL_BITS && (s.heap.clean()
            ==> n.heap.obj(p).bits == 0) by {
            assert(s.heap.has(p));
        }
        assert forall|i: int| 0 <= i < n.queue.len() implies n.heap.knows(#[trigger] n.queue[i]) by {
            if i < s.queue.len() {
                assert(s.heap.knows(s.queue[i]));
            }
        }
        assert forall|p: usize| #[trigger] n.deferred.contains(p) implies n.heap.has(p) by {
            assert(s.deferred.contains(p));
        }
        lemma_drop_all_wf(n, work.drop_last() + s.unwrapped(q).reverse(), on_collector);
    }
}

/// The drop of a handle that is not the last one drops no others.
pub proof fn lemma_drop_among_others(s: State, p: usize, on_collector: bool)
    requires
        s.heap.has(p),
        s.heap.obj(p).strong > 1,
    ensures
        s.drop_all(seq![p], on_collector) == s.drop_one(p, on_collector),
{
    let w = seq![p];
    let n = s.drop_one(p, on_collector);
    assert(w.last() == p);
    let rest = w.drop_last() + s.unwrapped(p).reverse();
    assert(rest =~= Seq::<usize>::empty());
    assert(s.drop_all(w, on_collector) == n.drop_all(rest, on_collector));
    assert(n.drop_all(rest, on_collector) == n);
}

/// A drop leaves one handle less.
pub proof fn lemma_drop_total(s: State, p: usize, on_collector: bool)
    requires
        s.heap.live(p),
    ensures
        s.drop_one(p, on_collector).heap.total() + 1 == s.heap.total(),
{
    let n = s.drop_one(p, on_collector).heap;
    let f = |i: int| s.heap.objs[i].strong;
    let g = |i: int| n.objs[i].strong;
    lemma_sum_at(s.heap.objs.len(), f, g, p - 1);
}

} // verus!
