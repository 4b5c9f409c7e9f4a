//! Finding the handles inside an object's contents.

use crate::collector::{lemma_ready_step, Collector};
use crate::gc::{Gc, WeakRoot};
use crate::heap::Heap;
use vstd::prelude::*;

verus! {

/// Contents that may own handles.
pub trait Handles: Sized {
    /// The addresses of the handles inside the contents.
    open spec fn edges(&self) -> Seq<usize> {
        Seq::empty()
    }

    /// Takes the contents apart into the handles that they own.
    fn handles(self) -> (r: Vec<Gc<Self>>)
        ensures
            r@.map_values(|g: Gc<Self>| g.ptr()) == self.edges(),
    ;
}

/// The address of a handle, if there is a handle.
pub open spec fn link_edges<T>(link: Option<Gc<T>>) -> Seq<usize> {
    match link {
        Some(g) => seq![g.ptr()],
        None => Seq::empty(),
    }
}

/// Contents that own two handles at most.
pub fn link_handles<T>(first: Option<Gc<T>>, second: Option<Gc<T>>) -> (r: Vec<Gc<T>>)
    ensures
        r@.map_values(|g: Gc<T>| g.ptr()) == link_edges(first) + link_edges(second),
{
    let mut r: Vec<Gc<T>> = Vec::new();
    match first {
        Some(g) => r.push(g),
        None => {},
    }
    match second {
        Some(g) => r.push(g),
        None => {},
    }
    assert(r@.map_values(|g: Gc<T>| g.ptr()) =~= link_edges(first) + link_edges(second));
    r
}

/// Tells the collector of the handles inside contents that own two at most.
pub fn trace_links<T: Handles>(
    first: &Option<Gc<T>>,
    second: &Option<Gc<T>>,
    root: &WeakRoot,
    c: &mut Collector,
    heap: &Heap<T>,
)
    requires
        old(c)@.ready(root.ptr, link_edges(*first) + link_edges(*second), heap.model()),
    ensures
        final(c)@ == old(c)@.add_edges(root.ptr, link_edges(*first) + link_edges(*second)),
{
    let ghost g = c@;
    let ghost es = link_edges(*first) + link_edges(*second);
    assert(es.take(0) =~= Seq::empty());
    match first {
        Some(n) => {
            proof {
                lemma_ready_step(g, root.ptr, es, heap.model(), 0);
            }
            n.trace(root, c, heap);
        },
        None => {},
    }
    match second {
        Some(n) => {
            proof {
                lemma_ready_step(g, root.ptr, es, heap.model(), es.len() - 1);
            }
            n.trace(root, c, heap);
        },
        None => {},
    }
    assert(es.take(es.len() as int) =~= es);
}

/// What an object's contents tell the collector.
pub trait Trace: Handles {
    /// Whether a handle could be moved out of the contents through a shared
    /// reference to them. Such contents are marked before they are read, and
    /// the collector traces them only while no one else has them.
    const MUT: bool;

    /// Tells the collector of every handle inside the contents of the object
    /// `root`, first to last.
    fn trace(&self, root: &WeakRoot, c: &mut Collector, heap: &Heap<Self>)
        requires
            old(c)@.ready(root.ptr, self.edges(), heap.model()),
        ensures
            final(c)@ == old(c)@.add_edges(root.ptr, self.edges()),
    ;
}

/// No handle can be moved out of a number.
pub proof fn law_numbers_are_not_mutable()
    ensures
        !<usize as Trace>::MUT,
        !<u16 as Trace>::MUT,
{
}

impl Handles for usize {
    open spec fn edges(&self) -> Seq<usize> {
        Seq::empty()
    }

    fn handles(self) -> (r: Vec<Gc<usize>>) {
        Vec::new()
    }
}

impl Trace for usize {
    const MUT: bool = false;

    fn trace(&self, root: &WeakRoot, c: &mut Collector, heap: &Heap<usize>) {
    }
}

impl Handles for u16 {
    open spec fn edges(&self) -> Seq<usize> {
        Seq::empty()
    }

    fn handles(self) -> (r: Vec<Gc<u16>>) {
        Vec::new()
    }
}

impl Trace for u16 {
    const MUT: bool = false;

    fn trace(&self, root: &WeakRoot, c: &mut Collector, heap: &Heap<u16>) {
    }
}

} // verus!
