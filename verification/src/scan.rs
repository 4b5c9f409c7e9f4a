//! The first phase of a collection: visiting all that the defer list reaches.
//!
//! A scan decides which object to visit next and what a visit leads to. What it
//! is told of an object (its flags, whether its contents could be read) may be
//! anything: other threads work on the objects meanwhile.

use crate::collections::{hash_elements, ord_entries, set_contains, set_insert, set_new};
use crate::collector::{lists_found, Collector};
use crate::flags::{has_bits, GcFlags, VISITED_BIT};
use crate::gc::WeakRoot;
use im::{HashSet, OrdMap};
use std::collections::VecDeque;
use vstd::prelude::*;

verus! {

/// The addresses still to visit, those of the objects that can not be visited,
/// and the defer list before the running visit.
#[verifier::ext_equal]
pub struct ScanView {
    pub to_visit: Seq<usize>,
    pub alive: Set<usize>,
    pub snap: Map<usize, usize>,
}

/// What is left to visit once the leading addresses that are in `alive` are
/// passed over.
pub open spec fn pass_over(to_visit: Seq<usize>, alive: Set<usize>) -> Seq<usize>
    decreases to_visit.len(),
{
    if to_visit.len() > 0 && alive.contains(to_visit[0]) {
        pass_over(to_visit.drop_first(), alive)
    } else {
        to_visit
    }
}

/// A visit to all that the defer list reaches.
pub struct Scan {
    to_visit: VecDeque<usize>,
    alive: HashSet<usize>,
    snap: OrdMap<usize, usize>,
}

impl Scan {
    /// The state of the scan.
    pub closed spec fn view(&self) -> ScanView {
        ScanView {
            to_visit: self.to_visit@,
            alive: hash_elements(self.alive),
            snap: ord_entries(self.snap),
        }
    }

    /// A scan with nothing to visit.
    pub fn new(c: &Collector) -> (r: Self)
        ensures
            r@.to_visit.len() == 0,
            r@.alive == Set::<usize>::empty(),
            r@.snap == c@.deferred,
    {
        Scan { to_visit: VecDeque::new(), alive: set_new(), snap: c.snapshot() }
    }

    /// Visits `root` next.
    pub fn start(&mut self, root: usize)
        ensures
            final(self)@ == (ScanView { to_visit: seq![root] + old(self)@.to_visit, ..old(self)@ }),
    {
        let ghost before = self@;
        self.to_visit.push_front(root);
        assert(self@.to_visit =~= seq![root] + before.to_visit);
    }

    /// The next address to visit; objects that can not be visited are passed
    /// over.
    pub fn next(&mut self) -> (r: Option<usize>)
        ensures
            ({
                let left = pass_over(old(self)@.to_visit, old(self)@.alive);
                if left.len() == 0 {
                    r is None && final(self)@ == (ScanView { to_visit: Seq::empty(), ..old(self)@ })
                } else {
                    r == Some(left[0]) && final(self)@ == (ScanView { to_visit: left.drop_first(), ..old(self)@ })
                }
            }),
    {
        let ghost left = pass_over(self@.to_visit, self@.alive);
        let ghost before = self@;
        loop
            invariant
                left == pass_over(self@.to_visit, self@.alive),
                self@.alive == before.alive,
                self@.snap == before.snap,
                before == old(self)@,
                left == pass_over(before.to_visit, before.alive),
            decreases self@.to_visit.len(),
        {
            let ghost here = self.to_visit@;
            match self.to_visit.pop_front() {
                None => {
                    assert(self@ =~= (ScanView { to_visit: Seq::empty(), ..before }));
                    return None;
                },
                Some(p) => {
                    assert(self.to_visit@ =~= here.drop_first());
                    if !set_contains(&self.alive, p) {
                        assert(left == here);
                        return Some(p);
                    }
                },
            }
        }
    }

    /// Decides whether to visit the object at `p`, going by its flags. One that
    /// was freed (no flags) is noted as such, and one that was visited is not
    /// visited again. Any other becomes a node.
    pub fn enter(&mut self, c: &mut Collector, p: usize, flags: Option<GcFlags>) -> (r: bool)
        requires
            p != 0,
            flags matches Some(f) && !has_bits(f@, VISITED_BIT) ==> old(c)@.knows(p) || old(c)@.neighbors.len()
                <= u32::MAX,
        ensures
            match flags {
                None => {
                    &&& !r
                    &&& final(self)@ == (ScanView { alive: old(self)@.alive.insert(p), ..old(self)@ })
                    &&& final(c)@ == old(c)@
                },
                Some(f) => if has_bits(f@, VISITED_BIT) {
                    &&& !r
                    &&& final(self)@ == old(self)@
                    &&& final(c)@ == old(c)@
                } else {
                    &&& r
                    &&& final(self)@ == (ScanView { snap: old(c)@.deferred, ..old(self)@ })
                    &&& final(c)@ == old(c)@.add_node(p)
                },
            },
            old(c)@.wf() ==> final(c)@.wf(),
    {
        match flags {
            None => {
                set_insert(&mut self.alive, p);
                false
            },
            Some(f) => {
                if f.contains(GcFlags::visited()) {
                    false
                } else {
                    self.snap = c.snapshot();
                    c.add_node(&WeakRoot { ptr: p });
                    true
                }
            },
        }
    }

    /// Ends the visit to the object at `p`. If its contents could be read, what
    /// the visit found is visited later; if not, a mutator works on them or
    /// there are none, and the object is noted as one that can not be visited.
    pub fn conclude(&mut self, c: &Collector, p: usize, visitable: bool)
        requires
            forall|q: usize| #[trigger] old(self)@.snap.dom().contains(q) ==> c@.deferred.dom().contains(q),
        ensures
            if visitable {
                &&& final(self)@.alive == old(self)@.alive
                &&& final(self)@.snap == old(self)@.snap
                &&& old(self)@.to_visit.is_prefix_of(final(self)@.to_visit)
                &&& lists_found(
                    old(self)@.snap,
                    c@.deferred,
                    final(self)@.to_visit.skip(old(self)@.to_visit.len() as int),
                )
            } else {
                final(self)@ == (ScanView { alive: old(self)@.alive.insert(p), ..old(self)@ })
            },
    {
        let ghost before = self@;
        if !visitable {
            set_insert(&mut self.alive, p);
            return;
        }
        assert(ord_entries(self.snap) == before.snap);
        assert forall|q: usize| #[trigger] ord_entries(self.snap).dom().contains(q) implies c@.deferred.dom().contains(q) by {
            assert(old(self)@.snap.dom().contains(q));
        }
        let found = c.found_since(&self.snap);
        let mut i: usize = 0;
        while i < found.len()
            invariant
                i <= found@.len(),
                self@.to_visit == before.to_visit + found@.take(i as int),
                self@.alive == before.alive,
                self@.snap == before.snap,
            decreases found@.len() - i,
        {
            self.to_visit.push_back(found[i]);
            i += 1;
            assert(found@.take(i as int) =~= found@.take(i - 1).push(found@[i - 1]));
        }
        assert(self@.to_visit.skip(before.to_visit.len() as int) =~= found@);
    }

    /// The addresses of the objects that can not be visited.
    pub(crate) fn alive(&self) -> (r: &HashSet<usize>)
        ensures
            hash_elements(*r) == self@.alive,
    {
        &self.alive
    }
}

/// What is passed over is what can not be visited, and nothing else: the rest is
/// visited in the order in which it was found, beginning with the first address
/// that can be.
pub proof fn law_only_the_living_are_passed_over(to_visit: Seq<usize>, alive: Set<usize>)
    ensures
        ({
            let left = pass_over(to_visit, alive);
            let k = to_visit.len() - left.len();
            &&& left.len() <= to_visit.len()
            &&& left == to_visit.skip(k)
            &&& forall|i: int| 0 <= i < k ==> alive.contains(#[trigger] to_visit[i])
            &&& left.len() > 0 ==> !alive.contains(left[0])
        }),
    decreases to_visit.len(),
{
    let left = pass_over(to_visit, alive);
    if to_visit.len() > 0 && alive.contains(to_visit[0]) {
        let rest = to_visit.drop_first();
        law_only_the_living_are_passed_over(rest, alive);
        let k = to_visit.len() - left.len();
        assert(rest.skip(k - 1) =~= to_visit.skip(k));
        assert forall|i: int| 0 <= i < k implies alive.contains(#[trigger] to_visit[i]) by {
            if i > 0 {
                assert(rest[i - 1] == to_visit[i]);
            }
        }
    } else {
        assert(to_visit.skip(0) =~= to_visit);
    }
}

} // verus!
