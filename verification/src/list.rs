//! Doubly linked lists of handles.
//!
//! Two neighbors refer to each other, so that every list of two nodes or more is
//! made of cycles.

use crate::collector::{Collector, Soul};
use crate::gc::{lemma_same_handle, lent, Gc, WeakRoot};
use crate::flags::dirtied;
use crate::graph::{
    lemma_occurrences_add, lemma_occurrences_push, lemma_occurs, lemma_sum_same, occurrences, one,
};
use crate::heap::{new_obj, Heap};
use crate::laws::law_drop_keeps_the_living;
use crate::model::{
    covered, lemma_drop_all_empty, lemma_drop_all_held, lemma_drop_all_wf, lemma_drop_among_others,
    lemma_drop_total, lemma_drop_wf, lemma_edge_live, lemma_internal_push, lemma_internal_with,
    lemma_lent_held, lemma_lent_wf, lemma_returned_held, Model, Obj, State,
};
use crate::runtime::Runtime;
use crate::trace::{link_edges, link_handles, trace_links, Handles, Trace};
use vstd::prelude::*;

verus! {

/// A node of a list.
pub struct Node<V> {
    pub val: V,
    pub next: Option<Gc<Node<V>>>,
    pub prev: Option<Gc<Node<V>>>,
}

impl<V> Node<V> {
    /// A node without neighbors.
    pub fn new(val: V) -> (r: Self)
        ensures
            r == (Node { val, next: None, prev: None }),
    {
        Node { val, next: None, prev: None }
    }
}

impl<V> Handles for Node<V> {
    open spec fn edges(&self) -> Seq<usize> {
        link_edges(self.next) + link_edges(self.prev)
    }

    fn handles(self) -> (r: Vec<Gc<Node<V>>>) {
        link_handles(self.next, self.prev)
    }
}

impl<V> Trace for Node<V> {
    const MUT: bool = false;

    fn trace(&self, root: &WeakRoot, c: &mut Collector, heap: &Heap<Node<V>>) {
        trace_links(&self.next, &self.prev, root, c, heap);
    }
}

/// No handle can be moved out of a node through a shared reference.
pub proof fn law_nodes_are_not_mutable<V>()
    ensures
        !<Node<V> as Trace>::MUT,
{
}

/// A list: handles to its first and its last node, and its length.
pub struct List<V> {
    pub head: Option<Gc<Node<V>>>,
    pub tail: Option<Gc<Node<V>>>,
    pub len: usize,
}

impl State {
    /// The object at `at` gets contents that hold the handles `es` in place of
    /// those it has, of which `gone` are dropped on the way.
    pub open spec fn relinked(self, at: usize, gone: Seq<usize>, es: Seq<usize>) -> State {
        self.lent(at).drop_all(gone, false).returned(at, es)
    }
}

/// What is left after a link of the object at `at` was replaced: its contents
/// are `node`, and all other contents are as before, or gone with a freed
/// object.
pub open spec fn relinks<V>(before: &Runtime<Node<V>>, after: &Runtime<Node<V>>, at: usize, node: Node<V>) -> bool {
    &&& after.item(at) == Some(node)
    &&& forall|p: usize| after.model().has(p) && p != at ==> (#[trigger] after.item(p)) is None || after.item(p)
        == before.item(p)
}

proof fn lemma_link_occurrences<V>(link: Option<Gc<Node<V>>>, q: usize)
    ensures
        occurrences(link_edges(link), q) == (match link {
            Some(g) => if g.ptr() == q { 1nat } else { 0nat },
            None => 0nat,
        }),
{
    match link {
        Some(g) => {
            lemma_occurrences_push(Seq::empty(), g.ptr(), q);
            assert(Seq::<usize>::empty().push(g.ptr()) =~= seq![g.ptr()]);
        },
        None => {},
    }
}

/// What a replaced link needs and does: the contents that go back own their
/// handles, and the object is still there to take them.
proof fn lemma_replacement(s: State, p: usize, gone: Seq<usize>, link: Seq<usize>, now: Seq<usize>)
    requires
        s.wf(),
        s.heap.filled(p),
        covered(s.heap, link.push(p)),
        forall|q: usize| occurrences(s.heap.edges(p), q) + occurrences(link, q) == occurrences(gone, q)
            + #[trigger] occurrences(now, q),
        forall|q: usize| #[trigger] occurrences(gone, q) <= occurrences(s.heap.edges(p), q),
    ensures
        covered(s.lent(p).heap, gone),
        ({
            let mid = s.lent(p).drop_all(gone, false);
            &&& mid.heap.objs.len() == s.heap.objs.len()
            &&& mid.heap.live(p)
            &&& mid.heap.obj(p).item is None
            &&& covered(mid.heap, now)
        }),
        forall|q: usize| #[trigger] s.relinked(p, gone, now).heap.held(q) == s.heap.held(q) - occurrences(link, q),
{
    let lent = s.lent(p);
    let mid = lent.drop_all(gone, false);
    let es = s.heap.edges(p);
    lemma_lent_held(s, p);
    lemma_lent_wf(s, p);
    assert forall|q: usize| occurrences(gone, q) <= #[trigger] lent.heap.held(q) by {
        assert(s.heap.held(q) >= 0);
    }
    assert(lent.heap.held(p) > occurrences(gone, p)) by {
        lemma_occurrences_push(link, p, p);
        assert(s.heap.held(p) >= occurrences(link.push(p), p));
    }
    law_drop_keeps_the_living(lent, gone, false, p);
    lemma_drop_all_empty(lent, gone, false, p);
    assert forall|q: usize| occurrences(now, q) <= #[trigger] mid.heap.held(q) by {
        lemma_drop_all_held(lent, gone, false, q);
        lemma_occurrences_push(link, p, q);
        assert(s.heap.held(q) >= occurrences(link.push(p), q));
    }
    lemma_returned_held(mid, p, now);
    assert forall|q: usize| #[trigger] s.relinked(p, gone, now).heap.held(q) == s.heap.held(q) - occurrences(link, q) by {
        lemma_drop_all_held(lent, gone, false, q);
        assert(mid.returned(p, now).heap.held(q) == mid.heap.held(q) - occurrences(now, q));
    }
}

/// A node's link to the next node, or to the one before.
pub open spec fn link_of<V>(node: Node<V>, forward: bool) -> Option<Gc<Node<V>>> {
    if forward { node.next } else { node.prev }
}

/// The node with another link to the next node, or to the one before.
pub open spec fn with_link<V>(node: Node<V>, forward: bool, link: Option<Gc<Node<V>>>) -> Node<V> {
    if forward { Node { next: link, ..node } } else { Node { prev: link, ..node } }
}

/// The state after a link of the node at `at` was replaced and the old link
/// dropped.
pub open spec fn link_set<V>(s: State, at: usize, node: Node<V>, forward: bool, link: Option<Gc<Node<V>>>) -> State {
    s.relinked(at, link_edges(link_of(node, forward)), with_link(node, forward, link).edges())
}

/// Replaces a link of the node at `at`. The old link is dropped.
fn set_link<V>(rt: &mut Runtime<Node<V>>, at: &Gc<Node<V>>, forward: bool, link: Option<Gc<Node<V>>>)
    requires
        old(rt).wf(),
        old(rt).model().filled(at.ptr()),
        covered(old(rt).model(), link_edges(link).push(at.ptr())),
    ensures
        final(rt).wf(),
        old(rt).idle() ==> final(rt).idle(),
        old(rt).item(at.ptr()) is Some,
        final(rt).state() == link_set(old(rt).state(), at.ptr(), old(rt).item(at.ptr())->0, forward, link),
        relinks(old(rt), final(rt), at.ptr(), with_link(old(rt).item(at.ptr())->0, forward, link)),
        kept_living(old(rt).state(), final(rt).state(), at.ptr()),
        forall|q: usize| #[trigger] final(rt).model().strong(q) <= old(rt).model().strong(q),
        forall|q: usize| #[trigger] final(rt).model().held(q) == old(rt).model().held(q) - occurrences(
            link_edges(link),
            q,
        ),
{
    let ghost p = at.ptr();
    let ghost before = *rt;
    let ghost s = rt.state();
    proof {
        rt.lemma_items();
        assert(rt.model().has(p));
    }
    let ghost node = rt.item(p)->0;
    let ghost now = with_link(node, forward, link);
    let ghost gone = link_edges(link_of(node, forward));
    let ghost other = link_edges(link_of(node, !forward));
    proof {
        assert(node.edges() == s.heap.edges(p));
        assert forall|q: usize| occurrences(s.heap.edges(p), q) + occurrences(link_edges(link), q) == occurrences(gone, q)
            + #[trigger] occurrences(now.edges(), q) by {
            lemma_occurrences_add(link_edges(node.next), link_edges(node.prev), q);
            lemma_occurrences_add(link_edges(now.next), link_edges(now.prev), q);
        }
        assert forall|q: usize| #[trigger] occurrences(gone, q) <= occurrences(s.heap.edges(p), q) by {
            lemma_occurrences_add(link_edges(node.next), link_edges(node.prev), q);
        }
        lemma_replacement(s, p, gone, link_edges(link), now.edges());
    }
    at.set(rt, |n: &mut Node<V>, b: &mut Runtime<Node<V>>| -> (u: ())
        requires *old(n) == node, lent(before, *old(b), p)
        ensures
            *final(n) == now,
            final(b).wf(),
            old(b).idle() ==> final(b).idle(),
            final(b).state() == old(b).state().drop_all(gone, false),
            final(b).loses_items(old(b))
        {
            let old_link = if forward { n.next.take() } else { n.prev.take() };
            if forward {
                n.next = link;
            } else {
                n.prev = link;
            }
            match old_link {
                Some(g) => {
                    proof {
                        lemma_link_occurrences(link_of(node, forward), g.ptr());
                        assert(covered(b.model(), gone));
                        assert(occurrences(gone, g.ptr()) <= b.model().held(g.ptr()));
                    }
                    g.drop(b)
                },
                None => {},
            }
        });
    assert(rt.state() == s.relinked(p, gone, now.edges()));
    assert forall|q: usize| rt.model().has(q) && q != p implies (#[trigger] rt.item(q)) is None || rt.item(q)
        == before.item(q) by {
        assert(s.heap.has(q));
    }
    proof {
        lemma_relinked_keeps(s, p, gone, now.edges());
        assert forall|q: usize| #[trigger] rt.model().strong(q) <= s.heap.strong(q) by {
            if s.heap.has(q) && rt.model().live(q) {
                assert(rt.model().obj(q).strong <= s.heap.obj(q).strong);
            }
        }
    }
}

/// Between two states: what the mutator still has a handle to keeps its
/// contents, except for the object at `at`.
pub open spec fn kept_living(a: State, b: State, at: usize) -> bool {
    &&& a.heap.objs.len() == b.heap.objs.len()
    &&& forall|q: usize| #[trigger] a.heap.has(q) && b.heap.live(q) ==> a.heap.live(q) && b.heap.obj(q).strong
        <= a.heap.obj(q).strong && (q != at ==> b.heap.obj(q).item == a.heap.obj(q).item)
    &&& b.heap.live(at)
}

proof fn lemma_relinked_keeps(s: State, p: usize, gone: Seq<usize>, now: Seq<usize>)
    requires
        s.wf(),
        s.heap.filled(p),
        covered(s.lent(p).heap, gone),
        s.lent(p).drop_all(gone, false).heap.objs.len() == s.heap.objs.len(),
        s.lent(p).drop_all(gone, false).heap.live(p),
    ensures
        kept_living(s, s.relinked(p, gone, now), p),
{
    let lent = s.lent(p);
    let mid = lent.drop_all(gone, false);
    let end = s.relinked(p, gone, now);
    lemma_lent_wf(s, p);
    assert forall|q: usize| #[trigger] s.heap.has(q) && end.heap.live(q) implies s.heap.live(q) && end.heap.obj(q).strong
        <= s.heap.obj(q).strong && (q != p ==> end.heap.obj(q).item == s.heap.obj(q).item) by {
        law_drop_keeps_the_living(lent, gone, false, q);
        lemma_drop_all_strong(lent, gone, q);
    }
}

/// The drop of handles adds none.
proof fn lemma_drop_all_strong(s: State, work: Seq<usize>, q: usize)
    requires
        s.heap.wf(),
        covered(s.heap, work),
        s.heap.has(q),
    ensures
        s.drop_all(work, false).heap.obj(q).strong <= s.heap.obj(q).strong,
    decreases s.heap.total(), work.len(),
{
    if work.len() > 0 {
        let p = work.last();
        lemma_drop_wf(s, work, false);
        lemma_drop_total(s, p, false);
        lemma_drop_all_strong(s.drop_one(p, false), work.drop_last() + s.unwrapped(p).reverse(), q);
    }
}

/// The state after a link was copied.
pub open spec fn link_cloned<V>(s: State, link: Option<Gc<Node<V>>>) -> State {
    match link {
        Some(g) => s.cloned(g.ptr()),
        None => s,
    }
}

/// A link can be copied.
pub open spec fn can_clone<V>(s: State, link: Option<Gc<Node<V>>>) -> bool {
    link matches Some(g) ==> s.heap.live(g.ptr()) && s.heap.strong(g.ptr()) < usize::MAX
}

proof fn lemma_cloned_held(s: State, p: usize, q: usize)
    requires
        s.heap.has(p),
    ensures
        s.cloned(p).heap.held(q) == s.heap.held(q) + one(p, q),
{
    lemma_internal_with(s.heap, p, s.cloned(p).heap.obj(p), q);
}

/// Copies a link.
fn copy_link<V>(rt: &mut Runtime<Node<V>>, link: &Option<Gc<Node<V>>>) -> (r: Option<Gc<Node<V>>>)
    requires
        old(rt).wf(),
        can_clone(old(rt).state(), *link),
    ensures
        final(rt).wf(),
        old(rt).idle() ==> final(rt).idle(),
        r == *link,
        final(rt).state() == link_cloned(old(rt).state(), *link),
        final(rt).keeps_items(old(rt)),
        forall|q: usize| #[trigger] final(rt).model().strong(q) <= old(rt).model().strong(q) + 1,
        forall|q: usize| #[trigger] final(rt).model().held(q) == old(rt).model().held(q) + occurrences(
            link_edges(*link),
            q,
        ),
{
    let ghost s = rt.state();
    match link {
        Some(g) => {
            let copy = g.clone(rt);
            proof {
                lemma_same_handle(copy, *g);
                assert forall|q: usize| #[trigger] rt.model().held(q)
                    == s.heap.held(q) + occurrences(link_edges(*link), q) by {
                    lemma_cloned_held(s, g.ptr(), q);
                    lemma_link_occurrences(*link, q);
                }
            }
            Some(copy)
        },
        None => {
            proof {
                assert forall|q: usize| #[trigger] rt.model().held(q)
                    == s.heap.held(q) + occurrences(link_edges(*link), q) by {
                    lemma_link_occurrences(*link, q);
                }
            }
            None
        },
    }
}

/// Between two states no object gained handles, and what is alive keeps its
/// contents.
pub open spec fn wears(a: State, b: State) -> bool {
    &&& a.heap.objs.len() == b.heap.objs.len()
    &&& forall|q: usize| #[trigger] a.heap.has(q) && b.heap.live(q) ==> a.heap.live(q) && b.heap.obj(q).strong
        <= a.heap.obj(q).strong && b.heap.obj(q).item == a.heap.obj(q).item
}

/// Drops a link.
fn drop_link<V>(rt: &mut Runtime<Node<V>>, link: Option<Gc<Node<V>>>)
    requires
        old(rt).wf(),
        covered(old(rt).model(), link_edges(link)),
    ensures
        final(rt).wf(),
        old(rt).idle() ==> final(rt).idle(),
        final(rt).state() == old(rt).state().drop_all(link_edges(link), false),
        final(rt).loses_items(old(rt)),
        wears(old(rt).state(), final(rt).state()),
        forall|q: usize| #[trigger] final(rt).model().strong(q) <= old(rt).model().strong(q),
        forall|q: usize| #[trigger] final(rt).model().held(q) == old(rt).model().held(q) - occurrences(
            link_edges(link),
            q,
        ),
{
    let ghost s = rt.state();
    let ghost work = link_edges(link);
    match link {
        Some(g) => {
            proof {
                lemma_link_occurrences(link, g.ptr());
                assert(occurrences(work, g.ptr()) <= s.heap.held(g.ptr()));
            }
            g.drop(rt);
        },
        None => {},
    }
    proof {
        assert(rt.state() == s.drop_all(work, false));
        lemma_drop_all_wf(s, work, false);
        assert forall|q: usize| #[trigger] s.heap.has(q) && rt.model().live(q) implies s.heap.live(q) && rt.model().obj(
            q,
        ).strong <= s.heap.obj(q).strong && rt.model().obj(q).item == s.heap.obj(q).item by {
            law_drop_keeps_the_living(s, work, false, q);
            lemma_drop_all_strong(s, work, q);
        }
        assert forall|q: usize| #[trigger] rt.model().held(q) == s.heap.held(q) - occurrences(work, q) by {
            lemma_drop_all_held(s, work, false, q);
        }
        assert forall|q: usize| #[trigger] rt.model().strong(q) <= s.heap.strong(q) by {
            if s.heap.has(q) && rt.model().live(q) {
                assert(rt.model().obj(q).strong <= s.heap.obj(q).strong);
            }
        }
    }
}

/// The state after a node was put at one end of a list: `near` is the node that
/// was at that end, `far` the one at the other, and `fresh` the new one.
pub open spec fn pushed<V>(
    rt: &Runtime<Node<V>>,
    near: Option<Gc<Node<V>>>,
    far: Option<Gc<Node<V>>>,
    fresh: Gc<Node<V>>,
    forward: bool,
) -> State {
    let made = link_cloned(rt.state(), near).allocated(Some(link_edges(near)));
    let linked = match near {
        Some(t) => link_set(made.cloned(fresh.ptr()), t.ptr(), rt.item(t.ptr())->0, forward, Some(fresh)),
        None => made,
    };
    let both = if far is None { linked.cloned(fresh.ptr()) } else { linked };
    both.drop_all(link_edges(near), false)
}

/// Puts a node at one end of a list. The handle to the node that was at that
/// end is dropped, and the one at the other end is kept; without one, the new
/// node is at both ends.
fn push_end<V>(
    rt: &mut Runtime<Node<V>>,
    near: Option<Gc<Node<V>>>,
    far: Option<Gc<Node<V>>>,
    val: V,
    forward: bool,
) -> (r: (Gc<Node<V>>, Option<Gc<Node<V>>>))
    requires
        old(rt).wf(),
        old(rt).model().objs.len() < usize::MAX - 1,
        covered(old(rt).model(), link_edges(near) + link_edges(far)),
        near matches Some(t) ==> old(rt).model().filled(t.ptr()) && old(rt).model().strong(t.ptr()) < usize::MAX,
    ensures
        final(rt).wf(),
        old(rt).idle() ==> final(rt).idle(),
        r.0.ptr() == old(rt).model().objs.len() + 1,
        r.1 == (if far is None { Some(r.0) } else { far }),
        final(rt).state() == pushed(old(rt), near, far, r.0, forward),
        final(rt).item(r.0.ptr()) == Some(with_link(Node { val, next: None, prev: None }, !forward, near)),
        near matches Some(t) ==> final(rt).item(t.ptr()) == Some(
            with_link(old(rt).item(t.ptr())->0, forward, Some(r.0)),
        ),
        forall|q: usize|
            old(rt).model().has(q) && !(near matches Some(t) && t.ptr() == q) ==> (#[trigger] final(rt).item(q)) is None
                || final(rt).item(q) == old(rt).item(q),
        forall|q: usize| #[trigger]
            old(rt).model().has(q) && final(rt).model().live(q) && !(near matches Some(t) && t.ptr() == q)
                ==> final(rt).model().obj(q).item == old(rt).model().obj(q).item,
        final(rt).model().live(r.0.ptr()),
        forall|q: usize| #[trigger] final(rt).model().held(q) == old(rt).model().held(q) - occurrences(
            link_edges(near),
            q,
        ) + (if q == r.0.ptr() {
            if far is None { 2int } else { 1 }
        } else {
            0
        }),
{
    let ghost start = *rt;
    let ghost m = rt.model();
    proof {
        rt.lemma_items();
        assert forall|q: usize| occurrences(link_edges(near), q) + occurrences(link_edges(far), q)
            <= #[trigger] m.held(q) by {
            lemma_occurrences_add(link_edges(near), link_edges(far), q);
            assert(occurrences(link_edges(near) + link_edges(far), q) <= m.held(q));
        }
    }
    let copy = copy_link(rt, &near);
    let ghost copied = *rt;
    let node = if forward {
        Node { val, next: None, prev: copy }
    } else {
        Node { val, next: copy, prev: None }
    };
    proof {
        assert(node.edges() =~= link_edges(near));
        assert forall|q: usize| occurrences(node.edges(), q) <= #[trigger] rt.model().held(q) by {
            assert(m.held(q) >= 0);
        }
    }
    let fresh = Gc::new(rt, node);
    let ghost p = fresh.ptr();
    let ghost made = *rt;
    proof {
        assert forall|q: usize| #[trigger] rt.model().held(q) == m.held(q) + one(q, p) by {
            lemma_internal_push(copied.model(), new_obj(Some(node.edges())), q);
            assert(copied.model().held(q) == m.held(q) + occurrences(link_edges(near), q));
            if copied.model().has(q) {
                assert(rt.model().obj(q) == copied.model().obj(q));
            }
        }
        assert(rt.model().obj(p) == new_obj(Some(node.edges())));
    }
    match &near {
        Some(t) => {
            let again = fresh.clone(rt);
            let ghost doubled = *rt;
            proof {
                lemma_same_handle(again, fresh);
                assert(m.has(t.ptr()));
                assert(copied.model().obj(t.ptr()).item == m.obj(t.ptr()).item);
                assert(doubled.model().filled(t.ptr()));
                assert(doubled.item(t.ptr()) == start.item(t.ptr()));
                assert forall|q: usize| occurrences(link_edges(Some(again)).push(t.ptr()), q)
                    <= #[trigger] doubled.model().held(q) by {
                    lemma_occurrences_push(link_edges(Some(again)), t.ptr(), q);
                    lemma_link_occurrences(Some(again), q);
                    lemma_link_occurrences(near, q);
                    lemma_cloned_held(made.state(), p, q);
                    assert(m.held(q) >= occurrences(link_edges(near), q) + occurrences(link_edges(far), q));
                }
            }
            set_link(rt, t, forward, Some(again));
            proof {
                assert forall|q: usize| #[trigger] rt.model().held(q) == m.held(q) + one(q, p) by {
                    lemma_link_occurrences(Some(again), q);
                    lemma_cloned_held(made.state(), p, q);
                }
                rt.lemma_items();
                assert(doubled.model().has(p));
                assert(m.held(p) >= 0);
                assert(rt.model().held(p) > 0);
                assert(rt.model().live(p));
                assert(rt.item(p) == Some(node)) by {
                    assert(rt.model().obj(p).item == doubled.model().obj(p).item);
                    assert(rt.model().has(p));
                }
            }
        },
        None => {},
    }
    let ghost linked = *rt;
    proof {
        assert(rt.item(p) == Some(node));
        assert(rt.model().has(p));
        assert(rt.model().live(p));
        assert forall|q: usize| m.has(q) && !(near matches Some(t) && t.ptr() == q) implies (#[trigger] rt.item(q)) is None
            || rt.item(q) == start.item(q) by {
            assert(copied.model().has(q) && made.model().has(q));
        }
    }
    let other = match far {
        None => {
            assert(rt.model().strong(p) <= 2);
            let copy = fresh.clone(rt);
            proof {
                lemma_same_handle(copy, fresh);
            }
            Some(copy)
        },
        Some(f) => Some(f),
    };
    let ghost full = *rt;
    proof {
        assert forall|q: usize| #[trigger] rt.model().held(q) == m.held(q) + (if q == p {
            if far is None { 2int } else { 1 }
        } else {
            0
        }) by {
            if far is None {
                lemma_cloned_held(linked.state(), p, q);
            }
        }
        assert forall|q: usize| occurrences(link_edges(near), q) <= #[trigger] rt.model().held(q) by {
            assert(m.held(q) >= occurrences(link_edges(near), q) + occurrences(link_edges(far), q));
        }
    }
    drop_link(rt, near);
    proof {
        rt.lemma_items();
        full.lemma_items();
        assert(full.model().has(p) && rt.model().has(p));
        lemma_link_occurrences(near, p);
        if near is Some {
            assert(near->0.ptr() != p);
        }
        assert(rt.model().held(p) > 0);
        assert(rt.model().live(p));
        assert(rt.item(p) == Some(node));
        if near is Some {
            let t = near->0.ptr();
            assert(full.model().has(t));
            assert(rt.model().edges(p) =~= link_edges(near));
            assert(link_edges(near)[0] == t);
            assert(rt.model().edges(p).contains(t));
            lemma_edge_live(rt.model(), p, t);
        }
        assert forall|q: usize| #[trigger] m.has(q) && rt.model().live(q) && !(near matches Some(t) && t.ptr() == q)
            implies rt.model().obj(q).item == m.obj(q).item by {
            assert(copied.model().has(q) && made.model().has(q) && linked.model().has(q) && full.model().has(q));
            assert(copied.model().obj(q).item == m.obj(q).item);
            assert(made.model().obj(q) == copied.model().obj(q));
            assert(full.model().obj(q).item == linked.model().obj(q).item);
            assert(linked.model().live(q));
        }
    }
    (fresh, other)
}

/// The node at a place of a list, if the list goes that far.
pub open spec fn place<V>(nodes: Seq<Gc<Node<V>>>, i: int) -> Option<Gc<Node<V>>> {
    if 0 <= i < nodes.len() { Some(nodes[i]) } else { None }
}

/// The contents of the node at a place of a list: its value, and links to the
/// places next to it.
pub open spec fn placed<V>(nodes: Seq<Gc<Node<V>>>, vals: Seq<V>, i: int) -> Node<V> {
    Node { val: vals[i], next: place(nodes, i + 1), prev: place(nodes, i - 1) }
}

/// The list consists of `nodes`, from its head to its tail, and they hold `vals`.
/// Each node is linked with the ones next to it, and no node is there twice.
pub open spec fn holds<V>(rt: &Runtime<Node<V>>, list: List<V>, nodes: Seq<Gc<Node<V>>>, vals: Seq<V>) -> bool {
    &&& nodes.len() == list.len
    &&& vals.len() == list.len
    &&& list.head == place(nodes, 0)
    &&& list.tail == place(nodes, nodes.len() - 1)
    &&& forall|i: int|
        0 <= i < nodes.len() ==> rt.model().filled((#[trigger] nodes[i]).ptr()) && rt.item(nodes[i].ptr()) == Some(
            placed(nodes, vals, i),
        )
    &&& forall|i: int, j: int| 0 <= i < j < nodes.len() ==> (#[trigger] nodes[i]).ptr() != (#[trigger] nodes[j]).ptr()
}

/// If one node of a list is alive, so are those that it is linked with, and so
/// on to both ends.
proof fn lemma_alive_along<V>(rt: &Runtime<Node<V>>, nodes: Seq<Gc<Node<V>>>, vals: Seq<V>, k: int, i: int)
    requires
        rt.wf(),
        0 <= k < nodes.len(),
        0 <= i < nodes.len(),
        rt.model().live(nodes[k].ptr()),
        forall|j: int|
            0 <= j < nodes.len() && rt.model().live((#[trigger] nodes[j]).ptr()) ==> rt.model().filled(nodes[j].ptr())
                && rt.item(nodes[j].ptr()) == Some(placed(nodes, vals, j)),
    ensures
        rt.model().live(nodes[i].ptr()),
    decreases (if i < k { k - i } else { i - k }),
{
    if i < k {
        lemma_alive_along(rt, nodes, vals, k, i + 1);
        lemma_link_live(rt, nodes[i + 1].ptr(), false);
    } else if k < i {
        lemma_alive_along(rt, nodes, vals, k, i - 1);
        lemma_link_live(rt, nodes[i - 1].ptr(), true);
    }
}

/// A list holds what it is said to hold if its nodes do so far as they are
/// alive, and one of them is.
proof fn lemma_holds<V>(rt: &Runtime<Node<V>>, list: List<V>, nodes: Seq<Gc<Node<V>>>, vals: Seq<V>, k: int)
    requires
        rt.wf(),
        nodes.len() == list.len,
        vals.len() == list.len,
        list.head == place(nodes, 0),
        list.tail == place(nodes, nodes.len() - 1),
        0 <= k < nodes.len(),
        rt.model().live(nodes[k].ptr()),
        forall|j: int|
            0 <= j < nodes.len() && rt.model().live((#[trigger] nodes[j]).ptr()) ==> rt.model().filled(nodes[j].ptr())
                && rt.item(nodes[j].ptr()) == Some(placed(nodes, vals, j)),
        forall|i: int, j: int| 0 <= i < j < nodes.len() ==> (#[trigger] nodes[i]).ptr() != (#[trigger] nodes[j]).ptr(),
    ensures
        holds(rt, list, nodes, vals),
{
    assert forall|i: int| 0 <= i < nodes.len() implies rt.model().filled((#[trigger] nodes[i]).ptr()) && rt.item(
        nodes[i].ptr(),
    ) == Some(placed(nodes, vals, i)) by {
        lemma_alive_along(rt, nodes, vals, k, i);
    }
}

/// A list without nodes holds nothing.
pub proof fn law_new_list_is_empty<V>(rt: &Runtime<Node<V>>)
    ensures
        holds(rt, (List::<V> { head: None, tail: None, len: 0 }), seq![], seq![]),
{
}

/// The nodes of a list are linked both ways, from its head to its tail: each one
/// holds its value and leads to the one after it and to the one before it, and at
/// the ends there is none to lead to. The length is the number of nodes.
pub proof fn law_list_is_linked_both_ways<V>(
    rt: &Runtime<Node<V>>,
    list: List<V>,
    nodes: Seq<Gc<Node<V>>>,
    vals: Seq<V>,
    i: int,
)
    requires
        holds(rt, list, nodes, vals),
        0 <= i < nodes.len(),
    ensures
        list.len == nodes.len(),
        list.len == vals.len(),
        list.head == Some(nodes[0]),
        list.tail == Some(nodes[nodes.len() - 1]),
        rt.model().filled(nodes[i].ptr()),
        rt.item(nodes[i].ptr()) is Some,
        rt.item(nodes[i].ptr())->0.val == vals[i],
        i + 1 < nodes.len() ==> rt.item(nodes[i].ptr())->0.next == Some(nodes[i + 1]),
        i + 1 == nodes.len() ==> rt.item(nodes[i].ptr())->0.next is None,
        i > 0 ==> rt.item(nodes[i].ptr())->0.prev == Some(nodes[i - 1]),
        i == 0 ==> rt.item(nodes[i].ptr())->0.prev is None,
        forall|j: int| 0 <= j < nodes.len() && j != i ==> (#[trigger] nodes[j]).ptr() != nodes[i].ptr(),
{
    assert(rt.item(nodes[i].ptr()) == Some(placed(nodes, vals, i)));
}

/// A walk goes from node to node: it starts where it is told to, and the node
/// that one step more leads to is always the one that is linked as the next.
/// From the last node it leads to none.
pub proof fn law_walk_follows_the_links<V>(rt: &Runtime<Node<V>>, from: Option<Gc<Node<V>>>, i: nat)
    ensures
        walk(rt, from, 0) == from,
        walk(rt, from, i) matches Some(g) ==> rt.model().filled(g.ptr()) ==> walk(rt, from, i + 1) == rt.item(
            g.ptr(),
        )->0.next,
        walk(rt, from, i) matches Some(g) ==> !rt.model().filled(g.ptr()) ==> walk(rt, from, i + 1) is None,
        walk(rt, from, i) is None ==> walk(rt, from, i + 1) is None,
{
}

/// Going on from where a walk has led is the same as going all the way.
pub proof fn law_walks_add_up<V>(rt: &Runtime<Node<V>>, from: Option<Gc<Node<V>>>, i: nat, j: nat)
    ensures
        walk(rt, walk(rt, from, i), j) == walk(rt, from, i + j),
    decreases j,
{
    if j > 0 {
        law_walks_add_up(rt, from, i, (j - 1) as nat);
    }
}

/// What [`List::get`] gives on a list is the node at that place, which holds the
/// value at that place; behind the end of the list there is none.
pub proof fn law_get_gives_what_is_there<V>(
    rt: &Runtime<Node<V>>,
    list: List<V>,
    nodes: Seq<Gc<Node<V>>>,
    vals: Seq<V>,
    i: nat,
)
    requires
        holds(rt, list, nodes, vals),
    ensures
        walk(rt, list.head, i) is Some <==> i < list.len,
        i < list.len ==> walk(rt, list.head, i) == Some(nodes[i as int]),
        i < list.len ==> rt.item(walk(rt, list.head, i)->0.ptr()) is Some,
        i < list.len ==> rt.item(walk(rt, list.head, i)->0.ptr())->0.val == vals[i as int],
    decreases i,
{
    if i > 0 {
        law_get_gives_what_is_there(rt, list, nodes, vals, (i - 1) as nat);
        if i <= list.len {
            assert(rt.item(nodes[i - 1].ptr()) == Some(placed(nodes, vals, i - 1)));
        }
    }
    if i < list.len {
        assert(rt.item(nodes[i as int].ptr()) == Some(placed(nodes, vals, i as int)));
    }
}

/// A node that was put at one end of a list is there, linked with the one that
/// was at that end, and all other nodes are where they were.
proof fn lemma_push_holds<V>(
    before: &Runtime<Node<V>>,
    after: &Runtime<Node<V>>,
    list: List<V>,
    now: List<V>,
    nodes: Seq<Gc<Node<V>>>,
    vals: Seq<V>,
    fresh: Gc<Node<V>>,
    val: V,
    forward: bool,
)
    requires
        after.wf(),
        holds(before, list, nodes, vals),
        now.len == list.len + 1,
        fresh.ptr() == before.model().objs.len() + 1,
        after.model().live(fresh.ptr()),
        ({
            let near = if forward { list.tail } else { list.head };
            let far = if forward { list.head } else { list.tail };
            let other = if far is None { Some(fresh) } else { far };
            &&& (if forward { now.tail } else { now.head }) == Some(fresh)
            &&& (if forward { now.head } else { now.tail }) == other
            &&& after.item(fresh.ptr()) == Some(with_link(Node { val, next: None, prev: None }, !forward, near))
            &&& near matches Some(t) ==> after.item(t.ptr()) == Some(
                with_link(before.item(t.ptr())->0, forward, Some(fresh)),
            )
            &&& forall|q: usize|
                before.model().has(q) && !(near matches Some(t) && t.ptr() == q) ==> (#[trigger] after.item(q)) is None
                    || after.item(q) == before.item(q)
            &&& forall|q: usize| #[trigger]
                before.model().has(q) && after.model().live(q) && !(near matches Some(t) && t.ptr() == q)
                    ==> after.model().obj(q).item == before.model().obj(q).item
        }),
    ensures
        forward ==> holds(after, now, nodes.push(fresh), vals.push(val)),
        !forward ==> holds(after, now, seq![fresh] + nodes, seq![val] + vals),
{
    let n = nodes.len();
    let all = if forward { nodes.push(fresh) } else { seq![fresh] + nodes };
    let held = if forward { vals.push(val) } else { seq![val] + vals };
    let off: int = if forward { 0 } else { 1 };
    let k: int = if forward { n as int } else { 0 };
    after.lemma_items();
    assert(all[k] == fresh && held[k] == val);
    assert forall|i: int| 0 <= i < n implies all[i + off] == #[trigger] nodes[i] && held[i + off] == vals[i] by {}
    assert forall|j: int| 0 <= j < all.len() && after.model().live((#[trigger] all[j]).ptr()) implies after.model().filled(
        all[j].ptr(),
    ) && after.item(all[j].ptr()) == Some(placed(all, held, j)) by {
        if j == k {
            assert(after.model().has(fresh.ptr()));
            if n > 0 {
                assert(all[if forward { n - 1 } else { 1int }] == nodes[if forward { n - 1 } else { 0int }]);
            }
        } else {
            let i = j - off;
            let q = nodes[i].ptr();
            assert(all[j] == nodes[i]);
            assert(before.model().filled(q) && before.item(q) == Some(placed(nodes, vals, i)));
            assert(after.model().has(q));
            assert(place(all, j + 1) == (if j + 1 == k { Some(fresh) } else { place(nodes, i + 1) }));
            assert(place(all, j - 1) == (if j - 1 == k { Some(fresh) } else { place(nodes, i - 1) }));
            let end: int = if forward { n - 1 } else { 0 };
            if i != end {
                assert(nodes[end].ptr() != q);
                lemma_item_kept(before, after, q);
            }
        }
    }
    assert forall|i: int, j: int| 0 <= i < j < all.len() implies (#[trigger] all[i]).ptr() != (#[trigger] all[j]).ptr() by {
        if i != k {
            assert(all[i] == nodes[i - off]);
            assert(before.model().filled(nodes[i - off].ptr()));
        }
        if j != k {
            assert(all[j] == nodes[j - off]);
            assert(before.model().filled(nodes[j - off].ptr()));
        }
    }
    lemma_holds(after, now, all, held, k);
}

impl<V> List<V> {
    /// The addresses of the handles of the list.
    pub open spec fn edges(&self) -> Seq<usize> {
        link_edges(self.head) + link_edges(self.tail)
    }

    /// An empty list.
    pub fn new() -> (r: Self)
        ensures
            r == (List::<V> { head: None, tail: None, len: 0 }),
    {
        List { head: None, tail: None, len: 0 }
    }

    /// Puts a value before all others.
    pub fn push_head(&mut self, rt: &mut Runtime<Node<V>>, val: V)
        requires
            old(rt).wf(),
            old(rt).model().objs.len() < usize::MAX - 1,
            covered(old(rt).model(), old(self).edges()),
            old(self).head matches Some(h) ==> old(rt).model().filled(h.ptr()) && old(rt).model().strong(h.ptr())
                < usize::MAX,
            old(self).len < usize::MAX,
        ensures
            final(rt).wf(),
            old(rt).idle() ==> final(rt).idle(),
            final(self).len == old(self).len + 1,
            final(self).head is Some,
            ({
                let fresh = final(self).head->0;
                &&& fresh.ptr() == old(rt).model().objs.len() + 1
                &&& final(self).tail == (if old(self).tail is None { Some(fresh) } else { old(self).tail })
                &&& final(rt).state() == pushed(old(rt), old(self).head, old(self).tail, fresh, false)
                &&& final(rt).item(fresh.ptr()) == Some(Node { val, next: old(self).head, prev: None })
                &&& old(self).head matches Some(h) ==> final(rt).item(h.ptr()) == Some(
                    (Node { prev: Some(fresh), ..old(rt).item(h.ptr())->0 }),
                )
            }),
            forall|q: usize|
                old(rt).model().has(q) && !(old(self).head matches Some(h) && h.ptr() == q)
                    ==> (#[trigger] final(rt).item(q)) is None
                    || final(rt).item(q) == old(rt).item(q),
            forall|q: usize| #[trigger] final(rt).model().held(q) == old(rt).model().held(q) - occurrences(
                old(self).edges(),
                q,
            ) + occurrences(final(self).edges(), q),
            forall|nodes: Seq<Gc<Node<V>>>, vals: Seq<V>| #[trigger]
                holds(old(rt), *old(self), nodes, vals) ==> holds(
                    final(rt),
                    *final(self),
                    seq![final(self).head->0] + nodes,
                    seq![val] + vals,
                ),
    {
        let ghost before = *self;
        let ghost start = *rt;
        let near = self.head.take();
        let far = self.tail.take();
        let (fresh, other) = push_end(rt, near, far, val, false);
        self.head = Some(fresh);
        self.tail = other;
        self.len = self.len + 1;
        proof {
            assert forall|nodes: Seq<Gc<Node<V>>>, vals: Seq<V>| #[trigger] holds(&start, before, nodes, vals) implies holds(
                rt,
                *self,
                seq![self.head->0] + nodes,
                seq![val] + vals,
            ) by {
                lemma_push_holds(&start, rt, before, *self, nodes, vals, fresh, val, false);
            }
            assert forall|q: usize| occurrences(self.edges(), q) - occurrences(before.edges(), q) == (if q
                == fresh.ptr() {
                if far is None { 2int } else { 1 }
            } else {
                0
            }) - #[trigger] occurrences(link_edges(near), q) by {
                lemma_occurrences_add(link_edges(self.head), link_edges(self.tail), q);
                lemma_occurrences_add(link_edges(near), link_edges(far), q);
                lemma_link_occurrences(self.head, q);
                lemma_link_occurrences(self.tail, q);
                lemma_link_occurrences(far, q);
            }
        }
    }

    /// Puts a value after all others.
    pub fn push_tail(&mut self, rt: &mut Runtime<Node<V>>, val: V)
        requires
            old(rt).wf(),
            old(rt).model().objs.len() < usize::MAX - 1,
            covered(old(rt).model(), old(self).edges()),
            old(self).tail matches Some(t) ==> old(rt).model().filled(t.ptr()) && old(rt).model().strong(t.ptr())
                < usize::MAX,
            old(self).len < usize::MAX,
        ensures
            final(rt).wf(),
            old(rt).idle() ==> final(rt).idle(),
            final(self).len == old(self).len + 1,
            final(self).tail is Some,
            ({
                let fresh = final(self).tail->0;
                &&& fresh.ptr() == old(rt).model().objs.len() + 1
                &&& final(self).head == (if old(self).head is None { Some(fresh) } else { old(self).head })
                &&& final(rt).state() == pushed(old(rt), old(self).tail, old(self).head, fresh, true)
                &&& final(rt).item(fresh.ptr()) == Some(Node { val, next: None, prev: old(self).tail })
                &&& old(self).tail matches Some(t) ==> final(rt).item(t.ptr()) == Some(
                    (Node { next: Some(fresh), ..old(rt).item(t.ptr())->0 }),
                )
            }),
            forall|q: usize|
                old(rt).model().has(q) && !(old(self).tail matches Some(t) && t.ptr() == q)
                    ==> (#[trigger] final(rt).item(q)) is None
                    || final(rt).item(q) == old(rt).item(q),
            forall|q: usize| #[trigger] final(rt).model().held(q) == old(rt).model().held(q) - occurrences(
                old(self).edges(),
                q,
            ) + occurrences(final(self).edges(), q),
            forall|nodes: Seq<Gc<Node<V>>>, vals: Seq<V>| #[trigger]
                holds(old(rt), *old(self), nodes, vals) ==> holds(
                    final(rt),
                    *final(self),
                    nodes.push(final(self).tail->0),
                    vals.push(val),
                ),
    {
        let ghost before = *self;
        let ghost start = *rt;
        let near = self.tail.take();
        let far = self.head.take();
        proof {
            assert forall|q: usize| occurrences(link_edges(near) + link_edges(far), q) <= #[trigger] rt.model().held(q) by {
                lemma_occurrences_add(link_edges(near), link_edges(far), q);
                lemma_occurrences_add(link_edges(far), link_edges(near), q);
                assert(occurrences(before.edges(), q) <= rt.model().held(q));
            }
        }
        let (fresh, other) = push_end(rt, near, far, val, true);
        self.tail = Some(fresh);
        self.head = other;
        self.len = self.len + 1;
        proof {
            assert forall|nodes: Seq<Gc<Node<V>>>, vals: Seq<V>| #[trigger] holds(&start, before, nodes, vals) implies holds(
                rt,
                *self,
                nodes.push(self.tail->0),
                vals.push(val),
            ) by {
                lemma_push_holds(&start, rt, before, *self, nodes, vals, fresh, val, true);
            }
            assert forall|q: usize| occurrences(self.edges(), q) - occurrences(before.edges(), q) == (if q
                == fresh.ptr() {
                if far is None { 2int } else { 1 }
            } else {
                0
            }) - #[trigger] occurrences(link_edges(near), q) by {
                lemma_occurrences_add(link_edges(self.head), link_edges(self.tail), q);
                lemma_occurrences_add(link_edges(far), link_edges(near), q);
                lemma_link_occurrences(self.head, q);
                lemma_link_occurrences(self.tail, q);
                lemma_link_occurrences(far, q);
            }
        }
    }

    /// A handle to the first node.
    pub fn get_head(&self, rt: &mut Runtime<Node<V>>) -> (r: Option<Gc<Node<V>>>)
        requires
            old(rt).wf(),
            can_clone(old(rt).state(), self.head),
        ensures
            final(rt).wf(),
            old(rt).idle() ==> final(rt).idle(),
            r == self.head,
            final(rt).state() == link_cloned(old(rt).state(), self.head),
            final(rt).keeps_items(old(rt)),
            forall|q: usize| #[trigger] final(rt).model().held(q) == old(rt).model().held(q) + occurrences(
                link_edges(self.head),
                q,
            ),
    {
        copy_link(rt, &self.head)
    }

    /// Drops the handles of the list. Its nodes stay: they keep one another
    /// alive.
    pub fn drop(self, rt: &mut Runtime<Node<V>>)
        requires
            old(rt).wf(),
            covered(old(rt).model(), self.edges()),
        ensures
            final(rt).wf(),
            old(rt).idle() ==> final(rt).idle(),
            final(rt).state() == old(rt).state().drop_all(link_edges(self.head), false).drop_all(
                link_edges(self.tail),
                false,
            ),
            final(rt).loses_items(old(rt)),
            forall|q: usize| #[trigger] final(rt).model().held(q) == old(rt).model().held(q) - occurrences(
                self.edges(),
                q,
            ),
    {
        let ghost before = *rt;
        proof {
            assert forall|q: usize| occurrences(link_edges(self.head), q) + occurrences(link_edges(self.tail), q)
                <= #[trigger] rt.model().held(q) by {
                lemma_occurrences_add(link_edges(self.head), link_edges(self.tail), q);
                assert(occurrences(self.edges(), q) <= rt.model().held(q));
            }
        }
        let ghost head = link_edges(self.head);
        let ghost tail = link_edges(self.tail);
        let ghost all = self.edges();
        drop_link(rt, self.head);
        let ghost half = *rt;
        proof {
            assert forall|q: usize| occurrences(tail, q) <= #[trigger] rt.model().held(q) by {
                assert(before.model().held(q) >= occurrences(head, q) + occurrences(tail, q));
            }
        }
        drop_link(rt, self.tail);
        proof {
            assert forall|q: usize| #[trigger] rt.model().held(q) == before.model().held(q) - occurrences(all, q) by {
                lemma_occurrences_add(head, tail, q);
                assert(half.model().held(q) == before.model().held(q) - occurrences(head, q));
            }
        }
    }
}

/// Copies a link out of the node at `at`.
fn clone_link<V>(rt: &mut Runtime<Node<V>>, at: &Gc<Node<V>>, forward: bool) -> (r: Option<Gc<Node<V>>>)
    requires
        old(rt).wf(),
        old(rt).model().filled(at.ptr()),
        forall|q: usize| #[trigger] old(rt).model().strong(q) < usize::MAX,
    ensures
        final(rt).wf(),
        old(rt).idle() ==> final(rt).idle(),
        old(rt).item(at.ptr()) is Some,
        r == link_of(old(rt).item(at.ptr())->0, forward),
        final(rt).state() == link_cloned(old(rt).state(), r),
        final(rt).keeps_items(old(rt)),
        forall|q: usize| #[trigger] final(rt).model().strong(q) <= old(rt).model().strong(q) + 1,
        forall|q: usize| #[trigger] final(rt).model().held(q) == old(rt).model().held(q) + occurrences(link_edges(r), q),
{
    let ghost s = rt.state();
    let ghost p = at.ptr();
    proof {
        rt.lemma_items();
        assert(rt.model().has(p));
    }
    let ghost node = rt.item(p)->0;
    let found = at.get(rt, |n: &Node<V>| -> (r: Option<usize>)
        ensures r == (match link_of(*n, forward) { Some(g) => Some(g.ptr()), None => None::<usize> })
        {
            match if forward { &n.next } else { &n.prev } {
                Some(g) => Some(g.as_ptr()),
                None => None,
            }
        });
    match found {
        Some(q) => {
            proof {
                assert(s.heap.edges(p) == node.edges());
                assert(link_edges(node.next) + link_edges(node.prev) == node.edges());
                lemma_link_occurrences(link_of(node, forward), q);
                lemma_occurrences_add(link_edges(node.next), link_edges(node.prev), q);
                lemma_occurs(node.edges(), q);
                lemma_edge_live(s.heap, p, q);
                assert(s.heap.strong(q) < usize::MAX);
            }
            let g = Gc::another(rt, q);
            proof {
                lemma_same_handle(g, link_of(node, forward)->0);
                assert forall|x: usize| #[trigger] rt.model().held(x) == s.heap.held(x) + occurrences(
                    link_edges(Some(g)),
                    x,
                ) by {
                    lemma_cloned_held(s, q, x);
                    lemma_link_occurrences(Some(g), x);
                }
            }
            Some(g)
        },
        None => {
            proof {
                assert forall|x: usize| #[trigger] rt.model().held(x) == s.heap.held(x) + occurrences(
                    link_edges(None::<Gc<Node<V>>>),
                    x,
                ) by {
                    lemma_link_occurrences(None::<Gc<Node<V>>>, x);
                }
            }
            None
        },
    }
}

/// The node that is reached from `from` by `i` links to the next node, if there
/// is one.
pub open spec fn walk<V>(rt: &Runtime<Node<V>>, from: Option<Gc<Node<V>>>, i: nat) -> Option<Gc<Node<V>>>
    decreases i,
{
    if i == 0 {
        from
    } else {
        match walk(rt, from, (i - 1) as nat) {
            Some(g) => if rt.model().filled(g.ptr()) { rt.item(g.ptr())->0.next } else { None },
            None => None,
        }
    }
}

proof fn lemma_walk_prefix<V>(rt: &Runtime<Node<V>>, from: Option<Gc<Node<V>>>, k: nat, i: nat)
    requires
        k <= i,
        walk(rt, from, i) is Some,
    ensures
        walk(rt, from, k) is Some,
        k < i ==> rt.model().filled(walk(rt, from, k)->0.ptr()),
    decreases i - k,
{
    if k < i {
        lemma_walk_prefix(rt, from, k + 1, i);
    }
}

/// The node at `q` is one of the first `i` on the walk.
pub open spec fn passed<V>(rt: &Runtime<Node<V>>, from: Option<Gc<Node<V>>>, i: nat, q: usize) -> bool {
    exists|j: nat| j < i && (#[trigger] walk(rt, from, j))->0.ptr() == q
}

/// The state after a walk: there is one more handle to the node at its end, and
/// the nodes that were passed are deferred, and marked dirty if the collector
/// has visited them.
pub open spec fn walked<V>(rt: &Runtime<Node<V>>, from: Option<Gc<Node<V>>>, i: nat) -> State {
    let m = rt.model();
    State {
        heap: Model {
            objs: Seq::new(m.objs.len(), |x: int| Obj {
                strong: m.objs[x].strong + one((x + 1) as usize, walk(rt, from, i)->0.ptr()),
                bits: if passed(rt, from, i, (x + 1) as usize) { dirtied(m.objs[x].bits) } else { m.objs[x].bits },
                ..m.objs[x]
            }),
        },
        queue: rt.state().queue + Seq::new(i, |j: int| Soul::Died(WeakRoot { ptr: walk(rt, from, j as nat)->0.ptr() })),
        ..rt.state()
    }
}

/// A walk gives the mutator a handle to the node at its end.
proof fn lemma_walked_held<V>(rt: &Runtime<Node<V>>, from: Option<Gc<Node<V>>>, i: nat, q: usize)
    requires
        rt.model().has(walk(rt, from, i)->0.ptr()),
        rt.wf(),
    ensures
        walked(rt, from, i).heap.held(q) == rt.model().held(q) + one(q, walk(rt, from, i)->0.ptr()),
{
    let m = rt.model();
    let n = walked(rt, from, i).heap;
    lemma_sum_same(
        m.objs.len(),
        |x: int| occurrences(m.objs[x].edges(), q),
        |x: int| occurrences(n.objs[x].edges(), q),
    );
}

/// One step more on a walk passes the node that it was at.
proof fn lemma_passed<V>(rt: &Runtime<Node<V>>, from: Option<Gc<Node<V>>>, i: nat, q: usize)
    ensures
        passed(rt, from, i + 1, q) <==> passed(rt, from, i, q) || walk(rt, from, i)->0.ptr() == q,
{
    if passed(rt, from, i + 1, q) {
        let j = choose|j: nat| j < i + 1 && (#[trigger] walk(rt, from, j))->0.ptr() == q;
        if j < i {
            assert(passed(rt, from, i, q));
        }
    }
    if passed(rt, from, i, q) {
        let j = choose|j: nat| j < i && (#[trigger] walk(rt, from, j))->0.ptr() == q;
        assert(j < i + 1 && walk(rt, from, j)->0.ptr() == q);
    }
}

impl<V> List<V> {
    /// A handle to the node with the given number of nodes before it. There
    /// must be one.
    pub fn get(&self, rt: &mut Runtime<Node<V>>, i: usize) -> (r: Gc<Node<V>>)
        requires
            old(rt).wf(),
            covered(old(rt).model(), link_edges(self.head)),
            walk(old(rt), self.head, i as nat) is Some,
            forall|q: usize| #[trigger] old(rt).model().strong(q) < usize::MAX - 1,
        ensures
            final(rt).wf(),
            old(rt).idle() ==> final(rt).idle(),
            Some(r) == walk(old(rt), self.head, i as nat),
            final(rt).state() == walked(old(rt), self.head, i as nat),
            final(rt).keeps_items(old(rt)),
            forall|q: usize| #[trigger] final(rt).model().held(q) == old(rt).model().held(q) + one(q, r.ptr()),
            forall|nodes: Seq<Gc<Node<V>>>, vals: Seq<V>| #[trigger]
                holds(old(rt), *self, nodes, vals) ==> i < self.len && r == nodes[i as int] && final(rt).item(r.ptr()) is Some
                    && final(rt).item(r.ptr())->0.val == vals[i as int] && holds(final(rt), *self, nodes, vals),
    {
        let ghost start = *rt;
        let ghost s = rt.state();
        proof {
            lemma_walk_prefix(rt, self.head, 0, i as nat);
            lemma_link_occurrences(self.head, self.head->0.ptr());
            assert(occurrences(link_edges(self.head), self.head->0.ptr()) <= rt.model().held(self.head->0.ptr()));
            assert(s.heap.strong(self.head->0.ptr()) < usize::MAX - 1);
        }
        let mut cur = match copy_link(rt, &self.head) {
            Some(g) => g,
            None => vstd::pervasive::unreached(),
        };
        proof {
            assert(rt.state().queue =~= walked(&start, self.head, 0).queue);
            assert forall|q: usize| !passed(&start, self.head, 0, q) by {}
            assert(rt.model().objs =~= walked(&start, self.head, 0).heap.objs);
        }
        let mut k: usize = 0;
        while k < i
            invariant
                k <= i,
                rt.wf(),
                start.wf(),
                start.idle() ==> rt.idle(),
                s == start.state(),
                walk(&start, self.head, i as nat) is Some,
                forall|q: usize| #[trigger] s.heap.strong(q) < usize::MAX - 1,
                Some(cur) == walk(&start, self.head, k as nat),
                rt.state() == walked(&start, self.head, k as nat),
                rt.keeps_items(&start),
                s.heap.live(cur.ptr()),
            decreases i - k,
        {
            let ghost here = *rt;
            let ghost a = cur.ptr();
            proof {
                lemma_walk_prefix(&start, self.head, k as nat, i as nat);
                lemma_walk_prefix(&start, self.head, (k + 1) as nat, i as nat);
                assert(here.model().filled(a));
                start.lemma_items();
                assert(start.model().has(a));
                assert forall|q: usize| #[trigger] here.model().strong(q) < usize::MAX by {
                    assert(s.heap.strong(q) < usize::MAX - 1);
                }
            }
            let next = match clone_link(rt, &cur, true) {
                Some(g) => g,
                None => {
                    assert(here.item(a) == start.item(a));
                    vstd::pervasive::unreached()
                },
            };
            let ghost b = next.ptr();
            proof {
                assert(here.item(a) == start.item(a));
                assert(Some(next) == walk(&start, self.head, (k + 1) as nat));
                let node = start.item(a)->0;
                assert(s.heap.edges(a) == node.edges());
                lemma_link_occurrences(node.next, b);
                lemma_occurrences_add(link_edges(node.next), link_edges(node.prev), b);
                lemma_occurs(node.edges(), b);
                lemma_edge_live(s.heap, a, b);
                assert(here.model().has(a));
                assert(rt.model().has(a));
                assert(rt.model().obj(a).strong > 1);
                lemma_drop_among_others(rt.state(), a, false);
                assert(rt.model().held(a) > 0) by {
                    lemma_walked_held(&start, self.head, k as nat, a);
                    assert(s.heap.held(a) >= 0);
                    assert(rt.model().held(a) == here.model().held(a) + occurrences(link_edges(Some(next)), a));
                }
            }
            let ghost doubled = *rt;
            cur.drop(rt);
            proof {
                let end = walked(&start, self.head, (k + 1) as nat);
                assert forall|q: usize| passed(&start, self.head, (k + 1) as nat, q) <==> passed(
                    &start,
                    self.head,
                    k as nat,
                    q,
                ) || q == a by {
                    lemma_passed(&start, self.head, k as nat, q);
                }
                assert(rt.state().queue =~= end.queue);
                assert(rt.model().objs =~= end.heap.objs);
                rt.lemma_items();
                start.lemma_items();
                assert forall|q: usize| rt.model().has(q) implies #[trigger] rt.item(q) == start.item(q) by {
                    assert(start.model().has(q));
                    assert(rt.model().obj(q).item == start.model().obj(q).item);
                    assert(doubled.item(q) == here.item(q));
                    assert(here.item(q) == start.item(q));
                }
            }
            cur = next;
            k += 1;
        }
        proof {
            assert(s.heap.has(cur.ptr()));
            assert forall|q: usize| #[trigger] rt.model().held(q) == s.heap.held(q) + one(q, cur.ptr()) by {
                lemma_walked_held(&start, self.head, i as nat, q);
            }
            assert forall|nodes: Seq<Gc<Node<V>>>, vals: Seq<V>| #[trigger] holds(&start, *self, nodes, vals) implies i
                < self.len && cur == nodes[i as int] && rt.item(cur.ptr()) is Some && rt.item(cur.ptr())->0.val
                == vals[i as int] && holds(rt, *self, nodes, vals) by {
                law_get_gives_what_is_there(&start, *self, nodes, vals, i as nat);
                assert forall|j: int| 0 <= j < nodes.len() implies rt.model().filled((#[trigger] nodes[j]).ptr())
                    && rt.item(nodes[j].ptr()) == Some(placed(nodes, vals, j)) by {
                    assert(start.model().filled(nodes[j].ptr()));
                    assert(rt.model().obj(nodes[j].ptr()).item == start.model().obj(nodes[j].ptr()).item);
                }
                assert(rt.model().filled(nodes[i as int].ptr()));
            }
        }
        cur
    }
}

/// Contents that the mutator still has a handle to are kept.
proof fn lemma_item_kept<V>(before: &Runtime<Node<V>>, after: &Runtime<Node<V>>, q: usize)
    requires
        before.model().filled(q),
        after.model().has(q),
        after.item(q) is None || after.item(q) == before.item(q),
        after.model().obj(q).item == before.model().obj(q).item,
    ensures
        after.model().filled(q),
        after.item(q) == before.item(q),
        before.item(q) is Some,
{
    before.lemma_items();
    after.lemma_items();
    assert(before.model().has(q));
}

/// The state after the node that is to follow the one at `at` was made.
pub open spec fn follower_made<V>(rt: &Runtime<Node<V>>, at: usize, node: Node<V>, fresh: Gc<Node<V>>) -> State {
    let s = rt.state();
    match rt.item(at)->0.next {
        Some(c) => {
            let copied = s.cloned(c.ptr()).cloned(c.ptr()).drop_all(link_edges(node.next), false);
            let ready = copied.cloned(at).drop_all(link_edges(node.prev), false);
            let made = ready.allocated(Some(seq![c.ptr(), at]));
            link_set(made.cloned(fresh.ptr()), c.ptr(), rt.item(c.ptr())->0, false, Some(fresh)).drop_all(
                seq![c.ptr()],
                false,
            )
        },
        None => s.allocated(Some(node.edges())),
    }
}

/// The state after a node was made to follow the one at `at`.
pub open spec fn followed<V>(rt: &Runtime<Node<V>>, at: usize, node: Node<V>, fresh: Gc<Node<V>>) -> State {
    link_set(
        follower_made(rt, at, node, fresh).cloned(fresh.ptr()),
        at,
        rt.item(at)->0,
        true,
        Some(fresh),
    ).drop_all(seq![fresh.ptr()], false)
}

/// Makes the node that is to follow the one at `at`, and links it with the one
/// that followed so far.
fn follower<V>(rt: &mut Runtime<Node<V>>, at: &Gc<Node<V>>, node: Node<V>) -> (fresh: Gc<Node<V>>)
    requires
        old(rt).wf(),
        old(rt).model().objs.len() < usize::MAX - 1,
        old(rt).model().filled(at.ptr()),
        covered(old(rt).model(), node.edges().push(at.ptr())),
        old(rt).item(at.ptr())->0.next matches Some(c) ==> c.ptr() != at.ptr() && old(rt).model().filled(c.ptr()),
        forall|q: usize| #[trigger] old(rt).model().strong(q) < usize::MAX - 4,
    ensures
        final(rt).wf(),
        old(rt).idle() ==> final(rt).idle(),
        final(rt).model().objs.len() == old(rt).model().objs.len() + 1,
        fresh.ptr() == old(rt).model().objs.len() + 1,
        final(rt).state() == follower_made(old(rt), at.ptr(), node, fresh),
        final(rt).model().filled(at.ptr()),
        final(rt).item(at.ptr()) == old(rt).item(at.ptr()),
        final(rt).model().filled(fresh.ptr()),
        match old(rt).item(at.ptr())->0.next {
            Some(c) => {
                &&& final(rt).item(fresh.ptr()) == Some((Node { val: node.val, next: Some(c), prev: Some(*at) }))
                &&& final(rt).model().filled(c.ptr())
                &&& final(rt).item(c.ptr()) == Some((Node { prev: Some(fresh), ..old(rt).item(c.ptr())->0 }))
            },
            None => final(rt).item(fresh.ptr()) == Some(node),
        },
        forall|q: usize|
            old(rt).model().has(q) && !(old(rt).item(at.ptr())->0.next matches Some(c) && c.ptr() == q) ==> (
            #[trigger] final(rt).item(q)) is None || final(rt).item(q) == old(rt).item(q),
        forall|q: usize| #[trigger]
            old(rt).model().has(q) && final(rt).model().live(q) && !(old(rt).item(at.ptr())->0.next matches Some(c)
                && c.ptr() == q) ==> final(rt).model().obj(q).item == old(rt).model().obj(q).item,
        forall|q: usize| #[trigger] final(rt).model().held(q) == old(rt).model().held(q) - occurrences(node.edges(), q)
            + one(q, fresh.ptr()),
        final(rt).model().strong(fresh.ptr()) <= 2,
{
    let ghost start = *rt;
    let ghost m = rt.model();
    let ghost a = at.ptr();
    let ghost was = rt.item(a)->0;
    let ghost es = node.edges();
    proof {
        rt.lemma_items();
        assert(m.has(a));
        assert forall|q: usize| occurrences(es, q) + one(q, a) <= #[trigger] m.held(q) by {
            lemma_occurrences_push(es, a, q);
            assert(occurrences(es.push(a), q) <= m.held(q));
        }
        assert forall|q: usize| #[trigger] m.strong(q) < usize::MAX by {
            assert(m.strong(q) < usize::MAX - 4);
        }
    }
    let ghost given = node;
    match clone_link(rt, at, true) {
        Some(curr_next) => {
            let Node { val, next, prev } = node;
            let ghost c = curr_next.ptr();
            let ghost r1 = *rt;
            proof {
                assert(m.has(c));
                assert(m.strong(c) < usize::MAX - 4);
                assert(m.strong(a) < usize::MAX - 4);
                assert forall|q: usize| #[trigger] occurrences(es, q) == occurrences(link_edges(next), q) + occurrences(
                    link_edges(prev),
                    q,
                ) by {
                    lemma_occurrences_add(link_edges(next), link_edges(prev), q);
                }
            }
            let ahead = curr_next.clone(rt);
            let ghost r2 = *rt;
            proof {
                lemma_same_handle(ahead, curr_next);
                assert forall|q: usize| #[trigger] r2.model().held(q) == m.held(q) + 2 * one(q, c) by {
                    lemma_link_occurrences(Some(curr_next), q);
                    lemma_cloned_held(r1.state(), c, q);
                    assert(r1.model().held(q) == m.held(q) + occurrences(link_edges(Some(curr_next)), q));
                }
                assert forall|q: usize| occurrences(link_edges(next), q) <= #[trigger] r2.model().held(q) by {
                    assert(m.held(q) >= occurrences(es, q) + one(q, a));
                }
                assert forall|q: usize| r2.model().has(q) implies #[trigger] r2.item(q) == start.item(q) && r2.model().obj(
                    q,
                ).item == m.obj(q).item by {
                    assert(r1.item(q) == start.item(q));
                }
            }
            drop_link(rt, next);
            let ghost r3 = *rt;
            proof {
                assert forall|q: usize| #[trigger] r3.model().held(q) == m.held(q) + 2 * one(q, c)
                    - occurrences(link_edges(next), q) by {
                    assert(r2.model().held(q) == m.held(q) + 2 * one(q, c));
                }
                assert(m.held(a) >= occurrences(es, a) + 1);
                assert(m.held(c) >= occurrences(es, c));
                assert(r3.model().held(a) > 0 && r3.model().held(c) > 0);
                assert(r2.model().has(a) && r2.model().has(c));
                lemma_item_kept(&r2, &r3, a);
                lemma_item_kept(&r2, &r3, c);
                assert(r3.model().strong(a) <= r2.model().strong(a));
            }
            let me = at.clone(rt);
            let ghost r4 = *rt;
            proof {
                lemma_same_handle(me, *at);
                assert forall|q: usize| #[trigger] r4.model().held(q)
                    == m.held(q) + 2 * one(q, c) + one(q, a) - occurrences(link_edges(next), q) by {
                    lemma_cloned_held(r3.state(), a, q);
                    assert(r3.model().held(q) == m.held(q) + 2 * one(q, c) - occurrences(
                        link_edges(next),
                        q,
                    ));
                }
                assert forall|q: usize| occurrences(link_edges(prev), q) <= #[trigger] r4.model().held(q) by {
                    assert(m.held(q) >= occurrences(es, q) + one(q, a));
                }
            }
            drop_link(rt, prev);
            let ghost r5 = *rt;
            let full = Node { val, next: Some(ahead), prev: Some(me) };
            proof {
                assert forall|q: usize| #[trigger] r5.model().held(q)
                    == m.held(q) + 2 * one(q, c) + one(q, a) - occurrences(es, q) by {
                    assert(r4.model().held(q) == m.held(q) + 2 * one(q, c) + one(q, a) - occurrences(link_edges(next), q));
                }
                assert(r5.model().held(a) > 0 && r5.model().held(c) > 0);
                assert(r4.model().has(a) && r4.model().has(c));
                lemma_item_kept(&r4, &r5, a);
                lemma_item_kept(&r4, &r5, c);
                assert(full.edges() =~= seq![c, a]);
                assert forall|q: usize| #[trigger] occurrences(full.edges(), q) == one(q, c) + one(q, a) by {
                    lemma_occurrences_add(link_edges(full.next), link_edges(full.prev), q);
                    lemma_link_occurrences(full.next, q);
                    lemma_link_occurrences(full.prev, q);
                }
                assert forall|q: usize| occurrences(full.edges(), q) <= #[trigger] r5.model().held(q) by {
                    assert(occurrences(full.edges(), q) == one(q, c) + one(q, a));
                    assert(m.held(q) >= occurrences(es, q) + one(q, a));
                }
                assert(r5.model().objs.len() == m.objs.len());
            }
            let fresh = Gc::new(rt, full);
            let ghost p = fresh.ptr();
            let ghost r6 = *rt;
            proof {
                assert forall|q: usize| #[trigger] r6.model().held(q)
                    == m.held(q) - occurrences(es, q) + one(q, c) + one(q, p) by {
                    lemma_internal_push(r5.model(), new_obj(Some(full.edges())), q);
                    assert(occurrences(full.edges(), q) == one(q, c) + one(q, a));
                    assert(r5.model().held(q) == m.held(q) + 2 * one(q, c) + one(q, a) - occurrences(es, q));
                    if r5.model().has(q) {
                        assert(r6.model().obj(q) == r5.model().obj(q));
                    }
                }
                assert(r6.model().obj(p) == new_obj(Some(full.edges())));
                assert(r6.model().obj(a) == r5.model().obj(a));
                assert(r6.model().obj(c) == r5.model().obj(c));
            }
            let again = fresh.clone(rt);
            let ghost r7 = *rt;
            proof {
                lemma_same_handle(again, fresh);
                assert(r7.model().filled(c) && r7.model().filled(a) && r7.model().filled(p));
                assert(r7.item(c) == start.item(c));
                assert(r7.item(a) == start.item(a));
                assert forall|q: usize| #[trigger] r7.model().held(q)
                    == m.held(q) - occurrences(es, q) + one(q, c) + 2 * one(q, p) by {
                    lemma_cloned_held(r6.state(), p, q);
                }
                assert forall|q: usize| occurrences(link_edges(Some(again)).push(c), q) <= #[trigger] r7.model().held(q) by {
                    lemma_occurrences_push(link_edges(Some(again)), c, q);
                    lemma_link_occurrences(Some(again), q);
                    assert(m.held(q) >= occurrences(es, q) + one(q, a));
                }
            }
            set_link(rt, &curr_next, false, Some(again));
            let ghost r8 = *rt;
            proof {
                assert forall|q: usize| #[trigger] r8.model().held(q)
                    == m.held(q) - occurrences(es, q) + one(q, c) + one(q, p) by {
                    lemma_link_occurrences(Some(again), q);
                    assert(r7.model().held(q) == m.held(q) - occurrences(es, q) + one(q, c) + 2 * one(q, p));
                }
                assert(m.held(p) >= occurrences(es, p));
                assert(r8.model().held(a) > 0 && r8.model().held(p) > 0);
                assert(r7.model().has(a) && r7.model().has(p));
                lemma_item_kept(&r7, &r8, a);
                lemma_item_kept(&r7, &r8, p);
                assert forall|q: usize| occurrences(link_edges(Some(curr_next)), q) <= #[trigger] r8.model().held(q) by {
                    lemma_link_occurrences(Some(curr_next), q);
                    assert(m.held(q) >= occurrences(es, q) + one(q, a));
                }
                assert(r8.model().strong(p) <= r7.model().strong(p));
                r8.lemma_items();
                assert(r8.model().has(c));
                assert(r8.model().filled(c));
            }
            drop_link(rt, Some(curr_next));
            proof {
                assert forall|q: usize| #[trigger] rt.model().held(q) == m.held(q) - occurrences(es, q) + one(q, p) by {
                    lemma_link_occurrences(Some(curr_next), q);
                    assert(r8.model().held(q) == m.held(q) - occurrences(es, q) + one(q, c) + one(q, p));
                }
                assert(rt.model().held(a) > 0 && rt.model().held(p) > 0);
                assert(r8.model().has(a) && r8.model().has(p) && r8.model().has(c));
                lemma_item_kept(&r8, rt, a);
                lemma_item_kept(&r8, rt, p);
                rt.lemma_items();
                assert(rt.model().has(p));
                assert(rt.model().edges(p) == full.edges());
                assert(full.edges()[0] == c);
                assert(rt.model().edges(p).contains(c));
                lemma_edge_live(rt.model(), p, c);
                lemma_item_kept(&r8, rt, c);
                assert(rt.model().strong(p) <= r8.model().strong(p));
                assert forall|q: usize| m.has(q) && q != c implies (#[trigger] rt.item(q)) is None || rt.item(q)
                    == start.item(q) by {
                    assert(r8.item(q) is None || r8.item(q) == r7.item(q));
                    assert(r7.item(q) == r6.item(q));
                    assert(r6.item(q) == r5.item(q));
                    assert(r5.item(q) is None || r5.item(q) == r4.item(q));
                    assert(r4.item(q) == r3.item(q));
                    assert(r3.item(q) is None || r3.item(q) == r2.item(q));
                    assert(r2.item(q) == start.item(q));
                }
                assert forall|q: usize| #[trigger] m.has(q) && rt.model().live(q) && q != c implies rt.model().obj(q).item
                    == m.obj(q).item by {
                    assert(r1.model().has(q) && r2.model().has(q) && r3.model().has(q) && r4.model().has(q));
                    assert(r5.model().has(q) && r6.model().has(q) && r7.model().has(q) && r8.model().has(q));
                    assert(r8.model().live(q) && r8.model().obj(q).item == rt.model().obj(q).item);
                    assert(r7.model().live(q) && r7.model().obj(q).item == r8.model().obj(q).item);
                    assert(r6.model().obj(q) == r5.model().obj(q));
                    assert(r5.model().live(q));
                    assert(r2.item(q) == start.item(q));
                }
                assert(rt.state() == follower_made(&start, a, given, fresh));
            }
            fresh
        },
        None => {
            proof {
                assert forall|q: usize| occurrences(node.edges(), q) <= #[trigger] rt.model().held(q) by {
                    assert(m.held(q) >= occurrences(es, q) + one(q, a));
                }
            }
            let ghost r1 = *rt;
            let fresh = Gc::new(rt, node);
            proof {
                let p = fresh.ptr();
                assert forall|q: usize| #[trigger] rt.model().held(q) == m.held(q) - occurrences(es, q) + one(q, p) by {
                    lemma_internal_push(r1.model(), new_obj(Some(es)), q);
                    if r1.model().has(q) {
                        assert(rt.model().obj(q) == r1.model().obj(q));
                    }
                }
                assert(rt.model().obj(a) == r1.model().obj(a));
                assert(rt.model().obj(p) == new_obj(Some(es)));
                assert forall|q: usize| m.has(q) implies (#[trigger] rt.item(q)) is None || rt.item(q) == start.item(q) by {
                    assert(r1.item(q) == start.item(q));
                }
                assert forall|q: usize| #[trigger] m.has(q) implies rt.model().obj(q).item == m.obj(q).item by {
                    assert(r1.model().has(q));
                    assert(rt.model().obj(q) == r1.model().obj(q));
                }
            }
            fresh
        },
    }
}

/// A node that was made to follow another one stands between that one and the
/// one that followed so far, and all other nodes are where they were.
proof fn lemma_insert_holds<V>(
    before: &Runtime<Node<V>>,
    after: &Runtime<Node<V>>,
    list: List<V>,
    now: List<V>,
    nodes: Seq<Gc<Node<V>>>,
    vals: Seq<V>,
    k: int,
    fresh: Gc<Node<V>>,
    val: V,
)
    requires
        after.wf(),
        holds(before, list, nodes, vals),
        0 <= k < nodes.len() - 1,
        now.head == list.head,
        now.tail == list.tail,
        now.len == list.len + 1,
        fresh.ptr() == before.model().objs.len() + 1,
        after.model().live(nodes[k].ptr()),
        after.item(nodes[k].ptr()) == Some(with_link(placed(nodes, vals, k), true, Some(fresh))),
        after.item(fresh.ptr()) == Some((Node { val, next: Some(nodes[k + 1]), prev: Some(nodes[k]) })),
        after.item(nodes[k + 1].ptr()) == Some(with_link(placed(nodes, vals, k + 1), false, Some(fresh))),
        forall|q: usize|
            before.model().has(q) && q != nodes[k].ptr() && q != nodes[k + 1].ptr() ==> (#[trigger] after.item(q)) is None
                || after.item(q) == before.item(q),
        forall|q: usize| #[trigger]
            before.model().has(q) && after.model().live(q) && q != nodes[k].ptr() && q != nodes[k + 1].ptr()
                ==> after.model().obj(q).item == before.model().obj(q).item,
    ensures
        holds(after, now, nodes.insert(k + 1, fresh), vals.insert(k + 1, val)),
{
    let all = nodes.insert(k + 1, fresh);
    let held = vals.insert(k + 1, val);
    nodes.insert_ensures(k + 1, fresh);
    vals.insert_ensures(k + 1, val);
    assert forall|j: int| 0 <= j < all.len() implies #[trigger] all[j] == (if j == k + 1 {
        fresh
    } else {
        nodes[if j <= k { j } else { j - 1 }]
    }) && (j != k + 1 ==> held[j] == vals[if j <= k { j } else { j - 1 }]) by {
        if j > k + 1 {
            assert(nodes[j - 1] == nodes.insert(k + 1, fresh)[j - 1 + 1]);
            assert(vals[j - 1] == vals.insert(k + 1, val)[j - 1 + 1]);
        }
    }
    assert forall|j: int| 0 <= j < all.len() && after.model().live((#[trigger] all[j]).ptr()) implies after.model().filled(
        all[j].ptr(),
    ) && after.item(all[j].ptr()) == Some(placed(all, held, j)) by {
        after.lemma_items();
        assert(after.model().has(all[j].ptr()));
        if j == k + 1 {
            assert(all[j + 1] == nodes[j] && all[j - 1] == nodes[k]);
        } else {
            let i = if j <= k { j } else { j - 1 };
            let q = nodes[i].ptr();
            assert(before.model().filled(q) && before.item(q) == Some(placed(nodes, vals, i)));
            assert(place(all, j + 1) == (if j == k { Some(fresh) } else { place(nodes, i + 1) }));
            assert(place(all, j - 1) == (if j == k + 2 { Some(fresh) } else { place(nodes, i - 1) }));
            if i != k && i != k + 1 {
                assert(nodes[k].ptr() != q);
                assert(nodes[k + 1].ptr() != q);
                lemma_item_kept(before, after, q);
            }
        }
    }
    assert forall|i: int, j: int| 0 <= i < j < all.len() implies (#[trigger] all[i]).ptr() != (#[trigger] all[j]).ptr() by {
        if i != k + 1 {
            assert(before.model().filled(nodes[if i <= k { i } else { i - 1 }].ptr()));
        }
        if j != k + 1 {
            assert(before.model().filled(nodes[if j <= k { j } else { j - 1 }].ptr()));
        }
    }
    lemma_holds(after, now, all, held, k);
}

impl<V> Gc<Node<V>> {
    /// Makes `node` the next one in the list that contains this node. A node
    /// that was next comes after it, and the two are linked both ways. If there
    /// was none, the links of `node` stay as they are. The ends of the list are
    /// not touched.
    pub fn link_next(&self, rt: &mut Runtime<Node<V>>, node: Node<V>, list: &mut List<V>)
        requires
            old(rt).wf(),
            old(rt).model().objs.len() < usize::MAX - 1,
            old(rt).model().filled(self.ptr()),
            covered(old(rt).model(), node.edges().push(self.ptr())),
            old(rt).item(self.ptr())->0.next matches Some(c) ==> c.ptr() != self.ptr() && old(rt).model().filled(
                c.ptr(),
            ),
            forall|q: usize| #[trigger] old(rt).model().strong(q) < usize::MAX - 4,
            old(list).len < usize::MAX,
        ensures
            final(rt).wf(),
            old(rt).idle() ==> final(rt).idle(),
            *final(list) == (List { len: (old(list).len + 1) as usize, ..*old(list) }),
            final(rt).item(self.ptr()) is Some,
            final(rt).item(self.ptr())->0.next is Some,
            ({
                let fresh = final(rt).item(self.ptr())->0.next->0;
                let was = old(rt).item(self.ptr())->0;
                &&& fresh.ptr() == old(rt).model().objs.len() + 1
                &&& final(rt).state() == followed(old(rt), self.ptr(), node, fresh)
                &&& final(rt).item(self.ptr()) == Some((Node { next: Some(fresh), ..was }))
                &&& match was.next {
                    Some(c) => {
                        &&& final(rt).item(fresh.ptr()) == Some(
                            (Node { val: node.val, next: Some(c), prev: Some(*self) }),
                        )
                        &&& final(rt).item(c.ptr()) == Some((Node { prev: Some(fresh), ..old(rt).item(c.ptr())->0 }))
                    },
                    None => final(rt).item(fresh.ptr()) == Some(node),
                }
            }),
            forall|q: usize|
                old(rt).model().has(q) && q != self.ptr() && !(old(rt).item(self.ptr())->0.next matches Some(c)
                    && c.ptr() == q) ==> (#[trigger] final(rt).item(q)) is None || final(rt).item(q) == old(rt).item(q),
            forall|q: usize| #[trigger] final(rt).model().held(q) == old(rt).model().held(q) - occurrences(
                node.edges(),
                q,
            ),
            forall|nodes: Seq<Gc<Node<V>>>, vals: Seq<V>, k: int|
                #![trigger holds(old(rt), *old(list), nodes, vals), nodes[k]]
                holds(old(rt), *old(list), nodes, vals) && 0 <= k < nodes.len() - 1 && nodes[k] == *self ==> holds(
                    final(rt),
                    *final(list),
                    nodes.insert(k + 1, final(rt).item(self.ptr())->0.next->0),
                    vals.insert(k + 1, node.val),
                ),
    {
        let ghost start = *rt;
        let ghost m = rt.model();
        let ghost at = self.ptr();
        let ghost before = *list;
        let ghost was = rt.item(at)->0;
        proof {
            rt.lemma_items();
            assert(m.has(at));
            assert forall|q: usize| occurrences(node.edges(), q) + one(q, at)
                <= #[trigger] m.held(q) by {
                lemma_occurrences_push(node.edges(), at, q);
                assert(occurrences(node.edges().push(at), q) <= m.held(q));
            }
            assert forall|q: usize| #[trigger] m.strong(q) < usize::MAX by {
                assert(m.strong(q) < usize::MAX - 4);
            }
        }
        let ghost given = node;
        let fresh = follower(rt, self, node);
        let ghost p = fresh.ptr();
        let ghost ready = *rt;
        let again = fresh.clone(rt);
        let ghost doubled = *rt;
        proof {
            lemma_same_handle(again, fresh);
            assert forall|q: usize| occurrences(link_edges(Some(again)).push(at), q) <= #[trigger] rt.model().held(q) by {
                lemma_occurrences_push(link_edges(Some(again)), at, q);
                lemma_link_occurrences(Some(again), q);
                lemma_cloned_held(ready.state(), p, q);
                assert(m.held(q) >= occurrences(given.edges(), q) + one(q, at));
            }
            assert(doubled.model().filled(at));
            assert(doubled.item(at) == start.item(at));
        }
        set_link(rt, self, true, Some(again));
        let ghost linked = *rt;
        list.len = list.len + 1;
        proof {
            assert forall|q: usize| #[trigger] linked.model().held(q)
                == m.held(q) - occurrences(given.edges(), q) + one(q, p) by {
                lemma_link_occurrences(Some(again), q);
                lemma_cloned_held(ready.state(), p, q);
            }
            assert forall|q: usize| occurrences(link_edges(Some(fresh)), q) <= #[trigger] linked.model().held(q) by {
                lemma_link_occurrences(Some(fresh), q);
                assert(m.held(q) >= occurrences(given.edges(), q) + one(q, at));
            }
        }
        proof {
            assert(m.held(at) >= occurrences(given.edges(), at) + 1);
            assert(m.held(p) >= occurrences(given.edges(), p));
            assert(linked.model().held(p) > 0);
            assert(doubled.model().has(p) && doubled.model().has(at));
            lemma_item_kept(&doubled, &linked, p);
            linked.lemma_items();
            assert(linked.model().has(at));
            if was.next is Some {
                let c = was.next->0.ptr();
                assert(linked.model().has(p));
                assert(linked.model().edges(p) == doubled.item(p)->0.edges());
                assert(linked.model().edges(p)[0] == c);
                assert(linked.model().edges(p).contains(c));
                lemma_edge_live(linked.model(), p, c);
                assert(doubled.model().has(c));
                lemma_item_kept(&doubled, &linked, c);
            }
        }
        drop_link(rt, Some(fresh));
        proof {
            assert forall|q: usize| #[trigger] rt.model().held(q) == m.held(q) - occurrences(given.edges(), q) by {
                lemma_link_occurrences(Some(fresh), q);
                assert(linked.model().held(q) == m.held(q) - occurrences(given.edges(), q) + one(q, p));
            }
            assert(rt.model().held(at) > 0);
            assert(linked.model().has(at) && linked.model().has(p));
            assert(linked.model().filled(at));
            lemma_item_kept(&linked, rt, at);
            rt.lemma_items();
            assert(rt.model().has(at));
            let now = with_link(was, true, Some(again));
            assert(rt.item(at) == Some(now));
            assert(rt.model().edges(at) == now.edges());
            assert(now.edges()[0] == p);
            assert(rt.model().edges(at).contains(p));
            lemma_edge_live(rt.model(), at, p);
            lemma_item_kept(&linked, rt, p);
            if was.next is Some {
                let c = was.next->0.ptr();
                assert(rt.model().has(p));
                assert(rt.model().edges(p) == rt.item(p)->0.edges());
                assert(rt.model().edges(p)[0] == c);
                assert(rt.model().edges(p).contains(c));
                lemma_edge_live(rt.model(), p, c);
                assert(linked.model().has(c));
                lemma_item_kept(&linked, rt, c);
            }
            assert forall|q: usize| m.has(q) && q != at && !(was.next matches Some(c) && c.ptr() == q) implies (
            #[trigger] rt.item(q)) is None || rt.item(q) == start.item(q) by {
                assert(linked.model().has(q));
                assert(linked.item(q) is None || linked.item(q) == doubled.item(q));
                assert(doubled.item(q) == ready.item(q));
            }
            assert forall|q: usize| #[trigger] m.has(q) && rt.model().live(q) && q != at && !(was.next matches Some(c)
                && c.ptr() == q) implies rt.model().obj(q).item == m.obj(q).item by {
                assert(ready.model().has(q) && doubled.model().has(q) && linked.model().has(q));
                assert(linked.model().live(q) && linked.model().obj(q).item == rt.model().obj(q).item);
                assert(ready.model().live(q));
            }
            assert forall|nodes: Seq<Gc<Node<V>>>, vals: Seq<V>, k: int|
                #![trigger holds(&start, before, nodes, vals), nodes[k]]
                holds(&start, before, nodes, vals) && 0 <= k < nodes.len() - 1 && nodes[k] == *self implies holds(
                rt,
                *list,
                nodes.insert(k + 1, rt.item(at)->0.next->0),
                vals.insert(k + 1, given.val),
            ) by {
                lemma_insert_holds(&start, rt, before, *list, nodes, vals, k, fresh, given.val);
            }
        }
    }
}

/// The contents of the object at `q` once the neighbors of the node at `at` are
/// linked with each other.
pub open spec fn bypassed_item<V>(rt: &Runtime<Node<V>>, at: usize, q: usize) -> Option<Node<V>> {
    let was = rt.item(at)->0;
    let half = if was.next matches Some(c) && c.ptr() == q {
        Some(with_link(rt.item(q)->0, false, was.prev))
    } else {
        rt.item(q)
    };
    if was.prev matches Some(c) && c.ptr() == q { Some(with_link(half->0, true, was.next)) } else { half }
}

/// The state once the neighbors of the node at `at` are linked with each other,
/// and there is one more handle to each of them.
pub open spec fn bypassed<V>(rt: &Runtime<Node<V>>, at: usize) -> State {
    let was = rt.item(at)->0;
    let copied = link_cloned(link_cloned(rt.state(), was.next), was.prev);
    let half = match was.next {
        Some(c) => link_set(link_cloned(copied, was.prev), c.ptr(), rt.item(c.ptr())->0, false, was.prev),
        None => copied,
    };
    match was.prev {
        Some(c) => link_set(
            link_cloned(half, was.next),
            c.ptr(),
            if was.next matches Some(d) && d.ptr() == c.ptr() {
                with_link(rt.item(c.ptr())->0, false, was.prev)
            } else {
                rt.item(c.ptr())->0
            },
            true,
            was.next,
        ),
        None => half,
    }
}

/// A link of a node leads to a live object.
proof fn lemma_link_live<V>(rt: &Runtime<Node<V>>, at: usize, forward: bool)
    requires
        rt.wf(),
        rt.model().filled(at),
        rt.item(at) is Some,
    ensures
        link_of(rt.item(at)->0, forward) matches Some(g) ==> rt.model().live(g.ptr()),
{
    let node = rt.item(at)->0;
    rt.lemma_items();
    assert(rt.model().has(at));
    assert(rt.model().edges(at) == node.edges());
    match link_of(node, forward) {
        Some(g) => {
            lemma_link_occurrences(link_of(node, forward), g.ptr());
            lemma_occurrences_add(link_edges(node.next), link_edges(node.prev), g.ptr());
            lemma_occurs(node.edges(), g.ptr());
            lemma_edge_live(rt.model(), at, g.ptr());
        },
        None => {},
    }
}

/// Links the neighbors of the node at `at` with each other. Gives a handle to
/// each.
fn bypass<V>(rt: &mut Runtime<Node<V>>, at: &Gc<Node<V>>) -> (r: (Option<Gc<Node<V>>>, Option<Gc<Node<V>>>))
    requires
        old(rt).wf(),
        old(rt).model().filled(at.ptr()),
        old(rt).model().held(at.ptr()) > 0,
        old(rt).item(at.ptr())->0.next matches Some(c) ==> old(rt).model().filled(c.ptr()),
        old(rt).item(at.ptr())->0.prev matches Some(c) ==> old(rt).model().filled(c.ptr()),
        forall|q: usize| #[trigger] old(rt).model().strong(q) < usize::MAX - 10,
    ensures
        final(rt).wf(),
        old(rt).idle() ==> final(rt).idle(),
        old(rt).item(at.ptr()) is Some,
        r.0 == old(rt).item(at.ptr())->0.next,
        r.1 == old(rt).item(at.ptr())->0.prev,
        final(rt).state() == bypassed(old(rt), at.ptr()),
        final(rt).model().objs.len() == old(rt).model().objs.len(),
        forall|q: usize| #[trigger] final(rt).model().strong(q) < usize::MAX - 6,
        forall|q: usize| #[trigger] final(rt).model().held(q) == old(rt).model().held(q) + occurrences(link_edges(r.0), q)
            + occurrences(link_edges(r.1), q),
        forall|q: usize|
            old(rt).model().has(q) ==> (#[trigger] final(rt).item(q)) is None || final(rt).item(q) == bypassed_item(
                old(rt),
                at.ptr(),
                q,
            ),
        forall|q: usize| #[trigger]
            old(rt).model().has(q) && final(rt).model().live(q) && !(r.0 matches Some(c) && c.ptr() == q) && !(
            r.1 matches Some(c) && c.ptr() == q) ==> final(rt).model().obj(q).item == old(rt).model().obj(q).item,
        final(rt).model().filled(at.ptr()),
        final(rt).item(at.ptr()) == old(rt).item(at.ptr()),
        r.0 matches Some(c) ==> final(rt).model().filled(c.ptr()),
        r.1 matches Some(c) ==> final(rt).model().filled(c.ptr()),
{
    let ghost start = *rt;
    let ghost m = rt.model();
    let ghost a = at.ptr();
    let ghost was = rt.item(a)->0;
    proof {
        rt.lemma_items();
        assert(m.has(a));
        assert forall|q: usize| #[trigger] m.strong(q) < usize::MAX by {
            assert(m.strong(q) < usize::MAX - 10);
        }
    }
    let curr_next = clone_link(rt, at, true);
    let ghost r1 = *rt;
    proof {
        assert(r1.item(a) == start.item(a));
        assert(r1.model().filled(a));
        assert forall|q: usize| #[trigger] r1.model().strong(q) < usize::MAX by {
            assert(m.strong(q) < usize::MAX - 10);
        }
    }
    let curr_prev = clone_link(rt, at, false);
    let ghost r2 = *rt;
    let ghost n = link_edges(curr_next);
    let ghost p = link_edges(curr_prev);
    proof {
        assert forall|q: usize| #[trigger] r2.model().held(q) == m.held(q) + occurrences(n, q) + occurrences(p, q) by {
            assert(r1.model().held(q) == m.held(q) + occurrences(n, q));
        }
        assert forall|q: usize| r2.model().has(q) implies #[trigger] r2.item(q) == start.item(q) && r2.model().obj(q).item
            == m.obj(q).item by {
            assert(r1.item(q) == start.item(q));
        }
        assert forall|q: usize| #[trigger] r2.model().strong(q) < usize::MAX - 8 by {
            assert(m.strong(q) < usize::MAX - 10);
            assert(r1.model().strong(q) <= m.strong(q) + 1);
        }
        lemma_link_live(&r2, a, false);
        lemma_link_live(&r2, a, true);
        assert(m.held(a) >= 1);
    }
    match &curr_next {
        Some(c) => {
            proof {
                if curr_prev is Some {
                    assert(r2.model().strong(curr_prev->0.ptr()) < usize::MAX - 8);
                }
            }
            let link = copy_link(rt, &curr_prev);
            let ghost r3 = *rt;
            proof {
                assert(r3.item(c.ptr()) == start.item(c.ptr()));
                assert(r3.model().filled(c.ptr()));
                assert forall|q: usize| occurrences(link_edges(link).push(c.ptr()), q) <= #[trigger] r3.model().held(q) by {
                    lemma_occurrences_push(link_edges(link), c.ptr(), q);
                    lemma_link_occurrences(curr_next, q);
                    assert(r2.model().held(q) == m.held(q) + occurrences(n, q) + occurrences(p, q));
                    assert(m.held(q) >= 0);
                }
            }
            set_link(rt, c, false, link);
            proof {
                assert forall|q: usize| #[trigger] rt.model().held(q)
                    == m.held(q) + occurrences(n, q) + occurrences(p, q) by {
                    assert(r3.model().held(q) == r2.model().held(q) + occurrences(p, q));
                    assert(r2.model().held(q) == m.held(q) + occurrences(n, q) + occurrences(p, q));
                }
                assert forall|q: usize| #[trigger] rt.model().strong(q) < usize::MAX - 7 by {
                    assert(r2.model().strong(q) < usize::MAX - 8);
                    assert(r3.model().strong(q) <= r2.model().strong(q) + 1);
                }
                assert forall|q: usize| m.has(q) && q != c.ptr() && #[trigger] rt.model().live(q)
                    implies rt.model().obj(q).item == m.obj(q).item by {
                    assert(r3.model().has(q));
                }
                assert forall|q: usize| m.has(q) && q != c.ptr() implies (#[trigger] rt.item(q)) is None || rt.item(q)
                    == start.item(q) by {
                    assert(r3.item(q) == r2.item(q));
                    assert(r2.item(q) == start.item(q));
                }
            }
        },
        None => {},
    }
    let ghost r4 = *rt;
    proof {
        r4.lemma_items();
        assert(r4.model().objs.len() == m.objs.len());
        assert forall|q: usize| #[trigger] r4.model().strong(q) < usize::MAX - 7 by {
            if curr_next is None {
                assert(r2.model().strong(q) < usize::MAX - 8);
            }
        }
        assert(r4.model().held(a) >= 1);
        assert(r4.model().has(a));
        if curr_next is Some && curr_next->0.ptr() == a {
            assert(with_link(was, false, was.prev) == was);
        } else {
            lemma_item_kept(&start, &r4, a);
        }
        assert(r4.item(a) == start.item(a));
        lemma_link_live(&r4, a, false);
        lemma_link_live(&r4, a, true);
        if curr_prev is Some {
            let d = curr_prev->0.ptr();
            assert(r4.model().has(d));
            if curr_next is Some && curr_next->0.ptr() == d {
            } else {
                lemma_item_kept(&start, &r4, d);
            }
        }
        if curr_next is Some {
            assert(r4.model().has(curr_next->0.ptr()));
            assert(r4.model().filled(curr_next->0.ptr()));
        }
    }
    match &curr_prev {
        Some(d) => {
            proof {
                if curr_next is Some {
                    assert(r4.model().strong(curr_next->0.ptr()) < usize::MAX - 7);
                }
            }
            let link = copy_link(rt, &curr_next);
            let ghost r5 = *rt;
            proof {
                assert(r5.item(d.ptr()) == r4.item(d.ptr()));
                assert(r5.model().filled(d.ptr()));
                assert forall|q: usize| occurrences(link_edges(link).push(d.ptr()), q) <= #[trigger] r5.model().held(q) by {
                    lemma_occurrences_push(link_edges(link), d.ptr(), q);
                    lemma_link_occurrences(curr_prev, q);
                    assert(r4.model().held(q) == m.held(q) + occurrences(n, q) + occurrences(p, q));
                    assert(m.held(q) >= 0);
                }
            }
            set_link(rt, d, true, link);
            proof {
                assert forall|q: usize| #[trigger] rt.model().held(q)
                    == m.held(q) + occurrences(n, q) + occurrences(p, q) by {
                    assert(r5.model().held(q) == r4.model().held(q) + occurrences(n, q));
                    assert(r4.model().held(q) == m.held(q) + occurrences(n, q) + occurrences(p, q));
                }
                assert forall|q: usize| #[trigger] rt.model().strong(q) < usize::MAX - 6 by {
                    assert(r4.model().strong(q) < usize::MAX - 7);
                    assert(r5.model().strong(q) <= r4.model().strong(q) + 1);
                }
                rt.lemma_items();
                assert(rt.model().held(a) >= 1);
                assert(rt.model().has(a) && r5.model().has(a));
                if d.ptr() == a {
                    assert(with_link(was, true, was.next) == was);
                } else {
                    assert(r5.item(a) == r4.item(a));
                    lemma_item_kept(&r5, rt, a);
                }
                lemma_link_live(rt, a, true);
                lemma_link_live(rt, a, false);
                if curr_next is Some {
                    let c = curr_next->0.ptr();
                    assert(rt.model().has(c) && r5.model().has(c));
                    if c != d.ptr() {
                        lemma_item_kept(&r5, rt, c);
                    }
                }
                assert(rt.model().has(d.ptr()));
                assert forall|q: usize| m.has(q) implies (#[trigger] rt.item(q)) is None || rt.item(q) == bypassed_item(
                    &start,
                    a,
                    q,
                ) by {
                    assert(r5.model().has(q));
                    assert(r5.item(q) == r4.item(q));
                }
            }
        },
        None => {
            proof {
                assert forall|q: usize| m.has(q) implies (#[trigger] rt.item(q)) is None || rt.item(q) == bypassed_item(
                    &start,
                    a,
                    q,
                ) by {}
            }
        },
    }
    proof {
        assert forall|q: usize| #[trigger] m.has(q) && rt.model().live(q) && !(curr_next matches Some(c) && c.ptr() == q)
            && !(curr_prev matches Some(c) && c.ptr() == q) implies rt.model().obj(q).item == m.obj(q).item by {
            assert(r2.model().has(q) && r4.model().has(q));
            assert(r2.item(q) == start.item(q));
            assert(r4.model().live(q) && rt.model().obj(q).item == r4.model().obj(q).item);
        }
    }
    (curr_next, curr_prev)
}

/// The state after one end of a list was looked at through a handle of its own:
/// if it is the node at `at`, the list gets the copy `link` in its place.
pub open spec fn end_left<V>(s: State, end: Option<Gc<Node<V>>>, at: usize, copied: Option<Gc<Node<V>>>) -> State {
    match end {
        Some(h) => {
            let looked = s.cloned(h.ptr());
            let moved = if h.ptr() == at {
                link_cloned(looked, copied).drop_all(link_edges(end), false)
            } else {
                looked
            };
            moved.drop_all(link_edges(end), false)
        },
        None => s,
    }
}

/// The state after the ends of a list were looked at for the node at `at`, whose
/// neighbors are `next` and `prev`, and the handles to these were dropped or
/// went to the list.
pub open spec fn left<V>(
    s: State,
    at: usize,
    list: List<V>,
    next: Option<Gc<Node<V>>>,
    prev: Option<Gc<Node<V>>>,
) -> State {
    let head_done = end_left(s, list.head, at, next);
    let tail_done = end_left(head_done, list.tail, at, None::<Gc<Node<V>>>);
    let prev_done = if list.tail matches Some(t) && t.ptr() == at {
        tail_done
    } else {
        tail_done.drop_all(link_edges(prev), false)
    };
    prev_done.drop_all(link_edges(next), false)
}

/// The state after the node at `at` was taken out of a list.
pub open spec fn unlinked<V>(rt: &Runtime<Node<V>>, at: usize, list: List<V>) -> State {
    left(bypassed(rt, at), at, list, rt.item(at)->0.next, rt.item(at)->0.prev)
}

/// The list without the node at `at`.
pub open spec fn without<V>(
    list: List<V>,
    at: usize,
    next: Option<Gc<Node<V>>>,
    prev: Option<Gc<Node<V>>>,
) -> List<V> {
    List {
        head: if list.head matches Some(h) && h.ptr() == at { next } else { list.head },
        tail: if list.tail matches Some(t) && t.ptr() == at { prev } else { list.tail },
        len: (list.len - 1) as usize,
    }
}

/// All contents are those of `before`, or gone.
proof fn lemma_loses_trans<V>(a: &Runtime<Node<V>>, b: &Runtime<Node<V>>, c: &Runtime<Node<V>>)
    requires
        b.loses_items(a),
        c.loses_items(b),
        a.model().objs.len() == b.model().objs.len(),
        b.model().objs.len() == c.model().objs.len(),
    ensures
        c.loses_items(a),
{
    assert forall|p: usize| c.model().has(p) implies (#[trigger] c.item(p)) is None || c.item(p) == a.item(p) by {
        assert(b.item(p) is None || b.item(p) == a.item(p));
    }
}

/// Replaces one end of a list if it is the node at `at`: by a copy of `link`.
fn leave_end<V>(
    rt: &mut Runtime<Node<V>>,
    end: Option<Gc<Node<V>>>,
    at: &Gc<Node<V>>,
    link: &Option<Gc<Node<V>>>,
) -> (r: (Option<Gc<Node<V>>>, bool))
    requires
        old(rt).wf(),
        covered(old(rt).model(), link_edges(end)),
        can_clone(old(rt).state(), *link),
        forall|q: usize| #[trigger] old(rt).model().strong(q) < usize::MAX - 2,
        link matches Some(g) ==> old(rt).model().held(g.ptr()) > 0,
    ensures
        final(rt).wf(),
        old(rt).idle() ==> final(rt).idle(),
        r.1 == (end matches Some(h) && h.ptr() == at.ptr()),
        r.0 == (if r.1 { *link } else { end }),
        final(rt).state() == end_left(old(rt).state(), end, at.ptr(), *link),
        final(rt).model().objs.len() == old(rt).model().objs.len(),
        final(rt).loses_items(old(rt)),
        forall|q: usize| #[trigger] final(rt).model().strong(q) <= old(rt).model().strong(q) + 2,
        forall|q: usize| #[trigger] old(rt).model().has(q) && final(rt).model().live(q) ==> old(rt).model().live(q)
            && final(rt).model().obj(q).item == old(rt).model().obj(q).item,
        forall|q: usize| #[trigger] final(rt).model().held(q) == old(rt).model().held(q) + (if r.1 {
            occurrences(link_edges(*link), q) - occurrences(link_edges(end), q)
        } else {
            0
        }),
{
    let ghost start = *rt;
    let ghost m = rt.model();
    let ghost e = link_edges(end);
    let ghost l = link_edges(*link);
    proof {
        if end is Some {
            let h = end->0.ptr();
            lemma_link_occurrences(end, h);
            assert(occurrences(e, h) <= m.held(h));
            assert(m.strong(h) < usize::MAX - 2);
        }
    }
    let looked = copy_link(rt, &end);
    let ghost r1 = *rt;
    match looked {
        Some(h) => {
            if h.as_ptr() == at.as_ptr() {
                proof {
                    if link is Some {
                        assert(m.strong(link->0.ptr()) < usize::MAX - 2);
                        assert(r1.model().strong(link->0.ptr()) <= m.strong(link->0.ptr()) + 1);
                    }
                }
                let copy = copy_link(rt, link);
                let ghost r2 = *rt;
                proof {
                    assert forall|q: usize| occurrences(e, q) <= #[trigger] r2.model().held(q) by {
                        assert(r1.model().held(q) == m.held(q) + occurrences(e, q));
                        assert(m.held(q) >= 0);
                    }
                }
                drop_link(rt, end);
                let ghost r3 = *rt;
                proof {
                    assert forall|q: usize| occurrences(e, q) <= #[trigger] r3.model().held(q) by {
                        assert(r2.model().held(q) == r1.model().held(q) + occurrences(l, q));
                        assert(r1.model().held(q) == m.held(q) + occurrences(e, q));
                        assert(occurrences(e, q) <= m.held(q));
                    }
                }
                drop_link(rt, Some(h));
                proof {
                    assert forall|q: usize| #[trigger] rt.model().held(q) == m.held(q) + occurrences(l, q) - occurrences(
                        e,
                        q,
                    ) by {
                        assert(r3.model().held(q) == r2.model().held(q) - occurrences(e, q));
                        assert(r2.model().held(q) == r1.model().held(q) + occurrences(l, q));
                        assert(r1.model().held(q) == m.held(q) + occurrences(e, q));
                    }
                    assert(r1.model().objs.len() == m.objs.len());
                    assert(r2.model().objs.len() == m.objs.len());
                    assert(r2.loses_items(&start)) by {
                        assert forall|p: usize| r2.model().has(p) implies (#[trigger] r2.item(p)) is None || r2.item(p)
                            == start.item(p) by {
                            assert(r1.item(p) == start.item(p));
                        }
                    }
                    lemma_loses_trans(&start, &r2, &r3);
                    lemma_loses_trans(&start, &r3, rt);
                    assert forall|q: usize| #[trigger] rt.model().strong(q) <= m.strong(q) + 2 by {
                        assert(rt.model().strong(q) <= r3.model().strong(q));
                        assert(r3.model().strong(q) <= r2.model().strong(q));
                        assert(r2.model().strong(q) <= r1.model().strong(q) + 1);
                        assert(r1.model().strong(q) <= m.strong(q) + 1);
                    }
                    assert forall|q: usize| #[trigger] m.has(q) && rt.model().live(q) implies m.live(q)
                        && rt.model().obj(q).item == m.obj(q).item by {
                        assert(r3.model().has(q));
                        assert(r2.model().has(q));
                        assert(r2.model().obj(q).item == m.obj(q).item);
                    }
                }
                (copy, true)
            } else {
                proof {
                    assert forall|q: usize| occurrences(e, q) <= #[trigger] r1.model().held(q) by {
                        assert(m.held(q) >= 0);
                    }
                }
                drop_link(rt, Some(h));
                proof {
                    assert forall|q: usize| #[trigger] rt.model().held(q) == m.held(q) by {
                        assert(r1.model().held(q) == m.held(q) + occurrences(e, q));
                    }
                    assert(r1.model().objs.len() == m.objs.len());
                    assert(r1.loses_items(&start));
                    lemma_loses_trans(&start, &r1, rt);
                    assert forall|q: usize| #[trigger] rt.model().strong(q) <= m.strong(q) + 2 by {
                        assert(rt.model().strong(q) <= r1.model().strong(q));
                        assert(r1.model().strong(q) <= m.strong(q) + 1);
                    }
                    assert forall|q: usize| #[trigger] m.has(q) && rt.model().live(q) implies m.live(q)
                        && rt.model().obj(q).item == m.obj(q).item by {
                        assert(r1.model().has(q));
                        assert(r1.model().obj(q).item == m.obj(q).item);
                    }
                }
                (end, false)
            }
        },
        None => (end, false),
    }
}

/// Replaces the ends of a list that are the node at `at` by its neighbors.
fn leave_list<V>(
    rt: &mut Runtime<Node<V>>,
    list: &mut List<V>,
    at: &Gc<Node<V>>,
    curr_next: Option<Gc<Node<V>>>,
    curr_prev: Option<Gc<Node<V>>>,
)
    requires
        old(rt).wf(),
        forall|q: usize| occurrences(link_edges(old(list).head), q) + occurrences(link_edges(old(list).tail), q)
            + occurrences(link_edges(curr_next), q) + occurrences(link_edges(curr_prev), q)
            <= #[trigger] old(rt).model().held(q),
        forall|q: usize| #[trigger] old(rt).model().strong(q) < usize::MAX - 6,
        old(list).len > 0,
    ensures
        final(rt).wf(),
        old(rt).idle() ==> final(rt).idle(),
        *final(list) == without(*old(list), at.ptr(), curr_next, curr_prev),
        final(rt).state() == left(old(rt).state(), at.ptr(), *old(list), curr_next, curr_prev),
        final(rt).model().objs.len() == old(rt).model().objs.len(),
        final(rt).loses_items(old(rt)),
        forall|q: usize| #[trigger] old(rt).model().has(q) && final(rt).model().live(q) ==> old(rt).model().live(q)
            && final(rt).model().obj(q).item == old(rt).model().obj(q).item,
        forall|q: usize| #[trigger] final(rt).model().held(q) == old(rt).model().held(q) - occurrences(
            old(list).edges(),
            q,
        ) + occurrences(final(list).edges(), q) - occurrences(link_edges(curr_next), q) - occurrences(
            link_edges(curr_prev),
            q,
        ),
{
    let ghost r1 = *rt;
    let ghost m = rt.model();
    let ghost before = *list;
    let ghost he = link_edges(list.head);
    let ghost te = link_edges(list.tail);
    let ghost n = link_edges(curr_next);
    let ghost p = link_edges(curr_prev);
    proof {
        assert forall|q: usize| occurrences(he, q) <= #[trigger] m.held(q) by {}
        if curr_next is Some {
            let c = curr_next->0.ptr();
            assert(m.strong(c) < usize::MAX - 6);
            lemma_link_occurrences(curr_next, c);
            assert(occurrences(he, c) + occurrences(te, c) + occurrences(n, c) + occurrences(p, c) <= m.held(c));
        }
        assert forall|q: usize| #[trigger] m.strong(q) < usize::MAX - 2 by {
            assert(m.strong(q) < usize::MAX - 6);
        }
    }
    let (head, head_left) = leave_end(rt, list.head.take(), at, &curr_next);
    list.head = head;
    let ghost r2 = *rt;
    proof {
        assert forall|q: usize| occurrences(te, q) <= #[trigger] r2.model().held(q) by {
            assert(occurrences(he, q) + occurrences(te, q) + occurrences(n, q) + occurrences(p, q) <= m.held(q));
        }
        assert forall|q: usize| #[trigger] r2.model().strong(q) < usize::MAX - 2 by {
            assert(m.strong(q) < usize::MAX - 6);
            assert(r2.model().strong(q) <= m.strong(q) + 2);
        }
    }
    let nothing: Option<Gc<Node<V>>> = None;
    let (tail, tail_left) = leave_end(rt, list.tail.take(), at, &nothing);
    let ghost r3 = *rt;
    let rest = if tail_left {
        list.tail = curr_prev;
        None
    } else {
        list.tail = tail;
        curr_prev
    };
    list.len = list.len - 1;
    let ghost re = link_edges(rest);
    proof {
        assert forall|q: usize| #[trigger] r3.model().held(q) == m.held(q) + (if head_left {
            occurrences(n, q) - occurrences(he, q)
        } else {
            0
        }) - (if tail_left {
            occurrences(te, q) as int
        } else {
            0
        }) by {
            lemma_link_occurrences(nothing, q);
            assert(r2.model().held(q) == m.held(q) + (if head_left {
                occurrences(n, q) - occurrences(he, q)
            } else {
                0
            }));
        }
        assert forall|q: usize| #[trigger] occurrences(re, q) == (if tail_left { 0 } else { occurrences(p, q) }) by {
            lemma_link_occurrences(rest, q);
        }
        assert forall|q: usize| occurrences(re, q) <= #[trigger] r3.model().held(q) by {
            assert(occurrences(he, q) + occurrences(te, q) + occurrences(n, q) + occurrences(p, q) <= m.held(q));
        }
    }
    drop_link(rt, rest);
    let ghost r4 = *rt;
    proof {
        assert forall|q: usize| occurrences(n, q) <= #[trigger] r4.model().held(q) by {
            assert(r4.model().held(q) == r3.model().held(q) - occurrences(re, q));
            assert(occurrences(he, q) + occurrences(te, q) + occurrences(n, q) + occurrences(p, q) <= m.held(q));
        }
    }
    drop_link(rt, curr_next);
    proof {
        assert forall|q: usize| #[trigger] rt.model().held(q) == m.held(q) - occurrences(before.edges(), q)
            + occurrences(list.edges(), q) - occurrences(n, q) - occurrences(p, q) by {
            lemma_occurrences_add(he, te, q);
            lemma_occurrences_add(link_edges(list.head), link_edges(list.tail), q);
            assert(r4.model().held(q) == r3.model().held(q) - occurrences(re, q));
            assert(occurrences(re, q) == (if tail_left { 0 } else { occurrences(p, q) }));
        }
        lemma_loses_trans(&r1, &r2, &r3);
        lemma_loses_trans(&r1, &r3, &r4);
        lemma_loses_trans(&r1, &r4, rt);
        assert forall|q: usize| #[trigger] m.has(q) && rt.model().live(q) implies m.live(q) && rt.model().obj(q).item
            == m.obj(q).item by {
            assert(r4.model().has(q));
            assert(r3.model().has(q));
            assert(r2.model().has(q));
        }
    }
}

/// Where a node was taken out of a list, the ones next to it are linked with each
/// other, and all other nodes are where they were.
proof fn lemma_remove_holds<V>(
    before: &Runtime<Node<V>>,
    after: &Runtime<Node<V>>,
    list: List<V>,
    now: List<V>,
    nodes: Seq<Gc<Node<V>>>,
    vals: Seq<V>,
    k: int,
)
    requires
        after.wf(),
        holds(before, list, nodes, vals),
        0 <= k < nodes.len(),
        now == without(list, nodes[k].ptr(), place(nodes, k + 1), place(nodes, k - 1)),
        now.head matches Some(h) ==> after.model().live(h.ptr()),
        k + 1 < nodes.len() ==> after.item(nodes[k + 1].ptr()) == bypassed_item(
            before,
            nodes[k].ptr(),
            nodes[k + 1].ptr(),
        ),
        k > 0 ==> after.item(nodes[k - 1].ptr()) == bypassed_item(before, nodes[k].ptr(), nodes[k - 1].ptr()),
        forall|q: usize|
            before.model().has(q) ==> (#[trigger] after.item(q)) is None || after.item(q) == bypassed_item(
                before,
                nodes[k].ptr(),
                q,
            ),
        forall|q: usize| #[trigger]
            before.model().has(q) && after.model().live(q) && !(place(nodes, k + 1) matches Some(c) && c.ptr() == q) && !(
            place(nodes, k - 1) matches Some(c) && c.ptr() == q) ==> after.model().obj(q).item == before.model().obj(
                q,
            ).item,
    ensures
        holds(after, now, nodes.remove(k), vals.remove(k)),
{
    let all = nodes.remove(k);
    let held = vals.remove(k);
    nodes.remove_ensures(k);
    vals.remove_ensures(k);
    assert forall|j: int| 0 <= j < all.len() implies #[trigger] all[j] == nodes[if j < k { j } else { j + 1 }] && held[j]
        == vals[if j < k { j } else { j + 1 }] by {}
    assert(before.item(nodes[k].ptr()) == Some(placed(nodes, vals, k)));
    assert forall|j: int| 0 <= j < all.len() && after.model().live((#[trigger] all[j]).ptr()) implies after.model().filled(
        all[j].ptr(),
    ) && after.item(all[j].ptr()) == Some(placed(all, held, j)) by {
        let i = if j < k { j } else { j + 1 };
        let q = nodes[i].ptr();
        after.lemma_items();
        assert(after.model().has(q));
        assert(before.model().filled(q) && before.item(q) == Some(placed(nodes, vals, i)));
        assert(place(all, j + 1) == (if j == k - 1 { place(nodes, k + 1) } else { place(nodes, i + 1) }));
        assert(place(all, j - 1) == (if j == k { place(nodes, k - 1) } else { place(nodes, i - 1) }));
        if k + 1 < nodes.len() && i != k + 1 {
            assert(nodes[k + 1].ptr() != q);
        }
        if k > 0 && i != k - 1 {
            assert(nodes[k - 1].ptr() != q);
        }
        if i != k + 1 && i != k - 1 {
            assert(bypassed_item(before, nodes[k].ptr(), q) == before.item(q));
            lemma_item_kept(before, after, q);
        }
    }
    assert forall|i: int, j: int| 0 <= i < j < all.len() implies (#[trigger] all[i]).ptr() != (#[trigger] all[j]).ptr() by {}
    if nodes.len() > 0 {
        assert(nodes[0].ptr() == nodes[k].ptr() <==> k == 0);
        assert(nodes[nodes.len() - 1].ptr() == nodes[k].ptr() <==> k == nodes.len() - 1);
    }
    if all.len() > 0 {
        assert(now.head == Some(all[0]));
        lemma_holds(after, now, all, held, 0);
    }
}

impl<V> Gc<Node<V>> {
    /// Takes this node out of the list that contains it. Its neighbors are
    /// linked with each other, and where it was at an end of the list its
    /// neighbor is. The links of the node itself stay as they are.
    pub fn unlink(&self, rt: &mut Runtime<Node<V>>, list: &mut List<V>)
        requires
            old(rt).wf(),
            old(rt).model().filled(self.ptr()),
            covered(old(rt).model(), old(list).edges().push(self.ptr())),
            old(rt).item(self.ptr())->0.next matches Some(c) ==> old(rt).model().filled(c.ptr()),
            old(rt).item(self.ptr())->0.prev matches Some(c) ==> old(rt).model().filled(c.ptr()),
            forall|q: usize| #[trigger] old(rt).model().strong(q) < usize::MAX - 10,
            old(list).len > 0,
        ensures
            final(rt).wf(),
            old(rt).idle() ==> final(rt).idle(),
            old(rt).item(self.ptr()) is Some,
            *final(list) == without(
                *old(list),
                self.ptr(),
                old(rt).item(self.ptr())->0.next,
                old(rt).item(self.ptr())->0.prev,
            ),
            final(rt).state() == unlinked(old(rt), self.ptr(), *old(list)),
            final(rt).item(self.ptr()) == old(rt).item(self.ptr()),
            old(rt).item(self.ptr())->0.next matches Some(c) ==> final(rt).item(c.ptr()) == bypassed_item(
                old(rt),
                self.ptr(),
                c.ptr(),
            ),
            old(rt).item(self.ptr())->0.prev matches Some(c) ==> final(rt).item(c.ptr()) == bypassed_item(
                old(rt),
                self.ptr(),
                c.ptr(),
            ),
            forall|q: usize|
                old(rt).model().has(q) ==> (#[trigger] final(rt).item(q)) is None || final(rt).item(q) == bypassed_item(
                    old(rt),
                    self.ptr(),
                    q,
                ),
            forall|q: usize| #[trigger] final(rt).model().held(q) == old(rt).model().held(q) - occurrences(
                old(list).edges(),
                q,
            ) + occurrences(final(list).edges(), q),
            forall|nodes: Seq<Gc<Node<V>>>, vals: Seq<V>, k: int|
                #![trigger holds(old(rt), *old(list), nodes, vals), nodes[k]]
                holds(old(rt), *old(list), nodes, vals) && 0 <= k < nodes.len() && nodes[k] == *self ==> holds(
                    final(rt),
                    *final(list),
                    nodes.remove(k),
                    vals.remove(k),
                ),
    {
        let ghost start = *rt;
        let ghost m = rt.model();
        let ghost a = self.ptr();
        let ghost before = *list;
        proof {
            assert forall|q: usize| occurrences(link_edges(before.head), q) + occurrences(link_edges(before.tail), q)
                + one(q, a) <= #[trigger] m.held(q) by {
                lemma_occurrences_push(before.edges(), a, q);
                lemma_occurrences_add(link_edges(before.head), link_edges(before.tail), q);
                assert(occurrences(before.edges().push(a), q) <= m.held(q));
            }
            assert(m.held(a) >= 1);
        }
        let (curr_next, curr_prev) = bypass(rt, self);
        let ghost r1 = *rt;
        proof {
            assert forall|q: usize| occurrences(link_edges(before.head), q) + occurrences(link_edges(before.tail), q)
                + occurrences(link_edges(curr_next), q) + occurrences(link_edges(curr_prev), q)
                <= #[trigger] r1.model().held(q) by {
                assert(m.held(q) >= occurrences(link_edges(before.head), q) + occurrences(link_edges(before.tail), q));
            }
        }
        leave_list(rt, list, self, curr_next, curr_prev);
        proof {
            assert forall|q: usize| m.has(q) implies (#[trigger] rt.item(q)) is None || rt.item(q) == bypassed_item(
                &start,
                a,
                q,
            ) by {
                assert(r1.item(q) is None || r1.item(q) == bypassed_item(&start, a, q));
            }
            assert(rt.model().held(a) > 0) by {
                assert(m.held(a) >= occurrences(link_edges(before.head), a) + occurrences(link_edges(before.tail), a)
                    + 1);
                lemma_occurrences_add(link_edges(before.head), link_edges(before.tail), a);
                assert(r1.model().held(a) == m.held(a) + occurrences(link_edges(curr_next), a) + occurrences(
                    link_edges(curr_prev),
                    a,
                ));
            }
            assert(r1.model().has(a));
            lemma_item_kept(&r1, rt, a);
            lemma_link_live(rt, a, true);
            lemma_link_live(rt, a, false);
            if curr_next is Some {
                assert(r1.model().has(curr_next->0.ptr()));
                lemma_item_kept(&r1, rt, curr_next->0.ptr());
            }
            if curr_prev is Some {
                assert(r1.model().has(curr_prev->0.ptr()));
                lemma_item_kept(&r1, rt, curr_prev->0.ptr());
            }
            assert forall|q: usize| #[trigger] m.has(q) && rt.model().live(q) && !(curr_next matches Some(c) && c.ptr()
                == q) && !(curr_prev matches Some(c) && c.ptr() == q) implies rt.model().obj(q).item
                == m.obj(q).item by {
                assert(r1.model().has(q));
            }
            if list.head is Some {
                let h = list.head->0.ptr();
                lemma_link_occurrences(list.head, h);
                lemma_occurrences_add(link_edges(list.head), link_edges(list.tail), h);
                lemma_occurrences_add(link_edges(before.head), link_edges(before.tail), h);
                assert(m.held(h) >= occurrences(link_edges(before.head), h) + occurrences(link_edges(before.tail), h));
                assert(rt.model().held(h) > 0);
            }
            assert forall|nodes: Seq<Gc<Node<V>>>, vals: Seq<V>, k: int|
                #![trigger holds(&start, before, nodes, vals), nodes[k]]
                holds(&start, before, nodes, vals) && 0 <= k < nodes.len() && nodes[k] == *self implies holds(
                rt,
                *list,
                nodes.remove(k),
                vals.remove(k),
            ) by {
                lemma_remove_holds(&start, rt, before, *list, nodes, vals, k);
            }
        }
    }
}

} // verus!
