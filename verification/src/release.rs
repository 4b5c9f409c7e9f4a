//! Dropping handles.

use crate::collector::{Collector, LocalSender, Soul};
use crate::flags::ALL_BITS;
use crate::gc::{drop_action, DropAction, Gc, WeakRoot};
use crate::heap::Heap;
use crate::model::{covered, lemma_drop_total, lemma_drop_wf, State};
use crate::trace::Handles;
use vstd::prelude::*;

verus! {

/// The contents that are left in `new` are those of `old`.
pub open spec fn items_kept<T: Handles>(before: &Heap<T>, after: &Heap<T>) -> bool {
    &&& before.model().objs.len() == after.model().objs.len()
    &&& forall|p: usize| #[trigger] after.model().has(p) ==> after.item(p) is None || after.item(p) == before.item(p)
}

/// Drops the handles whose addresses are in `work`, the last first, and those
/// that fall out of the objects that are freed on the way.
pub(crate) fn release_all<T: Handles>(
    heap: &mut Heap<T>,
    sender: &mut LocalSender,
    c: &Collector,
    mut work: Vec<usize>,
    on_collector: bool,
)
    requires
        old(heap).count_ok(),
        old(heap).model().wf(),
        old(heap).model().defined(),
        covered(old(heap).model(), work@),
    ensures
        final(heap).count_ok(),
        final(heap).model().wf(),
        final(heap).model().defined(),
        (State {
            heap: final(heap).model(),
            deferred: c@.deferred.dom(),
            queue: final(sender).chan@,
        }) == (State {
            heap: old(heap).model(),
            deferred: c@.deferred.dom(),
            queue: old(sender).chan@,
        }).drop_all(work@, on_collector),
        items_kept(old(heap), final(heap)),
{
    let ghost weak = c@.deferred.dom();
    let ghost end = (State { heap: heap.model(), deferred: weak, queue: sender.chan@ }).drop_all(
        work@,
        on_collector,
    );
    while work.len() > 0
        invariant
            heap.count_ok(),
            heap.model().wf(),
            heap.model().defined(),
            covered(heap.model(), work@),
            weak == c@.deferred.dom(),
            (State { heap: heap.model(), deferred: weak, queue: sender.chan@ }).drop_all(
                work@,
                on_collector,
            ) == end,
            items_kept(old(heap), heap),
        decreases heap.model().total(), work@.len(),
    {
        let ghost before = State { heap: heap.model(), deferred: weak, queue: sender.chan@ };
        let ghost stack = work@;
        let ghost start = *heap;
        proof {
            lemma_drop_wf(before, stack, on_collector);
            lemma_drop_total(before, stack.last(), on_collector);
            heap.lemma_items();
        }
        match work.pop() {
            Some(p) => {
                let known = c.defers(p) || sender.carries(p) || heap.kept_count(p) > 0;
                let action = drop_action(on_collector, heap.strong_count(p), known);
                match action {
                    DropAction::Reclaim => sender.send(Soul::Reclaimed(p)),
                    DropAction::Defer => {
                        heap.visited_to_dirty(p);
                        sender.send(Soul::Died(WeakRoot { ptr: p }));
                    },
                    DropAction::Release => {},
                    DropAction::Free => {},
                }
                let ghost marked = *heap;
                let freed = heap.let_go(p);
                let ghost after = before.drop_one(p, on_collector);
                assert(heap.model().objs =~= after.heap.objs);
                proof {
                    assert forall|q: usize| #[trigger] heap.model().has(q) implies heap.model().obj(q).bits <= ALL_BITS
                        && (heap.item(q) is None || heap.item(q) == old(heap).item(q)) by {
                        assert(before.heap.has(q));
                        assert(start.model().has(q));
                        assert(marked.model().has(q));
                    }
                }
                match freed {
                    Some(t) => {
                        let handles = t.handles();
                        push_reversed(&mut work, &handles);
                        assert(work@ =~= stack.drop_last() + before.unwrapped(p).reverse());
                    },
                    None => {
                        assert(work@ =~= stack.drop_last() + before.unwrapped(p).reverse());
                    },
                }
            },
            None => {},
        }
    }
}

/// Puts the addresses of `handles` on the stack `work`, the first on top.
pub(crate) fn push_reversed<T>(work: &mut Vec<usize>, handles: &Vec<Gc<T>>)
    ensures
        final(work)@ == old(work)@ + handles@.map_values(|g: Gc<T>| g.ptr()).reverse(),
{
    let ghost base = work@;
    let ghost ptrs = handles@.map_values(|g: Gc<T>| g.ptr());
    let mut i: usize = handles.len();
    while i > 0
        invariant
            i <= handles@.len(),
            ptrs == handles@.map_values(|g: Gc<T>| g.ptr()),
            work@ == base + ptrs.reverse().take(handles@.len() - i),
        decreases i,
    {
        i -= 1;
        work.push(handles[i].as_ptr());
        assert(ptrs.reverse().take(handles@.len() - i) =~= ptrs.reverse().take(
            handles@.len() - i - 1,
        ).push(ptrs[i as int]));
    }
    assert(ptrs.reverse().take(handles@.len() as int) =~= ptrs.reverse());
}

} // verus!
