//! Handles, flags, messages and counts.

use samsara::add;
use samsara::collector::{Collector, LocalSender, Soul};
use samsara::flags::{visited_to_dirty, GcFlags};
use samsara::gc::{drop_action, number_of_live_objects, DropAction, Gc, WeakRoot};
use samsara::heap::Heap;
use samsara::runtime::Runtime;
use samsara::trace::{Handles, Trace};
use samsara::tracker::{Tracker, TrackerLocation};

/// A number and any number of handles.
struct Cell {
    n: usize,
    to: Vec<Gc<Cell>>,
}

impl Handles for Cell {
    fn handles(self) -> Vec<Gc<Cell>> {
        self.to
    }
}

impl Trace for Cell {
    const MUT: bool = false;

    fn trace(&self, root: &WeakRoot, c: &mut Collector, heap: &Heap<Cell>) {
        for g in &self.to {
            g.trace(root, c, heap);
        }
    }
}

fn cell(rt: &mut Runtime<Cell>, n: usize) -> Gc<Cell> {
    Gc::new(rt, Cell { n, to: vec![] })
}

fn point(rt: &mut Runtime<Cell>, from: &Gc<Cell>, to: &Gc<Cell>) {
    let handle = to.clone(rt);
    from.set(rt, |c, _| c.to.push(handle));
}

#[test]
fn adds() {
    assert_eq!(add(2, 3), 5);
}

#[test]
fn flags_are_bits() {
    assert_eq!(GcFlags::none().bits(), 0);
    assert_eq!(GcFlags::visited().bits(), 1);
    assert_eq!(GcFlags::dirty().bits(), 2);
    let both = GcFlags::visited().union(GcFlags::dirty());
    assert_eq!(both.bits(), 3);
    assert!(both.contains(GcFlags::dirty()) && both.contains(both));
    assert!(!GcFlags::visited().contains(both));
    assert_eq!(GcFlags::from_bits(3), Some(both));
    assert_eq!(GcFlags::from_bits(4), None);
}

#[test]
fn a_visited_object_becomes_dirty() {
    assert_eq!(visited_to_dirty(0), None);
    assert_eq!(visited_to_dirty(1), Some((1, 3)));
    assert_eq!(visited_to_dirty(3), Some((1, 3)));
    assert_eq!(visited_to_dirty(2), None);
}

#[test]
fn what_a_drop_owes() {
    assert_eq!(drop_action(true, 1, true), DropAction::Release);
    assert_eq!(drop_action(true, 5, false), DropAction::Release);
    assert_eq!(drop_action(false, 1, true), DropAction::Reclaim);
    assert_eq!(drop_action(false, 1, false), DropAction::Free);
    assert_eq!(drop_action(false, 2, false), DropAction::Defer);
    assert_eq!(drop_action(false, 2, true), DropAction::Defer);
}

#[test]
fn objects_are_counted() {
    let mut loc = TrackerLocation::new(5);
    let a = Tracker::of(&mut loc);
    let b = Tracker::of(&mut loc);
    assert_eq!(loc.get(), 7);
    assert_eq!(a.get(&loc), 7);
    a.drop(&mut loc);
    assert_eq!(b.get(&loc), 6);
    assert_eq!(Tracker::one_more(6), 7);
    assert_eq!(Tracker::one_less(6), 5);
    assert_eq!(Tracker::after_exchange(Ok(6)), None);
    assert_eq!(Tracker::after_exchange(Err(8)), Some(8));
}

#[test]
fn souls_arrive_in_order() {
    let mut s = LocalSender::new();
    assert_eq!(s.recv(), None);
    s.send(Soul::Died(WeakRoot { ptr: 3 }));
    s.send(Soul::Reclaimed(4));
    s.send(Soul::Yuga);
    assert!(s.carries(3));
    assert!(!s.carries(4));
    assert_eq!(s.recv(), Some(Soul::Died(WeakRoot { ptr: 3 })));
    assert_eq!(s.recv(), Some(Soul::Reclaimed(4)));
    assert_eq!(s.recv(), Some(Soul::Yuga));
    assert_eq!(s.recv(), None);
}

#[test]
fn a_last_handle_frees_at_once() {
    let mut rt = Runtime::new();
    let a = cell(&mut rt, 1);
    assert_eq!(number_of_live_objects(&rt), 1);
    a.drop(&mut rt);
    assert_eq!(number_of_live_objects(&rt), 0);
    assert_eq!(rt.pending(), 0);
}

#[test]
fn a_handle_among_others_is_deferred_and_then_reclaimed() {
    let mut rt = Runtime::new();
    let a = cell(&mut rt, 1);
    let b = a.clone(&mut rt);
    assert_eq!(a.as_ptr(), b.as_ptr());
    assert_eq!(rt.strong_count(a.as_ptr()), 2);
    let p = a.as_ptr();
    a.drop(&mut rt);
    assert_eq!(rt.receive(), Some(Soul::Died(WeakRoot { ptr: p })));
    assert!(rt.is_deferred(p));
    b.drop(&mut rt);
    assert_eq!(number_of_live_objects(&rt), 0);
    assert_eq!(rt.receive(), Some(Soul::Reclaimed(p)));
    assert!(!rt.is_deferred(p));
    assert_eq!(rt.receive(), None);
}

#[test]
fn a_soul_on_its_way_is_reclaimed_too() {
    let mut rt = Runtime::new();
    let a = cell(&mut rt, 1);
    let p = a.as_ptr();
    let b = a.clone(&mut rt);
    a.drop(&mut rt);
    b.drop(&mut rt);
    assert_eq!(rt.pending(), 2);
    rt.process();
    assert!(!rt.is_deferred(p));
}

#[test]
fn what_falls_out_is_dropped_in_turn() {
    let mut rt = Runtime::new();
    let a = cell(&mut rt, 1);
    let b = cell(&mut rt, 2);
    let c = cell(&mut rt, 3);
    point(&mut rt, &a, &b);
    point(&mut rt, &b, &c);
    b.drop(&mut rt);
    c.drop(&mut rt);
    rt.process();
    assert!(rt.is_deferred(2) && rt.is_deferred(3));
    a.drop(&mut rt);
    assert_eq!(number_of_live_objects(&rt), 0);
    // The first was not known to the collector, the others were.
    assert_eq!(rt.receive(), Some(Soul::Reclaimed(2)));
    assert_eq!(rt.receive(), Some(Soul::Reclaimed(3)));
    assert_eq!(rt.receive(), None);
}

#[test]
fn contents_are_read_and_changed() {
    let mut rt = Runtime::new();
    let a = cell(&mut rt, 1);
    let old = a.set(&mut rt, |c, _| {
        let old = c.n;
        c.n = 2;
        old
    });
    assert_eq!(old, 1);
    assert_eq!(a.get(&rt, |c| c.n), 2);
    let e: Gc<Cell> = Gc::empty(&mut rt);
    assert!(rt.contents(e.as_ptr()).is_none());
    assert_eq!(number_of_live_objects(&rt), 2);
}

#[test]
fn a_collection_is_asked_for_at_random() {
    let mut rt: Runtime<Cell> = Runtime::new();
    for _ in 0..200 {
        Collector::maybe_yuga(&mut rt);
    }
    assert!(0 < rt.pending() && rt.pending() < 200);
    rt.process();
    assert_eq!(rt.pending(), 0);
    rt.maybe_request(false);
    assert_eq!(rt.pending(), 0);
    rt.maybe_request(true);
    assert_eq!(rt.receive(), Some(Soul::Yuga));
}

#[test]
fn a_cycle_that_is_held_survives() {
    let mut rt = Runtime::new();
    let a = cell(&mut rt, 1);
    let b = cell(&mut rt, 2);
    point(&mut rt, &a, &b);
    point(&mut rt, &b, &a);
    b.drop(&mut rt);
    Collector::yuga(&mut rt);
    assert_eq!(number_of_live_objects(&rt), 2);
    assert_eq!(a.get(&rt, |c| c.to[0].get(&rt, |d| d.n)), 2);
    assert!(!rt.is_deferred(1) && !rt.is_deferred(2));
    a.drop(&mut rt);
    assert_eq!(number_of_live_objects(&rt), 2);
    Collector::yuga(&mut rt);
    assert_eq!(number_of_live_objects(&rt), 0);
}

#[test]
fn what_hangs_off_a_dead_cycle_goes_with_it() {
    let mut rt = Runtime::new();
    let a = cell(&mut rt, 1);
    let b = cell(&mut rt, 2);
    let tail = cell(&mut rt, 3);
    let kept = cell(&mut rt, 4);
    point(&mut rt, &a, &b);
    point(&mut rt, &b, &a);
    point(&mut rt, &b, &tail);
    point(&mut rt, &b, &kept);
    for g in vec![a, b, tail] {
        g.drop(&mut rt);
    }
    Collector::yuga(&mut rt);
    assert_eq!(number_of_live_objects(&rt), 1);
    assert_eq!(kept.get(&rt, |c| c.n), 4);
    assert_eq!(rt.strong_count(kept.as_ptr()), 1);
}

#[test]
fn what_leads_to_a_held_object_from_outside_keeps_a_cycle() {
    let mut rt = Runtime::new();
    let holder = cell(&mut rt, 0);
    let a = cell(&mut rt, 1);
    let b = cell(&mut rt, 2);
    point(&mut rt, &a, &b);
    point(&mut rt, &b, &a);
    point(&mut rt, &holder, &a);
    a.drop(&mut rt);
    b.drop(&mut rt);
    Collector::yuga(&mut rt);
    assert_eq!(number_of_live_objects(&rt), 3);
    holder.drop(&mut rt);
    Collector::yuga(&mut rt);
    assert_eq!(number_of_live_objects(&rt), 0);
}

#[test]
fn an_empty_object_in_a_dead_cycle_is_freed() {
    let mut rt = Runtime::new();
    let a = cell(&mut rt, 1);
    let b = cell(&mut rt, 2);
    let e = Gc::empty(&mut rt);
    point(&mut rt, &a, &b);
    point(&mut rt, &b, &a);
    point(&mut rt, &a, &e);
    for g in vec![a, b, e] {
        g.drop(&mut rt);
    }
    Collector::yuga(&mut rt);
    assert_eq!(number_of_live_objects(&rt), 0);
}

#[test]
fn a_second_collection_finds_nothing_to_do() {
    let mut rt = Runtime::new();
    let a = cell(&mut rt, 1);
    let b = a.clone(&mut rt);
    b.drop(&mut rt);
    Collector::yuga(&mut rt);
    assert_eq!(rt.strong_count(1), 1);
    Collector::yuga(&mut rt);
    assert_eq!(rt.strong_count(1), 1);
    assert_eq!(a.get(&rt, |c| c.n), 1);
}

#[test]
fn numbers_hold_no_handles() {
    let mut rt: Runtime<usize> = Runtime::new();
    let a = Gc::new(&mut rt, 41);
    let b = a.clone(&mut rt);
    a.set(&mut rt, |n, _| *n += 1);
    a.drop(&mut rt);
    Collector::yuga(&mut rt);
    assert_eq!(b.get(&rt, |n| *n), 42);
    let mut small: Runtime<u16> = Runtime::new();
    let c = Gc::new(&mut small, 7u16);
    assert_eq!(c.get(&small, |n| *n), 7);
}

#[test]
fn an_object_that_refers_to_itself_is_freed() {
    let mut rt = Runtime::new();
    let a = cell(&mut rt, 0);
    point(&mut rt, &a, &a);
    a.drop(&mut rt);
    assert_eq!(number_of_live_objects(&rt), 1);
    Collector::yuga(&mut rt);
    assert_eq!(number_of_live_objects(&rt), 0);
}

#[test]
fn an_object_that_refers_to_itself_and_is_held_survives() {
    let mut rt = Runtime::new();
    let a = cell(&mut rt, 7);
    let b = cell(&mut rt, 8);
    point(&mut rt, &a, &a);
    point(&mut rt, &a, &a);
    point(&mut rt, &a, &b);
    let copy = a.clone(&mut rt);
    copy.drop(&mut rt);
    b.drop(&mut rt);
    Collector::yuga(&mut rt);
    assert_eq!(number_of_live_objects(&rt), 2);
    assert_eq!(rt.strong_count(a.as_ptr()), 3);
    assert_eq!(a.get(&rt, |c| c.n), 7);
    a.drop(&mut rt);
    Collector::yuga(&mut rt);
    assert_eq!(number_of_live_objects(&rt), 0);
}

#[test]
fn a_visited_object_is_dirty_after_a_change() {
    let mut rt = Runtime::new();
    let a = cell(&mut rt, 1);
    let b = cell(&mut rt, 2);
    let at = WeakRoot { ptr: a.as_ptr() };
    let other = WeakRoot { ptr: b.as_ptr() };
    let both = GcFlags::visited().union(GcFlags::dirty());
    assert_eq!(rt.flags(&at), Some(GcFlags::none()));
    a.set(&mut rt, |c, _| c.n = 3);
    assert_eq!(rt.flags(&at), Some(GcFlags::none()));
    rt.mark_visited(&at);
    rt.mark_visited(&other);
    assert_eq!(rt.flags(&at), Some(GcFlags::visited()));
    assert_eq!(a.get(&rt, |c| c.n), 3);
    assert_eq!(rt.flags(&at), Some(GcFlags::visited()));
    a.set(&mut rt, |c, _| c.n = 4);
    assert_eq!(rt.flags(&at), Some(both));
    assert_eq!(rt.flags(&other), Some(GcFlags::visited()));
    rt.clear_visited(&at);
    assert_eq!(rt.flags(&at), Some(GcFlags::none()));
}

#[test]
fn a_visited_object_is_dirty_after_a_drop() {
    let mut rt = Runtime::new();
    let a = cell(&mut rt, 1);
    let b = a.clone(&mut rt);
    let at = WeakRoot { ptr: a.as_ptr() };
    rt.mark_visited(&at);
    b.drop(&mut rt);
    assert_eq!(rt.flags(&at), Some(GcFlags::visited().union(GcFlags::dirty())));
    assert_eq!(rt.receive(), Some(Soul::Died(at)));
    a.drop(&mut rt);
    assert_eq!(rt.flags(&at), None);
}

/// Contents whose handle can be moved out of a shared reference.
struct Slot {
    to: std::sync::Mutex<Option<Gc<Slot>>>,
}

impl Handles for Slot {
    fn handles(self) -> Vec<Gc<Slot>> {
        self.to.into_inner().unwrap().into_iter().collect()
    }
}

impl Trace for Slot {
    const MUT: bool = true;

    fn trace(&self, root: &WeakRoot, c: &mut Collector, heap: &Heap<Slot>) {
        if let Some(g) = self.to.try_lock().unwrap().as_ref() {
            g.trace(root, c, heap);
        }
    }
}

fn slot(rt: &mut Runtime<Slot>) -> Gc<Slot> {
    Gc::new(rt, Slot { to: std::sync::Mutex::new(None) })
}

#[test]
fn contents_that_move_when_read_are_collected_too() {
    let mut rt = Runtime::new();
    let a = slot(&mut rt);
    let b = slot(&mut rt);
    let (to_a, to_b) = (a.clone(&mut rt), b.clone(&mut rt));
    a.set(&mut rt, |s, _| *s.to.get_mut().unwrap() = Some(to_b));
    b.set(&mut rt, |s, _| *s.to.get_mut().unwrap() = Some(to_a));
    b.drop(&mut rt);
    Collector::yuga(&mut rt);
    assert_eq!(number_of_live_objects(&rt), 2);
    assert!(a.get(&rt, |s| s.to.lock().unwrap().is_some()));
    a.drop(&mut rt);
    Collector::yuga(&mut rt);
    assert_eq!(number_of_live_objects(&rt), 0);
}

#[test]
fn contents_that_move_when_read_are_marked() {
    let mut rt = Runtime::new();
    let a = slot(&mut rt);
    let at = WeakRoot { ptr: a.as_ptr() };
    assert!(a.get_marked(&mut rt, |s| s.to.lock().unwrap().is_none()));
    assert_eq!(rt.flags(&at), Some(GcFlags::none()));
    rt.mark_visited(&at);
    assert!(a.get_marked(&mut rt, |s| s.to.lock().unwrap().is_none()));
    assert_eq!(rt.flags(&at), Some(GcFlags::visited().union(GcFlags::dirty())));
    let mut plain = Runtime::new();
    let c = cell(&mut plain, 5);
    let there = WeakRoot { ptr: c.as_ptr() };
    plain.mark_visited(&there);
    assert_eq!(c.get_marked(&mut plain, |c| c.n), 5);
    assert_eq!(plain.flags(&there), Some(GcFlags::visited()));
}

#[test]
fn contents_that_a_mutator_works_on_are_not_traced() {
    let mut rt = Runtime::new();
    let a = slot(&mut rt);
    let b = slot(&mut rt);
    let (to_a, to_b) = (a.clone(&mut rt), b.clone(&mut rt));
    a.set(&mut rt, |s, _| *s.to.get_mut().unwrap() = Some(to_b));
    b.set(&mut rt, |s, _| *s.to.get_mut().unwrap() = Some(to_a));
    b.drop(&mut rt);
    a.set(&mut rt, |_, rt| Collector::yuga(rt));
    assert_eq!(number_of_live_objects(&rt), 2);
    assert!(a.get(&rt, |s| s.to.lock().unwrap().is_some()));
}

#[test]
fn a_weak_reference_that_is_kept_is_told_of() {
    let mut rt = Runtime::new();
    let a = cell(&mut rt, 1);
    let at = WeakRoot { ptr: a.as_ptr() };
    let first = at.keep(&mut rt);
    let second = first.keep(&mut rt);
    assert_eq!(rt.kept_count(at.as_ptr()), 2);
    first.forget(&mut rt);
    a.drop(&mut rt);
    assert_eq!(number_of_live_objects(&rt), 0);
    assert_eq!(rt.flags(&second), None);
    assert_eq!(rt.receive(), Some(Soul::Reclaimed(1)));
    second.forget(&mut rt);
    assert_eq!(rt.kept_count(at.as_ptr()), 0);
    let b = cell(&mut rt, 2);
    let there = WeakRoot { ptr: b.as_ptr() };
    let kept = there.keep(&mut rt);
    kept.forget(&mut rt);
    b.drop(&mut rt);
    assert_eq!(rt.receive(), None);
}

#[test]
fn a_weak_reference_that_is_kept_keeps_no_cycle_alive() {
    let mut rt = Runtime::new();
    let a = cell(&mut rt, 1);
    point(&mut rt, &a, &a);
    let at = WeakRoot { ptr: a.as_ptr() }.keep(&mut rt);
    a.drop(&mut rt);
    Collector::yuga(&mut rt);
    assert_eq!(number_of_live_objects(&rt), 0);
    assert_eq!(rt.kept_count(at.as_ptr()), 1);
    assert_eq!(rt.pending(), 0);
}

#[test]
fn a_collection_leaves_no_flags() {
    let mut rt = Runtime::new();
    let a = cell(&mut rt, 1);
    let b = cell(&mut rt, 2);
    point(&mut rt, &a, &b);
    point(&mut rt, &b, &a);
    for g in [a.clone(&mut rt), b.clone(&mut rt)] {
        g.drop(&mut rt);
    }
    b.set(&mut rt, |_, rt| Collector::yuga(rt));
    assert_eq!(rt.flags(&WeakRoot { ptr: 1 }), Some(GcFlags::none()));
    assert_eq!(rt.flags(&WeakRoot { ptr: 2 }), Some(GcFlags::none()));
}

#[test]
fn stale_entries_do_not_matter() {
    let mut rt = Runtime::new();
    let gone = cell(&mut rt, 0);
    let a = cell(&mut rt, 1);
    point(&mut rt, &a, &a);
    let copy = gone.clone(&mut rt);
    copy.drop(&mut rt);
    a.drop(&mut rt);
    rt.process();
    assert!(rt.is_deferred(1) && rt.is_deferred(2));
    rt.request();
    gone.drop(&mut rt);
    assert_eq!(number_of_live_objects(&rt), 1);
    assert_eq!(rt.receive(), Some(Soul::Yuga));
    assert_eq!(number_of_live_objects(&rt), 0);
    assert_eq!(rt.receive(), Some(Soul::Reclaimed(1)));
}

#[test]
fn which_roots_reach_an_object_does_not_matter() {
    for root in 0..3 {
        let mut rt = Runtime::new();
        let cells = vec![cell(&mut rt, 0), cell(&mut rt, 1), cell(&mut rt, 2)];
        let live = cell(&mut rt, 3);
        for i in 0..3 {
            point(&mut rt, &cells[i], &cells[(i + 1) % 3]);
        }
        point(&mut rt, &cells[0], &live);
        // A collection while they are held takes them off the defer list.
        let mut last = Vec::new();
        for (i, g) in cells.into_iter().enumerate() {
            if i == root {
                last.push(g);
            } else {
                g.drop(&mut rt);
            }
        }
        Collector::yuga(&mut rt);
        assert_eq!(number_of_live_objects(&rt), 4);
        // So only one of them is on it in the end.
        for g in last {
            g.drop(&mut rt);
        }
        rt.process();
        for i in 0..3 {
            assert_eq!(rt.is_deferred(i + 1), i == root);
        }
        Collector::yuga(&mut rt);
        assert_eq!(number_of_live_objects(&rt), 1);
        assert_eq!(live.get(&rt, |c| c.n), 3);
    }
}

#[test]
fn no_update_of_the_counter_is_lost() {
    // Two threads count one object each, and both have seen the same word.
    let mut word: usize = 7;
    let exchange = |word: &mut usize, seen: usize, new: usize| {
        if *word == seen {
            *word = new;
            Ok(seen)
        } else {
            Err(*word)
        }
    };
    let (first, second) = (word, word);
    let outcome = exchange(&mut word, first, Tracker::one_more(first));
    assert_eq!(Tracker::after_exchange(outcome), None);
    let outcome = exchange(&mut word, second, Tracker::one_more(second));
    assert_eq!(Tracker::after_exchange(outcome), Some(8));
    let outcome = exchange(&mut word, 8, Tracker::one_more(8));
    assert_eq!(Tracker::after_exchange(outcome), None);
    let outcome = exchange(&mut word, 9, Tracker::one_less(9));
    assert_eq!(Tracker::after_exchange(outcome), None);
    assert_eq!(word, 8);
}
