//! Doubly linked lists.

use rand::Rng;
use samsara::collector::Collector;
use samsara::flags::GcFlags;
use samsara::gc::{number_of_live_objects, Gc, WeakRoot};
use samsara::list::{List, Node};
use samsara::runtime::Runtime;

const LIST_COUNT: usize = 1 << 4;
const ACTION_COUNT: usize = 1 << 1;

/// The values of a list, first to last, by its links to the next node.
fn values(rt: &Runtime<Node<usize>>, list: &List<usize>) -> Vec<usize> {
    let mut r = vec![];
    let mut at = list.head.as_ref().map(|h| h.as_ptr());
    while let Some(p) = at {
        let node = rt.contents(p).unwrap();
        r.push(node.val);
        at = node.next.as_ref().map(|n| n.as_ptr());
    }
    r
}

/// The values of a list, last to first, by its links to the node before.
fn values_back(rt: &Runtime<Node<usize>>, list: &List<usize>) -> Vec<usize> {
    let mut r = vec![];
    let mut at = list.tail.as_ref().map(|t| t.as_ptr());
    while let Some(p) = at {
        let node = rt.contents(p).unwrap();
        r.push(node.val);
        at = node.prev.as_ref().map(|n| n.as_ptr());
    }
    r
}

fn list_of(rt: &mut Runtime<Node<usize>>, vals: &[usize]) -> List<usize> {
    let mut list = List::new();
    for v in vals {
        list.push_tail(rt, *v);
    }
    list
}

fn test_list(rt: &mut Runtime<Node<usize>>) {
    let mut list = List::new();
    for i in 0..=LIST_COUNT {
        list.push_tail(rt, i);
    }

    for i in 0..ACTION_COUNT {
        match rand::thread_rng().gen_range(0..=2) {
            1 => {
                let at = rand::thread_rng().gen_range(0..=list.len - 1);
                let node = list.get(rt, at);
                node.link_next(rt, Node::new(i), &mut list);
                node.drop(rt);
            }
            _ => (),
        }
        Collector::maybe_yuga(rt);
    }

    if let Some(head) = list.get_head(rt) {
        let info = head.get(rt, |n| (n.val, n.next.is_some(), n.prev.is_some()));
        assert_eq!(info, (0, true, false));
        head.drop(rt);
    }
    list.drop(rt);
}

#[test]
fn normal_test_list() {
    let mut rt = Runtime::new();
    test_list(&mut rt);
    Collector::yuga(&mut rt);
    assert_eq!(number_of_live_objects(&rt), 0);
}

#[test]
fn a_dropped_list_leaks_until_the_next_yuga() {
    let mut rt = Runtime::new();
    let mut list = List::new();
    list.push_tail(&mut rt, 1);
    list.push_tail(&mut rt, 2);
    list.push_tail(&mut rt, 3);
    assert_eq!(number_of_live_objects(&rt), 3);
    list.drop(&mut rt);
    assert_eq!(number_of_live_objects(&rt), 3);
    Collector::yuga(&mut rt);
    assert_eq!(number_of_live_objects(&rt), 0);
}

#[test]
fn mini_list() {
    let mut rt = Runtime::new();
    let mut list = List::new();
    for i in 0..3 {
        list.push_tail(&mut rt, i);
    }
    Collector::yuga(&mut rt);
    assert_eq!(values(&rt, &list), vec![0, 1, 2]);
    let n = list.get(&mut rt, 1);
    n.link_next(&mut rt, Node::new(4), &mut list);
    n.drop(&mut rt);
    assert_eq!(values(&rt, &list), vec![0, 1, 4, 2]);
    assert_eq!(values_back(&rt, &list), vec![2, 4, 1, 0]);
    assert_eq!(list.len, 4);
    list.drop(&mut rt);
    Collector::yuga(&mut rt);
    assert_eq!(number_of_live_objects(&rt), 0);
}

#[test]
fn pushes_at_both_ends() {
    let mut rt = Runtime::new();
    let mut list = List::new();
    assert!(list.get_head(&mut rt).is_none());
    list.push_head(&mut rt, 2);
    assert_eq!(list.head.as_ref().unwrap().as_ptr(), list.tail.as_ref().unwrap().as_ptr());
    list.push_head(&mut rt, 1);
    list.push_tail(&mut rt, 3);
    assert_eq!(values(&rt, &list), vec![1, 2, 3]);
    assert_eq!(values_back(&rt, &list), vec![3, 2, 1]);
    assert_eq!(list.len, 3);
    // One handle of the list and one of the second node.
    assert_eq!(rt.strong_count(list.head.as_ref().unwrap().as_ptr()), 2);
    list.drop(&mut rt);
}

#[test]
fn a_node_that_follows_the_last_leaves_the_ends_alone() {
    let mut rt = Runtime::new();
    let mut list = list_of(&mut rt, &[7]);
    let last = list.get(&mut rt, 0);
    last.link_next(&mut rt, Node::new(8), &mut list);
    last.drop(&mut rt);
    assert_eq!(values(&rt, &list), vec![7, 8]);
    // The tail is still the first node, and the second has no link back.
    assert_eq!(values_back(&rt, &list), vec![7]);
    assert_eq!(list.len, 2);
}

#[test]
fn unlinks_in_the_middle() {
    let mut rt = Runtime::new();
    let mut list = list_of(&mut rt, &[1, 2, 3]);
    let n = list.get(&mut rt, 1);
    n.unlink(&mut rt, &mut list);
    assert_eq!(values(&rt, &list), vec![1, 3]);
    assert_eq!(values_back(&rt, &list), vec![3, 1]);
    assert_eq!(list.len, 2);
    assert_eq!(n.get(&rt, |n| n.val), 2);
    n.drop(&mut rt);
    list.drop(&mut rt);
    Collector::yuga(&mut rt);
    assert_eq!(number_of_live_objects(&rt), 0);
}

#[test]
fn unlinks_at_the_ends() {
    let mut rt = Runtime::new();
    let mut list = list_of(&mut rt, &[1, 2, 3]);
    let first = list.get(&mut rt, 0);
    first.unlink(&mut rt, &mut list);
    first.drop(&mut rt);
    assert_eq!(values(&rt, &list), vec![2, 3]);
    assert_eq!(values_back(&rt, &list), vec![3, 2]);
    let last = list.get(&mut rt, 1);
    last.unlink(&mut rt, &mut list);
    last.drop(&mut rt);
    assert_eq!(values(&rt, &list), vec![2]);
    assert_eq!(values_back(&rt, &list), vec![2]);
    let only = list.get(&mut rt, 0);
    only.unlink(&mut rt, &mut list);
    assert!(list.head.is_none() && list.tail.is_none());
    assert_eq!(list.len, 0);
    only.drop(&mut rt);
    assert_eq!(number_of_live_objects(&rt), 0);
}

#[test]
fn a_walk_defers_the_nodes_it_passes() {
    let mut rt = Runtime::new();
    let list = list_of(&mut rt, &[1, 2, 3]);
    rt.process();
    let third: Gc<Node<usize>> = list.get(&mut rt, 2);
    assert_eq!(third.get(&rt, |n| n.val), 3);
    assert_eq!(rt.pending(), 2);
    rt.process();
    assert!(rt.is_deferred(1) && rt.is_deferred(2));
}

#[test]
fn a_walk_marks_the_visited_nodes_it_passes() {
    let mut rt = Runtime::new();
    let list = list_of(&mut rt, &[1, 2, 3]);
    for ptr in 1..4 {
        rt.mark_visited(&WeakRoot { ptr });
    }
    let third = list.get(&mut rt, 2);
    assert_eq!(third.get(&rt, |n| n.val), 3);
    let both = GcFlags::visited().union(GcFlags::dirty());
    assert_eq!(rt.flags(&WeakRoot { ptr: 1 }), Some(both));
    assert_eq!(rt.flags(&WeakRoot { ptr: 2 }), Some(both));
    assert_eq!(rt.flags(&WeakRoot { ptr: 3 }), Some(GcFlags::visited()));
}
