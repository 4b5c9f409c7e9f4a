//! The collector's graph, its scan and its marks, told of objects by hand.

use samsara::collector::{Collector, NodeId};
use samsara::draw::{color, draw_graph, draw_node, label, push_decimal};
use samsara::flags::GcFlags;
use samsara::gc::WeakRoot;
use samsara::marks::{GraphNode, Marks};
use samsara::scan::Scan;

fn at(ptr: usize) -> WeakRoot {
    WeakRoot { ptr }
}

fn visited() -> GcFlags {
    GcFlags::visited()
}

/// Visits `ptr`, whose contents hold handles to `to`, none of them visited yet
/// unless they are nodes.
fn visit(c: &mut Collector, scan: &mut Scan, ptr: usize, to: &[usize]) {
    assert!(scan.enter(c, ptr, Some(GcFlags::none())));
    for p in to {
        c.trace_handle(&at(ptr), at(*p), 0);
    }
    scan.conclude(c, ptr, true);
}

#[test]
fn the_defer_list_is_taken_in_order() {
    let mut c = Collector::new();
    for p in [30, 10, 20, 10, 0] {
        c.defer(p);
    }
    assert!(c.defers(10) && c.defers(20) && c.defers(30));
    assert!(!c.defers(0));
    c.reclaim(20);
    c.reclaim(99);
    assert!(!c.defers(20));
    assert_eq!(c.take_roots(), vec![10, 30]);
    assert!(!c.defers(10));
    assert_eq!(c.take_roots(), Vec::<usize>::new());
}

#[test]
fn nodes_are_numbered_as_they_are_found() {
    let mut c = Collector::new();
    assert!(c.add_node(&at(7)));
    assert!(c.add_node(&at(5)));
    assert!(!c.add_node(&at(7)));
    assert_eq!(c.node(7), Some((NodeId(0), 0)));
    assert_eq!(c.node(5), Some((NodeId(1), 0)));
    assert_eq!(c.node(6), None);
    assert_eq!(c.len(), 2);
    assert!(c.defers(7) && c.defers(5));
}

#[test]
fn edges_are_counted_and_drawn_once() {
    let mut c = Collector::new();
    for p in [1, 2, 3] {
        c.add_node(&at(p));
    }
    c.add_edge(&at(1), at(3));
    c.add_edge(&at(1), at(2));
    c.add_edge(&at(1), at(3));
    c.add_edge(&at(2), at(3));
    assert_eq!(c.node(3), Some((NodeId(2), 3)));
    assert_eq!(c.node(2), Some((NodeId(1), 1)));
    assert_eq!(c.outgoing(0), vec![1, 2]);
    assert_eq!(c.outgoing(1), vec![2]);
    assert_eq!(c.outgoing(2), Vec::<u32>::new());
    let mut rows = c.rows();
    rows.sort();
    assert_eq!(rows, vec![(1, (0, 0)), (2, (1, 1)), (3, (2, 3))]);
}

#[test]
fn a_visited_handle_is_a_node_already() {
    let mut c = Collector::new();
    c.add_node(&at(1));
    c.trace_handle(&at(1), at(2), 0);
    c.trace_handle(&at(1), at(2), 1);
    c.trace_handle(&at(1), at(2), 3);
    assert_eq!(c.node(2), Some((NodeId(1), 3)));
    assert_eq!(c.len(), 2);
}

#[test]
fn what_is_forgotten_leaves_its_number() {
    let mut c = Collector::new();
    c.add_node(&at(1));
    c.add_node(&at(2));
    c.forget(1);
    assert_eq!(c.node(1), None);
    assert!(!c.defers(1));
    assert_eq!(c.node(2), Some((NodeId(1), 0)));
    assert_eq!(c.len(), 2);
    c.reset();
    assert_eq!(c.len(), 0);
    assert!(!c.defers(2));
    assert_eq!(c.rows(), vec![]);
}

#[test]
fn a_scan_goes_on_with_what_it_finds() {
    let mut c = Collector::new();
    let mut scan = Scan::new(&c);
    scan.start(50);
    assert_eq!(scan.next(), Some(50));
    visit(&mut c, &mut scan, 50, &[70, 60, 70]);
    // The root itself was new to the defer list too.
    assert_eq!(scan.next(), Some(50));
    assert!(!scan.enter(&mut c, 50, Some(visited())));
    assert_eq!(scan.next(), Some(60));
    visit(&mut c, &mut scan, 60, &[50]);
    assert_eq!(scan.next(), Some(70));
    assert_eq!(c.node(50), Some((NodeId(0), 1)));
    assert_eq!(c.node(70), Some((NodeId(1), 2)));
    assert_eq!(c.node(60), Some((NodeId(2), 1)));
    visit(&mut c, &mut scan, 70, &[]);
    assert_eq!(scan.next(), None);
}

#[test]
fn a_scan_passes_over_what_it_can_not_visit() {
    let mut c = Collector::new();
    let mut scan = Scan::new(&c);
    scan.start(1);
    scan.start(2);
    scan.start(1);
    // The one on top was freed.
    assert_eq!(scan.next(), Some(1));
    assert!(!scan.enter(&mut c, 1, None));
    assert_eq!(c.node(1), None);
    // The next one is in use.
    assert_eq!(scan.next(), Some(2));
    assert!(scan.enter(&mut c, 2, Some(GcFlags::none())));
    scan.conclude(&c, 2, false);
    // What is left is the freed one again.
    assert_eq!(scan.next(), None);

    let marks = Marks::settle(&mut c, &scan);
    assert!(marks.is_alive(NodeId(0)));
    assert_eq!(marks.mark(NodeId(0)), GraphNode::Live);
    assert_eq!(c.node(2), None);
    assert!(!c.defers(2));
}

#[test]
fn a_node_is_judged_by_its_count() {
    let mut c = Collector::new();
    let mut scan = Scan::new(&c);
    // 1 -> 2 -> 3 and 4 -> 1.
    visit(&mut c, &mut scan, 1, &[2]);
    visit(&mut c, &mut scan, 2, &[3]);
    visit(&mut c, &mut scan, 3, &[]);
    visit(&mut c, &mut scan, 4, &[1]);
    let mut marks = Marks::settle(&mut c, &scan);
    for id in 0..4 {
        assert_eq!(marks.mark(NodeId(id)), GraphNode::Unknown);
        assert!(!marks.is_alive(NodeId(id)));
    }
    // As many handles as were found.
    marks.judge(&c, 3, visited(), 1);
    assert_eq!(marks.mark(NodeId(2)), GraphNode::Dead);
    marks.judge(&c, 4, visited(), 0);
    // One more than was found: alive, with all that it leads to.
    marks.judge(&c, 2, visited(), 2);
    assert_eq!(marks.mark(NodeId(1)), GraphNode::Live);
    assert_eq!(marks.mark(NodeId(2)), GraphNode::Reachable);
    assert!(marks.is_alive(NodeId(1)) && marks.is_alive(NodeId(2)));
    assert_eq!(marks.mark(NodeId(3)), GraphNode::Dead);
    assert!(!marks.is_alive(NodeId(0)) && !marks.is_alive(NodeId(3)));
}

#[test]
fn a_dirty_node_is_alive_whatever_its_count() {
    let mut c = Collector::new();
    let mut scan = Scan::new(&c);
    visit(&mut c, &mut scan, 1, &[2]);
    visit(&mut c, &mut scan, 2, &[1]);
    let mut marks = Marks::settle(&mut c, &scan);
    marks.judge(&c, 1, visited().union(GcFlags::dirty()), 1);
    assert_eq!(marks.mark(NodeId(0)), GraphNode::Dirty);
    assert_eq!(marks.mark(NodeId(1)), GraphNode::Reachable);
}

#[test]
fn a_handle_that_moves_past_the_scan_keeps_its_target() {
    // 1 and 2 refer to each other, and so do 2 and 3; a mutator has 2 as well.
    let mut c = Collector::new();
    let mut scan = Scan::new(&c);
    visit(&mut c, &mut scan, 1, &[2]);
    // Now the handle to 2 inside 1 takes the place of the one inside 3.
    visit(&mut c, &mut scan, 2, &[1, 3]);
    visit(&mut c, &mut scan, 3, &[2]);
    let mut marks = Marks::settle(&mut c, &scan);
    // It was found twice, which makes up for the handle of the mutator.
    assert_eq!(c.node(2), Some((NodeId(1), 2)));
    marks.judge(&c, 2, visited(), 2);
    assert_eq!(marks.mark(NodeId(1)), GraphNode::Dead);
    marks.judge(&c, 3, visited(), 1);
    assert_eq!(marks.mark(NodeId(2)), GraphNode::Dead);
    // But the contents that it left are marked.
    marks.judge(&c, 1, visited().union(GcFlags::dirty()), 1);
    assert_eq!(marks.mark(NodeId(0)), GraphNode::Dirty);
    assert_eq!(marks.mark(NodeId(1)), GraphNode::Reachable);
    assert_eq!(marks.mark(NodeId(2)), GraphNode::Reachable);
}

#[test]
fn the_graph_is_drawn() {
    let mut c = Collector::new();
    let mut scan = Scan::new(&c);
    visit(&mut c, &mut scan, 1, &[3, 2, 3]);
    let mut marks = Marks::settle(&mut c, &scan);
    marks.judge(&c, 1, visited(), 12);
    // A node that came after the verdict is not drawn.
    c.add_node(&at(9));
    let drawn = draw_graph(&c, &marks, &vec![(3, (1, 2)), (1, (0, 0))], &vec![None, Some(12)]);
    assert_eq!(drawn.len(), 2);
    let leaf = &drawn[0];
    assert_eq!(leaf.id, 1);
    assert_eq!(leaf.label, "\"1 0:2\"");
    assert_eq!(leaf.color, "lime");
    assert_eq!(leaf.edges, vec![]);
    let root = &drawn[1];
    assert_eq!(root.id, 0);
    assert_eq!(root.label, "\"0 12:0\"");
    assert_eq!(root.color, "green");
    assert_eq!(root.edges, vec![(1, 0), (2, 0)]);
    // A node that is no longer on the defer list shows no handles.
    c.reclaim(1);
    let drawn = draw_graph(&c, &marks, &vec![(1, (0, 0)), (2, (2, 1))], &vec![Some(12), Some(4)]);
    assert_eq!(drawn[0].label, "\"0 0:0\"");
    assert_eq!(drawn[1].label, "\"2 4:1\"");
    assert_eq!(draw_node(&c, &marks, NodeId(2), 5, 1).label, "\"2 5:1\"");
}

#[test]
fn colors_and_labels() {
    assert_eq!(color(GraphNode::Unknown), "orange");
    assert_eq!(color(GraphNode::Dead), "grey");
    assert_eq!(color(GraphNode::Dirty), "black");
    assert_eq!(color(GraphNode::Live), "green");
    assert_eq!(color(GraphNode::Reachable), "lime");
    assert_eq!(label(7, 890, 1234567), "\"7 890:1234567\"");
    let mut s = String::from("n=");
    push_decimal(&mut s, 0);
    push_decimal(&mut s, 10);
    push_decimal(&mut s, usize::MAX);
    assert_eq!(s, format!("n=010{}", usize::MAX));
}
