//! Random graphs, with collections asked for at random.

use rand::Rng;
use samsara::collector::Collector;
use samsara::gc::{number_of_live_objects, Gc, WeakRoot};
use samsara::heap::Heap;
use samsara::runtime::Runtime;
use samsara::trace::{Handles, Trace};

struct DirectedGraphNode {
    label: String,
    edges: Vec<Gc<DirectedGraphNode>>,
}

impl Handles for DirectedGraphNode {
    fn handles(self) -> Vec<Gc<DirectedGraphNode>> {
        self.edges
    }
}

impl Trace for DirectedGraphNode {
    const MUT: bool = false;

    fn trace(&self, root: &WeakRoot, c: &mut Collector, heap: &Heap<DirectedGraphNode>) {
        for p in &self.edges {
            p.trace(root, c, heap);
        }
    }
}

const NODE_COUNT: usize = 1 << 6;
const EDGE_COUNT: usize = 1 << 4;
const SHRINK_DIV: usize = 1 << 3;

fn pick<T>(vec: &Vec<T>) -> usize {
    rand::thread_rng().gen_range(0..vec.len())
}

/// Which of the objects the mutator can get at.
fn within_reach(rt: &Runtime<DirectedGraphNode>, nodes: &Vec<Gc<DirectedGraphNode>>) -> usize {
    let mut seen: Vec<usize> = vec![];
    let mut open: Vec<usize> = nodes.iter().map(|n| n.as_ptr()).collect();
    while let Some(p) = open.pop() {
        if !seen.contains(&p) {
            seen.push(p);
            open.extend(rt.contents(p).unwrap().edges.iter().map(|e| e.as_ptr()));
        }
    }
    seen.len()
}

fn test_graph(edge_count: usize) {
    let mut rt = Runtime::new();
    let mut nodes = Vec::new();
    for i in 0..=NODE_COUNT {
        let node = DirectedGraphNode { label: format!("Node {}", i), edges: Vec::new() };
        nodes.push(Gc::new(&mut rt, node));
    }

    for _ in 0..=edge_count {
        Collector::maybe_yuga(&mut rt);
        let (a, b) = (pick(&nodes), pick(&nodes));
        if a == b {
            continue;
        }
        let (from, to) = (&nodes[a], &nodes[b]);
        from.set(&mut rt, |a, rt| {
            Collector::maybe_yuga(rt);
            a.edges.push(to.clone(rt));
        });
    }

    for i in 0..NODE_COUNT {
        if i % SHRINK_DIV == 0 {
            let at = pick(&nodes);
            nodes.remove(at).drop(&mut rt);
            Collector::maybe_yuga(&mut rt);
            for node in &nodes {
                let label = node.get(&rt, |n| n.label.len());
                assert_ne!(label, 0);
            }
            rt.process();
            for node in &nodes {
                assert_ne!(node.get(&rt, |n| n.label.len()), 0);
            }
        }
    }
    Collector::yuga(&mut rt);
    assert_eq!(number_of_live_objects(&rt), within_reach(&rt, &nodes));
    for node in nodes {
        node.drop(&mut rt);
    }
    Collector::yuga(&mut rt);
    assert_eq!(number_of_live_objects(&rt), 0);
}

#[test]
fn sparse_graph() {
    for _ in 0..20 {
        test_graph(EDGE_COUNT);
    }
}

#[test]
fn dense_graph() {
    for _ in 0..20 {
        test_graph(NODE_COUNT * 4);
    }
}
