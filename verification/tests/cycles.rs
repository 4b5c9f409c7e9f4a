//! Cycles of objects, held and not.

use samsara::collector::Collector;
use samsara::gc::{number_of_live_objects, Gc, WeakRoot};
use samsara::heap::Heap;
use samsara::runtime::Runtime;
use samsara::trace::{Handles, Trace};

/// Foos and bars in one heap.
enum Item {
    Foo(Foo),
    Bar(Bar),
}

struct Foo {
    a: usize,
    bar: Gc<Item>,
    foo1: Gc<Item>,
    foo2: Gc<Item>,
    foo3: Gc<Item>,
}

struct Bar {
    b: usize,
    bar: Vec<Gc<Item>>,
}

impl Handles for Item {
    fn handles(self) -> Vec<Gc<Item>> {
        match self {
            Item::Foo(foo) => vec![foo.bar, foo.foo1, foo.foo2, foo.foo3],
            Item::Bar(bar) => bar.bar,
        }
    }
}

impl Trace for Item {
    const MUT: bool = false;

    fn trace(&self, root: &WeakRoot, c: &mut Collector, heap: &Heap<Item>) {
        match self {
            Item::Foo(foo) => {
                foo.bar.trace(root, c, heap);
                foo.foo1.trace(root, c, heap);
                foo.foo2.trace(root, c, heap);
                foo.foo3.trace(root, c, heap);
            }
            Item::Bar(bar) => {
                for e in &bar.bar {
                    e.trace(root, c, heap);
                }
            }
        }
    }
}

fn new_bar(rt: &mut Runtime<Item>, b: usize) -> Gc<Item> {
    Gc::new(rt, Item::Bar(Bar { b, bar: vec![] }))
}

fn bar(item: &Item) -> &Bar {
    match item {
        Item::Bar(bar) => bar,
        Item::Foo(_) => panic!("a foo"),
    }
}

fn foo(item: &Item) -> &Foo {
    match item {
        Item::Foo(foo) => foo,
        Item::Bar(_) => panic!("a bar"),
    }
}

fn set_b(rt: &mut Runtime<Item>, item: &Gc<Item>, b: usize) {
    item.set(rt, |i, _| match i {
        Item::Bar(bar) => bar.b = b,
        Item::Foo(_) => panic!("a foo"),
    });
}

/// Makes `to` the only thing that `from` refers to.
fn link(rt: &mut Runtime<Item>, from: &Gc<Item>, to: &Gc<Item>) {
    let handle = to.clone(rt);
    from.set(rt, |i, rt| {
        let old = match i {
            Item::Bar(bar) => std::mem::replace(&mut bar.bar, vec![handle]),
            Item::Foo(_) => panic!("a foo"),
        };
        for g in old {
            g.drop(rt);
        }
    });
}

#[test]
fn simple_bar() {
    let mut rt = Runtime::new();
    let item = new_bar(&mut rt, 0);
    assert_eq!(item.get(&rt, |i| bar(i).b), 0);
    set_b(&mut rt, &item, 1);
    assert_eq!(item.get(&rt, |i| bar(i).b), 1);
}

#[test]
fn simple_foo() {
    let mut rt = Runtime::new();
    let bar_item = new_bar(&mut rt, 0);
    let contents = Foo {
        a: 0,
        bar: bar_item.clone(&mut rt),
        foo1: Gc::empty(&mut rt),
        foo2: Gc::empty(&mut rt),
        foo3: Gc::empty(&mut rt),
    };
    let foo_item = Gc::new(&mut rt, Item::Foo(contents));
    assert_eq!(foo_item.get(&rt, |i| foo(i).a), 0);
    assert_eq!(bar_item.get(&rt, |i| bar(i).b), 0);
    set_b(&mut rt, &bar_item, 1);
    assert_eq!(bar_item.get(&rt, |i| bar(i).b), 1);
    assert_eq!(foo_item.get(&rt, |i| foo(i).bar.get(&rt, |i2| bar(i2).b)), 1);
    foo_item.drop(&mut rt);
    Collector::yuga(&mut rt);
    assert_eq!(bar_item.get(&rt, |i| bar(i).b), 1);
    bar_item.drop(&mut rt);
    Collector::yuga(&mut rt);
    assert_eq!(number_of_live_objects(&rt), 0);
}

#[test]
fn simple_cyclic() {
    let mut rt = Runtime::new();
    let a1 = new_bar(&mut rt, 0);
    let a2 = new_bar(&mut rt, 1);
    let a3 = new_bar(&mut rt, 2);
    link(&mut rt, &a1, &a2);
    link(&mut rt, &a2, &a3);
    link(&mut rt, &a3, &a1);
    a1.drop(&mut rt);
    Collector::yuga(&mut rt);
    assert_eq!(number_of_live_objects(&rt), 3);
    a2.drop(&mut rt);
    Collector::yuga(&mut rt);
    assert_eq!(number_of_live_objects(&rt), 3);
    a3.drop(&mut rt);
    Collector::yuga(&mut rt);
    assert_eq!(number_of_live_objects(&rt), 0);
}

#[test]
fn held_cyclic() {
    let mut rt = Runtime::new();
    let a1 = new_bar(&mut rt, 0);
    let a2 = new_bar(&mut rt, 1);
    let a3 = new_bar(&mut rt, 2);
    link(&mut rt, &a1, &a2);
    link(&mut rt, &a2, &a3);
    link(&mut rt, &a3, &a1);
    let (p1, p2) = (a1.as_ptr(), a2.as_ptr());
    a1.drop(&mut rt);
    a2.drop(&mut rt);
    a3.set(&mut rt, |_, rt| {
        Collector::yuga(rt);
        // The contents of the third bar are out: the collector takes it for one
        // that a mutator works on, and leaves the others alone.
        assert_eq!(number_of_live_objects(rt), 3);
        assert!(rt.contents(p1).is_some());
        assert!(rt.contents(p2).is_some());
    });
    assert_eq!(a3.get(&rt, |i| bar(i).b), 2);
}

#[test]
fn downstream_of_cyclic_1() {
    let mut rt = Runtime::new();
    let a1 = new_bar(&mut rt, 0);
    let a2 = new_bar(&mut rt, 1);
    let a3 = new_bar(&mut rt, 2);
    let live = new_bar(&mut rt, 3);
    link(&mut rt, &a1, &a2);
    link(&mut rt, &a2, &a3);
    link(&mut rt, &a3, &a1);
    a1.drop(&mut rt);
    a2.drop(&mut rt);
    a3.drop(&mut rt);
    let again = live.clone(&mut rt);
    again.drop(&mut rt);
    Collector::yuga(&mut rt);
    assert_eq!(live.get(&rt, |l| bar(l).b), 3);
    assert_eq!(number_of_live_objects(&rt), 1);
}

#[test]
fn downstream_of_cyclic_2() {
    let mut rt = Runtime::new();
    let a1 = new_bar(&mut rt, 0);
    let a2 = new_bar(&mut rt, 1);
    let a3 = new_bar(&mut rt, 2);
    let live = new_bar(&mut rt, 3);
    link(&mut rt, &a1, &a3);
    link(&mut rt, &a2, &a1);
    link(&mut rt, &a3, &a2);
    a1.drop(&mut rt);
    a2.drop(&mut rt);
    a3.drop(&mut rt);
    let again = live.clone(&mut rt);
    again.drop(&mut rt);
    Collector::yuga(&mut rt);
    assert_eq!(live.get(&rt, |l| bar(l).b), 3);
    assert_eq!(number_of_live_objects(&rt), 1);
}

#[test]
fn two_cycles() {
    struct Join {
        a: Gc<Item>,
        b: Gc<Item>,
    }
    let mut rt = Runtime::new();
    let join = {
        let a1 = new_bar(&mut rt, 0);
        let a2 = new_bar(&mut rt, 1);
        let a3 = new_bar(&mut rt, 2);
        link(&mut rt, &a1, &a2);
        link(&mut rt, &a2, &a3);
        link(&mut rt, &a3, &a1);

        let b1 = new_bar(&mut rt, 3);
        let b2 = new_bar(&mut rt, 4);
        let b3 = new_bar(&mut rt, 5);
        link(&mut rt, &b1, &b2);
        link(&mut rt, &b2, &b3);
        link(&mut rt, &b3, &b1);

        let join = Join { a: a1.clone(&mut rt), b: b1.clone(&mut rt) };
        for g in vec![b3, b2, b1, a3, a2, a1] {
            g.drop(&mut rt);
        }
        join
    };
    Collector::yuga(&mut rt);
    assert_eq!(number_of_live_objects(&rt), 6);
    join.a.drop(&mut rt);
    join.b.drop(&mut rt);
    Collector::yuga(&mut rt);
    assert_eq!(number_of_live_objects(&rt), 0);
}
