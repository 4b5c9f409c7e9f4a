# Samsara

Samsara is a reference-counted heap with cycle collection, written in Verus. A
`Gc<T>` handle keeps its object alive; an object goes with its last handle. Objects
that refer to each other in a cycle keep each other alive, and `Collector::yuga`
finds and frees the cycles that no one can get at any more.

## Using it

A `Runtime<T>` holds the objects, the messages to the collector, and the collector.
Contents of several kinds go into one heap as the variants of an `enum`. The type of
the contents implements `Handles`, which lists the handles inside, and `Trace`, which
tells the collector of them.

```rust
let mut rt: Runtime<Node<usize>> = Runtime::new();
let mut list = List::new();
list.push_tail(&mut rt, 1);
list.push_tail(&mut rt, 2);
list.push_tail(&mut rt, 3);
assert_eq!(number_of_live_objects(&rt), 3);
list.drop(&mut rt);
// Neighbors refer to each other, so the nodes are still there.
assert_eq!(number_of_live_objects(&rt), 3);
Collector::yuga(&mut rt);
assert_eq!(number_of_live_objects(&rt), 0);
```

A handle is dropped with `Gc::drop`, which needs the runtime. Contents may refer to the
object that they are in: that is a cycle too.

## How a collection works

1. A handle that is dropped while others are left puts its object on the defer list.
2. A collection visits all that the defer list reaches. It numbers the objects, counts
   for each one the handles that it finds inside others, and notes who refers to whom.
3. An object with more handles than were found is alive: someone outside has one. So is
   an object that could not be read, one that is marked dirty, and all that a live one
   leads to.
4. The contents of all others are taken out, which frees them.

A mutator marks an object dirty when it drops a handle to it, or takes hold of its
contents, after the collector has visited it. That is what makes a collection safe
that runs at the same time.

## Layout

| module | holds |
| --- | --- |
| `model`, `graph` | the heap as a graph, the collector's world, and what each operation does to them |
| `heap`, `gc`, `runtime` | objects, handles, and the runtime |
| `trace`, `tracker`, `flags` | handles inside contents, the count of live objects, flag words |
| `collector`, `scan`, `marks` | the collector's graph, the order of visits, the verdict |
| `collect`, `explore`, `sweep`, `release` | a whole collection, and the drop of handles with all that falls out |
| `collections` | the contracts of the outside collections: `im` maps and sets, `roaring` bitmaps |
| `draw` | a picture of the graph |
| `list`, `binarytree` | doubly linked lists, and the binary tree benchmark |
| `laws` | what holds of the library as a whole |
| `mutators`, `leaks` | what holds when mutators work while the collector does |

Some of the laws:

- `law_reachable_is_spared`, `law_collection_keeps_the_reachable`: a collection takes
  nothing that a mutator can get at.
- `law_yuga_frees_all_leaks`: after a collection that was waited for, exactly those
  objects are alive that a mutator can get at.
- `law_concurrent_collection_is_safe`, `law_sweep_takes_nothing`: a collection takes
  nothing from the mutators that work alongside it.
- `law_collection_frees_the_lost`: such a collection frees all that was out of reach when
  it began, up to what messages on their way lead to.

`app/` is ordinary Rust around the library: handles over `Arc` that are shared between
threads, a collector on a thread of its own, and the drawing of its graph with graphviz.
What is not a matter of locks, atomic words, threads, chance or printing, it asks the
library.
