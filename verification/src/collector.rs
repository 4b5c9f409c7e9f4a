//! The cycle collector.

use crate::collections::{
    bitmap_elements, bitmap_insert, bitmap_items, bitmap_new, change_holds, change_key, differ_at,
    hash_entries, hash_get, hash_insert, hash_new, hash_remove, hash_rows, lists_rows, ord_clone,
    ord_contains, ord_diff, ord_entries, ord_insert, ord_new, ord_remove, ord_rows, Change,
};
use crate::flags::{has_bits, VISITED_BIT};
use crate::gc::WeakRoot;
use crate::graph::{lemma_occurrences_add, occurrences};
use crate::model::{lemma_process_len, Model};
use crate::runtime::Runtime;
use crate::trace::Trace;
use im::{HashMap, OrdMap};
use rand::Rng;
use roaring::RoaringBitmap;
use vstd::prelude::*;

verus! {

/// What mutators tell the collector.
#[derive(Clone, Copy, Debug, PartialEq, Eq, Structural)]
pub enum Soul {
    /// A handle to an object that lives on was dropped: the object may be part
    /// of a cycle, and goes on the defer list.
    Died(WeakRoot),
    /// The object at this address is gone without having been part of a cycle,
    /// and comes off the defer list.
    Reclaimed(usize),
    /// Collect now.
    Yuga,
}

/// The sending end of the channel to the collector, with the souls that are on
/// their way.
pub struct LocalSender {
    pub chan: Vec<Soul>,
}

impl LocalSender {
    /// A channel on which nothing was sent.
    pub fn new() -> (r: Self)
        ensures
            r.chan@.len() == 0,
    {
        LocalSender { chan: Vec::new() }
    }

    /// Sends a soul to the collector.
    pub fn send(&mut self, soul: Soul)
        ensures
            final(self).chan@ == old(self).chan@.push(soul),
    {
        self.chan.push(soul);
    }

    /// The soul that was sent first of those that are on their way.
    pub fn recv(&mut self) -> (r: Option<Soul>)
        ensures
            old(self).chan@.len() == 0 ==> r is None && final(self).chan@ == old(self).chan@,
            old(self).chan@.len() > 0 ==> r == Some(old(self).chan@[0]) && final(self).chan@
                == old(self).chan@.drop_first(),
    {
        if self.chan.len() == 0 {
            None
        } else {
            let ghost before = self.chan@;
            let soul = self.chan.remove(0);
            assert(self.chan@ =~= before.drop_first());
            Some(soul)
        }
    }

    /// Whether a weak reference to the object at `p` is on its way.
    pub fn carries(&self, p: usize) -> (r: bool)
        ensures
            r == self.chan@.contains(Soul::Died(WeakRoot { ptr: p })),
    {
        let mut i: usize = 0;
        while i < self.chan.len()
            invariant
                i <= self.chan@.len(),
                forall|j: int| 0 <= j < i ==> self.chan@[j] != Soul::Died(WeakRoot { ptr: p }),
            decreases self.chan@.len() - i,
        {
            if self.chan[i] == Soul::Died(WeakRoot { ptr: p }) {
                return true;
            }
            i += 1;
        }
        false
    }
}

/// The index of a visited object among the collector's nodes.
#[derive(Clone, Copy, Debug, Hash, PartialEq, Eq, Structural)]
pub struct NodeId(pub u32);

/// What the collector knows: the defer list; the visited objects, each with
/// its node id and the number of references to it that were found; and for
/// each node its address and the nodes that it refers to.
#[verifier::ext_equal]
pub struct GraphView {
    pub deferred: Map<usize, usize>,
    pub visited: Map<usize, (u32, usize)>,
    pub neighbors: Seq<(usize, Set<u32>)>,
}

impl GraphView {
    /// The object at `p` is a node.
    pub open spec fn knows(self, p: usize) -> bool {
        self.visited.dom().contains(p)
    }

    /// The node id of the object at `p`.
    pub open spec fn id(self, p: usize) -> int {
        self.visited[p].0 as int
    }

    /// Node ids number the nodes, every node is on the defer list, and edges
    /// lead to nodes.
    pub open spec fn wf(self) -> bool {
        &&& self.neighbors.len() <= u32::MAX + 1
        &&& forall|p: usize| #[trigger] self.deferred.dom().contains(p) ==> self.deferred[p] == p
        &&& forall|p: usize| #[trigger] self.visited.dom().contains(p) ==> {
            &&& self.deferred.dom().contains(p)
            &&& 0 <= self.id(p) < self.neighbors.len()
            &&& self.neighbors[self.id(p)].0 == p
        }
        &&& forall|i: int| 0 <= i < self.neighbors.len() ==> {
            &&& self.visited.dom().contains((#[trigger] self.neighbors[i]).0)
            &&& self.id(self.neighbors[i].0) == i
        }
        &&& forall|i: int, x: u32| 0 <= i < self.neighbors.len() && #[trigger] self.neighbors[i].1.contains(x)
            ==> x < self.neighbors.len()
    }

    /// The object at `p` becomes a node, unless it is one.
    pub open spec fn add_node(self, p: usize) -> GraphView {
        if self.knows(p) {
            self
        } else {
            GraphView {
                deferred: if self.deferred.dom().contains(p) { self.deferred } else { self.deferred.insert(p, p) },
                visited: self.visited.insert(p, (self.neighbors.len() as u32, 0)),
                neighbors: self.neighbors.push((p, Set::empty())),
            }
        }
    }

    /// One more reference from node `r` to node `p` is found.
    pub open spec fn add_edge(self, r: usize, p: usize) -> GraphView {
        let row = self.visited[p];
        let from = self.neighbors[self.id(r)];
        GraphView {
            deferred: self.deferred,
            visited: self.visited.insert(p, (row.0, (row.1 + 1) as usize)),
            neighbors: self.neighbors.update(self.id(r), (from.0, from.1.insert(row.0))),
        }
    }

    /// The references `es` from node `r` are found, first to last.
    pub open spec fn add_edges(self, r: usize, es: Seq<usize>) -> GraphView
        decreases es.len(),
    {
        if es.len() == 0 {
            self
        } else {
            self.add_edges(r, es.drop_last()).add_node(es.last()).add_edge(r, es.last())
        }
    }

    /// The number of references to the object at `p` that were found.
    pub open spec fn count(self, p: usize) -> nat {
        if self.knows(p) { self.visited[p].1 as nat } else { 0 }
    }

    /// The references `es` inside the object at `r` of the heap `m` can be
    /// recorded: `r` is a node, there are ids for all that they lead to, whoever
    /// is flagged as visited is a node, and the counts do not overflow. They may
    /// lead back to `r`.
    pub open spec fn ready(self, r: usize, es: Seq<usize>, m: Model) -> bool {
        &&& self.wf()
        &&& self.knows(r)
        &&& self.visited.dom().union(es.to_set()).len() <= u32::MAX + 1
        &&& forall|i: int| 0 <= i < es.len() ==> m.has(#[trigger] es[i])
        &&& forall|p: usize| #[trigger] m.has(p) && has_bits(m.obj(p).bits, VISITED_BIT) ==> self.knows(p)
        &&& forall|p: usize| #[trigger] self.count(p) + occurrences(es, p) <= usize::MAX
    }

    /// "Node `i` refers to node `j`."
    pub open spec fn edge(self) -> spec_fn(int, int) -> bool {
        |i: int, j: int| 0 <= i < self.neighbors.len() && 0 <= j <= u32::MAX && self.neighbors[i].1.contains(j as u32)
    }
}

/// The collector: its defer list and the graph of the running collection.
pub struct Collector {
    deferred: OrdMap<usize, usize>,
    pub visited: HashMap<usize, (u32, usize)>,
    neighbors: Vec<(usize, RoaringBitmap)>,
}

impl Collector {
    /// What the collector knows.
    pub closed spec fn view(&self) -> GraphView {
        GraphView {
            deferred: ord_entries(self.deferred),
            visited: hash_entries(self.visited),
            neighbors: Seq::new(self.neighbors@.len(), |i: int|
                (self.neighbors@[i].0, bitmap_elements(self.neighbors@[i].1))),
        }
    }

    /// A collector with an empty defer list.
    pub fn new() -> (r: Self)
        ensures
            r@.deferred.dom() == Set::<usize>::empty(),
            r@.visited.dom() == Set::<usize>::empty(),
            r@.neighbors.len() == 0,
            r@.wf(),
    {
        Collector { deferred: ord_new(), visited: hash_new(), neighbors: Vec::new() }
    }

    /// Whether the object at `p` is on the defer list.
    pub fn defers(&self, p: usize) -> (r: bool)
        ensures
            r == self@.deferred.dom().contains(p),
    {
        ord_contains(&self.deferred, p)
    }

    /// Makes the object a node of the graph, unless it is one, and puts it on
    /// the defer list. Tells whether it is new.
    pub fn add_node(&mut self, root: &WeakRoot) -> (novel: bool)
        requires
            root.ptr != 0,
            old(self)@.knows(root.ptr) || old(self)@.neighbors.len() <= u32::MAX,
        ensures
            novel == !old(self)@.knows(root.ptr),
            final(self)@ == old(self)@.add_node(root.ptr),
            old(self)@.wf() ==> final(self)@.wf(),
    {
        let p = root.ptr;
        let ghost before = self@;
        match hash_get(&self.visited, p) {
            Some(_) => false,
            None => {
                if !ord_contains(&self.deferred, p) {
                    ord_insert(&mut self.deferred, p, p);
                }
                let idx: usize = self.neighbors.len();
                self.neighbors.push((p, bitmap_new()));
                hash_insert(&mut self.visited, p, (idx as u32, 0));
                assert(self@ =~= before.add_node(p));
                proof {
                    if before.wf() {
                        lemma_add_node_wf(before, p);
                    }
                }
                true
            },
        }
    }

    /// Records one reference from `root` to `item`, both nodes of the graph.
    pub fn add_edge(&mut self, root: &WeakRoot, item: WeakRoot)
        requires
            old(self)@.knows(root.ptr),
            old(self)@.knows(item.ptr),
            old(self)@.id(root.ptr) < old(self)@.neighbors.len(),
            old(self)@.visited[item.ptr].1 < usize::MAX,
        ensures
            final(self)@ == old(self)@.add_edge(root.ptr, item.ptr),
            old(self)@.wf() ==> final(self)@.wf(),
    {
        let ghost before = self@;
        match (hash_get(&self.visited, root.ptr), hash_get(&self.visited, item.ptr)) {
            (Some(root_row), Some(item_row)) => {
                hash_insert(&mut self.visited, item.ptr, (item_row.0, item_row.1 + 1));
                let from: usize = root_row.0 as usize;
                bitmap_insert(&mut self.neighbors[from].1, item_row.0);
                assert(self@ =~= before.add_edge(root.ptr, item.ptr));
                proof {
                    if before.wf() {
                        lemma_add_edge_wf(before, root.ptr, item.ptr);
                    }
                }
            },
            _ => {},
        }
    }

    /// Records a handle to `item` that was found inside `root`. `bits` is the
    /// flag word of `item`: an object that was visited is a node already.
    pub fn trace_handle(&mut self, root: &WeakRoot, item: WeakRoot, bits: usize)
        requires
            old(self)@.wf(),
            item.ptr != 0,
            old(self)@.knows(root.ptr),
            has_bits(bits, VISITED_BIT) ==> old(self)@.knows(item.ptr),
            old(self)@.knows(item.ptr) || old(self)@.neighbors.len() <= u32::MAX,
            old(self)@.knows(item.ptr) ==> old(self)@.visited[item.ptr].1 < usize::MAX,
        ensures
            final(self)@ == old(self)@.add_node(item.ptr).add_edge(root.ptr, item.ptr),
            final(self)@.wf(),
    {
        proof {
            lemma_bit_clear(bits);
        }
        if bits & VISITED_BIT == 0 {
            self.add_node(&item);
        }
        self.add_edge(root, item);
    }
}

/// `s` lists, lowest first, what is on the newer of two defer lists and not, or
/// with another entry, on the older.
pub open spec fn lists_found(older: Map<usize, usize>, newer: Map<usize, usize>, s: Seq<usize>) -> bool {
    &&& forall|p: usize| #[trigger] s.contains(p) <==> newer.dom().contains(p) && differ_at(older, newer, p)
    &&& forall|i: int, j: int| 0 <= i < j < s.len() ==> s[i] < s[j]
}

/// `s` lists the elements of `d`, lowest first.
pub open spec fn lists_set(d: Set<usize>, s: Seq<usize>) -> bool {
    &&& forall|p: usize| #[trigger] s.contains(p) <==> d.contains(p)
    &&& forall|i: int, j: int| 0 <= i < j < s.len() ==> s[i] < s[j]
}

/// What the collection works with.
impl Collector {
    /// Takes all addresses off the defer list, lowest first.
    pub fn take_roots(&mut self) -> (r: Vec<usize>)
        ensures
            lists_set(old(self)@.deferred.dom(), r@),
            final(self)@.deferred.dom() == Set::<usize>::empty(),
            final(self)@.visited == old(self)@.visited,
            final(self)@.neighbors == old(self)@.neighbors,
    {
        let mut roots = ord_new();
        core::mem::swap(&mut roots, &mut self.deferred);
        assert(ord_entries(roots) == old(self)@.deferred);
        let rows = ord_rows(&roots);
        let mut r: Vec<usize> = Vec::new();
        let mut i: usize = 0;
        while i < rows.len()
            invariant
                i <= rows@.len(),
                r@.len() == i,
                forall|j: int| 0 <= j < i ==> r@[j] == (#[trigger] rows@[j]).0,
            decreases rows@.len() - i,
        {
            r.push(rows[i].0);
            i += 1;
        }
        proof {
            let d = ord_entries(roots);
            assert forall|p: usize| #[trigger] r@.contains(p) <==> d.dom().contains(p) by {
                if r@.contains(p) {
                    let j = choose|j: int| 0 <= j < r@.len() && r@[j] == p;
                    assert(d.dom().contains(rows@[j].0));
                }
                if d.dom().contains(p) {
                    let j = choose|j: int| 0 <= j < rows@.len() && rows@[j].0 == p;
                    assert(r@[j] == p);
                }
            }
            assert forall|a: int, b: int| 0 <= a < b < r@.len() implies r@[a] < r@[b] by {
                assert(rows@[a].0 < rows@[b].0);
            }
        }
        r
    }

    /// The defer list as it is now.
    pub(crate) fn snapshot(&self) -> (r: OrdMap<usize, usize>)
        ensures
            ord_entries(r) == self@.deferred,
    {
        ord_clone(&self.deferred)
    }

    /// What has come to the defer list since the snapshot, lowest address first.
    pub(crate) fn found_since(&self, snap: &OrdMap<usize, usize>) -> (r: Vec<usize>)
        requires
            forall|p: usize| #[trigger] ord_entries(*snap).dom().contains(p) ==> self@.deferred.dom().contains(p),
        ensures
            lists_found(ord_entries(*snap), self@.deferred, r@),
    {
        let changes = ord_diff(snap, &self.deferred);
        let ghost older = ord_entries(*snap);
        let ghost newer = ord_entries(self.deferred);
        let mut r: Vec<usize> = Vec::new();
        let mut i: usize = 0;
        while i < changes.len()
            invariant
                i <= changes@.len(),
                r@.len() == i,
                older == ord_entries(*snap),
                newer == ord_entries(self.deferred),
                forall|p: usize| #[trigger] older.dom().contains(p) ==> newer.dom().contains(p),
                forall|j: int| 0 <= j < changes@.len() ==> change_holds(older, newer, #[trigger] changes@[j]),
                forall|j: int| 0 <= j < i ==> r@[j] == change_key(#[trigger] changes@[j]),
            decreases changes@.len() - i,
        {
            assert(change_holds(older, newer, changes@[i as int]));
            match &changes[i] {
                Change::Add(k, _) => r.push(*k),
                Change::Update(k, _) => r.push(*k),
                Change::Remove(k, _) => {
                    assert(older.dom().contains(*k));
                    vstd::pervasive::unreached::<()>();
                },
            }
            i += 1;
        }
        proof {
            assert forall|p: usize| #[trigger] r@.contains(p) <==> newer.dom().contains(p) && differ_at(older, newer, p) by {
                if r@.contains(p) {
                    let j = choose|j: int| 0 <= j < r@.len() && r@[j] == p;
                    assert(change_holds(older, newer, changes@[j]));
                    assert(change_key(changes@[j]) == p);
                }
                if differ_at(older, newer, p) {
                    let j = choose|j: int| 0 <= j < changes@.len() && change_key(changes@[j]) == p;
                    assert(r@[j] == p);
                }
            }
            assert forall|a: int, b: int| 0 <= a < b < r@.len() implies r@[a] < r@[b] by {
                assert(change_key(changes@[a]) < change_key(changes@[b]));
            }
        }
        r
    }

    /// The node of the object at `p`: its id and its count of incoming edges.
    pub fn node(&self, p: usize) -> (r: Option<(NodeId, usize)>)
        ensures
            r == (if self@.knows(p) { Some((NodeId(self@.visited[p].0), self@.visited[p].1)) } else { None }),
    {
        match hash_get(&self.visited, p) {
            Some(row) => Some((NodeId(row.0), row.1)),
            None => None,
        }
    }

    /// All visited objects, each with its node id and its count of incoming
    /// edges, in some order.
    pub fn rows(&self) -> (r: Vec<(usize, (u32, usize))>)
        ensures
            lists_rows(self@.visited, r@),
    {
        hash_rows(&self.visited)
    }

    /// The number of nodes.
    pub fn len(&self) -> (r: usize)
        ensures
            r == self@.neighbors.len(),
    {
        self.neighbors.len()
    }

    /// The ids of the nodes that node `id` refers to, lowest first.
    pub fn outgoing(&self, id: usize) -> (r: Vec<u32>)
        requires
            id < self@.neighbors.len(),
        ensures
            forall|x: u32| #[trigger] r@.contains(x) <==> self@.neighbors[id as int].1.contains(x),
            forall|i: int, j: int| 0 <= i < j < r@.len() ==> r@[i] < r@[j],
    {
        let r = bitmap_items(&self.neighbors[id].1);
        assert forall|x: u32| #[trigger] r@.contains(x) <==> self@.neighbors[id as int].1.contains(x) by {
            assert(r@.contains(x) <==> r@.to_set().contains(x));
        }
        r
    }

    /// Drops the weak reference to the object at `p`, and its row.
    pub fn forget(&mut self, p: usize)
        ensures
            final(self)@ == (GraphView {
                deferred: old(self)@.deferred.remove(p),
                visited: old(self)@.visited.remove(p),
                neighbors: old(self)@.neighbors,
            }),
    {
        let ghost before = self@;
        ord_remove(&mut self.deferred, p);
        hash_remove(&mut self.visited, p);
        assert(self@.neighbors =~= before.neighbors);
    }

    /// Ends a collection: nothing is visited, and nothing is deferred.
    pub fn reset(&mut self)
        ensures
            final(self)@.deferred.dom() == Set::<usize>::empty(),
            final(self)@.visited.dom() == Set::<usize>::empty(),
            final(self)@.neighbors.len() == 0,
            final(self)@.wf(),
    {
        self.visited = hash_new();
        self.deferred = ord_new();
        self.neighbors = Vec::new();
    }

    /// Puts the object at `p` on the defer list, unless it is there. No object
    /// is at address zero.
    pub fn defer(&mut self, p: usize)
        ensures
            final(self)@ == (GraphView {
                deferred: if p == 0 || old(self)@.deferred.dom().contains(p) {
                    old(self)@.deferred
                } else {
                    old(self)@.deferred.insert(p, p)
                },
                ..old(self)@
            }),
    {
        let ghost before = self@;
        if p != 0 && !ord_contains(&self.deferred, p) {
            ord_insert(&mut self.deferred, p, p);
        }
        assert(self@.neighbors =~= before.neighbors);
    }

    /// Takes the object at `p` off the defer list.
    pub fn reclaim(&mut self, p: usize)
        ensures
            final(self)@ == (GraphView { deferred: old(self)@.deferred.remove(p), ..old(self)@ }),
    {
        let ghost before = self@;
        ord_remove(&mut self.deferred, p);
        assert(self@.neighbors =~= before.neighbors);
    }
}

/// `rand::Rng::gen::<bool>` on `rand::thread_rng` tosses a coin. Nothing is said
/// of the outcome: it is random.
#[verifier::external_body]
fn toss() -> (r: bool) {
    rand::thread_rng().gen::<bool>()
}

/// A coin that was tossed. There is no other way to come by one, so what a
/// function that gives one back says of it, it says of a toss.
#[derive(Debug)]
pub struct Coin {
    up: bool,
}

impl Coin {
    /// The coin came up.
    pub closed spec fn up(&self) -> bool {
        self.up
    }

    /// Tosses a coin.
    pub(crate) fn toss() -> (r: Self) {
        Coin { up: toss() }
    }

    /// Tells whether the coin came up.
    pub fn is_up(&self) -> (r: bool)
        ensures
            r == self.up(),
    {
        self.up
    }
}

/// What mutators ask for.
impl Collector {
    /// Triggers a collection, and waits for its end.
    pub fn yuga<T: Trace>(rt: &mut Runtime<T>)
        requires
            old(rt).wf(),
            old(rt).state().requested().all_ready(),
        ensures
            final(rt).wf(),
            old(rt).idle() ==> final(rt).idle(),
            final(rt).state() == old(rt).state().requested().process(),
            final(rt).loses_items(old(rt)),
    {
        let ghost before = *rt;
        rt.request();
        let ghost asked = *rt;
        rt.process();
        proof {
            lemma_process_len(asked.state());
            assert forall|p: usize| #[trigger] rt.model().has(p) implies rt.item(p) is None || rt.item(p)
                == before.item(p) by {
                assert(asked.model().has(p));
            }
        }
    }
}

/// There are as many nodes as visited objects.
pub proof fn lemma_nodes(g: GraphView)
    requires
        g.wf(),
    ensures
        g.visited.dom().finite(),
        g.visited.dom().len() == g.neighbors.len(),
{
    let s = Seq::new(g.neighbors.len(), |i: int| g.neighbors[i].0);
    assert forall|i: int, j: int| 0 <= i < s.len() && 0 <= j < s.len() && i != j implies s[i] != s[j] by {
        assert(g.id(g.neighbors[i].0) == i);
        assert(g.id(g.neighbors[j].0) == j);
    }
    s.unique_seq_to_set();
    vstd::seq_lib::seq_to_set_is_finite(s);
    assert(s.to_set() =~= g.visited.dom()) by {
        assert forall|p: usize| s.to_set().contains(p) implies g.visited.dom().contains(p) by {
            let i = choose|i: int| 0 <= i < s.len() && s[i] == p;
            assert(g.visited.dom().contains(g.neighbors[i].0));
        }
        assert forall|p: usize| g.visited.dom().contains(p) implies s.to_set().contains(p) by {
            assert(s[g.id(p)] == p);
        }
    }
}

/// Where all nodes are among objects that there are ids for, one of these
/// objects that is no node yet finds an id left.
pub proof fn lemma_id_left(g: GraphView, s: Set<usize>, p: usize)
    requires
        g.wf(),
        s.finite(),
        s.len() <= u32::MAX + 1,
        g.visited.dom().subset_of(s),
        s.contains(p),
        !g.knows(p),
    ensures
        g.neighbors.len() <= u32::MAX,
{
    lemma_nodes(g);
    vstd::set_lib::lemma_len_subset(g.visited.dom().insert(p), s);
}

/// A prefix of references that can be recorded leaves the next one ready.
pub proof fn lemma_ready_step(g: GraphView, r: usize, es: Seq<usize>, m: Model, k: int)
    requires
        g.ready(r, es, m),
        0 <= k < es.len(),
    ensures
        g.add_edges(r, es.take(k)).ready(r, seq![es[k]], m),
        g.add_edges(r, es.take(k + 1)) == g.add_edges(r, es.take(k)).add_node(es[k]).add_edge(r, es[k]),
{
    assert(es.take(k + 1).drop_last() =~= es.take(k));
    lemma_ready_prefix(g, r, es, m, k);
    let n = g.add_edges(r, es.take(k));
    assert(n.visited.dom().union(seq![es[k]].to_set()).len() <= u32::MAX + 1) by {
        let all = g.visited.dom().union(es.to_set());
        let now = n.visited.dom().union(seq![es[k]].to_set());
        lemma_nodes(g);
        vstd::seq_lib::seq_to_set_is_finite(es);
        assert forall|p: usize| now.contains(p) implies all.contains(p) by {
            if n.visited.dom().contains(p) {
                assert(n.knows(p));
                assert(es.take(k).contains(p) ==> es.contains(p));
            } else {
                assert(es.contains(es[k]));
            }
        }
        vstd::set_lib::lemma_len_subset(now, all);
    }
    assert forall|p: usize| #[trigger] n.count(p) + occurrences(seq![es[k]], p) <= usize::MAX by {
        assert(n.count(p) == g.count(p) + occurrences(es.take(k), p));
        assert(es =~= es.take(k) + es.skip(k));
        lemma_occurrences_add(es.take(k), es.skip(k), p);
        assert(es.skip(k) =~= seq![es[k]] + es.skip(k + 1));
        lemma_occurrences_add(seq![es[k]], es.skip(k + 1), p);
        assert(g.count(p) + occurrences(es, p) <= usize::MAX);
    }
}

/// A prefix of references that can be recorded: the nodes and counts after it.
pub proof fn lemma_ready_prefix(g: GraphView, r: usize, es: Seq<usize>, m: Model, k: int)
    requires
        g.ready(r, es, m),
        0 <= k <= es.len(),
    ensures
        ({
            let n = g.add_edges(r, es.take(k));
            &&& n.wf()
            &&& forall|p: usize| #[trigger] n.knows(p) <==> g.knows(p) || es.take(k).contains(p)
            &&& forall|p: usize| #[trigger] n.count(p) == g.count(p) + occurrences(es.take(k), p)
            &&& n.neighbors.len() >= g.neighbors.len()
            &&& forall|p: usize| #[trigger] g.knows(p) ==> n.id(p) == g.id(p)
            &&& forall|i: int| 0 <= i < g.neighbors.len() && i != g.id(r) ==> #[trigger] n.neighbors[i] == g.neighbors[i]
            &&& forall|i: int| g.neighbors.len() <= i < n.neighbors.len()
                ==> (#[trigger] n.neighbors[i]).1 == Set::<u32>::empty()
            &&& n.neighbors[g.id(r)].0 == r
            &&& forall|x: u32| #[trigger] n.neighbors[g.id(r)].1.contains(x)
                <==> g.neighbors[g.id(r)].1.contains(x)
                    || (exists|e: usize| es.take(k).contains(e) && #[trigger] n.visited[e].0 == x)
            &&& forall|p: usize| #[trigger] n.deferred.dom().contains(p)
                <==> g.deferred.dom().contains(p) || es.take(k).contains(p)
        }),
    decreases k,
{
    if k == 0 {
        assert(es.take(0) =~= Seq::empty());
        assert(g.neighbors[g.id(r)].0 == r);
    } else {
        lemma_ready_prefix(g, r, es, m, k - 1);
        assert(es.take(k).drop_last() =~= es.take(k - 1));
        let e = es[k - 1];
        let a = g.add_edges(r, es.take(k - 1));
        let b = a.add_node(e);
        let n = b.add_edge(r, e);
        assert(n == g.add_edges(r, es.take(k)));
        if !a.knows(e) {
            let all = g.visited.dom().union(es.to_set());
            lemma_nodes(g);
            vstd::seq_lib::seq_to_set_is_finite(es);
            assert(es.to_set().contains(e));
            assert(a.visited.dom().subset_of(all)) by {
                assert forall|p: usize| a.visited.dom().contains(p) implies all.contains(p) by {
                    assert(a.knows(p));
                    assert(es.take(k - 1).contains(p) ==> es.contains(p));
                }
            }
            lemma_id_left(a, all, e);
            lemma_add_node_wf(a, e);
        }
        lemma_add_edge_wf(b, r, e);
        assert forall|p: usize| es.take(k).contains(p) <==> es.take(k - 1).contains(p) || p == e by {
            let longer = es.take(k);
            let shorter = es.take(k - 1);
            if longer.contains(p) && p != e {
                let i = choose|i: int| 0 <= i < longer.len() && longer[i] == p;
                assert(shorter[i] == p);
            }
            if shorter.contains(p) {
                let i = choose|i: int| 0 <= i < shorter.len() && shorter[i] == p;
                assert(longer[i] == p);
            }
            assert(longer[k - 1] == e);
        }
        assert forall|p: usize| #[trigger] n.count(p) == g.count(p) + occurrences(es.take(k), p) by {
            assert(a.count(p) == g.count(p) + occurrences(es.take(k - 1), p));
            assert(es =~= es.take(k) + es.skip(k));
            lemma_occurrences_add(es.take(k), es.skip(k), p);
            assert(g.count(p) + occurrences(es, p) <= usize::MAX);
            assert(b.count(p) == a.count(p));
            assert(b.knows(e));
        }
        assert forall|p: usize| #[trigger] n.knows(p) <==> g.knows(p) || es.take(k).contains(p) by {
            assert(a.knows(p) <==> g.knows(p) || es.take(k - 1).contains(p));
        }
        assert(a.knows(r));
        assert(a.id(r) == g.id(r));
        assert(b.id(r) == a.id(r));
        assert forall|p: usize| #[trigger] g.knows(p) implies n.id(p) == g.id(p) by {
            assert(a.id(p) == g.id(p));
            assert(a.knows(p));
        }
        assert forall|i: int| 0 <= i < g.neighbors.len() && i != g.id(r)
            implies #[trigger] n.neighbors[i] == g.neighbors[i] by {
            assert(a.neighbors[i] == g.neighbors[i]);
        }
        assert forall|i: int| g.neighbors.len() <= i < n.neighbors.len() implies (#[trigger] n.neighbors[i]).1
            == Set::<u32>::empty() by {
            if i < a.neighbors.len() {
                assert(a.neighbors[i].1 == Set::<u32>::empty());
            }
        }
        assert forall|p: usize| a.knows(p) implies #[trigger] n.visited[p].0 == a.visited[p].0 by {}
        assert forall|x: u32| #[trigger] n.neighbors[g.id(r)].1.contains(x)
            <==> g.neighbors[g.id(r)].1.contains(x)
                || (exists|q: usize| es.take(k).contains(q) && #[trigger] n.visited[q].0 == x) by {
            assert(n.neighbors[g.id(r)].1.contains(x) <==> a.neighbors[g.id(r)].1.contains(x) || x == n.visited[e].0);
            if exists|q: usize| es.take(k - 1).contains(q) && #[trigger] a.visited[q].0 == x {
                let q = choose|q: usize| es.take(k - 1).contains(q) && #[trigger] a.visited[q].0 == x;
                assert(a.knows(q));
                assert(es.take(k).contains(q) && n.visited[q].0 == x);
            }
            if x == n.visited[e].0 {
                assert(es.take(k).contains(e) && n.visited[e].0 == x);
            }
            if exists|q: usize| es.take(k).contains(q) && #[trigger] n.visited[q].0 == x {
                let q = choose|q: usize| es.take(k).contains(q) && #[trigger] n.visited[q].0 == x;
                if q != e {
                    assert(a.knows(q));
                    assert(es.take(k - 1).contains(q) && a.visited[q].0 == x);
                }
            }
        }
        assert forall|p: usize| #[trigger] n.deferred.dom().contains(p)
            <==> g.deferred.dom().contains(p) || es.take(k).contains(p) by {
            assert(a.deferred.dom().contains(p) <==> g.deferred.dom().contains(p) || es.take(k - 1).contains(p));
            if a.knows(e) {
                assert(a.deferred.dom().contains(e));
            }
        }
    }
}

proof fn lemma_bit_clear(bits: usize)
    ensures
        bits & VISITED_BIT == 0 <==> !has_bits(bits, VISITED_BIT),
{
    assert(bits & 1 == 0 || bits & 1 == 1) by (bit_vector);
}

pub(crate) proof fn lemma_add_node_wf(g: GraphView, p: usize)
    requires
        g.wf(),
        !g.knows(p),
        g.neighbors.len() <= u32::MAX,
    ensures
        g.add_node(p).wf(),
{
    let n = g.add_node(p);
    assert forall|i: int| 0 <= i < n.neighbors.len() implies n.visited.dom().contains((#[trigger] n.neighbors[i]).0)
        && n.id(n.neighbors[i].0) == i by {
        if i < g.neighbors.len() {
            assert(g.neighbors[i] == n.neighbors[i]);
        }
    }
    assert forall|i: int, x: u32| 0 <= i < n.neighbors.len() && #[trigger] n.neighbors[i].1.contains(x)
        implies x < n.neighbors.len() by {
        if i < g.neighbors.len() {
            assert(g.neighbors[i].1.contains(x));
        }
    }
}

proof fn lemma_add_edge_wf(g: GraphView, r: usize, p: usize)
    requires
        g.wf(),
        g.knows(r),
        g.knows(p),
    ensures
        g.add_edge(r, p).wf(),
{
    let n = g.add_edge(r, p);
    assert forall|q: usize| #[trigger] n.visited.dom().contains(q) implies n.deferred.dom().contains(q)
        && 0 <= n.id(q) < n.neighbors.len() && n.neighbors[n.id(q)].0 == q by {
        assert(g.visited.dom().contains(q));
    }
    assert forall|i: int| 0 <= i < n.neighbors.len() implies n.visited.dom().contains((#[trigger] n.neighbors[i]).0)
        && n.id(n.neighbors[i].0) == i by {
        assert(g.neighbors[i].0 == n.neighbors[i].0);
    }
    assert forall|i: int, x: u32| 0 <= i < n.neighbors.len() && #[trigger] n.neighbors[i].1.contains(x)
        implies x < n.neighbors.len() by {
        if i != g.id(r) || x != g.visited[p].0 {
            assert(g.neighbors[i].1.contains(x));
        }
    }
}

/// A new node gets the id that follows those of all others, with no reference to
/// it found yet and none from it. It is on the defer list. All other nodes are as
/// they were.
pub proof fn law_node_gets_the_next_id(g: GraphView, p: usize)
    requires
        g.wf(),
        !g.knows(p),
        g.neighbors.len() <= u32::MAX,
    ensures
        g.add_node(p).knows(p),
        g.add_node(p).id(p) == g.neighbors.len(),
        g.add_node(p).count(p) == 0,
        g.add_node(p).neighbors.len() == g.neighbors.len() + 1,
        forall|q: usize| #[trigger] g.knows(q) ==> g.add_node(p).knows(q) && g.add_node(p).visited[q] == g.visited[q],
        forall|q: usize| #[trigger] g.add_node(p).knows(q) <==> g.knows(q) || q == p,
        forall|q: usize| #[trigger]
            g.add_node(p).deferred.dom().contains(q) <==> g.deferred.dom().contains(q) || q == p,
        forall|i: int, j: int| #[trigger] g.add_node(p).edge()(i, j) <==> g.edge()(i, j),
        g.add_node(p).add_node(p) == g.add_node(p),
{
    assert forall|i: int, j: int| #[trigger] g.add_node(p).edge()(i, j) implies g.edge()(i, j) by {
        assert(i != g.neighbors.len());
    }
}

/// A reference that is found is counted once, for the object that it leads to
/// alone, and noted as an edge between the two nodes. All else is as it was.
pub proof fn law_found_reference_is_counted(g: GraphView, r: usize, p: usize)
    requires
        g.wf(),
        g.knows(r),
        g.knows(p),
        g.count(p) < usize::MAX,
    ensures
        g.add_edge(r, p).count(p) == g.count(p) + 1,
        forall|q: usize| q != p ==> #[trigger] g.add_edge(r, p).count(q) == g.count(q),
        forall|q: usize| #[trigger] g.add_edge(r, p).knows(q) <==> g.knows(q),
        forall|q: usize| #[trigger] g.knows(q) ==> g.add_edge(r, p).id(q) == g.id(q),
        forall|i: int, j: int| #[trigger]
            g.add_edge(r, p).edge()(i, j) <==> g.edge()(i, j) || i == g.id(r) && j == g.id(p),
        g.add_edge(r, p).deferred == g.deferred,
        g.add_edge(r, p).neighbors.len() == g.neighbors.len(),
{
    assert(g.visited.dom().contains(r) && g.visited.dom().contains(p));
}

/// What was found since is what the defer list holds now and did not hold then,
/// each once and lowest first.
pub proof fn law_found_is_what_is_new(older: Map<usize, usize>, newer: Map<usize, usize>, s: Seq<usize>)
    requires
        lists_found(older, newer, s),
        forall|p: usize| #[trigger] older.dom().contains(p) ==> older[p] == p,
        forall|p: usize| #[trigger] newer.dom().contains(p) ==> newer[p] == p,
    ensures
        s.to_set() == newer.dom().difference(older.dom()),
        s.no_duplicates(),
        forall|i: int, j: int| 0 <= i < j < s.len() ==> s[i] < s[j],
{
    assert(s.to_set() =~= newer.dom().difference(older.dom())) by {
        assert forall|p: usize| s.to_set().contains(p) <==> newer.dom().difference(older.dom()).contains(p) by {
            assert(s.to_set().contains(p) <==> s.contains(p));
        }
    }
}

/// A listing of a set has each of its elements once, lowest first.
pub proof fn law_listing_is_complete(d: Set<usize>, s: Seq<usize>)
    requires
        lists_set(d, s),
    ensures
        s.to_set() == d,
        s.no_duplicates(),
        d.finite(),
        s.len() == d.len(),
        forall|i: int, j: int| 0 <= i < j < s.len() ==> s[i] < s[j],
{
    assert(s.to_set() =~= d) by {
        assert forall|p: usize| s.to_set().contains(p) <==> d.contains(p) by {
            assert(s.to_set().contains(p) <==> s.contains(p));
        }
    }
    s.unique_seq_to_set();
    vstd::seq_lib::seq_to_set_is_finite(s);
}

} // verus!
