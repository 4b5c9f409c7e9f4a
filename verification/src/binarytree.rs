//! Binary trees of handles, and a benchmark's worth of them.

use crate::collector::{Collector, Soul};
use crate::draw::{
    decimal, ends_in_digit, frame, law_signed_decimal_reads_back, lemma_read_decimal, lemma_read_plain,
    numbers, push_decimal, push_signed_decimal, signed_decimal, unpadded,
};
use crate::gc::{Gc, WeakRoot};
use crate::graph::{lemma_occurrences_push, occurrences, one};
use crate::heap::{new_obj, Heap};
use crate::model::{lemma_drop_all_held, lemma_drop_all_wf, lemma_internal_push, Model, Obj, State};
use crate::runtime::Runtime;
use crate::trace::{link_edges, link_handles, trace_links, Handles, Trace};
use vstd::prelude::*;
use vstd::string::StringExecFns;

verus! {

/// A node with two subtrees, or with none.
pub struct TreeNode {
    pub item: i64,
    pub left: Option<Gc<TreeNode>>,
    pub right: Option<Gc<TreeNode>>,
}

impl Handles for TreeNode {
    open spec fn edges(&self) -> Seq<usize> {
        link_edges(self.left) + link_edges(self.right)
    }

    fn handles(self) -> (r: Vec<Gc<TreeNode>>) {
        link_handles(self.left, self.right)
    }
}

impl Trace for TreeNode {
    const MUT: bool = false;

    fn trace(&self, root: &WeakRoot, c: &mut Collector, heap: &Heap<TreeNode>) {
        trace_links(&self.left, &self.right, root, c, heap);
    }
}

/// No handle can be moved out of a tree node through a shared reference.
pub proof fn law_trees_are_not_mutable()
    ensures
        !<TreeNode as Trace>::MUT,
{
}

/// The number of nodes of a full tree with `d` levels below its root.
pub open spec fn full_size(d: nat) -> nat
    decreases d,
{
    if d == 0 {
        1
    } else {
        2 * full_size((d - 1) as nat) + 1
    }
}

/// The objects of a full tree that is built when `base` objects were allocated
/// before: those of the left subtree, those of the right one, and the root.
pub open spec fn full_tree(base: nat, d: nat) -> Seq<Obj>
    decreases d,
{
    if d == 0 {
        seq![new_obj(Some(Seq::empty()))]
    } else {
        let n = full_size((d - 1) as nat);
        full_tree(base, (d - 1) as nat) + full_tree(base + n, (d - 1) as nat) + seq![
            new_obj(Some(seq![(base + n) as usize, (base + 2 * n) as usize])),
        ]
    }
}

/// The contents of a node lead to a tree of at most `d` levels.
pub open spec fn is_tree(rt: &Runtime<TreeNode>, t: TreeNode, d: nat) -> bool
    decreases d, 0nat,
{
    t.left is Some ==> {
        &&& d > 0
        &&& t.right is Some
        &&& is_tree_at(rt, t.left->0.ptr(), (d - 1) as nat)
        &&& is_tree_at(rt, t.right->0.ptr(), (d - 1) as nat)
    }
}

/// The object at `p` is the root of a tree of at most `d` levels.
pub open spec fn is_tree_at(rt: &Runtime<TreeNode>, p: usize, d: nat) -> bool
    decreases d, 1nat,
{
    &&& rt.model().filled(p)
    &&& rt.item(p) is Some
    &&& is_tree(rt, rt.item(p)->0, d)
}

/// The number of nodes of a tree of at most `d` levels.
pub open spec fn tree_size(rt: &Runtime<TreeNode>, t: TreeNode, d: nat) -> nat
    decreases d,
{
    if t.left is Some && t.right is Some && d > 0 {
        1 + tree_size(rt, rt.item(t.left->0.ptr())->0, (d - 1) as nat) + tree_size(
            rt,
            rt.item(t.right->0.ptr())->0,
            (d - 1) as nat,
        )
    } else {
        1
    }
}

impl TreeNode {
    /// Counts the nodes of the tree. A node without a left subtree is a leaf.
    pub fn check_tree(&self, rt: &Runtime<TreeNode>) -> (r: usize)
        requires
            rt.wf(),
            exists|d: nat| is_tree(rt, *self, d) && #[trigger] tree_size(rt, *self, d) <= usize::MAX,
        ensures
            forall|d: nat| is_tree(rt, *self, d) ==> r == #[trigger] tree_size(rt, *self, d),
    {
        let ghost d = choose|d: nat| is_tree(rt, *self, d) && #[trigger] tree_size(rt, *self, d) <= usize::MAX;
        let r = self.check_levels(rt, Ghost(d));
        proof {
            assert forall|e: nat| is_tree(rt, *self, e) implies r == #[trigger] tree_size(rt, *self, e) by {
                lemma_size_same(rt, *self, d, e);
            }
        }
        r
    }

    fn check_levels(&self, rt: &Runtime<TreeNode>, Ghost(d): Ghost<nat>) -> (r: usize)
        requires
            rt.wf(),
            is_tree(rt, *self, d),
            tree_size(rt, *self, d) <= usize::MAX,
        ensures
            r == tree_size(rt, *self, d),
        decreases d, 0nat,
    {
        match (&self.left, &self.right) {
            (Some(left), Some(right)) => {
                let a = check_at(left, rt, Ghost((d - 1) as nat));
                let b = check_at(right, rt, Ghost((d - 1) as nat));
                1 + a + b
            },
            _ => 1,
        }
    }
}

fn check_at(node: &Gc<TreeNode>, rt: &Runtime<TreeNode>, Ghost(d): Ghost<nat>) -> (r: usize)
    requires
        rt.wf(),
        is_tree_at(rt, node.ptr(), d),
        tree_size(rt, rt.item(node.ptr())->0, d) <= usize::MAX,
    ensures
        r == tree_size(rt, rt.item(node.ptr())->0, d),
    decreases d, 1nat,
{
    match rt.contents(node.as_ptr()) {
        Some(t) => t.check_levels(rt, Ghost(d)),
        None => vstd::pervasive::unreached(),
    }
}

/// The number of nodes does not depend on the bound on the levels.
pub proof fn lemma_size_same(rt: &Runtime<TreeNode>, t: TreeNode, d: nat, e: nat)
    requires
        is_tree(rt, t, d),
        is_tree(rt, t, e),
    ensures
        tree_size(rt, t, d) == tree_size(rt, t, e),
    decreases d,
{
    if t.left is Some {
        let l = t.left->0.ptr();
        let r = t.right->0.ptr();
        lemma_size_same(rt, rt.item(l)->0, (d - 1) as nat, (e - 1) as nat);
        lemma_size_same(rt, rt.item(r)->0, (d - 1) as nat, (e - 1) as nat);
    }
}

/// The object at `p` is the root of a full tree with `d` levels below it.
pub open spec fn is_full_at(rt: &Runtime<TreeNode>, p: usize, d: nat) -> bool
    decreases d,
{
    &&& rt.model().filled(p)
    &&& rt.item(p) is Some
    &&& rt.item(p)->0.item == 0
    &&& if d == 0 {
        rt.item(p)->0.left is None && rt.item(p)->0.right is None
    } else {
        &&& rt.item(p)->0.left is Some
        &&& rt.item(p)->0.right is Some
        &&& is_full_at(rt, rt.item(p)->0.left->0.ptr(), (d - 1) as nat)
        &&& is_full_at(rt, rt.item(p)->0.right->0.ptr(), (d - 1) as nat)
    }
}

/// A full tree is a tree, and has one node more than twice as many as a full tree
/// of one level less has: one less than a power of two.
pub proof fn law_full_tree_size(rt: &Runtime<TreeNode>, p: usize, d: nat)
    requires
        is_full_at(rt, p, d),
    ensures
        is_tree_at(rt, p, d),
        tree_size(rt, rt.item(p)->0, d) == full_size(d),
        full_size(d) + 1 == vstd::arithmetic::power2::pow2(d + 1),
    decreases d,
{
    vstd::arithmetic::power2::lemma2_to64();
    vstd::arithmetic::power2::lemma_pow2_unfold(d + 1);
    if d > 0 {
        law_full_tree_size(rt, rt.item(p)->0.left->0.ptr(), (d - 1) as nat);
        law_full_tree_size(rt, rt.item(p)->0.right->0.ptr(), (d - 1) as nat);
    }
}

/// A full tree stays one while no object that was there changes.
proof fn lemma_full_kept(before: &Runtime<TreeNode>, after: &Runtime<TreeNode>, p: usize, d: nat)
    requires
        is_full_at(before, p, d),
        forall|q: usize| #[trigger] before.model().has(q) ==> after.model().filled(q) == before.model().filled(q)
            && after.item(q) == before.item(q),
    ensures
        is_full_at(after, p, d),
    decreases d,
{
    assert(before.model().has(p));
    if d > 0 {
        lemma_full_kept(before, after, before.item(p)->0.left->0.ptr(), (d - 1) as nat);
        lemma_full_kept(before, after, before.item(p)->0.right->0.ptr(), (d - 1) as nat);
    }
}

/// Builds a full tree: one node for a depth of zero or less, and else two trees
/// of one level less under a node.
pub fn create_tree(rt: &mut Runtime<TreeNode>, depth: i64) -> (r: Gc<TreeNode>)
    requires
        old(rt).wf(),
        old(rt).model().objs.len() + full_size(if depth > 0 { depth as nat } else { 0 }) < usize::MAX,
    ensures
        final(rt).wf(),
        old(rt).idle() ==> final(rt).idle(),
        ({
            let d: nat = if depth > 0 { depth as nat } else { 0 };
            let base = old(rt).model().objs.len();
            &&& final(rt).state() == (State {
                heap: (Model { objs: old(rt).model().objs + full_tree(base, d) }),
                ..old(rt).state()
            })
            &&& r.ptr() == base + full_size(d)
            &&& is_full_at(final(rt), r.ptr(), d)
        }),
        forall|q: usize| #[trigger] final(rt).model().held(q) == old(rt).model().held(q) + one(q, r.ptr()),
        forall|q: usize| #[trigger] old(rt).model().has(q) ==> final(rt).item(q) == old(rt).item(q),
    decreases depth,
{
    let ghost d: nat = if depth > 0 { depth as nat } else { 0 };
    let ghost start = *rt;
    let mut node = TreeNode { item: 0, left: None, right: None };
    let ghost mut done = *rt;
    if 0 < depth {
        let ghost n = full_size((d - 1) as nat);
        let left = create_tree(rt, depth - 1);
        let ghost half = *rt;
        proof {
            lemma_full_tree_len(start.model().objs.len(), (d - 1) as nat);
            lemma_full_tree_len(start.model().objs.len() + n, (d - 1) as nat);
        }
        let right = create_tree(rt, depth - 1);
        proof {
            assert forall|q: usize| #[trigger] half.model().has(q) implies rt.model().filled(q) == half.model().filled(q)
                && rt.item(q) == half.item(q) by {
                assert(rt.model().obj(q) == half.model().obj(q));
            }
            lemma_full_kept(&half, rt, left.ptr(), (d - 1) as nat);
            assert forall|q: usize| #[trigger] start.model().has(q) implies rt.item(q) == start.item(q) by {
                assert(half.model().has(q));
            }
            done = *rt;
        }
        node.left = Some(left);
        node.right = Some(right);
        proof {
            assert(node.edges() =~= seq![left.ptr(), right.ptr()]);
            assert forall|q: usize| occurrences(node.edges(), q) <= #[trigger] rt.model().held(q) by {
                reveal_with_fuel(occurrences, 3);
                assert(node.edges().drop_last() =~= seq![left.ptr()]);
                assert(seq![left.ptr()].drop_last() =~= Seq::<usize>::empty());
                assert(rt.model().held(q) == half.model().held(q) + one(q, right.ptr()));
                assert(half.model().held(q) == start.model().held(q) + one(q, left.ptr()));
                assert(start.model().held(q) >= 0);
            }
        }
    } else {
        proof {
            assert(node.edges() =~= Seq::<usize>::empty());
            assert forall|q: usize| occurrences(node.edges(), q) <= #[trigger] rt.model().held(q) by {}
        }
    }
    let ghost m = rt.model();
    let r = Gc::new(rt, node);
    proof {
        let o = new_obj(Some(node.edges()));
        assert(rt.model() == (Model { objs: m.objs.push(o) }));
        assert(rt.model().obj(r.ptr()) == o);
        assert forall|q: usize| #[trigger] rt.model().held(q) == m.held(q) - occurrences(o.edges(), q) + one(q, r.ptr()) by {
            lemma_internal_push(m, o, q);
            if m.has(q) {
                assert(rt.model().obj(q) == m.obj(q));
            }
        }
        if depth > 0 {
            assert forall|q: usize| #[trigger] done.model().has(q) implies rt.model().filled(q) == done.model().filled(q)
                && rt.item(q) == done.item(q) by {
                assert(rt.model().obj(q) == done.model().obj(q));
                assert(rt.model().has(q));
            }
            lemma_full_kept(&done, rt, node.left->0.ptr(), (d - 1) as nat);
            lemma_full_kept(&done, rt, node.right->0.ptr(), (d - 1) as nat);
            assert(rt.model().objs =~= start.model().objs + full_tree(start.model().objs.len(), d));
            assert forall|q: usize| #[trigger] rt.model().held(q) == start.model().held(q) + one(q, r.ptr()) by {
                reveal_with_fuel(occurrences, 3);
                assert(o.edges() =~= seq![node.left->0.ptr(), node.right->0.ptr()]);
                assert(o.edges().drop_last() =~= seq![node.left->0.ptr()]);
                assert(seq![node.left->0.ptr()].drop_last() =~= Seq::<usize>::empty());
                assert(done.model().held(q) == m.held(q));
            }
        } else {
            assert(rt.model().objs =~= start.model().objs + full_tree(start.model().objs.len(), d));
            assert(o.edges() =~= Seq::<usize>::empty());
        }
        assert forall|q: usize| #[trigger] start.model().has(q) implies rt.item(q) == start.item(q) by {
            assert(rt.model().has(q));
            assert(done.model().has(q));
        }
    }
    r
}

proof fn lemma_full_tree_len(base: nat, d: nat)
    ensures
        full_tree(base, d).len() == full_size(d),
    decreases d,
{
    if d > 0 {
        let n = full_size((d - 1) as nat);
        lemma_full_tree_len(base, (d - 1) as nat);
        lemma_full_tree_len(base + n, (d - 1) as nat);
    }
}

/// The depth of the smallest trees of the benchmark.
pub const MIN_DEPTH: usize = 4;

/// The depth of the largest trees of a benchmark that is asked to go to `n`.
pub fn max_depth(n: usize) -> (r: usize)
    ensures
        r == (if n < MIN_DEPTH + 2 { MIN_DEPTH + 2 } else { n as int }),
{
    if n < MIN_DEPTH + 2 {
        MIN_DEPTH + 2
    } else {
        n
    }
}

/// The number of different depths of trees in the benchmark.
pub fn result_count(max_depth: usize) -> (r: usize)
    requires
        max_depth >= MIN_DEPTH,
    ensures
        r == (max_depth - MIN_DEPTH) / 2 + 1,
{
    (max_depth - MIN_DEPTH) / 2 + 1
}

/// The depth of the tree that is built before all others.
pub fn stretch_depth(max_depth: usize) -> (r: usize)
    requires
        max_depth < usize::MAX,
    ensures
        r == max_depth + 1,
{
    max_depth + 1
}

/// Where the result for trees of the given depth stands among the results.
pub fn result_index(depth: usize) -> (r: usize)
    requires
        depth >= MIN_DEPTH,
    ensures
        r == (depth - MIN_DEPTH) / 2,
{
    (depth - MIN_DEPTH) / 2
}

/// The depths of the trees of the benchmark, in the order of their results.
pub fn depths(max_depth: usize) -> (r: Vec<usize>)
    requires
        max_depth >= MIN_DEPTH,
    ensures
        r@.len() == (max_depth - MIN_DEPTH) / 2 + 1,
        forall|i: int| 0 <= i < r@.len() ==> #[trigger] r@[i] == MIN_DEPTH + 2 * i,
        forall|i: int| 0 <= i < r@.len() ==> (#[trigger] r@[i] - MIN_DEPTH) / 2 == i,
{
    let n = result_count(max_depth);
    let mut r: Vec<usize> = Vec::new();
    let mut i: usize = 0;
    while i < n
        invariant
            i <= n,
            n == (max_depth - MIN_DEPTH) / 2 + 1,
            max_depth >= MIN_DEPTH,
            r@.len() == i,
            forall|j: int| 0 <= j < i ==> #[trigger] r@[j] == MIN_DEPTH + 2 * j,
        decreases n - i,
    {
        r.push(MIN_DEPTH + 2 * i);
        i += 1;
    }
    r
}

/// What is printed of the tree that is built first.
pub open spec fn stretch_text(depth: nat, check: nat) -> Seq<char> {
    "stretch tree of depth "@ + decimal(depth) + "\t check: "@ + decimal(check)
}

/// What is printed of the trees of one depth.
pub open spec fn trees_text(iterations: int, depth: nat, check: nat) -> Seq<char> {
    signed_decimal(iterations) + "\t trees of depth "@ + decimal(depth) + "\t check: "@ + decimal(check)
}

/// What is printed of the tree that lives through the benchmark.
pub open spec fn long_lived_text(depth: nat, check: nat) -> Seq<char> {
    "long lived tree of depth "@ + decimal(depth) + "\t check: "@ + decimal(check)
}

/// What follows the first words of each line: the depth and the number of nodes
/// read back as they were written.
proof fn lemma_read_depth_and_check(t: Seq<char>, depth: nat, check: nat)
    requires
        !ends_in_digit(t),
        unpadded(t),
    ensures
        ({
            let line = t + decimal(depth) + "\t check: "@ + decimal(check);
            &&& numbers(line) == numbers(t).push(depth).push(check)
            &&& frame(line) == frame(t) + "#\t check: #"@
            &&& unpadded(line)
        }),
{
    reveal_strlit("\t check: ");
    reveal_strlit("#\t check: #");
    let t1 = t + decimal(depth);
    lemma_read_decimal(t, depth);
    let t2 = t1 + "\t check: "@;
    lemma_read_plain(t1, "\t check: "@);
    lemma_read_decimal(t2, check);
    assert((frame(t).push('#') + "\t check: "@).push('#') =~= frame(t) + "#\t check: #"@);
}

/// The line for the tree that is built first reads back as the depth and the
/// number of nodes that it was made of, in this order, and says so around them.
/// So lines for different trees differ.
pub proof fn law_stretch_line_reads_back(depth: nat, check: nat)
    ensures
        numbers(stretch_text(depth, check)) == seq![depth, check],
        frame(stretch_text(depth, check)) == "stretch tree of depth #\t check: #"@,
        unpadded(stretch_text(depth, check)),
{
    reveal_strlit("stretch tree of depth ");
    reveal_strlit("#\t check: #");
    reveal_strlit("stretch tree of depth #\t check: #");
    let t = "stretch tree of depth "@;
    lemma_read_plain(seq![], t);
    assert(seq![] + t =~= t);
    lemma_read_depth_and_check(t, depth, check);
    assert(numbers(t).push(depth).push(check) =~= seq![depth, check]);
    assert(frame(stretch_text(depth, check)) =~= "stretch tree of depth #\t check: #"@);
}

/// The line for the trees of one depth reads back as the number of trees, the
/// depth and the number of nodes that it was made of, in this order: the number
/// that stands behind `trees of depth` is the depth. A minus stands before the
/// number of trees exactly when that is negative.
pub proof fn law_trees_line_reads_back(iterations: int, depth: nat, check: nat)
    ensures
        numbers(trees_text(iterations, depth, check)) == seq![
            (if iterations < 0 { -iterations } else { iterations }) as nat,
            depth,
            check,
        ],
        frame(trees_text(iterations, depth, check)) == (if iterations < 0 {
            "-#\t trees of depth #\t check: #"@
        } else {
            "#\t trees of depth #\t check: #"@
        }),
        unpadded(trees_text(iterations, depth, check)),
{
    reveal_strlit("\t trees of depth ");
    reveal_strlit("#\t check: #");
    reveal_strlit("#\t trees of depth #\t check: #");
    reveal_strlit("-#\t trees of depth #\t check: #");
    let t = signed_decimal(iterations);
    let words = "\t trees of depth "@;
    law_signed_decimal_reads_back(iterations);
    lemma_read_plain(t, words);
    lemma_read_depth_and_check(t + words, depth, check);
    let n = (if iterations < 0 { -iterations } else { iterations }) as nat;
    assert(seq![n].push(depth).push(check) =~= seq![n, depth, check]);
    if iterations < 0 {
        assert(frame(trees_text(iterations, depth, check)) =~= "-#\t trees of depth #\t check: #"@);
    } else {
        assert(frame(trees_text(iterations, depth, check)) =~= "#\t trees of depth #\t check: #"@);
    }
}

/// The line for the tree that lives through the benchmark reads back as the
/// depth and the number of nodes that it was made of, in this order.
pub proof fn law_long_lived_line_reads_back(depth: nat, check: nat)
    ensures
        numbers(long_lived_text(depth, check)) == seq![depth, check],
        frame(long_lived_text(depth, check)) == "long lived tree of depth #\t check: #"@,
        unpadded(long_lived_text(depth, check)),
{
    reveal_strlit("long lived tree of depth ");
    reveal_strlit("#\t check: #");
    reveal_strlit("long lived tree of depth #\t check: #");
    let t = "long lived tree of depth "@;
    lemma_read_plain(seq![], t);
    assert(seq![] + t =~= t);
    lemma_read_depth_and_check(t, depth, check);
    assert(numbers(t).push(depth).push(check) =~= seq![depth, check]);
    assert(frame(long_lived_text(depth, check)) =~= "long lived tree of depth #\t check: #"@);
}

/// The line for the trees of one depth tells what it was made of: lines for
/// different depths, numbers of trees or numbers of nodes differ.
pub proof fn law_trees_lines_differ(a: (int, nat, nat), b: (int, nat, nat))
    requires
        a != b,
    ensures
        trees_text(a.0, a.1, a.2) != trees_text(b.0, b.1, b.2),
{
    law_trees_line_reads_back(a.0, a.1, a.2);
    law_trees_line_reads_back(b.0, b.1, b.2);
    let x = numbers(trees_text(a.0, a.1, a.2));
    let y = numbers(trees_text(b.0, b.1, b.2));
    assert(x[1] == a.1 && x[2] == a.2);
    assert(y[1] == b.1 && y[2] == b.2);
    assert(x[0] == (if a.0 < 0 { -a.0 } else { a.0 }));
    assert(y[0] == (if b.0 < 0 { -b.0 } else { b.0 }));
    reveal_strlit("#\t trees of depth #\t check: #");
    reveal_strlit("-#\t trees of depth #\t check: #");
    assert("#\t trees of depth #\t check: #"@[0] == '#');
    assert("-#\t trees of depth #\t check: #"@[0] == '-');
}

/// The line for the tree that is built first.
pub fn stretch_line(depth: usize, check: usize) -> (r: String)
    ensures
        r@ == stretch_text(depth as nat, check as nat),
{
    let mut s = String::new();
    s.append("stretch tree of depth ");
    push_decimal(&mut s, depth);
    s.append("\t check: ");
    push_decimal(&mut s, check);
    assert(s@ =~= stretch_text(depth as nat, check as nat));
    s
}

/// The line for the trees of one depth.
pub fn trees_line(iterations: i32, depth: usize, check: usize) -> (r: String)
    ensures
        r@ == trees_text(iterations as int, depth as nat, check as nat),
{
    let mut s = String::new();
    push_signed_decimal(&mut s, iterations);
    s.append("\t trees of depth ");
    push_decimal(&mut s, depth);
    s.append("\t check: ");
    push_decimal(&mut s, check);
    assert(s@ =~= trees_text(iterations as int, depth as nat, check as nat));
    s
}

/// The line for the tree that lives through the benchmark.
pub fn long_lived_line(depth: usize, check: usize) -> (r: String)
    ensures
        r@ == long_lived_text(depth as nat, check as nat),
{
    let mut s = String::new();
    s.append("long lived tree of depth ");
    push_decimal(&mut s, depth);
    s.append("\t check: ");
    push_decimal(&mut s, check);
    assert(s@ =~= long_lived_text(depth as nat, check as nat));
    s
}

/// How many trees of the given depth the benchmark builds: the deeper, the
/// fewer. In a signed word of 32 bits the largest power of two is negative.
pub fn iterations(max_depth: usize, depth: usize) -> (r: i32)
    requires
        MIN_DEPTH <= depth <= max_depth,
        max_depth - depth + MIN_DEPTH < 32,
    ensures
        ({
            let k = (max_depth - depth + MIN_DEPTH) as nat;
            r == (if k < 31 { vstd::arithmetic::power2::pow2(k) as int } else { i32::MIN as int })
        }),
{
    let k: usize = max_depth - depth + MIN_DEPTH;
    proof {
        vstd::arithmetic::power2::lemma2_to64();
    }
    if k == 31 {
        i32::MIN
    } else {
        let mut r: i32 = 1;
        let mut i: usize = 0;
        while i < k
            invariant
                i <= k < 31,
                r == vstd::arithmetic::power2::pow2(i as nat),
                r <= 0x4000_0000,
            decreases k - i,
        {
            proof {
                vstd::arithmetic::power2::lemma_pow2_unfold((i + 1) as nat);
                vstd::arithmetic::power2::lemma2_to64();
                if i + 1 < 30 {
                    vstd::arithmetic::power2::lemma_pow2_strictly_increases((i + 1) as nat, 30);
                }
            }
            r = r * 2;
            i += 1;
        }
        r
    }
}

/// The state after `k` full trees were built and dropped one after another.
pub open spec fn churned(s: State, d: nat, k: nat) -> State
    decreases k,
{
    if k == 0 {
        s
    } else {
        let t = churned(s, d, (k - 1) as nat);
        let base = t.heap.objs.len();
        (State { heap: Model { objs: t.heap.objs + full_tree(base, d) }, ..t }).drop_all(
            seq![(base + full_size(d)) as usize],
            false,
        )
    }
}

/// Builds full trees one after another, counts the nodes of each and drops it.
/// Gives the number of all nodes.
pub fn churn(rt: &mut Runtime<TreeNode>, depth: usize, iterations: i32) -> (check: usize)
    requires
        old(rt).wf(),
        depth <= i64::MAX,
        iterations > 0 ==> old(rt).model().objs.len() + iterations * full_size(depth as nat) < usize::MAX,
    ensures
        final(rt).wf(),
        old(rt).idle() ==> final(rt).idle(),
        final(rt).state() == churned(old(rt).state(), depth as nat, if iterations > 0 { iterations as nat } else { 0 }),
        check == (if iterations > 0 { iterations * full_size(depth as nat) } else { 0 }),
        forall|q: usize| #[trigger] final(rt).model().held(q) == old(rt).model().held(q),
{
    let ghost s = rt.state();
    let ghost d = depth as nat;
    let ghost n = full_size(d);
    let mut check: usize = 0;
    let mut i: i32 = 0;
    while i < iterations
        invariant
            0 <= i,
            i <= iterations || iterations <= 0 && i == 0,
            rt.wf(),
            s.heap.clean() ==> rt.idle(),
            depth <= i64::MAX,
            d == depth as nat,
            n == full_size(d),
            iterations > 0 ==> s.heap.objs.len() + iterations * n < usize::MAX,
            rt.state() == churned(s, d, i as nat),
            rt.model().objs.len() == s.heap.objs.len() + i * n,
            check == i * n,
            forall|q: usize| #[trigger] rt.model().held(q) == s.heap.held(q),
        decreases iterations - i,
    {
        let ghost before = rt.state();
        proof {
            assert((i + 1) * n == i * n + n) by (nonlinear_arith);
            assert((i + 1) * n <= iterations * n) by (nonlinear_arith)
                requires
                    i + 1 <= iterations,
                    n >= 0,
            ;
        }
        let tree = create_tree(rt, depth as i64);
        proof {
            law_full_tree_size(rt, tree.ptr(), d);
            lemma_full_tree_len(before.heap.objs.len(), d);
        }
        let ghost with_tree = *rt;
        let nodes = tree.get(rt, |t: &TreeNode| -> (k: usize)
            requires with_tree.item(tree.ptr()) == Some(*t)
            ensures k == n
            { t.check_tree(rt) });
        check = check + nodes;
        let ghost p = tree.ptr();
        proof {
            assert(rt.model().held(p) == before.heap.held(p) + 1);
            assert(before.heap.held(p) >= 0);
        }
        tree.drop(rt);
        proof {
            let w = seq![p];
            assert forall|q: usize| occurrences(w, q) <= #[trigger] with_tree.model().held(q) by {
                lemma_occurrences_push(Seq::empty(), p, q);
                assert(Seq::<usize>::empty().push(p) =~= w);
                assert(before.heap.held(q) >= 0);
            }
            lemma_drop_all_wf(with_tree.state(), w, false);
            assert forall|q: usize| #[trigger] rt.model().held(q) == s.heap.held(q) by {
                lemma_drop_all_held(with_tree.state(), w, false, q);
                lemma_occurrences_push(Seq::empty(), p, q);
                assert(Seq::<usize>::empty().push(p) =~= w);
                assert(with_tree.model().held(q) == before.heap.held(q) + one(q, p));
            }
        }
        i += 1;
    }
    check
}

/// A tree has one node more than its two subtrees together; a node without a left
/// subtree is a tree of one node. What the nodes hold does not matter.
pub proof fn law_tree_size_adds_up(rt: &Runtime<TreeNode>, t: TreeNode, d: nat)
    requires
        is_tree(rt, t, d),
    ensures
        t.left is None ==> tree_size(rt, t, d) == 1,
        t.left is Some ==> d > 0 && tree_size(rt, t, d) == 1 + tree_size(
            rt,
            rt.item(t.left->0.ptr())->0,
            (d - 1) as nat,
        ) + tree_size(rt, rt.item(t.right->0.ptr())->0, (d - 1) as nat),
{
}

/// A full tree is full all the way down: its root holds nothing but two handles
/// to full trees of one level less, or none if there is no level below it.
pub proof fn law_full_tree_is_full_below(rt: &Runtime<TreeNode>, p: usize, d: nat)
    requires
        is_full_at(rt, p, d),
    ensures
        rt.model().filled(p),
        rt.item(p) is Some,
        rt.item(p)->0.item == 0,
        rt.item(p)->0.left is Some <==> d > 0,
        rt.item(p)->0.right is Some <==> d > 0,
        d > 0 ==> is_full_at(rt, rt.item(p)->0.left->0.ptr(), (d - 1) as nat),
        d > 0 ==> is_full_at(rt, rt.item(p)->0.right->0.ptr(), (d - 1) as nat),
{
}

/// Each object of a full tree is new and has one handle to it; it holds two
/// handles or none, and the last of the objects, its root, two unless it is alone.
pub proof fn law_full_tree_objects_are_new(base: nat, d: nat)
    requires
        base + full_size(d) <= usize::MAX,
    ensures
        full_tree(base, d).len() == full_size(d),
        forall|i: int|
            0 <= i < full_tree(base, d).len() ==> {
                let o = #[trigger] full_tree(base, d)[i];
                &&& o.strong == 1
                &&& o.kept == 0
                &&& o.bits == 0
                &&& !o.locked
                &&& o.item is Some
                &&& o.edges().len() == 0 || o.edges().len() == 2
                &&& forall|j: int| 0 <= j < o.edges().len() ==> base < #[trigger] o.edges()[j] <= base + i
            },
        full_tree(base, d).last().edges().len() == (if d == 0 { 0nat } else { 2 }),
    decreases d,
{
    lemma_full_tree_len(base, d);
    if d > 0 {
        let n = full_size((d - 1) as nat);
        law_full_tree_objects_are_new(base, (d - 1) as nat);
        law_full_tree_objects_are_new(base + n, (d - 1) as nat);
        let all = full_tree(base, d);
        let root = new_obj(Some(seq![(base + n) as usize, (base + 2 * n) as usize]));
        assert(all[2 * n as int] == root);
        assert forall|i: int| 0 <= i < all.len() implies {
            let o = #[trigger] all[i];
            &&& o.strong == 1
            &&& o.kept == 0
            &&& o.bits == 0
            &&& !o.locked
            &&& o.item is Some
            &&& o.edges().len() == 0 || o.edges().len() == 2
            &&& forall|j: int| 0 <= j < o.edges().len() ==> base < #[trigger] o.edges()[j] <= base + i
        } by {
            if i < n {
                assert(all[i] == full_tree(base, (d - 1) as nat)[i]);
            } else if i < 2 * n {
                assert(all[i] == full_tree(base + n, (d - 1) as nat)[i - n]);
            } else {
                assert(all[i] == root);
                assert(n > 0);
            }
        }
    }
}

/// An object that is gone without a trace.
pub open spec fn nothing_left() -> Obj {
    Obj { strong: 0, kept: 0, bits: 0, locked: false, item: None }
}

/// Objects that are gone without a trace.
pub open spec fn gone(n: nat) -> Seq<Obj> {
    Seq::new(n, |i: int| nothing_left())
}

/// The collector knows of no object at the addresses above `low` and up to
/// `high`, and hears of none.
spec fn untold(s: State, low: nat, high: nat) -> bool {
    forall|p: usize|
        low < p <= high ==> !(#[trigger] s.deferred.contains(p)) && !s.queue.contains(Soul::Died(WeakRoot { ptr: p }))
}

/// The root of a full tree goes with its handle, and leaves the handles to its
/// subtrees to be dropped.
proof fn lemma_root_falls(s: State, before: Seq<Obj>, after: Seq<Obj>, work: Seq<usize>, d: nat)
    requires
        s.heap.objs == before + full_tree(before.len(), d) + after,
        s.heap.objs.len() < usize::MAX,
        untold(s, before.len(), before.len() + full_size(d)),
    ensures
        full_size(d) > 0,
        s.drop_all(work.push((before.len() + full_size(d)) as usize), false) == (State {
            heap: Model { objs: s.heap.objs.update(before.len() + full_size(d) - 1, nothing_left()) },
            ..s
        }).drop_all(
            if d == 0 {
                work
            } else {
                work.push((before.len() + 2 * full_size((d - 1) as nat)) as usize).push(
                    (before.len() + full_size((d - 1) as nat)) as usize,
                )
            },
            false,
        ),
{
    let base = before.len();
    let size = full_size(d);
    let tree = full_tree(base, d);
    lemma_full_tree_len(base, d);
    law_full_tree_objects_are_new(base, d);
    assert(size > 0) by {
        assert(d == 0 || size == 2 * full_size((d - 1) as nat) + 1);
    }
    let root = (base + size) as usize;
    let todo = work.push(root);
    assert(todo.last() == root && todo.drop_last() =~= work);
    assert(s.heap.has(root) && s.heap.obj(root) == tree[size - 1]);
    assert(!s.deferred.contains(root));
    assert(!s.weak(root));
    let t = s.drop_one(root, false);
    assert(t.heap.objs =~= s.heap.objs.update(base + size - 1, nothing_left()));
    let edges = s.unwrapped(root);
    assert(s.drop_all(todo, false) == t.drop_all(work + edges.reverse(), false));
    if d == 0 {
        assert(work + edges.reverse() =~= work);
    } else {
        let n = full_size((d - 1) as nat);
        lemma_full_tree_len(base, (d - 1) as nat);
        lemma_full_tree_len(base + n, (d - 1) as nat);
        assert(edges == seq![(base + n) as usize, (base + 2 * n) as usize]);
        assert(work + edges.reverse() =~= work.push((base + 2 * n) as usize).push((base + n) as usize));
    }
}

proof fn lemma_untold_between(s: State, t: State, low: nat, high: nat, from: nat, to: nat)
    requires
        untold(s, low, high),
        low <= from,
        to <= high,
        t.deferred == s.deferred,
        t.queue == s.queue,
    ensures
        untold(t, from, to),
{
}

/// A full tree whose root is dropped falls all the way down, and no one is told:
/// there is no other handle to any of its nodes, and no weak reference.
#[verifier::spinoff_prover]
proof fn lemma_tree_falls(s: State, before: Seq<Obj>, after: Seq<Obj>, work: Seq<usize>, d: nat)
    requires
        s.heap.objs == before + full_tree(before.len(), d) + after,
        s.heap.objs.len() < usize::MAX,
        untold(s, before.len(), before.len() + full_size(d)),
    ensures
        s.drop_all(work.push((before.len() + full_size(d)) as usize), false) == (State {
            heap: Model { objs: before + gone(full_size(d)) + after },
            ..s
        }).drop_all(work, false),
    decreases d,
{
    let base = before.len();
    let size = full_size(d);
    let bare = seq![nothing_left()];
    lemma_root_falls(s, before, after, work, d);
    lemma_full_tree_len(base, d);
    let t = State { heap: Model { objs: s.heap.objs.update(base + size - 1, nothing_left()) }, ..s };
    if d == 0 {
        assert(t.heap.objs =~= before + gone(1) + after);
    } else {
        let n = full_size((d - 1) as nat);
        let left = full_tree(base, (d - 1) as nat);
        let right = full_tree(base + n, (d - 1) as nat);
        let rest = right + bare + after;
        let fallen = before + gone(n);
        let work_left = work.push((base + 2 * n) as usize);
        lemma_full_tree_len(base, (d - 1) as nat);
        lemma_full_tree_len(base + n, (d - 1) as nat);
        assert(size == 2 * n + 1);
        assert(t.heap.objs =~= before + left + rest);
        lemma_untold_between(s, t, base, base + size, base, base + n);
        lemma_tree_falls(t, before, rest, work_left, (d - 1) as nat);
        let half = State { heap: Model { objs: fallen + rest }, ..s };
        assert(fallen.len() == base + n);
        assert(half.heap.objs =~= fallen + right + (bare + after));
        assert(half.heap.objs.len() == s.heap.objs.len());
        lemma_untold_between(s, half, base, base + size, base + n, base + n + n);
        lemma_tree_falls(half, fallen, bare + after, work, (d - 1) as nat);
        assert(fallen + gone(n) + (bare + after) =~= before + gone(size) + after);
    }
}

/// Trees that are built and dropped again leave nothing behind but addresses: as
/// many as their nodes were, with no object at any of them. What was there
/// before is as it was, and the collector hears nothing.
pub proof fn law_churn_leaves_nothing_behind(s: State, d: nat, k: nat)
    requires
        s.wf(),
        s.heap.objs.len() + k * full_size(d) < usize::MAX,
    ensures
        churned(s, d, k).heap.objs == s.heap.objs + gone(k * full_size(d)),
        churned(s, d, k).deferred == s.deferred,
        churned(s, d, k).queue == s.queue,
    decreases k,
{
    let n = full_size(d);
    if k == 0 {
        assert(k * n == 0) by (nonlinear_arith)
            requires
                k == 0,
        ;
        assert(s.heap.objs + gone(0) =~= s.heap.objs);
    } else {
        let j = (k - 1) as nat;
        assert(k * n == j * n + n) by (nonlinear_arith)
            requires
                k == j + 1,
        ;
        law_churn_leaves_nothing_behind(s, d, j);
        let t = churned(s, d, j);
        let base = t.heap.objs.len();
        let with_tree = State { heap: Model { objs: t.heap.objs + full_tree(base, d) }, ..t };
        let root = (base + n) as usize;
        lemma_full_tree_len(base, d);
        assert(with_tree.heap.objs =~= t.heap.objs + full_tree(base, d) + seq![]);
        assert(untold(with_tree, base, base + n)) by {
            assert forall|p: usize| base < p <= base + n implies !(#[trigger] with_tree.deferred.contains(p))
                && !with_tree.queue.contains(Soul::Died(WeakRoot { ptr: p })) by {
                if s.deferred.contains(p) {
                    assert(s.heap.has(p));
                }
                let died = Soul::Died(WeakRoot { ptr: p });
                if s.queue.contains(died) {
                    let i = choose|i: int| 0 <= i < s.queue.len() && s.queue[i] == died;
                    assert(s.heap.knows(s.queue[i]));
                }
            }
        }
        lemma_tree_falls(with_tree, t.heap.objs, seq![], seq![], d);
        assert(Seq::<usize>::empty().push(root) =~= seq![root]);
        assert(t.heap.objs + gone(n) + seq![] =~= s.heap.objs + gone(k * n));
    }
}

} // verus!
