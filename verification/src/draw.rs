//! A picture of the collector's graph.

use crate::collector::{Collector, GraphView, NodeId};
use crate::marks::{GraphNode, Marks};
use vstd::prelude::*;
use vstd::string::StringExecFns;

verus! {

/// A node of the picture: its id, its label, its color, and the edges to it.
pub struct DrawnNode {
    pub id: u32,
    pub label: String,
    pub color: &'static str,
    pub edges: Vec<(u32, u32)>,
}

/// The character of a decimal digit.
pub open spec fn digit(d: nat) -> char {
    (48 + d) as char
}

/// A number in decimal notation.
pub open spec fn decimal(n: nat) -> Seq<char>
    decreases n,
{
    if n < 10 {
        seq![digit(n)]
    } else {
        decimal(n / 10).push(digit(n % 10))
    }
}

/// The color of a node.
pub open spec fn color_of(node: GraphNode) -> Seq<char> {
    match node {
        GraphNode::Unknown => "orange"@,
        GraphNode::Dead => "grey"@,
        GraphNode::Dirty => "black"@,
        GraphNode::Live => "green"@,
        GraphNode::Reachable => "lime"@,
    }
}

/// The label of a node: its id, the number of handles to it, and the number of
/// references to it that were found, in quotes.
pub open spec fn label_of(id: nat, strong: nat, incoming: nat) -> Seq<char> {
    seq!['"'] + decimal(id) + seq![' '] + decimal(strong) + seq![':'] + decimal(incoming) + seq!['"']
}

/// The character is a decimal digit.
pub open spec fn is_digit(c: char) -> bool {
    '0' as int <= c as int <= '9' as int
}

/// The character at the end of a text is a digit.
pub open spec fn ends_in_digit(t: Seq<char>) -> bool {
    t.len() > 0 && is_digit(t.last())
}

/// The numbers that can be read in a text, from left to right: one for each run
/// of digits.
pub open spec fn numbers(t: Seq<char>) -> Seq<nat>
    decreases t.len(),
{
    if t.len() == 0 {
        seq![]
    } else {
        let before = numbers(t.drop_last());
        let value = (t.last() as int - '0' as int) as nat;
        if !is_digit(t.last()) {
            before
        } else if ends_in_digit(t.drop_last()) {
            before.drop_last().push(10 * before.last() + value)
        } else {
            before.push(value)
        }
    }
}

/// What stands around the numbers of a text: each run of digits is a single
/// `#`.
pub open spec fn frame(t: Seq<char>) -> Seq<char>
    decreases t.len(),
{
    if t.len() == 0 {
        seq![]
    } else if !is_digit(t.last()) {
        frame(t.drop_last()).push(t.last())
    } else if ends_in_digit(t.drop_last()) {
        frame(t.drop_last())
    } else {
        frame(t.drop_last()).push('#')
    }
}

/// No number in a text is padded: where a run of digits begins with a zero, it
/// ends there.
pub open spec fn unpadded(t: Seq<char>) -> bool
    decreases t.len(),
{
    t.len() == 0 || {
        let front = t.drop_last();
        &&& unpadded(front)
        &&& ends_in_digit(t) && ends_in_digit(front) && front.last() == '0' ==> ends_in_digit(front.drop_last())
    }
}

/// Text without digits adds no number, and stands as it is.
pub(crate) proof fn lemma_read_plain(t: Seq<char>, more: Seq<char>)
    requires
        forall|i: int| 0 <= i < more.len() ==> !is_digit(#[trigger] more[i]),
    ensures
        numbers(t + more) == numbers(t),
        frame(t + more) == frame(t) + more,
        unpadded(t) ==> unpadded(t + more),
        more.len() > 0 ==> !ends_in_digit(t + more),
    decreases more.len(),
{
    if more.len() == 0 {
        assert(t + more =~= t);
        assert(frame(t) + more =~= frame(t));
    } else {
        let front = more.drop_last();
        assert((t + more).drop_last() =~= t + front);
        assert((t + more).last() == more[more.len() - 1]);
        assert forall|i: int| 0 <= i < front.len() implies !is_digit(#[trigger] front[i]) by {
            assert(front[i] == more[i]);
        }
        lemma_read_plain(t, front);
        assert((frame(t) + front).push(more.last()) =~= frame(t) + more);
    }
}

/// A number in decimal notation reads back as that number.
pub(crate) proof fn lemma_read_decimal(t: Seq<char>, n: nat)
    requires
        !ends_in_digit(t),
    ensures
        numbers(t + decimal(n)) == numbers(t).push(n),
        frame(t + decimal(n)) == frame(t).push('#'),
        unpadded(t) ==> unpadded(t + decimal(n)),
        ends_in_digit(t + decimal(n)),
        n < 10 ==> (t + decimal(n)).drop_last() == t,
        n < 10 ==> (t + decimal(n)).last() == digit(n),
        n >= 10 ==> ends_in_digit((t + decimal(n)).drop_last()),
    decreases n,
{
    let d = decimal(n);
    if n < 10 {
        assert((t + d).drop_last() =~= t);
        assert((t + d).last() == digit(n));
    } else {
        let front = t + decimal(n / 10);
        lemma_read_decimal(t, n / 10);
        assert((t + d).drop_last() =~= front);
        assert((t + d).last() == digit(n % 10));
        assert(numbers(t).push(n / 10).drop_last() =~= numbers(t));
        assert(10 * (n / 10) + n % 10 == n);
    }
}

/// A number in decimal notation is digits that read back as the number, without
/// padding. So different numbers look different.
pub proof fn law_decimal_reads_back(n: nat)
    ensures
        numbers(decimal(n)) == seq![n],
        frame(decimal(n)) == seq!['#'],
        unpadded(decimal(n)),
{
    lemma_read_decimal(seq![], n);
    assert(seq![] + decimal(n) =~= decimal(n));
    assert(Seq::<nat>::empty().push(n) =~= seq![n]);
    assert(Seq::<char>::empty().push('#') =~= seq!['#']);
}

/// A number with a sign in decimal notation reads back as its magnitude, behind
/// a minus exactly when it is negative.
pub proof fn law_signed_decimal_reads_back(n: int)
    ensures
        numbers(signed_decimal(n)) == seq![(if n < 0 { -n } else { n }) as nat],
        frame(signed_decimal(n)) == (if n < 0 { seq!['-', '#'] } else { seq!['#'] }),
        unpadded(signed_decimal(n)),
{
    if n < 0 {
        let sign: Seq<char> = seq!['-'];
        lemma_read_plain(seq![], sign);
        assert(seq![] + sign =~= sign);
        assert(frame(seq![]) + sign =~= sign);
        lemma_read_decimal(sign, (-n) as nat);
        assert(numbers(sign).push((-n) as nat) =~= seq![(-n) as nat]);
        assert(sign.push('#') =~= seq!['-', '#']);
    } else {
        law_decimal_reads_back(n as nat);
    }
}

/// The label of a node reads back as what was written: its numbers are the id,
/// the number of handles and the number of references, in this order, with a
/// blank after the first, a colon after the second, and quotes around all.
pub proof fn law_label_reads_back(id: nat, strong: nat, incoming: nat)
    ensures
        numbers(label_of(id, strong, incoming)) == seq![id, strong, incoming],
        frame(label_of(id, strong, incoming)) == seq!['"', '#', ' ', '#', ':', '#', '"'],
        unpadded(label_of(id, strong, incoming)),
{
    let quote: Seq<char> = seq!['"'];
    let blank: Seq<char> = seq![' '];
    let colon: Seq<char> = seq![':'];
    lemma_read_plain(seq![], quote);
    assert(seq![] + quote =~= quote);
    let t1 = quote + decimal(id);
    lemma_read_decimal(quote, id);
    let t2 = t1 + blank;
    lemma_read_plain(t1, blank);
    let t3 = t2 + decimal(strong);
    lemma_read_decimal(t2, strong);
    let t4 = t3 + colon;
    lemma_read_plain(t3, colon);
    let t5 = t4 + decimal(incoming);
    lemma_read_decimal(t4, incoming);
    lemma_read_plain(t5, quote);
    assert(numbers(seq![]).push(id).push(strong).push(incoming) =~= seq![id, strong, incoming]);
    assert(frame(label_of(id, strong, incoming)) =~= seq!['"', '#', ' ', '#', ':', '#', '"']);
}

/// The label of a node tells what it was made of: different ids, numbers of
/// handles or numbers of references never have the same label.
pub proof fn law_labels_differ(a: (nat, nat, nat), b: (nat, nat, nat))
    requires
        a != b,
    ensures
        label_of(a.0, a.1, a.2) != label_of(b.0, b.1, b.2),
{
    law_label_reads_back(a.0, a.1, a.2);
    law_label_reads_back(b.0, b.1, b.2);
    let x = seq![a.0, a.1, a.2];
    let y = seq![b.0, b.1, b.2];
    assert(x[0] == a.0 && x[1] == a.1 && x[2] == a.2);
    assert(y[0] == b.0 && y[1] == b.1 && y[2] == b.2);
}

/// Nodes that were marked differently have different colors.
pub proof fn law_colors_differ(a: GraphNode, b: GraphNode)
    requires
        a != b,
    ensures
        color_of(a) != color_of(b),
{
    reveal_strlit("orange");
    reveal_strlit("grey");
    reveal_strlit("black");
    reveal_strlit("green");
    reveal_strlit("lime");
    assert("orange"@[0] == 'o' && "black"@[0] == 'b' && "lime"@[0] == 'l');
    assert("grey"@.len() == 4 && "green"@.len() == 5);
    assert("grey"@[0] == 'g' && "green"@[0] == 'g');
}

fn push_digit(s: &mut String, d: usize)
    requires
        d < 10,
    ensures
        final(s)@ == old(s)@.push(digit(d as nat)),
{
    let ghost before = s@;
    proof {
        reveal_strlit("0");
        reveal_strlit("1");
        reveal_strlit("2");
        reveal_strlit("3");
        reveal_strlit("4");
        reveal_strlit("5");
        reveal_strlit("6");
        reveal_strlit("7");
        reveal_strlit("8");
        reveal_strlit("9");
    }
    if d == 0 {
        s.append("0");
    } else if d == 1 {
        s.append("1");
    } else if d == 2 {
        s.append("2");
    } else if d == 3 {
        s.append("3");
    } else if d == 4 {
        s.append("4");
    } else if d == 5 {
        s.append("5");
    } else if d == 6 {
        s.append("6");
    } else if d == 7 {
        s.append("7");
    } else if d == 8 {
        s.append("8");
    } else {
        s.append("9");
    }
    assert(s@ =~= before.push(digit(d as nat)));
}

/// Appends a number in decimal notation.
pub fn push_decimal(s: &mut String, n: usize)
    ensures
        final(s)@ == old(s)@ + decimal(n as nat),
    decreases n,
{
    let ghost before = s@;
    if n >= 10 {
        push_decimal(s, n / 10);
    }
    push_digit(s, n % 10);
    assert(s@ =~= before + decimal(n as nat));
}

/// A number with a sign in decimal notation.
pub open spec fn signed_decimal(n: int) -> Seq<char> {
    if n < 0 { seq!['-'] + decimal((-n) as nat) } else { decimal(n as nat) }
}

/// Appends a number with a sign in decimal notation.
pub fn push_signed_decimal(s: &mut String, n: i32)
    ensures
        final(s)@ == old(s)@ + signed_decimal(n as int),
{
    let ghost before = s@;
    if n < 0 {
        proof {
            reveal_strlit("-");
        }
        s.append("-");
        push_decimal(s, (-(n as i64)) as usize);
    } else {
        push_decimal(s, n as usize);
    }
    assert(s@ =~= before + signed_decimal(n as int));
}

/// The label of a node.
pub fn label(id: usize, strong: usize, incoming: usize) -> (r: String)
    ensures
        r@ == label_of(id as nat, strong as nat, incoming as nat),
{
    proof {
        reveal_strlit("\"");
        reveal_strlit(" ");
        reveal_strlit(":");
    }
    let mut s = String::new();
    s.append("\"");
    push_decimal(&mut s, id);
    s.append(" ");
    push_decimal(&mut s, strong);
    s.append(":");
    push_decimal(&mut s, incoming);
    s.append("\"");
    assert(s@ =~= label_of(id as nat, strong as nat, incoming as nat));
    s
}

/// The color of a node.
pub fn color(node: GraphNode) -> (r: &'static str)
    ensures
        r@ == color_of(node),
{
    match node {
        GraphNode::Unknown => "orange",
        GraphNode::Dead => "grey",
        GraphNode::Dirty => "black",
        GraphNode::Live => "green",
        GraphNode::Reachable => "lime",
    }
}

/// `r` is the picture of node `id` of the graph, with `strong` handles and
/// `incoming` counted references. Its edges come from the nodes that it refers
/// to, lowest first.
pub open spec fn pictures(r: DrawnNode, g: GraphView, mark: GraphNode, id: u32, strong: nat, incoming: nat) -> bool {
    &&& r.id == id
    &&& r.label@ == label_of(id as nat, strong, incoming)
    &&& r.color@ == color_of(mark)
    &&& forall|x: u32| #[trigger] r.edges@.contains((x, id)) <==> g.neighbors[id as int].1.contains(x)
    &&& forall|i: int| 0 <= i < r.edges@.len() ==> (#[trigger] r.edges@[i]).1 == id
    &&& forall|i: int, j: int| 0 <= i < j < r.edges@.len() ==> r.edges@[i].0 < r.edges@[j].0
}

/// Draws a node as it was marked.
pub fn draw_node(c: &Collector, marks: &Marks, id: NodeId, strong: usize, incoming: usize) -> (r: DrawnNode)
    requires
        id.0 < c@.neighbors.len(),
        id.0 < marks@.nodes.len(),
    ensures
        pictures(r, c@, marks@.nodes[id.0 as int], id.0, strong as nat, incoming as nat),
{
    let out = c.outgoing(id.0 as usize);
    let mut edges: Vec<(u32, u32)> = Vec::new();
    let mut i: usize = 0;
    while i < out.len()
        invariant
            i <= out@.len(),
            edges@.len() == i,
            forall|j: int| 0 <= j < i ==> #[trigger] edges@[j] == (out@[j], id.0),
        decreases out@.len() - i,
    {
        edges.push((out[i], id.0));
        i += 1;
    }
    proof {
        assert forall|x: u32| #[trigger] edges@.contains((x, id.0)) <==> c@.neighbors[id.0 as int].1.contains(x) by {
            if edges@.contains((x, id.0)) {
                let j = choose|j: int| 0 <= j < edges@.len() && edges@[j] == (x, id.0);
                assert(out@[j] == x);
            }
            if out@.contains(x) {
                let j = choose|j: int| 0 <= j < out@.len() && out@[j] == x;
                assert(edges@[j] == (x, id.0));
            }
        }
    }
    DrawnNode { id: id.0, label: label(id.0 as usize, strong, incoming), color: color(marks.mark(id)), edges }
}

/// Draws the nodes in `rows`, each as its address, node id and number of counted
/// references, after they were marked. `strong` has the number of handles to each
/// of their objects, where it could be told. Where the object is no longer on the
/// defer list, the picture shows none.
pub fn draw_graph(
    c: &Collector,
    marks: &Marks,
    rows: &Vec<(usize, (u32, usize))>,
    strong: &Vec<Option<usize>>,
) -> (r: Vec<DrawnNode>)
    requires
        strong@.len() == rows@.len(),
        forall|i: int| 0 <= i < rows@.len() ==> (#[trigger] rows@[i]).1.0 < c@.neighbors.len(),
        forall|i: int| 0 <= i < rows@.len() ==> (#[trigger] rows@[i]).1.0 < marks@.nodes.len(),
    ensures
        r@.len() == rows@.len(),
        forall|i: int| 0 <= i < rows@.len() ==> pictures(
            #[trigger] r@[i],
            c@,
            marks@.nodes[rows@[i].1.0 as int],
            rows@[i].1.0,
            handles_shown(c@.deferred.dom().contains(rows@[i].0), strong@[i]),
            rows@[i].1.1 as nat,
        ),
{
    let mut r: Vec<DrawnNode> = Vec::new();
    let mut k: usize = 0;
    while k < rows.len()
        invariant
            k <= rows@.len(),
            strong@.len() == rows@.len(),
            forall|i: int| 0 <= i < rows@.len() ==> (#[trigger] rows@[i]).1.0 < c@.neighbors.len(),
            forall|i: int| 0 <= i < rows@.len() ==> (#[trigger] rows@[i]).1.0 < marks@.nodes.len(),
            r@.len() == k,
            forall|i: int| 0 <= i < k ==> pictures(
                #[trigger] r@[i],
                c@,
                marks@.nodes[rows@[i].1.0 as int],
                rows@[i].1.0,
                handles_shown(c@.deferred.dom().contains(rows@[i].0), strong@[i]),
                rows@[i].1.1 as nat,
            ),
        decreases rows@.len() - k,
    {
        let row = rows[k].1;
        let count: usize = match strong[k] {
            Some(n) => if c.defers(rows[k].0) {
                n
            } else {
                0
            },
            None => 0,
        };
        r.push(draw_node(c, marks, NodeId(row.0), count, row.1));
        k += 1;
    }
    r
}

/// The number of handles in the picture of an object: none if there is no weak
/// reference to it on the defer list by which they could be counted.
pub open spec fn handles_shown(deferred: bool, strong: Option<usize>) -> nat {
    match strong {
        Some(n) => if deferred { n as nat } else { 0 },
        None => 0,
    }
}

/// The picture of a node shows what the collector knows of it, and nothing else:
/// the numbers in its label are its id, the number of handles and the number of
/// references, its color is that of its mark, and its edges lead to it, one from
/// each node that it refers to.
pub proof fn law_picture_shows_the_node(
    r: DrawnNode,
    g: GraphView,
    mark: GraphNode,
    id: u32,
    strong: nat,
    incoming: nat,
)
    requires
        pictures(r, g, mark, id, strong, incoming),
    ensures
        r.id == id,
        numbers(r.label@) == seq![id as nat, strong, incoming],
        frame(r.label@) == seq!['"', '#', ' ', '#', ':', '#', '"'],
        r.color@ == color_of(mark),
        forall|x: u32, y: u32| #[trigger]
            r.edges@.contains((x, y)) <==> y == id && g.neighbors[id as int].1.contains(x),
        r.edges@.no_duplicates(),
        forall|i: int, j: int| 0 <= i < j < r.edges@.len() ==> r.edges@[i].0 < r.edges@[j].0,
{
    law_label_reads_back(id as nat, strong, incoming);
    assert forall|x: u32, y: u32| #[trigger] r.edges@.contains((x, y)) implies y == id by {
        let i = choose|i: int| 0 <= i < r.edges@.len() && r.edges@[i] == (x, y);
        assert(r.edges@[i].1 == id);
    }
}

/// The picture of an object shows the number of its handles exactly while the
/// object is on the defer list, as far as it can be told; else it shows none.
pub proof fn law_handles_are_shown_while_deferred(n: usize, strong: Option<usize>, deferred: bool)
    ensures
        handles_shown(true, Some(n)) == n,
        handles_shown(deferred, strong) > 0 ==> deferred && strong is Some && strong->0 == handles_shown(
            deferred,
            strong,
        ),
{
}

} // verus!
