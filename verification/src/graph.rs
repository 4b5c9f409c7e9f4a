//! Reachability along a relation, and finite sums.

use vstd::prelude::*;

verus! {

/// Each element of `s` is one step along `rel` from the element before it.
pub open spec fn is_path<A>(rel: spec_fn(A, A) -> bool, s: Seq<A>) -> bool {
    &&& s.len() > 0
    &&& forall|i: int, j: int| #![trigger s[i], s[j]] 0 <= i && j == i + 1 && j < s.len() ==> rel(s[i], s[j])
}

/// `s` is a path from `a` to `b`.
pub open spec fn joins<A>(rel: spec_fn(A, A) -> bool, s: Seq<A>, a: A, b: A) -> bool {
    is_path(rel, s) && s[0] == a && s[s.len() - 1] == b
}

/// `b` is reached from `a` along `rel`; every node reaches itself.
pub open spec fn reaches<A>(rel: spec_fn(A, A) -> bool, a: A, b: A) -> bool {
    exists|s: Seq<A>| joins(rel, s, a, b)
}

/// Every node reaches itself.
pub proof fn lemma_reaches_self<A>(rel: spec_fn(A, A) -> bool, a: A)
    ensures
        reaches(rel, a, a),
{
    assert(joins(rel, seq![a], a, a));
}

/// One more step.
pub proof fn lemma_reaches_step<A>(rel: spec_fn(A, A) -> bool, a: A, b: A, c: A)
    requires
        reaches(rel, a, b),
        rel(b, c),
    ensures
        reaches(rel, a, c),
{
    let s = choose|s: Seq<A>| joins(rel, s, a, b);
    let t = s.push(c);
    assert forall|i: int, j: int| #![trigger t[i], t[j]] 0 <= i && j == i + 1 && j < t.len() implies rel(t[i], t[j]) by {
        if j < s.len() {
            assert(rel(s[i], s[j]));
        }
    }
    assert(joins(rel, t, a, c));
}

proof fn lemma_closed_at<A>(rel: spec_fn(A, A) -> bool, p: spec_fn(A) -> bool, s: Seq<A>, k: int)
    requires
        is_path(rel, s),
        0 <= k < s.len(),
        p(s[0]),
        forall|x: A, y: A| p(x) && #[trigger] rel(x, y) ==> p(y),
    ensures
        p(s[k]),
    decreases k,
{
    if k > 0 {
        lemma_closed_at(rel, p, s, k - 1);
        assert(rel(s[k - 1], s[k]));
    }
}

/// What holds of the start and is kept by every step holds of all that is reached.
pub proof fn lemma_closed<A>(rel: spec_fn(A, A) -> bool, p: spec_fn(A) -> bool, a: A, b: A)
    requires
        reaches(rel, a, b),
        p(a),
        forall|x: A, y: A| p(x) && #[trigger] rel(x, y) ==> p(y),
    ensures
        p(b),
{
    let s = choose|s: Seq<A>| joins(rel, s, a, b);
    lemma_closed_at(rel, p, s, s.len() - 1);
}

/// A node that is reached is the start, or is one step from another such node.
pub proof fn lemma_reaches_last<A>(rel: spec_fn(A, A) -> bool, a: A, b: A)
    requires
        reaches(rel, a, b),
    ensures
        a == b || exists|c: A| reaches(rel, a, c) && #[trigger] rel(c, b),
{
    let s = choose|s: Seq<A>| joins(rel, s, a, b);
    let k = s.len() - 1;
    if k > 0 {
        assert(rel(s[k - 1], s[k]));
        assert(joins(rel, s.drop_last(), a, s[k - 1]));
    }
}

/// The sum of `f` over `0..n`.
pub open spec fn sum(n: nat, f: spec_fn(int) -> nat) -> nat
    decreases n,
{
    if n == 0 {
        0
    } else {
        sum((n - 1) as nat, f) + f(n - 1)
    }
}

/// Summands that agree sum up to the same.
pub proof fn lemma_sum_same(n: nat, f: spec_fn(int) -> nat, g: spec_fn(int) -> nat)
    requires
        forall|i: int| 0 <= i < n ==> #[trigger] f(i) == g(i),
    ensures
        sum(n, f) == sum(n, g),
    decreases n,
{
    if n > 0 {
        lemma_sum_same((n - 1) as nat, f, g);
        assert(f(n - 1) == g(n - 1));
    }
}

/// Summands that agree but at one place.
pub proof fn lemma_sum_at(n: nat, f: spec_fn(int) -> nat, g: spec_fn(int) -> nat, k: int)
    requires
        0 <= k < n,
        forall|i: int| 0 <= i < n && i != k ==> #[trigger] f(i) == g(i),
    ensures
        sum(n, f) + g(k) == sum(n, g) + f(k),
    decreases n,
{
    if k == n - 1 {
        lemma_sum_same((n - 1) as nat, f, g);
    } else {
        lemma_sum_at((n - 1) as nat, f, g, k);
        assert(f(n - 1) == g(n - 1));
    }
}

/// Smaller summands give a smaller sum.
pub proof fn lemma_sum_le(n: nat, f: spec_fn(int) -> nat, g: spec_fn(int) -> nat)
    requires
        forall|i: int| 0 <= i < n ==> #[trigger] f(i) <= g(i),
    ensures
        sum(n, f) <= sum(n, g),
    decreases n,
{
    if n > 0 {
        lemma_sum_le((n - 1) as nat, f, g);
        assert(f(n - 1) <= g(n - 1));
    }
}

/// Smaller summands, one of them by `d` at least.
pub proof fn lemma_sum_lt(n: nat, f: spec_fn(int) -> nat, g: spec_fn(int) -> nat, k: int)
    requires
        0 <= k < n,
        forall|i: int| 0 <= i < n ==> #[trigger] f(i) <= g(i),
    ensures
        sum(n, f) + (g(k) - f(k)) <= sum(n, g),
    decreases n,
{
    if k == n - 1 {
        lemma_sum_le((n - 1) as nat, f, g);
    } else {
        lemma_sum_lt((n - 1) as nat, f, g, k);
        assert(f(n - 1) <= g(n - 1));
    }
}

/// A summand is no larger than the sum.
pub proof fn lemma_sum_has(n: nat, f: spec_fn(int) -> nat, k: int)
    requires
        0 <= k < n,
    ensures
        f(k) <= sum(n, f),
    decreases n,
{
    if k < n - 1 {
        lemma_sum_has((n - 1) as nat, f, k);
    }
}

/// A positive sum has a positive summand.
pub proof fn lemma_sum_positive(n: nat, f: spec_fn(int) -> nat) -> (k: int)
    requires
        sum(n, f) > 0,
    ensures
        0 <= k < n,
        f(k) > 0,
    decreases n,
{
    if f(n - 1) > 0 {
        n - 1
    } else {
        lemma_sum_positive((n - 1) as nat, f)
    }
}

/// The sum of sums.
pub proof fn lemma_sum_add(n: nat, f: spec_fn(int) -> nat, g: spec_fn(int) -> nat, h: spec_fn(int) -> nat)
    requires
        forall|i: int| 0 <= i < n ==> #[trigger] h(i) == f(i) + g(i),
    ensures
        sum(n, h) == sum(n, f) + sum(n, g),
    decreases n,
{
    if n > 0 {
        lemma_sum_add((n - 1) as nat, f, g, h);
        assert(h(n - 1) == f(n - 1) + g(n - 1));
    }
}

/// One if the two are the same, and none if not.
pub open spec fn one(p: usize, q: usize) -> nat {
    if p == q { 1 } else { 0 }
}

/// How often `p` occurs in `s`.
pub open spec fn occurrences(s: Seq<usize>, p: usize) -> nat
    decreases s.len(),
{
    if s.len() == 0 {
        0
    } else {
        occurrences(s.drop_last(), p) + (if s.last() == p { 1nat } else { 0nat })
    }
}

/// What occurs is contained.
pub proof fn lemma_occurs(s: Seq<usize>, p: usize)
    ensures
        occurrences(s, p) > 0 <==> s.contains(p),
    decreases s.len(),
{
    if s.len() > 0 {
        lemma_occurs(s.drop_last(), p);
        if s.last() == p {
            assert(s[s.len() - 1] == p);
        }
        if s.drop_last().contains(p) {
            let i = choose|i: int| 0 <= i < s.drop_last().len() && s.drop_last()[i] == p;
            assert(s[i] == p);
        }
        if s.contains(p) && s.last() != p {
            let i = choose|i: int| 0 <= i < s.len() && s[i] == p;
            assert(s.drop_last()[i] == p);
        }
    }
}

/// Occurrences in a sequence with one more element.
pub proof fn lemma_occurrences_push(s: Seq<usize>, x: usize, p: usize)
    ensures
        occurrences(s.push(x), p) == occurrences(s, p) + (if x == p { 1nat } else { 0nat }),
{
    assert(s.push(x).drop_last() =~= s);
}

/// Occurrences in two sequences put together.
pub proof fn lemma_occurrences_add(s: Seq<usize>, t: Seq<usize>, p: usize)
    ensures
        occurrences(s + t, p) == occurrences(s, p) + occurrences(t, p),
    decreases t.len(),
{
    if t.len() == 0 {
        assert(s + t =~= s);
    } else {
        lemma_occurrences_add(s, t.drop_last(), p);
        assert((s + t).drop_last() =~= s + t.drop_last());
    }
}

/// Occurrences in a reversed sequence.
pub proof fn lemma_occurrences_reverse(s: Seq<usize>, p: usize)
    ensures
        occurrences(s.reverse(), p) == occurrences(s, p),
    decreases s.len(),
{
    if s.len() == 0 {
        assert(s.reverse() =~= s);
    } else {
        lemma_occurrences_reverse(s.drop_last(), p);
        assert(s.reverse() =~= seq![s.last()] + s.drop_last().reverse());
        lemma_occurrences_add(seq![s.last()], s.drop_last().reverse(), p);
        assert(seq![s.last()].drop_last() =~= Seq::empty());
        reveal_with_fuel(occurrences, 2);
    }
}

} // verus!
