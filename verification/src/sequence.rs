//! What it means for a sequence to be sorted, to be a rearrangement of another one and to
//! keep the order of tied elements, and what follows from these.

use crate::order::{
    le, lemma_le_transitive, lemma_lt_irreflexive, lemma_tied_reflexive, lemma_tied_transitive,
    tied, total_order,
};
use vstd::multiset::Multiset;
use vstd::prelude::*;
use vstd::seq_lib::{group_to_multiset_ensures, lemma_multiset_commutative};

verus! {

/// No element of `s` is ordered strictly before an earlier one.
pub open spec fn sorted<T: Ord>(s: Seq<T>) -> bool {
    forall|i: int, j: int| 0 <= i < j < s.len() ==> le(s[i], s[j])
}

/// `a` and `b` hold the same elements, each as often in one as in the other.
pub open spec fn permutation<T>(a: Seq<T>, b: Seq<T>) -> bool {
    a.to_multiset() == b.to_multiset()
}

/// `output` is `input` rearranged into non-decreasing order.
pub open spec fn is_sort_of<T: Ord>(output: Seq<T>, input: Seq<T>) -> bool {
    sorted(output) && permutation(output, input)
}

/// The elements of `s` that tie with `x`, in the order in which they stand in `s`.
pub open spec fn ties_of<T: Ord>(s: Seq<T>, x: T) -> Seq<T> {
    s.filter(|y: T| tied(y, x))
}

/// Elements that tie stand in `a` in the same order as in `b`.
pub open spec fn same_order_of_ties<T: Ord>(a: Seq<T>, b: Seq<T>) -> bool {
    forall|x: T| #[trigger] ties_of(a, x) == ties_of(b, x)
}

/// Any two elements of `s` that tie are the same value.
pub open spec fn no_distinct_ties<T: Ord>(s: Seq<T>) -> bool {
    forall|i: int, j: int|
        0 <= i < s.len() && 0 <= j < s.len() && tied(s[i], s[j]) ==> s[i] == s[j]
}

/// A sequence is sorted exactly when each element is ordered no later than its successor.
pub proof fn lemma_sorted_iff_adjacent<T: Ord>(s: Seq<T>)
    requires
        total_order::<T>(),
    ensures
        sorted(s) <==> forall|i: int| 0 <= i < s.len() - 1 ==> le(#[trigger] s[i], s[i + 1]),
{
    if forall|i: int| 0 <= i < s.len() - 1 ==> le(#[trigger] s[i], s[i + 1]) {
        assert forall|i: int, j: int| 0 <= i < j < s.len() implies le(s[i], s[j]) by {
            lemma_adjacent_reaches(s, i, j);
        }
    }
}

/// Where each element is ordered no later than its successor, it is ordered no later than
/// every element behind it.
proof fn lemma_adjacent_reaches<T: Ord>(s: Seq<T>, i: int, j: int)
    requires
        total_order::<T>(),
        forall|k: int| 0 <= k < s.len() - 1 ==> le(#[trigger] s[k], s[k + 1]),
        0 <= i < j < s.len(),
    ensures
        le(s[i], s[j]),
    decreases j - i,
{
    if i + 1 < j {
        lemma_adjacent_reaches(s, i, j - 1);
        assert(le(s[j - 1], s[j - 1 + 1]));
        lemma_le_transitive(s[i], s[j - 1], s[j]);
    } else {
        assert(le(s[i], s[i + 1]));
    }
}

/// Rearrangements have the same length.
pub proof fn lemma_permutation_length<T>(a: Seq<T>, b: Seq<T>)
    requires
        permutation(a, b),
    ensures
        a.len() == b.len(),
{
    broadcast use group_to_multiset_ensures;

    assert(a.to_multiset().len() == b.to_multiset().len());
}

/// Rearrangements hold the same elements.
pub proof fn lemma_permutation_contains<T>(a: Seq<T>, b: Seq<T>, x: T)
    requires
        permutation(a, b),
    ensures
        a.contains(x) == b.contains(x),
{
    broadcast use group_to_multiset_ensures;

    assert(a.to_multiset().count(x) == b.to_multiset().count(x));
}

/// A sequence of at most one element has no rearrangement but itself.
pub proof fn lemma_short_permutation<T>(a: Seq<T>, b: Seq<T>)
    requires
        permutation(a, b),
        a.len() <= 1,
    ensures
        a == b,
{
    lemma_permutation_length(a, b);
    if a.len() == 1 {
        lemma_permutation_contains(a, b, a[0]);
        assert(a.contains(a[0]));
        let i = choose|i: int| 0 <= i < b.len() && b[i] == a[0];
        assert(b[0] == a[0]);
    }
    assert(a =~= b);
}

/// Taking the last element away from two rearrangements with the same last element leaves
/// rearrangements.
proof fn lemma_permutation_drop_last<T>(a: Seq<T>, b: Seq<T>)
    requires
        permutation(a, b),
        a.len() > 0,
        b.len() > 0,
        a.last() == b.last(),
    ensures
        permutation(a.drop_last(), b.drop_last()),
{
    broadcast use group_to_multiset_ensures;

    assert(a.remove(a.len() - 1) =~= a.drop_last());
    assert(b.remove(b.len() - 1) =~= b.drop_last());
}

/// The last elements of two sorted rearrangements tie.
proof fn lemma_last_elements_tie<T: Ord>(a: Seq<T>, b: Seq<T>)
    requires
        total_order::<T>(),
        sorted(a),
        sorted(b),
        permutation(a, b),
        a.len() > 0,
    ensures
        b.len() == a.len(),
        tied(a.last(), b.last()),
{
    lemma_permutation_length(a, b);
    let u = a.last();
    let v = b.last();
    lemma_permutation_contains(a, b, u);
    lemma_permutation_contains(a, b, v);
    assert(a.contains(u)) by {
        assert(a[a.len() - 1] == u);
    }
    assert(b.contains(v)) by {
        assert(b[b.len() - 1] == v);
    }
    let j = choose|j: int| 0 <= j < b.len() && b[j] == u;
    let i = choose|i: int| 0 <= i < a.len() && a[i] == v;
    lemma_lt_irreflexive(u);
    lemma_lt_irreflexive(v);
    assert(le(u, v)) by {
        if j < b.len() - 1 {
            assert(le(b[j], b[b.len() - 1]));
        }
    }
    assert(le(v, u)) by {
        if i < a.len() - 1 {
            assert(le(a[i], a[a.len() - 1]));
        }
    }
}

/// How the ties of a sequence grow with its last element.
proof fn lemma_ties_of_last<T: Ord>(s: Seq<T>, x: T)
    requires
        s.len() > 0,
    ensures
        ties_of(s, x) == if tied(s.last(), x) {
            ties_of(s.drop_last(), x).push(s.last())
        } else {
            ties_of(s.drop_last(), x)
        },
{
    reveal(Seq::filter);
}

/// A sequence without an element that ties with `x` has no ties of `x`.
pub proof fn lemma_ties_of_none<T: Ord>(s: Seq<T>, x: T)
    requires
        forall|i: int| 0 <= i < s.len() ==> !tied(#[trigger] s[i], x),
    ensures
        ties_of(s, x) == Seq::<T>::empty(),
    decreases s.len(),
{
    reveal(Seq::filter);
    if s.len() > 0 {
        let front = s.drop_last();
        assert forall|i: int| 0 <= i < front.len() implies !tied(#[trigger] front[i], x) by {
            assert(front[i] == s[i]);
        }
        lemma_ties_of_none(front, x);
        assert(!tied(s[s.len() - 1], x));
    } else {
        assert(s =~= Seq::<T>::empty());
    }
}

/// The ties of a concatenation are the ties of its parts, one after the other.
pub proof fn lemma_ties_of_concatenation<T: Ord>(a: Seq<T>, b: Seq<T>, x: T)
    ensures
        ties_of(a + b, x) == ties_of(a, x) + ties_of(b, x),
{
    Seq::filter_distributes_over_add(a, b, |y: T| tied(y, x));
}

/// Two sorted rearrangements of each other that keep ties in the same order are the same
/// sequence.
pub proof fn lemma_stable_sort_unique<T: Ord>(a: Seq<T>, b: Seq<T>)
    requires
        total_order::<T>(),
        sorted(a),
        sorted(b),
        permutation(a, b),
        same_order_of_ties(a, b),
    ensures
        a == b,
    decreases a.len(),
{
    lemma_permutation_length(a, b);
    if a.len() == 0 {
        assert(a =~= b);
    } else {
        let u = a.last();
        let v = b.last();
        let front_a = a.drop_last();
        let front_b = b.drop_last();
        lemma_last_elements_tie(a, b);
        lemma_tied_reflexive(u);
        lemma_ties_of_last(a, u);
        lemma_ties_of_last(b, u);
        assert(ties_of(a, u) == ties_of(b, u));
        assert(ties_of(a, u).last() == u);
        assert(ties_of(b, u).last() == v);
        lemma_permutation_drop_last(a, b);
        assert forall|x: T| #[trigger] ties_of(front_a, x) == ties_of(front_b, x) by {
            lemma_ties_of_last(a, x);
            lemma_ties_of_last(b, x);
            assert(ties_of(a, x) == ties_of(b, x));
            if tied(u, x) {
                assert(ties_of(front_a, x) =~= ties_of(a, x).drop_last());
                assert(ties_of(front_b, x) =~= ties_of(b, x).drop_last());
            }
        }
        assert(sorted(front_a)) by {
            assert forall|i: int, j: int| 0 <= i < j < front_a.len() implies le(
                front_a[i],
                front_a[j],
            ) by {
                assert(le(a[i], a[j]));
            }
        }
        assert(sorted(front_b)) by {
            assert forall|i: int, j: int| 0 <= i < j < front_b.len() implies le(
                front_b[i],
                front_b[j],
            ) by {
                assert(le(b[i], b[j]));
            }
        }
        lemma_stable_sort_unique(front_a, front_b);
        assert(a =~= front_a.push(u));
        assert(b =~= front_b.push(v));
    }
}

/// Where `c` is the only element of `s` that `pred` accepts, the accepted part of `s` is as
/// many copies of `c` as `s` holds.
proof fn lemma_filter_of_one_value<T>(s: Seq<T>, pred: spec_fn(T) -> bool, c: T)
    requires
        forall|i: int| 0 <= i < s.len() ==> (pred(#[trigger] s[i]) <==> s[i] == c),
    ensures
        s.filter(pred).len() == s.to_multiset().count(c),
        forall|k: int| 0 <= k < s.filter(pred).len() ==> #[trigger] s.filter(pred)[k] == c,
    decreases s.len(),
{
    broadcast use group_to_multiset_ensures;
    broadcast use vstd::multiset::group_multiset_axioms;

    reveal(Seq::filter);
    if s.len() == 0 {
        assert(s.to_multiset().len() == 0);
        assert(s.to_multiset() =~= Multiset::<T>::empty());
    } else {
        let front = s.drop_last();
        assert forall|i: int| 0 <= i < front.len() implies (pred(#[trigger] front[i])
            <==> front[i] == c) by {
            assert(front[i] == s[i]);
        }
        lemma_filter_of_one_value(front, pred, c);
        assert(s =~= front.push(s.last()));
        assert(s.to_multiset() =~= front.to_multiset().insert(s.last()));
        assert(pred(s[s.len() - 1]) <==> s[s.len() - 1] == c);
    }
}

/// A rearrangement of a sequence without distinct ties keeps ties in the same order: there
/// is no order among them to lose.
pub proof fn lemma_permutation_keeps_identical_ties<T: Ord>(output: Seq<T>, input: Seq<T>)
    requires
        total_order::<T>(),
        permutation(output, input),
        no_distinct_ties(input),
    ensures
        same_order_of_ties(output, input),
{
    assert forall|x: T| #[trigger] ties_of(output, x) == ties_of(input, x) by {
        let pred = |y: T| tied(y, x);
        let c = if exists|i: int| 0 <= i < input.len() && tied(input[i], x) {
            let i = choose|i: int| 0 <= i < input.len() && tied(input[i], x);
            input[i]
        } else {
            x
        };
        lemma_tied_reflexive(x);
        assert forall|i: int| 0 <= i < input.len() implies (pred(#[trigger] input[i])
            <==> input[i] == c) by {
            if exists|i: int| 0 <= i < input.len() && tied(input[i], x) {
                if tied(input[i], x) {
                    lemma_tied_transitive(input[i], x, c);
                }
            }
        }
        assert forall|k: int| 0 <= k < output.len() implies (pred(#[trigger] output[k])
            <==> output[k] == c) by {
            lemma_permutation_contains(output, input, output[k]);
            assert(output.contains(output[k]));
            let i = choose|i: int| 0 <= i < input.len() && input[i] == output[k];
            assert(pred(input[i]) <==> input[i] == c);
        }
        lemma_filter_of_one_value(input, pred, c);
        lemma_filter_of_one_value(output, pred, c);
        assert(output.filter(pred) =~= input.filter(pred));
    }
}

/// Sorting a sorted sequence without distinct ties gives the same sequence.
pub proof fn lemma_sorting_sorted_changes_nothing<T: Ord>(output: Seq<T>, input: Seq<T>)
    requires
        total_order::<T>(),
        sorted(input),
        is_sort_of(output, input),
        no_distinct_ties(input),
    ensures
        output == input,
{
    lemma_permutation_keeps_identical_ties(output, input);
    lemma_stable_sort_unique(output, input);
}

/// Taking one element out of a sorted sequence leaves a sorted sequence.
proof fn lemma_remove_keeps_sorted<T: Ord>(s: Seq<T>, at: int)
    requires
        sorted(s),
        0 <= at < s.len(),
    ensures
        sorted(s.remove(at)),
{
    let t = s.remove(at);
    assert forall|i: int, j: int| 0 <= i < j < t.len() implies le(t[i], t[j]) by {
        let i0 = if i < at {
            i
        } else {
            i + 1
        };
        let j0 = if j < at {
            j
        } else {
            j + 1
        };
        assert(le(s[i0], s[j0]));
    }
}

/// Two sorted rearrangements of each other tie at every position: sorting a sorted sequence
/// can only exchange tied elements.
pub proof fn lemma_sorted_permutations_tie<T: Ord>(a: Seq<T>, b: Seq<T>)
    requires
        total_order::<T>(),
        sorted(a),
        sorted(b),
        permutation(a, b),
    ensures
        a.len() == b.len(),
        forall|i: int| 0 <= i < a.len() ==> tied(#[trigger] a[i], b[i]),
    decreases a.len(),
{
    broadcast use group_to_multiset_ensures;

    lemma_permutation_length(a, b);
    if a.len() > 0 {
        let n = a.len() as int;
        let u = a.last();
        let v = b.last();
        lemma_last_elements_tie(a, b);
        lemma_permutation_contains(a, b, u);
        assert(a.contains(u)) by {
            assert(a[n - 1] == u);
        }
        let j = choose|j: int| 0 <= j < b.len() && b[j] == u;
        let front = a.drop_last();
        let rest = b.remove(j);
        assert(a.remove(n - 1) =~= front);
        lemma_remove_keeps_sorted(a, n - 1);
        lemma_remove_keeps_sorted(b, j);
        lemma_sorted_permutations_tie(front, rest);
        assert forall|i: int| 0 <= i < a.len() implies tied(#[trigger] a[i], b[i]) by {
            if i == n - 1 {
            } else if i < j {
                assert(tied(front[i], rest[i]));
            } else {
                assert(tied(front[i], rest[i]));
                assert(rest[i] == b[i + 1]);
                lemma_lt_irreflexive(u);
                lemma_lt_irreflexive(v);
                assert(le(u, b[i])) by {
                    if j < i {
                        assert(le(b[j], b[i]));
                    }
                }
                assert(le(b[i + 1], v)) by {
                    if i + 1 < n - 1 {
                        assert(le(b[i + 1], b[n - 1]));
                    }
                }
                lemma_le_transitive(b[i + 1], v, u);
                lemma_le_transitive(b[i + 1], u, b[i]);
                assert(le(b[i], b[i + 1]));
                lemma_tied_transitive(a[i], b[i + 1], b[i]);
            }
        }
    }
}

/// A sequence without elements has the empty multiset.
pub proof fn lemma_nothing_in_empty<T>(s: Seq<T>)
    requires
        s.len() == 0,
    ensures
        s.to_multiset() == Multiset::<T>::empty(),
{
    broadcast use group_to_multiset_ensures;

    assert(s.to_multiset().len() == 0);
    assert(s.to_multiset() =~= Multiset::<T>::empty());
}

/// Where two sequences agree behind their first `k` elements, which are rearrangements of
/// each other, the same holds with any `n >= k` in place of `k`.
pub proof fn lemma_prefix_permutation<T>(a: Seq<T>, b: Seq<T>, k: int, n: int)
    requires
        a.len() == b.len(),
        0 <= k <= n <= a.len(),
        permutation(a.take(k), b.take(k)),
        a.skip(k) == b.skip(k),
    ensures
        permutation(a.take(n), b.take(n)),
        a.skip(n) == b.skip(n),
{
    assert(a.skip(n) =~= a.skip(k).skip(n - k));
    assert(b.skip(n) =~= b.skip(k).skip(n - k));
    assert(a.take(n) =~= a.take(k) + a.skip(k).take(n - k));
    assert(b.take(n) =~= b.take(k) + b.skip(k).take(n - k));
    lemma_multiset_commutative(a.take(k), a.skip(k).take(n - k));
    lemma_multiset_commutative(b.take(k), b.skip(k).take(n - k));
}

/// Exchanging two elements of a sequence rearranges it.
pub proof fn lemma_swap_permutation<T>(s: Seq<T>, i: int, j: int)
    requires
        0 <= i < s.len(),
        0 <= j < s.len(),
    ensures
        permutation(s.update(i, s[j]).update(j, s[i]), s),
{
    broadcast use group_to_multiset_ensures;
    broadcast use vstd::multiset::group_multiset_axioms;

    let once = s.update(i, s[j]);
    assert(s.to_multiset().count(s[i]) > 0) by {
        assert(s.contains(s[i]));
    }
    assert(s.to_multiset().count(s[j]) > 0) by {
        assert(s.contains(s[j]));
    }
    assert(once.update(j, s[i]).to_multiset() =~= s.to_multiset());
}

/// `t` differs from `s` only by a rearrangement of the positions `left..right`.
pub open spec fn rearranged_within<T>(t: Seq<T>, s: Seq<T>, left: int, right: int) -> bool {
    &&& 0 <= left <= right <= s.len() == t.len()
    &&& t.take(left) == s.take(left)
    &&& t.skip(right) == s.skip(right)
    &&& permutation(t.subrange(left, right), s.subrange(left, right))
}

/// An element of `t` at a position `p` stands in `s` at a position on the same side of
/// every cut outside `left..right`.
pub proof fn lemma_rearranged_origin<T>(
    t: Seq<T>,
    s: Seq<T>,
    left: int,
    right: int,
    p: int,
) -> (q: int)
    requires
        rearranged_within(t, s, left, right),
        0 <= p < t.len(),
    ensures
        0 <= q < s.len(),
        s[q] == t[p],
        left <= p < right ==> left <= q < right,
        !(left <= p < right) ==> q == p,
{
    broadcast use group_to_multiset_ensures;

    if left <= p < right {
        let inner = t.subrange(left, right);
        assert(inner[p - left] == t[p]);
        assert(inner.contains(t[p]));
        assert(inner.to_multiset().count(t[p]) > 0);
        assert(s.subrange(left, right).contains(t[p]));
        let i = choose|i: int|
            0 <= i < s.subrange(left, right).len() && s.subrange(left, right)[i] == t[p];
        left + i
    } else if p < left {
        assert(t.take(left)[p] == t[p]);
        assert(s.take(left)[p] == s[p]);
        p
    } else {
        assert(t.skip(right)[p - right] == t[p]);
        assert(s.skip(right)[p - right] == s[p]);
        p
    }
}

/// A sequence with one range rearranged is a rearrangement of the whole sequence.
pub proof fn lemma_rearranged_permutation<T>(t: Seq<T>, s: Seq<T>, left: int, right: int)
    requires
        rearranged_within(t, s, left, right),
    ensures
        permutation(t, s),
{
    assert(t =~= t.take(left) + t.subrange(left, right) + t.skip(right));
    assert(s =~= s.take(left) + s.subrange(left, right) + s.skip(right));
    lemma_multiset_commutative(t.take(left), t.subrange(left, right));
    lemma_multiset_commutative(t.take(left) + t.subrange(left, right), t.skip(right));
    lemma_multiset_commutative(s.take(left), s.subrange(left, right));
    lemma_multiset_commutative(s.take(left) + s.subrange(left, right), s.skip(right));
}

} // verus!
