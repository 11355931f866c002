//! The two-pointer merge as a function on sequences, and sequences cut into sorted runs.

use crate::order::{
    le, lemma_le_total, lemma_le_transitive, lemma_lt_le_transitive, lemma_tied_transitive, tied,
    total_order,
};
use crate::sequence::{
    lemma_ties_of_concatenation, lemma_ties_of_none, same_order_of_ties, sorted, ties_of,
};
use vstd::multiset::Multiset;
use vstd::prelude::*;
use vstd::seq_lib::{group_to_multiset_ensures, lemma_multiset_commutative};

verus! {

/// The two-pointer merge of `l` and `r`: the smaller head goes first, the head of `l` on a tie.
pub open spec fn merged<T: Ord>(l: Seq<T>, r: Seq<T>) -> Seq<T>
    decreases l.len() + r.len(),
{
    if l.len() == 0 {
        r
    } else if r.len() == 0 {
        l
    } else if le(l[0], r[0]) {
        seq![l[0]] + merged(l.skip(1), r)
    } else {
        seq![r[0]] + merged(l, r.skip(1))
    }
}

/// Merging with an empty side gives the other side back.
pub proof fn lemma_merged_with_empty<T: Ord>(s: Seq<T>)
    ensures
        merged(s, Seq::<T>::empty()) == s,
        merged(Seq::<T>::empty(), s) == s,
{
    if s.len() == 0 {
        assert(s =~= Seq::<T>::empty());
    }
}

/// A merge holds exactly the elements of its two sides.
pub proof fn lemma_merged_permutation<T: Ord>(l: Seq<T>, r: Seq<T>)
    ensures
        merged(l, r).len() == l.len() + r.len(),
        merged(l, r).to_multiset() == l.to_multiset().add(r.to_multiset()),
    decreases l.len() + r.len(),
{
    broadcast use group_to_multiset_ensures;

    if l.len() == 0 {
        assert(l.to_multiset() =~= Multiset::<T>::empty());
        assert(l.to_multiset().add(r.to_multiset()) =~= r.to_multiset());
    } else if r.len() == 0 {
        assert(r.to_multiset() =~= Multiset::<T>::empty());
        assert(l.to_multiset().add(r.to_multiset()) =~= l.to_multiset());
    } else if le(l[0], r[0]) {
        lemma_merged_permutation(l.skip(1), r);
        lemma_multiset_commutative(seq![l[0]], merged(l.skip(1), r));
        lemma_multiset_commutative(seq![l[0]], l.skip(1));
        assert(seq![l[0]] + l.skip(1) =~= l);
        assert(merged(l, r).to_multiset() =~= l.to_multiset().add(r.to_multiset()));
    } else {
        lemma_merged_permutation(l, r.skip(1));
        lemma_multiset_commutative(seq![r[0]], merged(l, r.skip(1)));
        lemma_multiset_commutative(seq![r[0]], r.skip(1));
        assert(seq![r[0]] + r.skip(1) =~= r);
        assert(merged(l, r).to_multiset() =~= l.to_multiset().add(r.to_multiset()));
    }
}

/// Every element of a merge comes from one of its two sides.
pub proof fn lemma_merged_origin<T: Ord>(l: Seq<T>, r: Seq<T>, k: int)
    requires
        0 <= k < merged(l, r).len(),
    ensures
        l.contains(merged(l, r)[k]) || r.contains(merged(l, r)[k]),
{
    broadcast use group_to_multiset_ensures;

    lemma_merged_permutation(l, r);
    let x = merged(l, r)[k];
    assert(merged(l, r).contains(x));
    assert(merged(l, r).to_multiset().count(x) > 0);
}

/// Merging two sorted sequences gives a sorted sequence.
pub proof fn lemma_merged_sorted<T: Ord>(l: Seq<T>, r: Seq<T>)
    requires
        total_order::<T>(),
        sorted(l),
        sorted(r),
    ensures
        sorted(merged(l, r)),
    decreases l.len() + r.len(),
{
    if l.len() == 0 || r.len() == 0 {
    } else if le(l[0], r[0]) {
        let rest = merged(l.skip(1), r);
        lemma_merged_sorted(l.skip(1), r);
        assert forall|j: int| 0 <= j < rest.len() implies le(l[0], rest[j]) by {
            lemma_merged_origin(l.skip(1), r, j);
            if l.skip(1).contains(rest[j]) {
                let a = choose|a: int| 0 <= a < l.skip(1).len() && l.skip(1)[a] == rest[j];
                assert(le(l[0], l[a + 1]));
            } else {
                let b = choose|b: int| 0 <= b < r.len() && r[b] == rest[j];
                if b > 0 {
                    lemma_le_transitive(l[0], r[0], r[b]);
                }
            }
        }
    } else {
        let rest = merged(l, r.skip(1));
        lemma_merged_sorted(l, r.skip(1));
        assert forall|j: int| 0 <= j < rest.len() implies le(r[0], rest[j]) by {
            lemma_merged_origin(l, r.skip(1), j);
            if r.skip(1).contains(rest[j]) {
                let b = choose|b: int| 0 <= b < r.skip(1).len() && r.skip(1)[b] == rest[j];
                assert(le(r[0], r[b + 1]));
            } else {
                let a = choose|a: int| 0 <= a < l.len() && l[a] == rest[j];
                lemma_le_total(l[0], r[0]);
                if a > 0 {
                    lemma_le_transitive(r[0], l[0], l[a]);
                }
            }
        }
    }
}

/// Merging keeps ties in order: those of the left side first, in their order, then those of
/// the right side, in theirs.
pub proof fn lemma_merged_keeps_ties<T: Ord>(l: Seq<T>, r: Seq<T>, x: T)
    requires
        total_order::<T>(),
        sorted(l),
    ensures
        ties_of(merged(l, r), x) == ties_of(l, x) + ties_of(r, x),
    decreases l.len() + r.len(),
{
    if l.len() == 0 {
        lemma_ties_of_none(l, x);
        assert(ties_of(l, x) + ties_of(r, x) =~= ties_of(r, x));
    } else if r.len() == 0 {
        lemma_ties_of_none(r, x);
        assert(ties_of(l, x) + ties_of(r, x) =~= ties_of(l, x));
    } else if le(l[0], r[0]) {
        let rest = l.skip(1);
        lemma_merged_keeps_ties(rest, r, x);
        lemma_ties_of_concatenation(seq![l[0]], merged(rest, r), x);
        lemma_ties_of_concatenation(seq![l[0]], rest, x);
        assert(seq![l[0]] + rest =~= l);
        assert(ties_of(merged(l, r), x) =~= ties_of(l, x) + ties_of(r, x));
    } else {
        let rest = r.skip(1);
        lemma_merged_keeps_ties(l, rest, x);
        lemma_ties_of_concatenation(seq![r[0]], merged(l, rest), x);
        lemma_ties_of_concatenation(seq![r[0]], rest, x);
        assert(seq![r[0]] + rest =~= r);
        if tied(r[0], x) {
            assert forall|i: int| 0 <= i < l.len() implies !tied(#[trigger] l[i], x) by {
                if tied(l[i], x) {
                    lemma_tied_transitive(l[i], x, r[0]);
                    if i > 0 {
                        lemma_lt_le_transitive(r[0], l[0], l[i]);
                    }
                }
            }
            lemma_ties_of_none(l, x);
            assert(ties_of(merged(l, r), x) =~= ties_of(l, x) + ties_of(r, x));
        } else {
            assert forall|i: int| 0 <= i < 1 implies !tied(#[trigger] seq![r[0]][i], x) by {}
            lemma_ties_of_none(seq![r[0]], x);
            assert(ties_of(merged(l, r), x) =~= ties_of(l, x) + ties_of(r, x));
        }
    }
}

/// Merging two neighbouring runs in place, the left one sorted, keeps ties in order.
pub proof fn lemma_merge_in_place_keeps_ties<T: Ord>(
    prefix: Seq<T>,
    left: Seq<T>,
    right: Seq<T>,
    tail: Seq<T>,
)
    requires
        total_order::<T>(),
        sorted(left),
    ensures
        same_order_of_ties(prefix + merged(left, right) + tail, prefix + left + right + tail),
{
    assert forall|x: T| #[trigger]
        ties_of(prefix + merged(left, right) + tail, x) == ties_of(
            prefix + left + right + tail,
            x,
        ) by {
        lemma_merged_keeps_ties(left, right, x);
        lemma_ties_of_concatenation(prefix, merged(left, right), x);
        lemma_ties_of_concatenation(prefix + merged(left, right), tail, x);
        lemma_ties_of_concatenation(prefix, left, x);
        lemma_ties_of_concatenation(prefix + left, right, x);
        lemma_ties_of_concatenation(prefix + left + right, tail, x);
        assert(ties_of(prefix + merged(left, right) + tail, x) =~= ties_of(
            prefix + left + right + tail,
            x,
        ));
    }
}

/// Cut into consecutive runs of `run` elements, the last run maybe shorter, `s` has every run
/// sorted.
pub open spec fn runs_sorted<T: Ord>(s: Seq<T>, run: int) -> bool
    decreases s.len(),
{
    if run <= 0 || s.len() <= run {
        sorted(s)
    } else {
        sorted(s.take(run)) && runs_sorted(s.skip(run), run)
    }
}

/// `s` is a whole number of sorted runs of `run` elements each.
pub open spec fn full_runs_sorted<T: Ord>(s: Seq<T>, run: int) -> bool
    decreases s.len(),
{
    if s.len() == 0 {
        true
    } else if run <= 0 || s.len() < run {
        false
    } else {
        sorted(s.take(run)) && full_runs_sorted(s.skip(run), run)
    }
}

/// Every sequence is cut into sorted runs of one element.
pub proof fn lemma_runs_of_one<T: Ord>(s: Seq<T>)
    ensures
        runs_sorted(s, 1),
    decreases s.len(),
{
    if s.len() > 1 {
        lemma_runs_of_one(s.skip(1));
    }
}

/// A whole number of sorted runs, followed by one more, is a whole number of sorted runs.
pub proof fn lemma_full_runs_append<T: Ord>(p: Seq<T>, b: Seq<T>, run: int)
    requires
        0 < run,
        full_runs_sorted(p, run),
        sorted(b),
        b.len() == run,
    ensures
        full_runs_sorted(p + b, run),
    decreases p.len(),
{
    if p.len() == 0 {
        assert(p + b =~= b);
        assert(b.take(run) =~= b);
        assert(full_runs_sorted(b.skip(run), run));
    } else {
        lemma_full_runs_append(p.skip(run), b, run);
        assert((p + b).take(run) =~= p.take(run));
        assert((p + b).skip(run) =~= p.skip(run) + b);
    }
}

/// A whole number of sorted runs, followed by a sequence cut into sorted runs, is cut into
/// sorted runs.
pub proof fn lemma_full_runs_then_runs<T: Ord>(p: Seq<T>, t: Seq<T>, run: int)
    requires
        0 < run,
        full_runs_sorted(p, run),
        runs_sorted(t, run),
    ensures
        runs_sorted(p + t, run),
    decreases p.len(),
{
    if p.len() == 0 {
        assert(p + t =~= t);
    } else if p.len() == run && t.len() == 0 {
        assert(p + t =~= p);
        assert(p.take(run) =~= p);
    } else {
        lemma_full_runs_then_runs(p.skip(run), t, run);
        assert((p + t).take(run) =~= p.take(run));
        assert((p + t).skip(run) =~= p.skip(run) + t);
    }
}

/// One step of a round that merges neighbouring runs of `half` elements into runs of twice
/// as many: `after` is `before` with the two runs that start at `start` merged, the second
/// of which may be short or missing at the end of the sequence. The rounds' bookkeeping goes
/// on behind the merged block, and ties keep their order.
pub proof fn lemma_block_merged<T: Ord>(
    before: Seq<T>,
    after: Seq<T>,
    start: int,
    half: int,
    block_len: int,
)
    requires
        total_order::<T>(),
        1 <= half <= block_len,
        0 <= start,
        start + block_len <= before.len(),
        block_len == if before.len() - start < half + half {
            before.len() - start
        } else {
            half + half
        },
        runs_sorted(before.skip(start), half),
        full_runs_sorted(before.take(start), half + half),
        after == before.take(start) + merged(
            before.subrange(start, start + half),
            before.subrange(start + half, start + block_len),
        ) + before.skip(start + block_len),
    ensures
        same_order_of_ties(after, before),
        runs_sorted(after.skip(start + block_len), half),
        start + block_len < before.len() ==> full_runs_sorted(
            after.take(start + block_len),
            half + half,
        ),
        start + block_len == before.len() ==> runs_sorted(after, half + half),
{
    let width = half + half;
    let prefix = before.take(start);
    let rest = before.skip(start);
    let left = before.subrange(start, start + half);
    let right = before.subrange(start + half, start + block_len);
    let run = merged(left, right);
    let tail = before.skip(start + block_len);
    assert(left =~= rest.take(half));
    assert(right =~= rest.skip(half).take(block_len - half));
    assert(tail =~= rest.skip(half).skip(block_len - half));
    if rest.len() <= half {
        assert(rest.take(half) =~= rest);
    } else {
        assert(runs_sorted(rest.skip(half), half));
        if rest.skip(half).len() <= half {
            assert(right =~= rest.skip(half));
        } else {
            assert(runs_sorted(rest.skip(half).skip(half), half));
        }
    }
    assert(sorted(left));
    assert(sorted(right));
    lemma_merged_sorted(left, right);
    lemma_merged_permutation(left, right);
    lemma_merge_in_place_keeps_ties(prefix, left, right, tail);
    assert(before =~= prefix + left + right + tail);
    assert(after.skip(start + block_len) =~= tail);
    assert(runs_sorted(tail, half));
    if start + block_len < before.len() {
        lemma_full_runs_append(prefix, run, width);
        assert(after.take(start + block_len) =~= prefix + run);
    } else {
        assert(runs_sorted(run, width));
        lemma_full_runs_then_runs(prefix, run, width);
        assert(after =~= prefix + run);
    }
}

/// The end of such a round, where less than one run is left: it is sorted already.
pub proof fn lemma_short_block_left<T: Ord>(s: Seq<T>, start: int, half: int)
    requires
        1 <= half,
        0 <= start <= s.len(),
        s.len() - start < half,
        runs_sorted(s.skip(start), half),
        full_runs_sorted(s.take(start), half + half),
    ensures
        runs_sorted(s, half + half),
{
    let rest = s.skip(start);
    assert(runs_sorted(rest, half + half));
    lemma_full_runs_then_runs(s.take(start), rest, half + half);
    assert(s =~= s.take(start) + rest);
}

} // verus!
