//! The stack of ranges that a quicksort without recursion still has to sort: what it
//! promises about the sequence, and why every round brings the end nearer.

use crate::order::{le, total_order};
use crate::sequence::{lemma_rearranged_origin, rearranged_within, sorted};
use vstd::prelude::*;

verus! {

/// Nothing before position `k` of `s` is ordered after anything from `k` on.
pub open spec fn cut_at<T: Ord>(s: Seq<T>, k: int) -> bool {
    forall|a: int, b: int| 0 <= a < k <= b < s.len() ==> le(s[a], s[b])
}

/// Position `k` lies strictly inside one of the ranges of `stack`.
pub open spec fn covered(stack: Seq<(usize, usize)>, k: int) -> bool {
    exists|i: int| 0 <= i < stack.len() && (#[trigger] stack[i]).0 < k < stack[i].1
}

/// What the work stack of [`crate::sort::quick_sort`] promises about `s`: its ranges lie in
/// `s` and apart from each other, the ends of each are cuts of `s`, and so is every position
/// that no range holds strictly inside. With an empty stack, `s` is sorted.
pub open spec fn work_left<T: Ord>(s: Seq<T>, stack: Seq<(usize, usize)>) -> bool {
    &&& forall|i: int| 0 <= i < stack.len() ==> (#[trigger] stack[i]).0 <= stack[i].1 <= s.len()
    &&& forall|i: int, j: int|
        0 <= i < j < stack.len() ==> (#[trigger] stack[i]).1 <= (#[trigger] stack[j]).0
            || stack[j].1 <= stack[i].0
    &&& forall|i: int|
        0 <= i < stack.len() ==> cut_at(s, (#[trigger] stack[i]).0 as int) && cut_at(
            s,
            stack[i].1 as int,
        )
    &&& forall|k: int| 0 < k < s.len() ==> #[trigger] cut_at(s, k) || covered(stack, k)
}

/// What one range counts in `pending`.
pub open spec fn range_weight(range: (usize, usize)) -> int {
    if range.0 < range.1 {
        2 * (range.1 - range.0) - 1
    } else {
        0
    }
}

/// A bound on the rounds that the ranges of `stack` can still cost: a range of `n > 0`
/// elements counts `2n - 1`.
pub open spec fn pending(stack: Seq<(usize, usize)>) -> int
    decreases stack.len(),
{
    if stack.len() == 0 {
        0
    } else {
        pending(stack.drop_last()) + range_weight(stack.last())
    }
}

/// The stack after the range `(left, right)` was split at `middle`: each side is pushed if it
/// holds more than one element, the left side first.
pub open spec fn after_split(
    rest: Seq<(usize, usize)>,
    left: usize,
    middle: usize,
    right: usize,
) -> Seq<(usize, usize)> {
    let with_left = if middle - left > 1 {
        rest.push((left, middle))
    } else {
        rest
    };
    if right - middle > 1 {
        with_left.push((middle, right))
    } else {
        with_left
    }
}

/// `pending` is never negative.
pub proof fn lemma_pending_nonnegative(stack: Seq<(usize, usize)>)
    ensures
        pending(stack) >= 0,
    decreases stack.len(),
{
    if stack.len() > 0 {
        lemma_pending_nonnegative(stack.drop_last());
    }
}

/// Pushing a range adds its weight to `pending`.
pub proof fn lemma_pending_push(stack: Seq<(usize, usize)>, range: (usize, usize))
    ensures
        pending(stack.push(range)) == pending(stack) + range_weight(range),
{
    assert(stack.push(range).drop_last() =~= stack);
}

/// A cut outside `left..right` survives a rearrangement of `left..right`.
pub proof fn lemma_cut_survives<T: Ord>(t: Seq<T>, s: Seq<T>, left: int, right: int, k: int)
    requires
        rearranged_within(t, s, left, right),
        k <= left || right <= k,
        cut_at(s, k),
    ensures
        cut_at(t, k),
{
    assert forall|a: int, b: int| 0 <= a < k <= b < t.len() implies le(t[a], t[b]) by {
        let a0 = lemma_rearranged_origin(t, s, left, right, a);
        let b0 = lemma_rearranged_origin(t, s, left, right, b);
        assert(le(s[a0], s[b0]));
    }
}

/// Once its last range is sorted, the stack without that range keeps its promise.
pub proof fn lemma_range_sorted<T: Ord>(t: Seq<T>, s: Seq<T>, stack: Seq<(usize, usize)>)
    requires
        total_order::<T>(),
        stack.len() > 0,
        work_left(s, stack),
        rearranged_within(t, s, stack.last().0 as int, stack.last().1 as int),
        sorted(t.subrange(stack.last().0 as int, stack.last().1 as int)),
    ensures
        work_left(t, stack.drop_last()),
{
    let rest = stack.drop_last();
    let top = stack.len() - 1;
    let left = stack[top].0 as int;
    let right = stack[top].1 as int;
    let inner = t.subrange(left, right);
    lemma_cut_survives(t, s, left, right, left);
    lemma_cut_survives(t, s, left, right, right);
    assert forall|i: int| 0 <= i < rest.len() implies cut_at(t, (#[trigger] rest[i]).0 as int)
        && cut_at(t, rest[i].1 as int) by {
        assert(rest[i] == stack[i]);
        assert(stack[i].1 <= stack[top].0 || stack[top].1 <= stack[i].0);
        lemma_cut_survives(t, s, left, right, stack[i].0 as int);
        lemma_cut_survives(t, s, left, right, stack[i].1 as int);
    }
    assert forall|k: int| 0 < k < t.len() implies #[trigger] cut_at(t, k) || covered(rest, k) by {
        if left < k < right {
            assert forall|a: int, b: int| 0 <= a < k <= b < t.len() implies le(t[a], t[b]) by {
                if a < left {
                } else if b >= right {
                } else {
                    assert(le(inner[a - left], inner[b - left]));
                }
            }
        } else if cut_at(s, k) {
            lemma_cut_survives(t, s, left, right, k);
        } else {
            let i = choose|i: int| 0 <= i < stack.len() && (#[trigger] stack[i]).0 < k < stack[i].1;
            assert(rest[i] == stack[i]);
        }
    }
    assert forall|i: int, j: int| 0 <= i < j < rest.len() implies (#[trigger] rest[i]).1 <= (
    #[trigger] rest[j]).0 || rest[j].1 <= rest[i].0 by {
        assert(rest[i] == stack[i] && rest[j] == stack[j]);
    }
    assert forall|i: int| 0 <= i < rest.len() implies (#[trigger] rest[i]).0 <= rest[i].1
        <= t.len() by {
        assert(rest[i] == stack[i]);
    }
}

/// Once its last range is split into a front that is nowhere ordered after its back, the
/// stack with the two sides in place of that range keeps its promise, and has less pending.
pub proof fn lemma_range_split<T: Ord>(
    t: Seq<T>,
    s: Seq<T>,
    stack: Seq<(usize, usize)>,
    middle: usize,
)
    requires
        total_order::<T>(),
        stack.len() > 0,
        work_left(s, stack),
        rearranged_within(t, s, stack.last().0 as int, stack.last().1 as int),
        stack.last().0 < middle < stack.last().1,
        forall|a: int, b: int|
            stack.last().0 <= a < middle <= b < stack.last().1 ==> le(t[a], t[b]),
    ensures
        work_left(t, after_split(stack.drop_last(), stack.last().0, middle, stack.last().1)),
        pending(after_split(stack.drop_last(), stack.last().0, middle, stack.last().1)) < pending(
            stack,
        ),
{
    let rest = stack.drop_last();
    let top = stack.len() - 1;
    let l = stack[top].0;
    let r = stack[top].1;
    let left = l as int;
    let right = r as int;
    let next = after_split(rest, l, middle, r);
    let with_left = if middle - l > 1 {
        rest.push((l, middle))
    } else {
        rest
    };
    lemma_pending_push(rest, (l, middle));
    lemma_pending_push(with_left, (middle, r));
    lemma_cut_survives(t, s, left, right, left);
    lemma_cut_survives(t, s, left, right, right);
    assert(cut_at(t, middle as int));
    assert forall|i: int| 0 <= i < next.len() implies (#[trigger] next[i]).0 <= next[i].1
        <= t.len() && cut_at(t, next[i].0 as int) && cut_at(t, next[i].1 as int) && left
        <= next[i].0 <= next[i].1 <= right || (i < rest.len() && next[i] == stack[i]) by {
        if i < rest.len() {
            assert(next[i] == stack[i]);
        }
    }
    assert forall|i: int| 0 <= i < next.len() implies cut_at(t, (#[trigger] next[i]).0 as int)
        && cut_at(t, next[i].1 as int) by {
        if i < rest.len() {
            assert(next[i] == stack[i]);
            assert(stack[i].1 <= stack[top].0 || stack[top].1 <= stack[i].0);
            lemma_cut_survives(t, s, left, right, stack[i].0 as int);
            lemma_cut_survives(t, s, left, right, stack[i].1 as int);
        }
    }
    assert forall|i: int, j: int| 0 <= i < j < next.len() implies (#[trigger] next[i]).1 <= (
    #[trigger] next[j]).0 || next[j].1 <= next[i].0 by {
        if i < rest.len() {
            assert(next[i] == stack[i]);
            assert(stack[i].1 <= stack[top].0 || stack[top].1 <= stack[i].0);
        }
        if j < rest.len() {
            assert(next[j] == stack[j]);
        }
    }
    assert forall|k: int| 0 < k < t.len() implies #[trigger] cut_at(t, k) || covered(next, k) by {
        if left < k < middle {
            assert(middle - l > 1);
            assert(next[rest.len() as int] == (l, middle));
        } else if middle < k < right {
            assert(next[next.len() - 1] == (middle, r));
        } else if k == middle {
        } else if cut_at(s, k) {
            lemma_cut_survives(t, s, left, right, k);
        } else {
            let i = choose|i: int| 0 <= i < stack.len() && (#[trigger] stack[i]).0 < k < stack[i].1;
            assert(next[i] == stack[i]);
        }
    }
    assert forall|i: int| 0 <= i < next.len() implies (#[trigger] next[i]).0 <= next[i].1
        <= t.len() by {
        if i < rest.len() {
            assert(next[i] == stack[i]);
        }
    }
}

} // verus!
