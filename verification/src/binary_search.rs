//! Binary search for the first element that is not ordered before a target.

use crate::order::{
    le, lemma_le_lt_transitive, lemma_le_transitive, lemma_lt_asymmetric, less, lt, total_order,
};
use crate::sequence::sorted;
use vstd::prelude::*;

verus! {

/// What is searched: a slice, sorted for the search to mean anything.
pub type Input<'a, T> = &'a [T];

/// Where the search ends, if anywhere.
pub type Output = Option<usize>;

/// Position `at` of `s` is a boundary for `target`: the element before it, if there is one,
/// is ordered before `target`, and the element at it, if there is one, is not.
pub open spec fn is_boundary<T: Ord>(s: Seq<T>, target: T, at: int) -> bool {
    &&& 0 <= at <= s.len()
    &&& at > 0 ==> lt(s[at - 1], target)
    &&& at < s.len() ==> le(target, s[at])
}

/// Position `at` splits `s` for `target`: every element before it is ordered before `target`,
/// and no element from it on is.
pub open spec fn is_lower_bound<T: Ord>(s: Seq<T>, target: T, at: int) -> bool {
    &&& 0 <= at <= s.len()
    &&& forall|i: int| 0 <= i < at ==> lt(#[trigger] s[i], target)
    &&& forall|i: int| at <= i < s.len() ==> le(target, #[trigger] s[i])
}

/// In a sorted sequence a boundary splits the whole sequence.
pub proof fn lemma_boundary_splits_sorted<T: Ord>(s: Seq<T>, target: T, at: int)
    requires
        total_order::<T>(),
        sorted(s),
        is_boundary(s, target, at),
    ensures
        is_lower_bound(s, target, at),
{
    assert forall|i: int| 0 <= i < at implies lt(#[trigger] s[i], target) by {
        if i < at - 1 {
            lemma_le_lt_transitive(s[i], s[at - 1], target);
        }
    }
    assert forall|i: int| at <= i < s.len() implies le(target, #[trigger] s[i]) by {
        if at < i {
            lemma_le_transitive(target, s[at], s[i]);
        }
    }
}

/// A sequence has at most one position that splits it for `target`.
pub proof fn lemma_lower_bound_unique<T: Ord>(s: Seq<T>, target: T, a: int, b: int)
    requires
        total_order::<T>(),
        is_lower_bound(s, target, a),
        is_lower_bound(s, target, b),
    ensures
        a == b,
{
    if a < b {
        assert(lt(s[a], target) && le(target, s[a]));
    } else if b < a {
        assert(lt(s[b], target) && le(target, s[b]));
    }
}

/// Bisects `input` for `target`. The result is `None` when `input` is empty, and when the
/// search ends at the front and `target` is ordered before the first element. Otherwise it
/// is the boundary that the search ends at, which in a sorted `input` is the position of the
/// first element not ordered before `target`, or the length of `input` if there is none.
pub fn lower_bound<T: Ord>(input: Input<T>, target: T) -> (found: Output)
    requires
        total_order::<T>(),
    ensures
        input@.len() == 0 ==> found is None,
        found matches Some(at) ==> is_boundary(input@, target, at as int) && !(at == 0 && lt(
            target,
            input@[0],
        )),
        found is None && input@.len() > 0 ==> is_boundary(input@, target, 0) && lt(
            target,
            input@[0],
        ),
        sorted(input@) ==> (found is None <==> input@.len() == 0 || lt(target, input@[0])),
        sorted(input@) ==> (found matches Some(at) ==> is_lower_bound(input@, target, at as int)),
{
    if input.is_empty() {
        return None;
    }
    let mut left: usize = 0;
    let mut right: usize = input.len();

    while left < right
        invariant
            total_order::<T>(),
            left <= right <= input@.len(),
            left > 0 ==> lt(input@[left - 1], target),
            right < input@.len() ==> le(target, input@[right as int]),
        decreases right - left,
    {
        let mid = left + (right - left) / 2;

        if less(&input[mid], &target) {
            left = mid + 1;
        } else {
            right = mid;
        }
    }

    proof {
        if sorted(input@) {
            lemma_boundary_splits_sorted(input@, target, left as int);
            if lt(target, input@[0]) && left > 0 {
                lemma_lt_asymmetric(target, input@[0]);
            }
        }
    }
    if left == 0 && less(&target, &input[left]) {
        return None;
    }
    Some(left)
}

} // verus!
