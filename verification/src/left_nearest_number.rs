//! For each element, the nearest earlier element that is ordered before it.

use crate::order::{le, lemma_le_transitive, less, lt, total_order};
use vstd::prelude::*;

verus! {

/// The elements to look at.
pub type Input<'a, T> = &'a [T];

/// For each position, the nearest earlier position with an element ordered before, if any.
pub type Output = Vec<Option<usize>>;

/// `answer` names the nearest position before `at` whose element is ordered before `s[at]`,
/// or is `None` when no earlier element is.
pub open spec fn is_left_nearest<T: Ord>(s: Seq<T>, at: int, answer: Option<usize>) -> bool {
    match answer {
        Some(j) => {
            &&& j < at
            &&& lt(s[j as int], s[at])
            &&& forall|k: int| j < k < at ==> le(s[at], #[trigger] s[k])
        },
        None => forall|k: int| 0 <= k < at ==> le(s[at], #[trigger] s[k]),
    }
}

/// The candidates kept while scanning: positions before `upto`, in increasing order. Every
/// position before `upto` is a candidate, or holds an element that is not ordered before
/// `floor`, or one that is not ordered before the element at a later candidate.
spec fn candidates_cover<T: Ord>(s: Seq<T>, stack: Seq<usize>, upto: int, floor: T) -> bool {
    &&& forall|a: int| 0 <= a < stack.len() ==> (#[trigger] stack[a]) < upto
    &&& forall|a: int, b: int| 0 <= a < b < stack.len() ==> stack[a] < stack[b]
    &&& forall|k: int|
        0 <= k < upto ==> stack.contains(k as usize) || le(floor, #[trigger] s[k]) || exists|
            a: int,
        |
            0 <= a < stack.len() && k < #[trigger] stack[a] && le(s[stack[a] as int], s[k])
}

/// A vector of `len` copies of `None`.
fn unanswered(len: usize) -> (result: Vec<Option<usize>>)
    ensures
        result@.len() == len,
        forall|i: int| 0 <= i < len ==> (#[trigger] result@[i]) is None,
{
    let mut result: Vec<Option<usize>> = Vec::new();
    let mut i: usize = 0;
    while i < len
        invariant
            i <= len,
            result@.len() == i,
            forall|k: int| 0 <= k < i ==> (#[trigger] result@[k]) is None,
        decreases len - i,
    {
        result.push(None);
        i += 1;
    }
    result
}

/// For every position of `input`, the nearest earlier position whose element is ordered
/// before the one at it, or `None` if there is no such position.
pub fn find<T: Ord>(input: Input<T>) -> (result: Output)
    requires
        total_order::<T>(),
    ensures
        result@.len() == input@.len(),
        forall|i: int| 0 <= i < input@.len() ==> is_left_nearest(input@, i, #[trigger] result@[i]),
{
    let mut stack: Vec<usize> = Vec::new();
    let mut result = unanswered(input.len());
    let mut i: usize = 0;
    while i < input.len()
        invariant
            total_order::<T>(),
            i <= input@.len(),
            result@.len() == input@.len(),
            forall|k: int| 0 <= k < i ==> is_left_nearest(input@, k, #[trigger] result@[k]),
            forall|k: int| i <= k < input@.len() ==> (#[trigger] result@[k]) is None,
            forall|a: int| 0 <= a < stack@.len() ==> (#[trigger] stack@[a]) < i,
            forall|a: int, b: int| 0 <= a < b < stack@.len() ==> stack@[a] < stack@[b],
            forall|k: int|
                0 <= k < i ==> stack@.contains(k as usize) || exists|a: int|
                    0 <= a < stack@.len() && k < #[trigger] stack@[a] && le(
                        input@[stack@[a] as int],
                        #[trigger] input@[k],
                    ),
        decreases input@.len() - i,
    {
        let ghost answered = result@;
        let mut searching = true;
        while searching && stack.len() > 0
            invariant
                total_order::<T>(),
                i < input@.len(),
                result@.len() == input@.len(),
                answered.len() == input@.len(),
                forall|k: int|
                    0 <= k < input@.len() && k != i ==> #[trigger] result@[k] == answered[k],
                searching ==> result@[i as int] is None,
                !searching ==> is_left_nearest(input@, i as int, result@[i as int]),
                candidates_cover(input@, stack@, i as int, input@[i as int]),
            decreases stack@.len() + (if searching { 1int } else { 0int }),
        {
            let j = stack[stack.len() - 1];
            let ghost kept = stack@;
            if less(&input[j], &input[i]) {
                result[i] = Some(j);
                searching = false;
                proof {
                    assert forall|k: int| j < k < i implies le(
                        input@[i as int],
                        #[trigger] input@[k],
                    ) by {
                        if kept.contains(k as usize) {
                            let a = choose|a: int| 0 <= a < kept.len() && kept[a] == k as usize;
                            assert(kept[a] <= kept[kept.len() - 1]);
                        } else if le(input@[i as int], input@[k]) {
                        } else {
                            let a = choose|a: int|
                                0 <= a < kept.len() && k < #[trigger] kept[a] && le(
                                    input@[kept[a] as int],
                                    input@[k],
                                );
                            assert(kept[a] <= kept[kept.len() - 1]);
                        }
                    }
                }
            } else {
                stack.pop();
                proof {
                    assert forall|k: int| 0 <= k < i implies stack@.contains(k as usize) || le(
                        input@[i as int],
                        #[trigger] input@[k],
                    ) || exists|a: int|
                        0 <= a < stack@.len() && k < #[trigger] stack@[a] && le(
                            input@[stack@[a] as int],
                            input@[k],
                        ) by {
                        if kept.contains(k as usize) {
                            let a = choose|a: int| 0 <= a < kept.len() && kept[a] == k as usize;
                            if a < stack@.len() {
                                assert(stack@[a] == k as usize);
                            }
                        } else if le(input@[i as int], input@[k]) {
                        } else {
                            let a = choose|a: int|
                                0 <= a < kept.len() && k < #[trigger] kept[a] && le(
                                    input@[kept[a] as int],
                                    input@[k],
                                );
                            if a < stack@.len() {
                                assert(stack@[a] == kept[a]);
                            } else {
                                lemma_le_transitive(input@[i as int], input@[j as int], input@[k]);
                            }
                        }
                    }
                }
            }
        }
        proof {
            if searching {
                assert forall|k: int| 0 <= k < i implies le(
                    input@[i as int],
                    #[trigger] input@[k],
                ) by {
                    assert(!stack@.contains(k as usize));
                }
            }
            assert forall|k: int| 0 <= k < i implies is_left_nearest(
                input@,
                k,
                #[trigger] result@[k],
            ) by {
                assert(result@[k] == answered[k]);
            }
            assert forall|k: int| i + 1 <= k < input@.len() implies (
            #[trigger] result@[k]) is None by {
                assert(result@[k] == answered[k]);
            }
        }
        let ghost kept = stack@;
        stack.push(i);
        proof {
            assert(stack@[kept.len() as int] == i);
            assert forall|k: int| 0 <= k < i + 1 implies stack@.contains(k as usize) || exists|
                a: int,
            |
                0 <= a < stack@.len() && k < #[trigger] stack@[a] && le(
                    input@[stack@[a] as int],
                    #[trigger] input@[k],
                ) by {
                if k == i {
                } else if kept.contains(k as usize) {
                    let a = choose|a: int| 0 <= a < kept.len() && kept[a] == k as usize;
                    assert(stack@[a] == k as usize);
                } else if le(input@[i as int], input@[k]) {
                    assert(k < stack@[kept.len() as int]);
                } else {
                    let a = choose|a: int|
                        0 <= a < kept.len() && k < #[trigger] kept[a] && le(
                            input@[kept[a] as int],
                            input@[k],
                        );
                    assert(stack@[a] == kept[a]);
                }
            }
        }
        i += 1;
    }
    result
}

} // verus!
