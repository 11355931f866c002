//! Longest strictly increasing subsequences, given by the positions of their elements.

use crate::order::{less, lt, total_order};
use vstd::prelude::*;

verus! {

/// The sequence to pick from.
pub type Input<'a, T> = &'a [T];

/// The positions picked, from left to right.
pub type Output = Vec<usize>;

/// `indices` names positions of `s` from left to right, each holding an element that is
/// ordered after the one before.
pub open spec fn is_increasing_subsequence<T: Ord>(s: Seq<T>, indices: Seq<usize>) -> bool {
    &&& forall|k: int| 0 <= k < indices.len() ==> (#[trigger] indices[k]) < s.len()
    &&& forall|k: int|
        0 <= k < indices.len() - 1 ==> (#[trigger] indices[k]) < indices[k + 1] && lt(
            s[indices[k] as int],
            s[indices[k + 1] as int],
        )
}

/// No element of `s` is ordered after an earlier one.
pub open spec fn never_increases<T: Ord>(s: Seq<T>) -> bool {
    forall|i: int, j: int| 0 <= i < j < s.len() ==> !lt(s[i], s[j])
}

/// No increasing subsequence of `s` is longer than `indices`.
pub open spec fn is_longest<T: Ord>(s: Seq<T>, indices: Seq<usize>) -> bool {
    forall|other: Seq<usize>| #[trigger]
        is_increasing_subsequence(s, other) ==> other.len() <= indices.len()
}

/// The length of the longest increasing subsequence of `s` that ends just before position
/// `i` and can go on with `s[i]`, looking at the positions before `upto` only; 0 if there is
/// none.
pub open spec fn best_before<T: Ord>(s: Seq<T>, i: int, upto: int) -> int
    decreases i, upto,
{
    if upto <= 0 || upto > i {
        0
    } else {
        let j = upto - 1;
        let rest = best_before(s, i, j);
        if lt(s[j], s[i]) && 1 + best_before(s, j, j) > rest {
            1 + best_before(s, j, j)
        } else {
            rest
        }
    }
}

/// The length of the longest increasing subsequence of `s` that ends at position `i`.
pub open spec fn longest_ending_at<T: Ord>(s: Seq<T>, i: int) -> int {
    1 + best_before(s, i, i)
}

/// `previous` is the first position before `i` from which a longest increasing subsequence
/// that ends at `i` can come, or `None` if `s[i]` can follow no earlier element.
pub open spec fn is_first_best_before<T: Ord>(s: Seq<T>, i: int, previous: Option<usize>) -> bool {
    match previous {
        Some(j) => {
            &&& j < i
            &&& lt(s[j as int], s[i])
            &&& longest_ending_at(s, j as int) + 1 == longest_ending_at(s, i)
            &&& forall|k: int|
                0 <= k < j && lt(#[trigger] s[k], s[i]) ==> longest_ending_at(s, k) + 1
                    < longest_ending_at(s, i)
        },
        None => longest_ending_at(s, i) == 1,
    }
}

/// Each position of `indices` but the first is reached from the first position from which a
/// longest increasing subsequence that ends at it can come, and the first position from none.
pub open spec fn comes_from_first_best<T: Ord>(s: Seq<T>, indices: Seq<usize>) -> bool {
    &&& is_first_best_before(s, indices[0] as int, None)
    &&& forall|k: int|
        0 <= k < indices.len() - 1 ==> is_first_best_before(
            s,
            indices[k + 1] as int,
            Some(#[trigger] indices[k]),
        )
}

/// `best_before` counts positions before `upto`, so it cannot exceed their number.
proof fn lemma_best_before_bounds<T: Ord>(s: Seq<T>, i: int, upto: int)
    requires
        0 <= upto <= i,
    ensures
        0 <= best_before(s, i, upto) <= upto,
    decreases i, upto,
{
    if upto > 0 {
        lemma_best_before_bounds(s, i, upto - 1);
        lemma_best_before_bounds(s, upto - 1, upto - 1);
    }
}

/// `best_before` is at least what any position before `upto` that `s[i]` can follow offers.
proof fn lemma_best_before_covers<T: Ord>(s: Seq<T>, i: int, upto: int, j: int)
    requires
        0 <= j < upto <= i,
        lt(s[j], s[i]),
    ensures
        longest_ending_at(s, j) <= best_before(s, i, upto),
    decreases upto,
{
    if j < upto - 1 {
        lemma_best_before_covers(s, i, upto - 1, j);
    }
}

/// No increasing subsequence that ends at a position is longer than `longest_ending_at` says.
pub proof fn lemma_longest_ending_at_bounds<T: Ord>(s: Seq<T>, indices: Seq<usize>)
    requires
        is_increasing_subsequence(s, indices),
        indices.len() > 0,
    ensures
        indices.len() <= longest_ending_at(s, indices.last() as int),
    decreases indices.len(),
{
    let last = indices.last() as int;
    lemma_best_before_bounds(s, last, last);
    if indices.len() > 1 {
        let front = indices.drop_last();
        assert(is_increasing_subsequence(s, front)) by {
            assert forall|k: int| 0 <= k < front.len() - 1 implies (#[trigger] front[k]) < front[k
                + 1] && lt(s[front[k] as int], s[front[k + 1] as int]) by {
                assert(front[k] == indices[k]);
                assert(front[k + 1] == indices[k + 1]);
            }
        }
        lemma_longest_ending_at_bounds(s, front);
        let k = indices.len() - 2;
        assert(indices[k] < indices[k + 1]);
        lemma_best_before_covers(s, last, last, front.last() as int);
    }
}

/// A sequence of `len` copies of `value`.
fn filled<V: Copy>(value: V, len: usize) -> (result: Vec<V>)
    ensures
        result@.len() == len,
        forall|i: int| 0 <= i < len ==> #[trigger] result@[i] == value,
{
    let mut result: Vec<V> = Vec::new();
    let mut i: usize = 0;
    while i < len
        invariant
            i <= len,
            result@.len() == i,
            forall|k: int| 0 <= k < i ==> #[trigger] result@[k] == value,
        decreases len - i,
    {
        result.push(value);
        i += 1;
    }
    result
}

/// The positions of a longest strictly increasing subsequence of `input`; `None` if no
/// element is ordered after an earlier one. Among several longest ones, the result ends at
/// the last position where one ends, and each of its positions is the first from which it
/// can reach the next.
pub fn find<T: Ord>(input: Input<T>) -> (result: Option<Output>)
    requires
        total_order::<T>(),
    ensures
        result is None <==> never_increases(input@),
        result matches Some(indices) ==> {
            &&& indices@.len() >= 2
            &&& is_increasing_subsequence(input@, indices@)
            &&& is_longest(input@, indices@)
            &&& forall|e: int|
                indices@.last() < e < input@.len() ==> #[trigger] longest_ending_at(input@, e)
                    < indices@.len()
            &&& comes_from_first_best(input@, indices@)
        },
{
    if input.is_empty() {
        return None;
    }
    let n = input.len();
    let mut lengths_of_subsequence: Vec<usize> = filled(1, n);
    let mut prev_index: Vec<Option<usize>> = filled(None, n);

    let mut i: usize = 1;
    while i < n
        invariant
            total_order::<T>(),
            n == input@.len(),
            1 <= i <= n,
            lengths_of_subsequence@.len() == n,
            prev_index@.len() == n,
            forall|k: int|
                0 <= k < i ==> #[trigger] lengths_of_subsequence@[k] == longest_ending_at(
                    input@,
                    k,
                ),
            forall|k: int|
                0 <= k < i ==> is_first_best_before(input@, k, #[trigger] prev_index@[k]),
            forall|k: int| i <= k < n ==> #[trigger] lengths_of_subsequence@[k] == 1,
            forall|k: int| i <= k < n ==> (#[trigger] prev_index@[k]) is None,
        decreases n - i,
    {
        let mut index_of_max: Option<usize> = None;
        let mut j: usize = 0;
        while j < i
            invariant
                total_order::<T>(),
                n == input@.len(),
                j <= i < n,
                lengths_of_subsequence@.len() == n,
                forall|k: int|
                    0 <= k < i ==> #[trigger] lengths_of_subsequence@[k] == longest_ending_at(
                        input@,
                        k,
                    ),
                match index_of_max {
                    Some(m) => {
                        &&& m < j
                        &&& lt(input@[m as int], input@[i as int])
                        &&& longest_ending_at(input@, m as int) == best_before(
                            input@,
                            i as int,
                            j as int,
                        )
                        &&& forall|k: int|
                            0 <= k < m && lt(#[trigger] input@[k], input@[i as int])
                                ==> longest_ending_at(input@, k) < longest_ending_at(
                                input@,
                                m as int,
                            )
                    },
                    None => best_before(input@, i as int, j as int) == 0,
                },
            decreases i - j,
        {
            proof {
                lemma_best_before_bounds(input@, j as int, j as int);
                lemma_best_before_bounds(input@, i as int, j as int);
            }
            let follows = less(&input[j], &input[i]);
            let improves = match index_of_max {
                Some(m) => lengths_of_subsequence[j] > lengths_of_subsequence[m],
                None => true,
            };
            if follows && improves {
                proof {
                    assert forall|k: int|
                        0 <= k < j && lt(
                            #[trigger] input@[k],
                            input@[i as int],
                        ) implies longest_ending_at(input@, k) < longest_ending_at(
                        input@,
                        j as int,
                    ) by {
                        lemma_best_before_covers(input@, i as int, j as int, k);
                    }
                }
                index_of_max = Some(j);
            }
            j += 1;
        }
        proof {
            lemma_best_before_bounds(input@, i as int, i as int);
        }
        match index_of_max {
            Some(index) => {
                lengths_of_subsequence[i] = lengths_of_subsequence[index] + 1;
                prev_index[i] = Some(index);
            },
            None => {},
        }
        i += 1;
    }

    let mut index: usize = 0;
    let mut k: usize = 1;
    while k < n
        invariant
            n == input@.len(),
            1 <= k <= n,
            index < k,
            lengths_of_subsequence@.len() == n,
            forall|e: int|
                0 <= e < k ==> lengths_of_subsequence@[e] <= lengths_of_subsequence@[index as int],
            forall|e: int|
                index < e < k ==> lengths_of_subsequence@[e]
                    < lengths_of_subsequence@[index as int],
        decreases n - k,
    {
        if lengths_of_subsequence[k] >= lengths_of_subsequence[index] {
            index = k;
        }
        k += 1;
    }
    let max = lengths_of_subsequence[index];

    if max == 1 {
        proof {
            assert forall|a: int, b: int| 0 <= a < b < n implies !lt(input@[a], input@[b]) by {
                if lt(input@[a], input@[b]) {
                    lemma_best_before_covers(input@, b, b, a);
                    lemma_best_before_bounds(input@, a, a);
                    assert(lengths_of_subsequence@[b] == longest_ending_at(input@, b));
                }
            }
        }
        return None;  // No increasing subsequence found
    }
    let mut result: Vec<usize> = Vec::new();
    result.push(index);
    let ghost end = index;
    proof {
        lemma_best_before_bounds(input@, index as int, index as int);
        assert forall|other: Seq<usize>| #[trigger]
            is_increasing_subsequence(input@, other) implies other.len() <= max by {
            if other.len() > 0 {
                lemma_longest_ending_at_bounds(input@, other);
                assert(lengths_of_subsequence@[other.last() as int] == longest_ending_at(
                    input@,
                    other.last() as int,
                ));
            }
        }
        assert forall|e: int| end < e < input@.len() implies #[trigger] longest_ending_at(
            input@,
            e,
        ) < max by {
            assert(lengths_of_subsequence@[e] == longest_ending_at(input@, e));
        }
    }

    let mut current: usize = index;
    let mut next: Option<usize> = prev_index[index];
    loop
        invariant_except_break
            total_order::<T>(),
            n == input@.len(),
            prev_index@.len() == n,
            forall|k: int|
                0 <= k < n ==> is_first_best_before(input@, k, #[trigger] prev_index@[k]),
            current < n,
            next == prev_index@[current as int],
            result@.len() >= 1,
            result@[0] == current,
            result@.last() == end,
            is_increasing_subsequence(input@, result@),
            result@.len() + longest_ending_at(input@, current as int) == max + 1,
            forall|k: int|
                0 <= k < result@.len() - 1 ==> is_first_best_before(
                    input@,
                    result@[k + 1] as int,
                    Some(#[trigger] result@[k]),
                ),
        invariant
            max >= 2,
            forall|other: Seq<usize>| #[trigger]
                is_increasing_subsequence(input@, other) ==> other.len() <= max,
            forall|e: int|
                end < e < input@.len() ==> #[trigger] longest_ending_at(input@, e) < max,
        ensures
            n == input@.len(),
            result@.len() == max,
            result@.last() == end,
            is_increasing_subsequence(input@, result@),
            comes_from_first_best(input@, result@),
        decreases current,
    {
        match next {
            None => {
                break ;
            },
            Some(prev) => {
                let ghost before = result@;
                assert(is_first_best_before(input@, current as int, prev_index@[current as int]));
                result.insert(0, prev);
                proof {
                    assert forall|k: int| 0 <= k < result@.len() implies (#[trigger] result@[k])
                        < input@.len() by {
                        if k > 0 {
                            assert(result@[k] == before[k - 1]);
                        }
                    }
                    assert forall|k: int| 0 <= k < result@.len() - 1 implies (
                    #[trigger] result@[k]) < result@[k + 1] && lt(
                        input@[result@[k] as int],
                        input@[result@[k + 1] as int],
                    ) by {
                        if k > 0 {
                            assert(result@[k] == before[k - 1]);
                            assert(result@[k + 1] == before[k]);
                        } else {
                            assert(result@[1] == before[0]);
                        }
                    }
                    assert forall|k: int| 0 <= k < result@.len() - 1 implies is_first_best_before(
                        input@,
                        result@[k + 1] as int,
                        Some(#[trigger] result@[k]),
                    ) by {
                        if k > 0 {
                            assert(result@[k] == before[k - 1]);
                            assert(result@[k + 1] == before[k]);
                        } else {
                            assert(result@[1] == before[0]);
                        }
                    }
                }
                current = prev;
                next = prev_index[prev];
            },
        }
    }
    proof {
        assert(result@[0] < result@[0int + 1]);
        assert(lt(input@[result@[0] as int], input@[result@[1] as int]));
    }
    Some(result)
}

/// The length of the longest increasing subsequence of `s` that `s[i]` can go before and that
/// starts behind position `i`, looking at the positions before `upto` only; 0 if there is
/// none.
pub open spec fn best_after<T: Ord>(s: Seq<T>, i: int, upto: int) -> int
    decreases s.len() - i, upto,
{
    if i < 0 || upto <= i + 1 || upto > s.len() {
        0
    } else {
        let j = upto - 1;
        let rest = best_after(s, i, j);
        if lt(s[i], s[j]) && 1 + best_after(s, j, s.len() as int) > rest {
            1 + best_after(s, j, s.len() as int)
        } else {
            rest
        }
    }
}

/// The length of the longest increasing subsequence of `s` that starts at position `i`.
pub open spec fn longest_starting_at<T: Ord>(s: Seq<T>, i: int) -> int {
    1 + best_after(s, i, s.len() as int)
}

/// `next` is the first position behind `i` at which a longest increasing subsequence that
/// starts at `i` can go on, or `None` if no later element can follow `s[i]`.
pub open spec fn is_first_best_after<T: Ord>(s: Seq<T>, i: int, next: Option<usize>) -> bool {
    match next {
        Some(j) => {
            &&& i < j < s.len()
            &&& lt(s[i], s[j as int])
            &&& longest_starting_at(s, j as int) + 1 == longest_starting_at(s, i)
            &&& forall|k: int|
                i < k < j && lt(s[i], #[trigger] s[k]) ==> longest_starting_at(s, k) + 1
                    < longest_starting_at(s, i)
        },
        None => longest_starting_at(s, i) == 1,
    }
}

/// Each position of `indices` but the last goes on to the first position at which a longest
/// increasing subsequence that starts at it can go on, and the last position to none.
pub open spec fn goes_on_to_first_best<T: Ord>(s: Seq<T>, indices: Seq<usize>) -> bool {
    &&& is_first_best_after(s, indices.last() as int, None)
    &&& forall|k: int|
        0 <= k < indices.len() - 1 ==> is_first_best_after(
            s,
            (#[trigger] indices[k]) as int,
            Some(indices[k + 1]),
        )
}

/// `best_after` counts positions behind `i`, so it cannot exceed their number.
proof fn lemma_best_after_bounds<T: Ord>(s: Seq<T>, i: int, upto: int)
    requires
        0 <= i < upto <= s.len(),
    ensures
        0 <= best_after(s, i, upto) <= s.len() - i - 1,
    decreases s.len() - i, upto,
{
    if upto > i + 1 {
        lemma_best_after_bounds(s, i, upto - 1);
        lemma_best_after_bounds(s, upto - 1, s.len() as int);
    }
}

/// `best_after` is at least what any position between `i` and `upto` that can follow `s[i]`
/// offers.
proof fn lemma_best_after_covers<T: Ord>(s: Seq<T>, i: int, upto: int, j: int)
    requires
        0 <= i < j < upto <= s.len(),
        lt(s[i], s[j]),
    ensures
        longest_starting_at(s, j) <= best_after(s, i, upto),
    decreases upto,
{
    if j < upto - 1 {
        lemma_best_after_covers(s, i, upto - 1, j);
    }
}

/// No increasing subsequence that starts at a position is longer than `longest_starting_at`
/// says.
pub proof fn lemma_longest_starting_at_bounds<T: Ord>(s: Seq<T>, indices: Seq<usize>)
    requires
        is_increasing_subsequence(s, indices),
        indices.len() > 0,
    ensures
        indices.len() <= longest_starting_at(s, indices[0] as int),
    decreases indices.len(),
{
    let first = indices[0] as int;
    lemma_best_after_bounds(s, first, s.len() as int);
    if indices.len() > 1 {
        let back = indices.skip(1);
        assert(is_increasing_subsequence(s, back)) by {
            assert forall|k: int| 0 <= k < back.len() - 1 implies (#[trigger] back[k]) < back[k
                + 1] && lt(s[back[k] as int], s[back[k + 1] as int]) by {
                assert(back[k] == indices[k + 1]);
                assert(back[k + 1] == indices[k + 2]);
            }
        }
        lemma_longest_starting_at_bounds(s, back);
        assert(indices[0] < indices[1]);
        assert(back[0] == indices[1]);
        lemma_best_after_covers(s, first, s.len() as int, back[0] as int);
    }
}

/// The positions of a longest strictly increasing subsequence of `input`; `None` if no
/// element is ordered after an earlier one. Among several longest ones, the result starts
/// at the last position where one starts, and goes on each time to the first position that
/// it can go on to.
pub fn find_lexicographically_smallest<T: Ord>(input: Input<T>) -> (result: Option<Output>)
    requires
        total_order::<T>(),
    ensures
        result is None <==> never_increases(input@),
        result matches Some(indices) ==> {
            &&& indices@.len() >= 2
            &&& is_increasing_subsequence(input@, indices@)
            &&& is_longest(input@, indices@)
            &&& forall|e: int|
                indices@[0] < e < input@.len() ==> #[trigger] longest_starting_at(input@, e)
                    < indices@.len()
            &&& goes_on_to_first_best(input@, indices@)
        },
{
    if input.is_empty() {
        return None;
    }
    let n = input.len();
    let mut lengths_of_subsequence: Vec<usize> = filled(1, n);
    let mut prev_index: Vec<Option<usize>> = filled(None, n);

    let mut i: usize = n;
    while i > 0
        invariant
            total_order::<T>(),
            n == input@.len(),
            i <= n,
            lengths_of_subsequence@.len() == n,
            prev_index@.len() == n,
            forall|k: int|
                i <= k < n ==> #[trigger] lengths_of_subsequence@[k] == longest_starting_at(
                    input@,
                    k,
                ),
            forall|k: int|
                i <= k < n ==> is_first_best_after(input@, k, #[trigger] prev_index@[k]),
            forall|k: int| 0 <= k < i ==> #[trigger] lengths_of_subsequence@[k] == 1,
            forall|k: int| 0 <= k < i ==> (#[trigger] prev_index@[k]) is None,
        decreases i,
    {
        i -= 1;
        let mut index_of_max: Option<usize> = None;
        let mut j: usize = i + 1;
        while j < n
            invariant
                total_order::<T>(),
                n == input@.len(),
                i < j <= n,
                lengths_of_subsequence@.len() == n,
                forall|k: int|
                    i < k < n ==> #[trigger] lengths_of_subsequence@[k] == longest_starting_at(
                        input@,
                        k,
                    ),
                match index_of_max {
                    Some(m) => {
                        &&& i < m < j
                        &&& lt(input@[i as int], input@[m as int])
                        &&& longest_starting_at(input@, m as int) == best_after(
                            input@,
                            i as int,
                            j as int,
                        )
                        &&& forall|k: int|
                            i < k < m && lt(input@[i as int], #[trigger] input@[k])
                                ==> longest_starting_at(input@, k) < longest_starting_at(
                                input@,
                                m as int,
                            )
                    },
                    None => best_after(input@, i as int, j as int) == 0,
                },
            decreases n - j,
        {
            proof {
                lemma_best_after_bounds(input@, j as int, n as int);
                lemma_best_after_bounds(input@, i as int, j as int);
            }
            let follows = less(&input[i], &input[j]);
            let improves = match index_of_max {
                Some(m) => lengths_of_subsequence[j] > lengths_of_subsequence[m],
                None => true,
            };
            if follows && improves {
                proof {
                    assert forall|k: int|
                        i < k < j && lt(
                            input@[i as int],
                            #[trigger] input@[k],
                        ) implies longest_starting_at(input@, k) < longest_starting_at(
                        input@,
                        j as int,
                    ) by {
                        lemma_best_after_covers(input@, i as int, j as int, k);
                    }
                }
                index_of_max = Some(j);
            }
            j += 1;
        }
        proof {
            lemma_best_after_bounds(input@, i as int, n as int);
        }
        match index_of_max {
            Some(index) => {
                lengths_of_subsequence[i] = lengths_of_subsequence[index] + 1;
                prev_index[i] = Some(index);
            },
            None => {},
        }
    }

    let mut index: usize = 0;
    let mut k: usize = 1;
    while k < n
        invariant
            n == input@.len(),
            1 <= k <= n,
            index < k,
            lengths_of_subsequence@.len() == n,
            forall|e: int|
                0 <= e < k ==> lengths_of_subsequence@[e] <= lengths_of_subsequence@[index as int],
            forall|e: int|
                index < e < k ==> lengths_of_subsequence@[e]
                    < lengths_of_subsequence@[index as int],
        decreases n - k,
    {
        if lengths_of_subsequence[k] >= lengths_of_subsequence[index] {
            index = k;
        }
        k += 1;
    }
    let max = lengths_of_subsequence[index];

    if max == 1 {
        proof {
            assert forall|a: int, b: int| 0 <= a < b < n implies !lt(input@[a], input@[b]) by {
                if lt(input@[a], input@[b]) {
                    lemma_best_after_covers(input@, a, n as int, b);
                    lemma_best_after_bounds(input@, b, n as int);
                    assert(lengths_of_subsequence@[a] == longest_starting_at(input@, a));
                }
            }
        }
        return None;  // No increasing subsequence found
    }
    let mut result: Vec<usize> = Vec::new();
    result.push(index);
    let ghost start = index;
    proof {
        lemma_best_after_bounds(input@, index as int, n as int);
        assert forall|other: Seq<usize>| #[trigger]
            is_increasing_subsequence(input@, other) implies other.len() <= max by {
            if other.len() > 0 {
                lemma_longest_starting_at_bounds(input@, other);
                assert(lengths_of_subsequence@[other[0] as int] == longest_starting_at(
                    input@,
                    other[0] as int,
                ));
            }
        }
        assert forall|e: int| start < e < input@.len() implies #[trigger] longest_starting_at(
            input@,
            e,
        ) < max by {
            assert(lengths_of_subsequence@[e] == longest_starting_at(input@, e));
        }
    }

    let mut current: usize = index;
    let mut next: Option<usize> = prev_index[index];
    loop
        invariant_except_break
            total_order::<T>(),
            n == input@.len(),
            prev_index@.len() == n,
            forall|k: int|
                0 <= k < n ==> is_first_best_after(input@, k, #[trigger] prev_index@[k]),
            current < n,
            next == prev_index@[current as int],
            result@.len() >= 1,
            result@[0] == start,
            result@.last() == current,
            is_increasing_subsequence(input@, result@),
            result@.len() + longest_starting_at(input@, current as int) == max + 1,
            forall|k: int|
                0 <= k < result@.len() - 1 ==> is_first_best_after(
                    input@,
                    (#[trigger] result@[k]) as int,
                    Some(result@[k + 1]),
                ),
        invariant
            max >= 2,
            forall|other: Seq<usize>| #[trigger]
                is_increasing_subsequence(input@, other) ==> other.len() <= max,
            forall|e: int|
                start < e < input@.len() ==> #[trigger] longest_starting_at(input@, e) < max,
        ensures
            n == input@.len(),
            result@.len() == max,
            result@[0] == start,
            is_increasing_subsequence(input@, result@),
            goes_on_to_first_best(input@, result@),
        decreases n - current,
    {
        match next {
            None => {
                break ;
            },
            Some(following) => {
                let ghost before = result@;
                assert(is_first_best_after(input@, current as int, prev_index@[current as int]));
                result.push(following);
                proof {
                    assert forall|k: int| 0 <= k < result@.len() - 1 implies (
                    #[trigger] result@[k]) < result@[k + 1] && lt(
                        input@[result@[k] as int],
                        input@[result@[k + 1] as int],
                    ) by {
                        if k < before.len() - 1 {
                            assert(result@[k] == before[k]);
                            assert(result@[k + 1] == before[k + 1]);
                        }
                    }
                    assert forall|k: int| 0 <= k < result@.len() - 1 implies is_first_best_after(
                        input@,
                        (#[trigger] result@[k]) as int,
                        Some(result@[k + 1]),
                    ) by {
                        if k < before.len() - 1 {
                            assert(result@[k] == before[k]);
                            assert(result@[k + 1] == before[k + 1]);
                        }
                    }
                }
                current = following;
                next = prev_index[following];
            },
        }
    }
    proof {
        assert(result@[0] < result@[0int + 1]);
        assert(lt(input@[result@[0] as int], input@[result@[1] as int]));
    }
    Some(result)
}

} // verus!
