//! In-place sorting: a selection sort, a randomized quicksort that keeps its pending ranges
//! on a stack and hands small ranges to the merge sort, a merge sort that finds its scratch
//! region inside the sequence itself, the bottom-up merge sort that works in such a scratch
//! region, and the two-pointer merge under it.

use crate::merging::{
    full_runs_sorted, lemma_block_merged, lemma_merged_permutation, lemma_merged_sorted,
    lemma_merged_with_empty, lemma_runs_of_one, lemma_short_block_left, merged, runs_sorted,
};
use crate::order::{
    le, lemma_le_transitive, lemma_lt_asymmetric, lemma_lt_irreflexive, less, lt, total_order,
};
use crate::sequence::{
    is_sort_of, lemma_nothing_in_empty, lemma_permutation_keeps_identical_ties,
    lemma_prefix_permutation, lemma_rearranged_permutation, lemma_short_permutation,
    lemma_sorting_sorted_changes_nothing, lemma_stable_sort_unique, lemma_swap_permutation,
    no_distinct_ties, permutation, rearranged_within, same_order_of_ties, sorted,
};
use crate::work_stack::{
    after_split, covered, cut_at, lemma_pending_nonnegative, lemma_range_sorted,
    lemma_range_split, pending, range_weight, work_left,
};
use rand::seq::IndexedRandom;
use rand::Rng;
use vstd::prelude::*;
use vstd::seq_lib::{group_to_multiset_ensures, lemma_multiset_commutative};

verus! {

/// What is sorted: a slice, rearranged where it stands.
pub type InPlaceInput<'a, T> = &'a mut [T];

/// The longest range that [`quick_sort`] hands to [`merge_sort`] without partitioning it.
pub const THRESHOLD: usize = 5;

/// Exchanges `input[i]` with `input[j]`.
fn swap_elements<T>(input: &mut [T], i: usize, j: usize)
    requires
        i < old(input)@.len(),
        j < old(input)@.len(),
    ensures
        final(input)@ == old(input)@.update(i as int, old(input)@[j as int]).update(
            j as int,
            old(input)@[i as int],
        ),
        final(input)@.len() == old(input)@.len(),
        permutation(final(input)@, old(input)@),
{
    let ghost before = input@;
    proof {
        lemma_swap_permutation(before, i as int, j as int);
    }
    if i < j {
        let (front, back) = input.split_at_mut(j);
        core::mem::swap(&mut front[i], &mut back[0]);
        assert(front@ + back@ =~= before.update(i as int, before[j as int]).update(
            j as int,
            before[i as int],
        ));
    } else if j < i {
        let (front, back) = input.split_at_mut(i);
        core::mem::swap(&mut front[j], &mut back[0]);
        assert(front@ + back@ =~= before.update(i as int, before[j as int]).update(
            j as int,
            before[i as int],
        ));
    } else {
        assert(before =~= before.update(i as int, before[j as int]).update(
            j as int,
            before[i as int],
        ));
    }
}

/// Sorts `input` in place: each position in turn receives the first smallest element of
/// what lies from it on.
pub fn selection_sort<T: Ord>(input: InPlaceInput<T>)
    requires
        total_order::<T>(),
    ensures
        is_sort_of(final(input)@, old(input)@),
        final(input)@.len() == old(input)@.len(),
        old(input)@.len() <= 1 ==> final(input)@ == old(input)@,
        sorted(old(input)@) ==> final(input)@ == old(input)@,
{
    let len = input.len();
    let ghost given = input@;
    let mut i: usize = 0;
    while i < len
        invariant
            total_order::<T>(),
            input@.len() == len,
            i <= len,
            permutation(input@, given),
            sorted(given) ==> input@ == given,
            forall|a: int, b: int| 0 <= a < b < len && a < i ==> le(input@[a], input@[b]),
        decreases len - i,
    {
        let mut min_index: usize = i;
        let mut j: usize = i + 1;
        proof {
            lemma_lt_irreflexive(input@[i as int]);
        }
        while j < len
            invariant
                total_order::<T>(),
                input@.len() == len,
                i <= min_index < j <= len,
                forall|k: int| i <= k < j ==> le(input@[min_index as int], #[trigger] input@[k]),
                sorted(input@) ==> min_index == i,
            decreases len - j,
        {
            if less(&input[j], &input[min_index]) {
                proof {
                    if sorted(input@) {
                        assert(le(input@[i as int], input@[j as int]));
                    }
                    assert forall|k: int| i <= k < j + 1 implies le(
                        input@[j as int],
                        #[trigger] input@[k],
                    ) by {
                        if k < j {
                            lemma_lt_asymmetric(input@[j as int], input@[min_index as int]);
                            lemma_le_transitive(
                                input@[j as int],
                                input@[min_index as int],
                                input@[k],
                            );
                        } else {
                            lemma_lt_irreflexive(input@[j as int]);
                        }
                    }
                }
                min_index = j;
            }
            j += 1;
        }
        let ghost before = input@;
        if min_index != i {
            swap_elements(input, i, min_index);
        }
        proof {
            assert forall|a: int, b: int| 0 <= a < b < len && a < i + 1 implies le(
                input@[a],
                input@[b],
            ) by {
                if a < i {
                    if b == i {
                        assert(le(before[a], before[min_index as int]));
                    } else if b == min_index {
                        assert(le(before[a], before[i as int]));
                    } else {
                        assert(le(before[a], before[b]));
                    }
                } else {
                    if b == min_index {
                        assert(le(before[min_index as int], before[i as int]));
                    } else {
                        assert(le(before[min_index as int], before[b]));
                    }
                }
            }
        }
        i += 1;
    }
    proof {
        if len <= 1 {
            lemma_short_permutation(input@, given);
        }
    }
}

/// `rand::Rng::random` for `bool`: a coin flip. Nothing is claimed of which side comes up.
#[verifier::external_body]
fn coin_flip<R: Rng>(rng: &mut R) -> bool {
    rng.random()
}

/// `rand::seq::IndexedRandom::choose` on a slice, the chosen element copied out: `None` for an
/// empty slice and for no other, else one of the slice's elements. Nothing is claimed of which.
#[verifier::external_body]
fn choose_pivot<T: Copy, R: Rng>(range: &[T], rng: &mut R) -> (pivot: Option<T>)
    ensures
        pivot is None <==> range@.len() == 0,
        pivot matches Some(p) ==> range@.contains(p),
{
    range.choose(rng).copied()
}

/// Whether partitioning around `pivot` sends `element` to the front: always when it is
/// ordered before the pivot, never when it is ordered after it, and as a coin flip decides
/// when the two tie.
fn moves_to_front<T: Ord, R: Rng>(element: &T, pivot: &T, rng: &mut R) -> (front: bool)
    requires
        total_order::<T>(),
    ensures
        lt(*element, *pivot) ==> front,
        lt(*pivot, *element) ==> !front,
{
    if less(element, pivot) {
        proof {
            lemma_lt_asymmetric(*element, *pivot);
        }
        true
    } else if less(pivot, element) {
        false
    } else {
        coin_flip(rng)
    }
}

/// Rearranges `input` around `pivot` in one pass and returns the split point: in front of
/// it stand the elements ordered before the pivot and those of its ties that a coin flip
/// sent there, behind it all others.
pub fn partition<T: Ord + Copy, R: Rng>(input: &mut [T], pivot: T, rng: &mut R) -> (split: usize)
    requires
        total_order::<T>(),
    ensures
        split <= old(input)@.len(),
        final(input)@.len() == old(input)@.len(),
        permutation(final(input)@, old(input)@),
        forall|a: int| 0 <= a < split ==> le(#[trigger] final(input)@[a], pivot),
        forall|b: int| split <= b < final(input)@.len() ==> le(pivot, #[trigger] final(input)@[b]),
{
    let len = input.len();
    let ghost given = input@;
    let mut after_less_index: usize = 0;
    let mut i: usize = 0;
    while i < len
        invariant
            total_order::<T>(),
            input@.len() == len,
            after_less_index <= i <= len,
            permutation(input@, given),
            forall|a: int| 0 <= a < after_less_index ==> le(#[trigger] input@[a], pivot),
            forall|b: int| after_less_index <= b < i ==> le(pivot, #[trigger] input@[b]),
        decreases len - i,
    {
        let to_front = moves_to_front(&input[i], &pivot, rng);
        if to_front {
            swap_elements(input, i, after_less_index);
            after_less_index += 1;
        }
        i += 1;
    }
    after_less_index
}

/// Sorts `input` in place. A stack holds the ranges still to be sorted. A range of at most
/// five elements goes to [`merge_sort`]; a longer one is split by [`partition`] around one of
/// its elements, drawn from `rng`, and each side that holds more than one element goes back on
/// the stack. A range that partitioning failed to shrink goes to [`merge_sort`] as well.
pub fn quick_sort<T: Ord + Copy, R: Rng>(input: InPlaceInput<T>, rng: &mut R)
    requires
        total_order::<T>(),
    ensures
        is_sort_of(final(input)@, old(input)@),
        final(input)@.len() == old(input)@.len(),
        old(input)@.len() <= 1 ==> final(input)@ == old(input)@,
        sorted(old(input)@) && no_distinct_ties(old(input)@) ==> final(input)@ == old(input)@,
{
    let ghost given = input@;
    let mut partitions: Vec<(usize, usize)> = Vec::new();
    partitions.push((0, input.len()));
    proof {
        assert(partitions@[0] == (0usize, input@.len() as usize));
        assert forall|k: int| 0 < k < input@.len() implies covered(partitions@, k) by {
            assert(partitions@[0].0 < k < partitions@[0].1);
        }
    }
    while partitions.len() > 0
        invariant
            total_order::<T>(),
            input@.len() == given.len(),
            permutation(input@, given),
            work_left(input@, partitions@),
        decreases pending(partitions@), partitions@.len(),
    {
        let ghost before = input@;
        let ghost stack = partitions@;
        let (left, right) = partitions.pop().unwrap();
        let (head, tail) = input.split_at_mut(left);
        let (range, rest) = tail.split_at_mut(right - left);
        let range_len = range.len();
        let ghost unsorted = range@;
        let mut split: Option<usize> = None;
        if range_len <= THRESHOLD {
            merge_sort(range);
        } else {
            match choose_pivot(range, rng) {
                // Only an empty range has no pivot: there is nothing to sort in it.
                None => {},
                Some(pivot) => {
                    let after_less_index = partition(range, pivot, rng);
                    if after_less_index == 0 || after_less_index == range_len {
                        merge_sort(range);
                    } else {
                        split = Some(after_less_index);
                        proof {
                            assert forall|a: int, b: int|
                                0 <= a < after_less_index <= b < range_len implies le(
                                range@[a],
                                range@[b],
                            ) by {
                                lemma_le_transitive(range@[a], pivot, range@[b]);
                            }
                        }
                    }
                },
            }
        }
        let ghost sorted_range = range@;
        let ghost after = head@ + sorted_range + rest@;
        assert(input@ == after);
        proof {
            assert(before.subrange(left as int, right as int) =~= unsorted);
            assert(after.subrange(left as int, right as int) =~= sorted_range);
            assert(after.take(left as int) =~= before.take(left as int));
            assert(after.skip(right as int) =~= before.skip(right as int));
            assert(rearranged_within(after, before, left as int, right as int));
            lemma_rearranged_permutation(after, before, left as int, right as int);
            lemma_pending_nonnegative(partitions@);
        }
        match split {
            None => {
                proof {
                    lemma_range_sorted(after, before, stack);
                    assert(partitions@ == stack.drop_last());
                    assert(pending(stack) == pending(stack.drop_last()) + range_weight(
                        stack.last(),
                    ));
                }
            },
            Some(after_less_index) => {
                proof {
                    assert forall|a: int, b: int|
                        left <= a < left + after_less_index <= b < right implies le(
                        after[a],
                        after[b],
                    ) by {
                        assert(le(sorted_range[a - left], sorted_range[b - left]));
                    }
                    lemma_range_split(after, before, stack, (left + after_less_index) as usize);
                }
                if after_less_index > 1 {
                    partitions.push((left, left + after_less_index));
                }
                if range_len - after_less_index > 1 {
                    partitions.push((left + after_less_index, left + range_len));
                }
                assert(partitions@ =~= after_split(
                    stack.drop_last(),
                    left,
                    (left + after_less_index) as usize,
                    right,
                ));
            },
        }
        proof {
            lemma_pending_nonnegative(partitions@);
        }
    }
    proof {
        assert forall|a: int, b: int| 0 <= a < b < input@.len() implies le(
            input@[a],
            input@[b],
        ) by {
            assert(cut_at(input@, b) || covered(partitions@, b));
        }
        if input@.len() <= 1 {
            lemma_short_permutation(input@, given);
        }
        if sorted(given) && no_distinct_ties(given) {
            lemma_sorting_sorted_changes_nothing(input@, given);
        }
    }
}

/// Sorts `input` in place. The second half is sorted with the first half as scratch; then,
/// time and again, half of what is still unsorted at the front is sorted with the elements
/// behind it as scratch and merged into the sorted tail, until one element is left, which is
/// moved to its place.
///
/// Elements serve as scratch before their turn comes, which rearranges them: tied elements
/// that can be told apart may come out in another order than they went in. Where ties
/// cannot be told apart, their order is kept.
pub fn merge_sort<T: Ord + Copy>(input: InPlaceInput<T>)
    requires
        total_order::<T>(),
    ensures
        is_sort_of(final(input)@, old(input)@),
        final(input)@.len() == old(input)@.len(),
        old(input)@.len() <= 1 ==> final(input)@ == old(input)@,
        no_distinct_ties(old(input)@) ==> same_order_of_ties(final(input)@, old(input)@),
        sorted(old(input)@) && no_distinct_ties(old(input)@) ==> final(input)@ == old(input)@,
{
    let input_len = input.len();
    let first_half_len = input.len() / 2 + input.len() % 2;
    let ghost given = input@;
    let (first_half, second_half) = input.split_at_mut(first_half_len);
    let ghost first = first_half@;
    let ghost second = second_half@;
    merge_sort_into_buffer(second_half, first_half);
    proof {
        lemma_prefix_permutation(first_half@, first, second.len() as int, first.len() as int);
        assert(first_half@.take(first.len() as int) =~= first_half@);
        assert(first.take(first.len() as int) =~= first);
        lemma_multiset_commutative(first_half@, second_half@);
        lemma_multiset_commutative(first, second);
        assert(given =~= first + second);
        assert((first_half@ + second_half@).skip(first_half_len as int) =~= second_half@);
    }
    let ghost halves = first_half@ + second_half@;
    assert(input@ == halves);

    let mut unmerged = first_half_len;
    while unmerged > 1
        invariant
            total_order::<T>(),
            input@.len() == input_len,
            unmerged <= input_len,
            input_len >= 1 ==> unmerged >= 1,
            sorted(input@.skip(unmerged as int)),
            permutation(input@, given),
        decreases unmerged,
    {
        let ghost before = input@;
        let (first_part, rest) = input.split_at_mut(unmerged / 2);
        let first_part_len = first_part.len();
        let ghost part = first_part@;
        let ghost behind = rest@;
        merge_sort_into_buffer(first_part, rest);
        proof {
            lemma_prefix_permutation(rest@, behind, part.len() as int, behind.len() as int);
            assert(rest@.take(behind.len() as int) =~= rest@);
            assert(behind.take(behind.len() as int) =~= behind);
            lemma_multiset_commutative(first_part@, rest@);
            lemma_multiset_commutative(part, behind);
            assert(before =~= part + behind);
            assert(first_part@.len() == part.len());
            assert(rest@.len() == behind.len());
            assert((first_part@ + rest@).skip(unmerged as int) =~= rest@.skip(
                part.len() as int,
            ).skip(unmerged - part.len() - part.len()));
            assert(before.skip(unmerged as int) =~= behind.skip(part.len() as int).skip(
                unmerged - part.len() - part.len(),
            ));
            assert((first_part@ + rest@).take(first_part_len as int) =~= first_part@);
        }
        let ghost parts = first_part@ + rest@;
        assert(input@ == parts);
        let ghost sorted_part = input@.take(first_part_len as int);
        let ghost sorted_tail = input@.skip(unmerged as int);
        merge_front_into_tail(input, first_part_len, unmerged);
        proof {
            lemma_merged_sorted(sorted_part, sorted_tail);
        }
        unmerged -= first_part_len;
    }

    if unmerged == 1 && input_len > 1 {
        let mut i: usize = 1;
        proof {
            let tail = input@.skip(1);
            assert forall|a: int, b: int| 1 <= a < b < input_len implies le(
                input@[a],
                input@[b],
            ) by {
                assert(le(tail[a - 1], tail[b - 1]));
            }
        }
        while i < input_len && less(&input[i], &input[i - 1])
            invariant
                total_order::<T>(),
                input@.len() == input_len,
                1 <= i <= input_len,
                permutation(input@, given),
                forall|a: int, b: int|
                    0 <= a < b < input_len && a != i - 1 && b != i - 1 ==> le(
                        input@[a],
                        input@[b],
                    ),
                forall|a: int| 0 <= a < i - 1 ==> lt(#[trigger] input@[a], input@[i - 1]),
            decreases input_len - i,
        {
            swap_elements(input, i, i - 1);
            i += 1;
        }
        proof {
            assert forall|a: int, b: int| 0 <= a < b < input_len implies le(
                input@[a],
                input@[b],
            ) by {
                if b == i - 1 {
                    lemma_lt_asymmetric(input@[a], input@[b]);
                } else if a == i - 1 {
                    if b > i {
                        lemma_le_transitive(input@[a], input@[i as int], input@[b]);
                    }
                }
            }
        }
    } else {
        assert(input_len <= 1);
    }
    proof {
        if input_len <= 1 {
            lemma_short_permutation(input@, given);
        }
        if no_distinct_ties(given) {
            lemma_permutation_keeps_identical_ties(input@, given);
            if sorted(given) {
                lemma_stable_sort_unique(input@, given);
            }
        }
    }
}

/// Merges the sorted front `input[..first_len]` with the sorted tail `input[second_start..]`
/// into `input[second_start - first_len..]`, the head of the front first on a tie. The
/// elements that stood between the two move to the places that the merge vacates.
fn merge_front_into_tail<T: Ord + Copy>(input: &mut [T], first_len: usize, second_start: usize)
    requires
        total_order::<T>(),
        first_len + first_len <= second_start <= old(input)@.len(),
    ensures
        final(input)@.len() == old(input)@.len(),
        final(input)@.skip(second_start - first_len) == merged(
            old(input)@.take(first_len as int),
            old(input)@.skip(second_start as int),
        ),
        permutation(final(input)@, old(input)@),
{
    let len = input.len();
    let ghost whole = input@;
    let ghost front = input@.take(first_len as int);
    let ghost tail = input@.skip(second_start as int);
    let mut first_part_index: usize = 0;
    let mut second_part_index: usize = second_start;
    let free_index = second_start - first_len;
    let mut i: usize = free_index;
    proof {
        assert(front.skip(0) =~= front);
        assert(tail.skip(0) =~= tail);
        assert(input@.subrange(0, first_len as int) =~= front);
        assert(input@.subrange(free_index as int, i as int) + merged(front, tail) =~= merged(
            front,
            tail,
        ));
    }
    while i < len
        invariant
            total_order::<T>(),
            input@.len() == len,
            whole.len() == len,
            front.len() == first_len,
            tail.len() == len - second_start,
            first_len + first_len <= second_start <= len,
            free_index == second_start - first_len,
            free_index <= i <= len,
            first_part_index <= first_len,
            second_start <= second_part_index <= len,
            i - free_index == first_part_index + (second_part_index - second_start),
            permutation(input@, whole),
            input@.subrange(first_part_index as int, first_len as int) == front.skip(
                first_part_index as int,
            ),
            input@.skip(second_part_index as int) == tail.skip(second_part_index - second_start),
            input@.subrange(free_index as int, i as int) + merged(
                front.skip(first_part_index as int),
                tail.skip(second_part_index - second_start),
            ) == merged(front, tail),
        decreases len - i,
    {
        let ghost before = input@;
        let ghost l = front.skip(first_part_index as int);
        let ghost r = tail.skip(second_part_index - second_start);
        let ghost done = input@.subrange(free_index as int, i as int);
        proof {
            if first_part_index < first_len {
                assert(input@[first_part_index as int] == input@.subrange(
                    first_part_index as int,
                    first_len as int,
                )[0]);
            }
            if second_part_index < len {
                assert(input@[second_part_index as int] == input@.skip(
                    second_part_index as int,
                )[0]);
            }
            lemma_merged_with_empty(l);
            lemma_merged_with_empty(r);
            assert(l.len() == 0 ==> l =~= Seq::<T>::empty());
            assert(r.len() == 0 ==> r =~= Seq::<T>::empty());
        }
        let take_from_the_first_part = second_part_index == len || (first_part_index < first_len
            && !less(&input[second_part_index], &input[first_part_index]));
        if take_from_the_first_part {
            swap_elements(input, i, first_part_index);
            proof {
                assert(l.skip(1) =~= front.skip(first_part_index + 1));
                assert(merged(l, r) == seq![l[0]] + merged(l.skip(1), r));
                assert(input@.subrange(free_index as int, i + 1) =~= done + seq![l[0]]);
                assert(input@.subrange(free_index as int, i + 1) + merged(l.skip(1), r) =~= done
                    + merged(l, r));
                assert(input@.subrange(first_part_index + 1, first_len as int)
                    =~= before.subrange(first_part_index as int, first_len as int).skip(1));
                assert(input@.skip(second_part_index as int) =~= before.skip(
                    second_part_index as int,
                ));
            }
            first_part_index += 1;
        } else {
            swap_elements(input, i, second_part_index);
            proof {
                assert(r.skip(1) =~= tail.skip(second_part_index + 1 - second_start));
                assert(merged(l, r) == seq![r[0]] + merged(l, r.skip(1)));
                assert(input@.subrange(free_index as int, i + 1) =~= done + seq![r[0]]);
                assert(input@.subrange(free_index as int, i + 1) + merged(l, r.skip(1)) =~= done
                    + merged(l, r));
                assert(input@.subrange(first_part_index as int, first_len as int)
                    =~= before.subrange(first_part_index as int, first_len as int));
                assert(input@.skip(second_part_index + 1) =~= before.skip(
                    second_part_index as int,
                ).skip(1));
            }
            second_part_index += 1;
        }
        i += 1;
    }
    proof {
        lemma_merged_with_empty(Seq::<T>::empty());
        assert(front.skip(first_part_index as int) =~= Seq::<T>::empty());
        assert(tail.skip(second_part_index - second_start) =~= Seq::<T>::empty());
        assert(input@.subrange(free_index as int, i as int) =~= input@.skip(free_index as int));
        assert(input@.skip(free_index as int) =~= merged(front, tail));
    }
}

/// Sorts `input` in place by merging neighbouring runs of 1, 2, 4, ... elements, with the
/// first `input.len()` elements of `buffer` as scratch: they end up rearranged, the rest of
/// `buffer` stays as it was. Elements that tie keep their order.
pub fn merge_sort_into_buffer<T: Ord + Copy>(input: InPlaceInput<T>, buffer: InPlaceInput<T>)
    requires
        total_order::<T>(),
        old(input)@.len() <= old(buffer)@.len(),
    ensures
        is_sort_of(final(input)@, old(input)@),
        same_order_of_ties(final(input)@, old(input)@),
        final(input)@.len() == old(input)@.len(),
        sorted(old(input)@) ==> final(input)@ == old(input)@,
        old(input)@.len() <= 1 ==> final(input)@ == old(input)@ && final(buffer)@ == old(buffer)@,
        final(buffer)@.len() == old(buffer)@.len(),
        permutation(
            final(buffer)@.take(old(input)@.len() as int),
            old(buffer)@.take(old(input)@.len() as int),
        ),
        final(buffer)@.skip(old(input)@.len() as int) == old(buffer)@.skip(
            old(input)@.len() as int,
        ),
{
    let len = input.len();
    let ghost given = input@;
    let ghost scratch = buffer@;
    let mut half: usize = 1;
    let mut done = len <= 1;
    proof {
        lemma_runs_of_one(input@);
    }
    while !done
        invariant
            total_order::<T>(),
            input@.len() == len,
            buffer@.len() == scratch.len(),
            len <= scratch.len(),
            1 <= half,
            !done ==> half < len && runs_sorted(input@, half as int),
            done ==> sorted(input@),
            len <= 1 ==> input@ == given && buffer@ == scratch,
            permutation(input@, given),
            same_order_of_ties(input@, given),
            permutation(buffer@.take(len as int), scratch.take(len as int)),
            buffer@.skip(len as int) == scratch.skip(len as int),
        decreases
                (if done {
                    0
                } else {
                    len - half
                }),
    {
        let ghost width = half + half;
        let mut start: usize = 0;
        proof {
            assert(input@.skip(0) =~= input@);
        }
        while start < len
            invariant
                total_order::<T>(),
                input@.len() == len,
                buffer@.len() == scratch.len(),
                len <= scratch.len(),
                1 <= half < len,
                width == half + half,
                start <= len,
                runs_sorted(input@.skip(start as int), half as int),
                start < len ==> full_runs_sorted(input@.take(start as int), width),
                start == len ==> runs_sorted(input@, width),
                permutation(input@, given),
                same_order_of_ties(input@, given),
                permutation(buffer@.take(len as int), scratch.take(len as int)),
                buffer@.skip(len as int) == scratch.skip(len as int),
            decreases len - start,
        {
            let remaining = len - start;
            let block_len = if remaining < half || remaining - half < half {
                remaining
            } else {
                half + half
            };
            let ghost before = input@;
            let ghost buffer_before = buffer@;
            if block_len >= half {
                merge_block(input, start, half, block_len, buffer);
                proof {
                    lemma_block_merged(
                        before,
                        input@,
                        start as int,
                        half as int,
                        block_len as int,
                    );
                    lemma_prefix_permutation(buffer@, buffer_before, block_len as int, len as int);
                }
            } else {
                proof {
                    lemma_short_block_left(before, start as int, half as int);
                    assert(input@.skip(start + block_len).len() == 0);
                }
            }
            start += block_len;
        }
        if half >= len - half {
            done = true;
        } else {
            half = half + half;
        }
    }
    proof {
        if sorted(given) {
            lemma_stable_sort_unique(input@, given);
        }
    }
}

/// Merges the two neighbouring runs `input[start..start + half]` and
/// `input[start + half..start + block_len]` in place, with the front of `buffer` as scratch.
fn merge_block<T: Ord + Copy>(
    input: &mut [T],
    start: usize,
    half: usize,
    block_len: usize,
    buffer: &mut [T],
)
    requires
        total_order::<T>(),
        half <= block_len,
        start + block_len <= old(input)@.len(),
        block_len <= old(buffer)@.len(),
    ensures
        final(input)@ == old(input)@.take(start as int) + merged(
            old(input)@.subrange(start as int, start + half),
            old(input)@.subrange(start + half, start + block_len),
        ) + old(input)@.skip(start + block_len),
        final(input)@.len() == old(input)@.len(),
        permutation(final(input)@, old(input)@),
        final(buffer)@.len() == old(buffer)@.len(),
        final(buffer)@.skip(block_len as int) == old(buffer)@.skip(block_len as int),
        permutation(final(buffer)@.take(block_len as int), old(buffer)@.take(block_len as int)),
{
    let ghost whole = input@;
    let ghost scratch = buffer@;
    let (head, tail) = input.split_at_mut(start);
    let (block, rest) = tail.split_at_mut(block_len);
    let (lhs, rhs) = block.split_at_mut(half);
    let ghost left = lhs@;
    let ghost right = rhs@;
    merge_sorted_into_buffer(lhs, rhs, buffer);
    let ghost junk = block@;
    let ghost filled = buffer@;
    let ghost run = merged(left, right);
    proof {
        lemma_merged_permutation(left, right);
        lemma_multiset_commutative(lhs@, rhs@);
        assert(filled.take(block_len as int) =~= run);
        assert(left =~= whole.subrange(start as int, start + half));
        assert(right =~= whole.subrange(start + half, start + block_len));
    }
    let mut i: usize = 0;
    while i < block_len
        invariant
            i <= block_len,
            block@.len() == block_len,
            buffer@.len() == filled.len(),
            block_len <= filled.len(),
            junk.len() == block_len,
            block@.take(i as int) == filled.take(i as int),
            block@.skip(i as int) == junk.skip(i as int),
            buffer@.take(i as int) == junk.take(i as int),
            buffer@.skip(i as int) == filled.skip(i as int),
        decreases block_len - i,
    {
        let ghost block_before = block@;
        let ghost buffer_before = buffer@;
        proof {
            assert(block@[i as int] == junk.skip(i as int)[0]);
            assert(buffer@[i as int] == filled.skip(i as int)[0]);
        }
        core::mem::swap(&mut block[i], &mut buffer[i]);
        proof {
            assert(block@.take(i + 1) =~= block_before.take(i as int).push(filled[i as int]));
            assert(filled.take(i + 1) =~= filled.take(i as int).push(filled[i as int]));
            assert(block@.skip(i + 1) =~= block_before.skip(i as int).skip(1));
            assert(junk.skip(i + 1) =~= junk.skip(i as int).skip(1));
            assert(buffer@.take(i + 1) =~= buffer_before.take(i as int).push(junk[i as int]));
            assert(junk.take(i + 1) =~= junk.take(i as int).push(junk[i as int]));
            assert(buffer@.skip(i + 1) =~= buffer_before.skip(i as int).skip(1));
            assert(filled.skip(i + 1) =~= filled.skip(i as int).skip(1));
        }
        i += 1;
    }
    proof {
        assert(block@ =~= block@.take(block_len as int));
        assert(block@ =~= run);
        assert(junk.take(block_len as int) =~= junk);
        assert(filled.skip(block_len as int) =~= scratch.skip(block_len as int));
        assert(head@ =~= whole.take(start as int));
        assert(rest@ =~= whole.skip(start + block_len));
        assert(whole =~= head@ + (left + right) + rest@);
        lemma_multiset_commutative(left, right);
        lemma_multiset_commutative(head@, left + right);
        lemma_multiset_commutative(head@ + (left + right), rest@);
        lemma_multiset_commutative(head@, run);
        lemma_multiset_commutative(head@ + run, rest@);
        assert((head@ + run + rest@).to_multiset() =~= whole.to_multiset());
        assert(head@ + (block@ + rest@) =~= head@ + run + rest@);
    }
}

/// Merges `lhs` and `rhs` into the front of `buffer`, the head of `lhs` first on a tie. What
/// the front of `buffer` held before moves into `lhs` and `rhs`.
pub fn merge_sorted_into_buffer<T: Ord + Copy>(
    lhs: InPlaceInput<T>,
    rhs: InPlaceInput<T>,
    buffer: InPlaceInput<T>,
)
    requires
        total_order::<T>(),
        old(lhs)@.len() + old(rhs)@.len() <= old(buffer)@.len(),
    ensures
        final(buffer)@ == merged(old(lhs)@, old(rhs)@) + old(buffer)@.skip(
            (old(lhs)@.len() + old(rhs)@.len()) as int,
        ),
        final(lhs)@.len() == old(lhs)@.len(),
        final(rhs)@.len() == old(rhs)@.len(),
        final(lhs)@.to_multiset().add(final(rhs)@.to_multiset()) == old(buffer)@.take(
            (old(lhs)@.len() + old(rhs)@.len()) as int,
        ).to_multiset(),
{
    let mut lhs_index: usize = 0;
    let mut rhs_index: usize = 0;
    let mut buffer_index: usize = 0;
    let ghost left = lhs@;
    let ghost right = rhs@;
    let ghost scratch = buffer@;
    proof {
        assert(left.skip(0) =~= left);
        assert(right.skip(0) =~= right);
        assert(buffer@.take(0) + merged(left, right) =~= merged(left, right));
        lemma_nothing_in_empty(lhs@.take(0));
        lemma_nothing_in_empty(rhs@.take(0));
        lemma_nothing_in_empty(scratch.take(0));
        assert(lhs@.take(0).to_multiset().add(rhs@.take(0).to_multiset()) =~= scratch.take(
            0,
        ).to_multiset());
    }
    while lhs_index < lhs.len() || rhs_index < rhs.len()
        invariant
            total_order::<T>(),
            lhs@.len() == left.len(),
            rhs@.len() == right.len(),
            buffer@.len() == scratch.len(),
            left.len() + right.len() <= scratch.len(),
            lhs_index <= left.len(),
            rhs_index <= right.len(),
            buffer_index == lhs_index + rhs_index,
            lhs@.skip(lhs_index as int) == left.skip(lhs_index as int),
            rhs@.skip(rhs_index as int) == right.skip(rhs_index as int),
            buffer@.skip(buffer_index as int) == scratch.skip(buffer_index as int),
            buffer@.take(buffer_index as int) + merged(
                left.skip(lhs_index as int),
                right.skip(rhs_index as int),
            ) == merged(left, right),
            lhs@.take(lhs_index as int).to_multiset().add(
                rhs@.take(rhs_index as int).to_multiset(),
            ) == scratch.take(buffer_index as int).to_multiset(),
        decreases left.len() + right.len() - buffer_index,
    {
        let ghost l = left.skip(lhs_index as int);
        let ghost r = right.skip(rhs_index as int);
        let ghost front = buffer@.take(buffer_index as int);
        let ghost lhs_before = lhs@;
        let ghost rhs_before = rhs@;
        let ghost junk = buffer@[buffer_index as int];
        proof {
            assert(junk == scratch.skip(buffer_index as int)[0]);
            assert(scratch.take(buffer_index + 1) =~= scratch.take(buffer_index as int).push(junk));
            if lhs_index < left.len() {
                assert(lhs@[lhs_index as int] == lhs@.skip(lhs_index as int)[0]);
            }
            if rhs_index < right.len() {
                assert(rhs@[rhs_index as int] == rhs@.skip(rhs_index as int)[0]);
            }
        }
        let take_from_lhs = rhs_index == rhs.len() || (lhs_index < lhs.len() && !less(
            &rhs[rhs_index],
            &lhs[lhs_index],
        ));
        if take_from_lhs {
            core::mem::swap(&mut buffer[buffer_index], &mut lhs[lhs_index]);
            proof {
                lemma_merged_with_empty(l);
                lemma_merged_with_empty(l.skip(1));
                assert(r.len() == 0 ==> r =~= Seq::<T>::empty());
                assert(l.skip(1) =~= left.skip(lhs_index + 1));
                assert(merged(l, r) == seq![l[0]] + merged(l.skip(1), r));
                assert(buffer@.take(buffer_index + 1) =~= front + seq![l[0]]);
                assert(buffer@.take(buffer_index + 1) + merged(left.skip(lhs_index + 1), r)
                    =~= front + merged(l, r));
                assert(lhs@.skip(lhs_index + 1) =~= lhs_before.skip(lhs_index as int).skip(1));
                assert(lhs@.take(lhs_index + 1) =~= lhs_before.take(lhs_index as int).push(junk));
                assert(buffer@.skip(buffer_index + 1) =~= scratch.skip(buffer_index as int).skip(
                    1,
                ));
                broadcast use group_to_multiset_ensures;
                assert(lhs@.take(lhs_index + 1).to_multiset().add(
                    rhs@.take(rhs_index as int).to_multiset(),
                ) =~= scratch.take(buffer_index + 1).to_multiset());
            }
            lhs_index += 1;
        } else {
            core::mem::swap(&mut buffer[buffer_index], &mut rhs[rhs_index]);
            proof {
                lemma_merged_with_empty(r);
                lemma_merged_with_empty(r.skip(1));
                assert(l.len() == 0 ==> l =~= Seq::<T>::empty());
                assert(r.skip(1) =~= right.skip(rhs_index + 1));
                assert(merged(l, r) == seq![r[0]] + merged(l, r.skip(1)));
                assert(buffer@.take(buffer_index + 1) =~= front + seq![r[0]]);
                assert(buffer@.take(buffer_index + 1) + merged(l, right.skip(rhs_index + 1))
                    =~= front + merged(l, r));
                assert(rhs@.skip(rhs_index + 1) =~= rhs_before.skip(rhs_index as int).skip(1));
                assert(rhs@.take(rhs_index + 1) =~= rhs_before.take(rhs_index as int).push(junk));
                assert(buffer@.skip(buffer_index + 1) =~= scratch.skip(buffer_index as int).skip(
                    1,
                ));
                broadcast use group_to_multiset_ensures;
                assert(lhs@.take(lhs_index as int).to_multiset().add(
                    rhs@.take(rhs_index + 1).to_multiset(),
                ) =~= scratch.take(buffer_index + 1).to_multiset());
            }
            rhs_index += 1;
        }
        buffer_index += 1;
    }
    proof {
        lemma_merged_with_empty(Seq::<T>::empty());
        assert(left.skip(lhs_index as int) =~= Seq::<T>::empty());
        assert(right.skip(rhs_index as int) =~= Seq::<T>::empty());
        assert(buffer@.take(buffer_index as int) =~= merged(left, right));
        assert(buffer@ =~= buffer@.take(buffer_index as int) + buffer@.skip(buffer_index as int));
        assert(lhs@.take(lhs_index as int) =~= lhs@);
        assert(rhs@.take(rhs_index as int) =~= rhs@);
    }
}

} // verus!
