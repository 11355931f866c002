use algorithms::sort::{
    merge_sort, merge_sort_into_buffer, merge_sorted_into_buffer, partition, quick_sort,
    selection_sort, THRESHOLD,
};
use rand::rngs::StdRng;
use rand::seq::SliceRandom;
use rand::{RngCore, SeedableRng};

/// A generator whose every bit is the same.
struct Constant(bool);

impl RngCore for Constant {
    fn next_u32(&mut self) -> u32 {
        if self.0 {
            u32::MAX
        } else {
            0
        }
    }

    fn next_u64(&mut self) -> u64 {
        if self.0 {
            u64::MAX
        } else {
            0
        }
    }

    fn fill_bytes(&mut self, dst: &mut [u8]) {
        dst.fill(if self.0 { u8::MAX } else { 0 });
    }
}

#[test]
fn test_selection_sort() {
    let mut arr = [64, 25, 12, 22, 11];
    selection_sort(&mut arr);
    assert_eq!(arr, [11, 12, 22, 25, 64]);

    let mut arr2 = [5, 3, 8, 6, 2];
    selection_sort(&mut arr2);
    assert_eq!(arr2, [2, 3, 5, 6, 8]);

    let mut arr3: [i32; 0] = [];
    selection_sort(&mut arr3);
    assert_eq!(arr3, []);
}

#[test]
fn test_quick_sort() {
    let mut rng = rand::rng();
    let mut arr = [64, 25, 12, 22, 11];
    quick_sort(&mut arr, &mut rng);
    assert_eq!(arr, [11, 12, 22, 25, 64]);

    let mut arr2 = [5, 3, 8, 6, 2];
    quick_sort(&mut arr2, &mut rng);
    assert_eq!(arr2, [2, 3, 5, 6, 8]);

    let mut arr3: [i32; 0] = [];
    quick_sort(&mut arr3, &mut rng);
    assert_eq!(arr3, []);

    let mut arr4 = [1, 1, 1, 1, 1, 1, 1, 1, 1, 1];
    quick_sort(&mut arr4, &mut rng);
    assert_eq!(arr4, [1, 1, 1, 1, 1, 1, 1, 1, 1, 1]);

    // randomly shuffled array with more than 300 elements
    let mut arr4_with_more_then_300_elements: Vec<i32> = (0..500).collect();
    arr4_with_more_then_300_elements.shuffle(&mut rng);
    quick_sort(&mut arr4_with_more_then_300_elements, &mut rng);
    assert_eq!(
        arr4_with_more_then_300_elements,
        (0..500).collect::<Vec<i32>>()
    );
}

#[test]
fn test_strings_quick_sort() {
    let mut rng = rand::rng();
    let mut arr = ["banana", "apple", "cherry", "date"];
    quick_sort(&mut arr, &mut rng);
    assert_eq!(arr, ["apple", "banana", "cherry", "date"]);

    let mut arr2 = ["zebra", "elephant", "lion", "tiger"];
    quick_sort(&mut arr2, &mut rng);
    assert_eq!(arr2, ["elephant", "lion", "tiger", "zebra"]);
}

#[test]
fn test_merge_sort() {
    let mut arr = [64, 25, 12, 22, 11];
    merge_sort(&mut arr);
    assert_eq!(arr, [11, 12, 22, 25, 64]);

    let mut arr2 = [5, 3, 8, 6, 2];
    merge_sort(&mut arr2);
    assert_eq!(arr2, [2, 3, 5, 6, 8]);

    let mut arr3: [i32; 0] = [];
    merge_sort(&mut arr3);
    assert_eq!(arr3, []);

    let mut arr4 = [1, 1, 1, 1, 1, 1, 1, 1, 1, 1];
    merge_sort(&mut arr4);
    assert_eq!(arr4, [1, 1, 1, 1, 1, 1, 1, 1, 1, 1]);

    let mut arr5 = [2, 1];
    merge_sort(&mut arr5);
    assert_eq!(arr5, [1, 2]);

    let mut arr4_with_more_then_300_elements: Vec<i32> = (0..500).collect();
    arr4_with_more_then_300_elements.shuffle(&mut rand::rng());
    merge_sort(&mut arr4_with_more_then_300_elements);
    assert_eq!(
        arr4_with_more_then_300_elements,
        (0..500).collect::<Vec<i32>>()
    );

    let mut arr4_with_more_then_300_elements: Vec<i32> = (0..501).collect();
    arr4_with_more_then_300_elements.shuffle(&mut rand::rng());
    merge_sort(&mut arr4_with_more_then_300_elements);
    assert_eq!(
        arr4_with_more_then_300_elements,
        (0..501).collect::<Vec<i32>>()
    );
}

#[test]
fn test_merge_sorted_into_buffer() {
    let mut arr = [1, 3, 5, 2, 4, 6, 0, 0, 0, 0, 0, 0];
    let (lhs, rest) = arr.split_at_mut(3);
    let (rhs, buffer) = rest.split_at_mut(3);
    merge_sorted_into_buffer(lhs, rhs, buffer);
    assert_eq!(arr, [0, 0, 0, 0, 0, 0, 1, 2, 3, 4, 5, 6]);
}

#[test]
fn test_merge_sort_into_buffer() {
    let mut arr = [64, 25, 12, 22, 11, 0, 0, 0, 0, 0];
    let (input, buffer) = arr.split_at_mut(5);
    merge_sort_into_buffer(input, buffer);
    assert_eq!(arr, [11, 12, 22, 25, 64, 0, 0, 0, 0, 0]);
}

/// A key with a tag that the order does not look at.
#[derive(Clone, Copy, Debug)]
struct Tagged {
    key: u8,
    tag: usize,
}

impl PartialEq for Tagged {
    fn eq(&self, other: &Self) -> bool {
        self.key == other.key
    }
}

impl Eq for Tagged {}

impl PartialOrd for Tagged {
    fn partial_cmp(&self, other: &Self) -> Option<std::cmp::Ordering> {
        Some(self.cmp(other))
    }
}

impl Ord for Tagged {
    fn cmp(&self, other: &Self) -> std::cmp::Ordering {
        self.key.cmp(&other.key)
    }
}

fn tagged(keys: &[u8]) -> Vec<Tagged> {
    keys.iter()
        .enumerate()
        .map(|(tag, key)| Tagged { key: *key, tag })
        .collect()
}

fn tags(items: &[Tagged]) -> Vec<(u8, usize)> {
    items.iter().map(|item| (item.key, item.tag)).collect()
}

fn is_sorted_permutation(output: &[i64], input: &[i64]) -> bool {
    let mut expected = input.to_vec();
    expected.sort();
    output == expected.as_slice()
}

#[test]
fn merge_takes_the_left_side_on_a_tie() {
    let mut all = tagged(&[1, 2, 2, 1, 2, 3, 0, 0, 0, 0, 0, 0]);
    let (lhs, rest) = all.split_at_mut(3);
    let (rhs, buffer) = rest.split_at_mut(3);
    merge_sorted_into_buffer(lhs, rhs, buffer);
    assert_eq!(
        tags(&all[6..]),
        vec![(1, 0), (1, 3), (2, 1), (2, 2), (2, 4), (3, 5)]
    );
}

#[test]
fn merge_moves_the_scratch_into_the_sides() {
    let mut all = [1, 4, 2, 3, 7, 8, 9, 6, 5];
    let (lhs, rest) = all.split_at_mut(2);
    let (rhs, buffer) = rest.split_at_mut(2);
    merge_sorted_into_buffer(lhs, rhs, buffer);
    assert_eq!(all[4..], [1, 2, 3, 4, 5]);
    let mut moved = all[..4].to_vec();
    moved.sort();
    assert_eq!(moved, vec![6, 7, 8, 9]);
}

#[test]
fn merge_with_an_empty_side() {
    let mut all = [3, 5, 8, 0, 0, 0];
    let (lhs, rest) = all.split_at_mut(3);
    let (rhs, buffer) = rest.split_at_mut(0);
    merge_sorted_into_buffer(lhs, rhs, buffer);
    assert_eq!(all, [0, 0, 0, 3, 5, 8]);

    let mut all = [3, 5, 8, 0, 0, 0];
    let (lhs, rest) = all.split_at_mut(0);
    let (rhs, buffer) = rest.split_at_mut(3);
    merge_sorted_into_buffer(lhs, rhs, buffer);
    assert_eq!(all, [0, 0, 0, 3, 5, 8]);
}

#[test]
fn merge_sort_into_buffer_is_stable() {
    let mut items = tagged(&[2, 1, 2, 0, 1, 2, 0, 1, 1, 2, 0]);
    let mut scratch = tagged(&[9; 11]);
    merge_sort_into_buffer(&mut items, &mut scratch);
    assert_eq!(
        tags(&items),
        vec![
            (0, 3),
            (0, 6),
            (0, 10),
            (1, 1),
            (1, 4),
            (1, 7),
            (1, 8),
            (2, 0),
            (2, 2),
            (2, 5),
            (2, 9)
        ]
    );
}

#[test]
fn merge_sort_into_buffer_leaves_the_rest_of_the_buffer() {
    let mut input = [9, 7, 8];
    let mut buffer = [1, 2, 3, 4, 5];
    merge_sort_into_buffer(&mut input, &mut buffer);
    assert_eq!(input, [7, 8, 9]);
    assert_eq!(buffer[3..], [4, 5]);
    let mut front = buffer[..3].to_vec();
    front.sort();
    assert_eq!(front, vec![1, 2, 3]);
}

#[test]
fn sorts_agree_on_every_length_up_to_forty() {
    let mut rng = StdRng::seed_from_u64(7);
    for len in 0..40usize {
        let mut input: Vec<i64> = (0..len as i64).map(|x| (x * 37 + 11) % 17 - 8).collect();
        input.shuffle(&mut rng);

        let mut by_merge = input.clone();
        merge_sort(&mut by_merge);
        assert!(is_sorted_permutation(&by_merge, &input));

        let mut by_quick = input.clone();
        quick_sort(&mut by_quick, &mut rng);
        assert!(is_sorted_permutation(&by_quick, &input));

        let mut by_selection = input.clone();
        selection_sort(&mut by_selection);
        assert!(is_sorted_permutation(&by_selection, &input));

        let mut in_buffer = input.clone();
        let mut scratch = vec![0i64; len];
        merge_sort_into_buffer(&mut in_buffer, &mut scratch);
        assert!(is_sorted_permutation(&in_buffer, &input));
    }
}

#[test]
fn output_is_ordered_at_every_adjacent_pair() {
    let mut rng = StdRng::seed_from_u64(11);
    let mut input: Vec<u32> = (0..200).map(|x| (x * 7919) % 101).collect();
    input.shuffle(&mut rng);
    let mut by_merge = input.clone();
    merge_sort(&mut by_merge);
    let mut by_quick = input.clone();
    quick_sort(&mut by_quick, &mut rng);
    for i in 0..input.len() - 1 {
        assert!(by_merge[i] <= by_merge[i + 1]);
        assert!(by_quick[i] <= by_quick[i + 1]);
    }
}

#[test]
fn sorting_a_sorted_sequence_changes_nothing() {
    let mut rng = StdRng::seed_from_u64(3);
    let sorted: Vec<i32> = vec![-4, -4, 0, 1, 1, 1, 2, 5, 8, 8, 13, 21, 21];
    let mut by_merge = sorted.clone();
    merge_sort(&mut by_merge);
    assert_eq!(by_merge, sorted);
    let mut by_quick = sorted.clone();
    quick_sort(&mut by_quick, &mut rng);
    assert_eq!(by_quick, sorted);
    let mut by_selection = sorted.clone();
    selection_sort(&mut by_selection);
    assert_eq!(by_selection, sorted);
}

#[test]
fn empty_and_single_are_left_alone() {
    let mut rng = StdRng::seed_from_u64(5);
    let mut empty: [u8; 0] = [];
    merge_sort(&mut empty);
    quick_sort(&mut empty, &mut rng);
    selection_sort(&mut empty);
    let mut no_scratch: [u8; 0] = [];
    merge_sort_into_buffer(&mut empty, &mut no_scratch);
    assert_eq!(empty, []);

    let mut single = [42u8];
    merge_sort(&mut single);
    assert_eq!(single, [42]);
    quick_sort(&mut single, &mut rng);
    assert_eq!(single, [42]);
    selection_sort(&mut single);
    assert_eq!(single, [42]);
    let mut scratch = [7u8];
    merge_sort_into_buffer(&mut single, &mut scratch);
    assert_eq!(single, [42]);
    assert_eq!(scratch, [7]);
}

#[test]
fn merge_sort_may_reorder_ties() {
    let mut items = tagged(&[0, 0, 0]);
    merge_sort(&mut items);
    assert_eq!(tags(&items), vec![(0, 1), (0, 0), (0, 2)]);
}

#[test]
fn partition_splits_around_the_pivot() {
    let mut rng = StdRng::seed_from_u64(13);
    let unsorted = [5, 9, 1, 5, 7, 3, 5, 8, 2, 5, 6];
    for _ in 0..50 {
        let mut input = unsorted;
        let split = partition(&mut input, 5, &mut rng);
        assert!((3..=7).contains(&split));
        assert!(input[..split].iter().all(|x| *x <= 5));
        assert!(input[split..].iter().all(|x| *x >= 5));
        let mut seen = input.to_vec();
        seen.sort();
        assert_eq!(seen, vec![1, 2, 3, 5, 5, 5, 5, 6, 7, 8, 9]);
    }
}

#[test]
fn partition_without_ties_is_decided() {
    let mut rng = StdRng::seed_from_u64(17);
    let mut input = [4, 1, 6, 2, 8, 0];
    let split = partition(&mut input, 3, &mut rng);
    assert_eq!(split, 3);
    assert_eq!(input, [1, 2, 0, 4, 8, 6]);
}

#[test]
fn partition_around_an_outside_pivot() {
    let mut rng = StdRng::seed_from_u64(19);
    let mut input = [4, 1, 6];
    assert_eq!(partition(&mut input, 0, &mut rng), 0);
    assert_eq!(input, [4, 1, 6]);
    assert_eq!(partition(&mut input, 9, &mut rng), 3);
    assert_eq!(input, [4, 1, 6]);
}

#[test]
fn quick_sort_on_ranges_around_the_threshold() {
    let mut rng = StdRng::seed_from_u64(23);
    assert_eq!(THRESHOLD, 5);
    for len in [THRESHOLD - 1, THRESHOLD, THRESHOLD + 1, THRESHOLD + 2] {
        let mut input: Vec<usize> = (0..len).rev().collect();
        quick_sort(&mut input, &mut rng);
        assert_eq!(input, (0..len).collect::<Vec<usize>>());
    }
}

#[test]
fn quick_sort_draws_from_the_generator() {
    let mut used = StdRng::seed_from_u64(29);
    let mut fresh = StdRng::seed_from_u64(29);
    let mut input: Vec<u16> = (0..64).rev().collect();
    quick_sort(&mut input, &mut used);
    assert_eq!(input, (0..64).collect::<Vec<u16>>());
    assert_ne!(rand::Rng::random::<u64>(&mut used), rand::Rng::random::<u64>(&mut fresh));
}

#[test]
fn quick_sort_with_many_ties() {
    let mut rng = StdRng::seed_from_u64(31);
    let mut input: Vec<u8> = (0..300).map(|x| (x % 3) as u8).collect();
    input.shuffle(&mut rng);
    quick_sort(&mut input, &mut rng);
    let mut expected = vec![0u8; 100];
    expected.extend(vec![1u8; 100]);
    expected.extend(vec![2u8; 100]);
    assert_eq!(input, expected);
}

#[test]
fn partition_sends_ties_where_the_coin_says() {
    let mut input = [3, 3, 3, 3];
    assert_eq!(partition(&mut input, 3, &mut Constant(false)), 0);
    assert_eq!(input, [3, 3, 3, 3]);
    assert_eq!(partition(&mut input, 3, &mut Constant(true)), 4);
    assert_eq!(input, [3, 3, 3, 3]);

    let mut input = [5, 2, 5, 9, 1];
    assert_eq!(partition(&mut input, 5, &mut Constant(false)), 2);
    assert_eq!(input, [2, 1, 5, 9, 5]);
    let mut input = [5, 2, 5, 9, 1];
    assert_eq!(partition(&mut input, 5, &mut Constant(true)), 4);
    assert_eq!(input, [5, 2, 5, 1, 9]);
}

#[test]
fn quick_sort_ends_when_partitioning_does_not_shrink_a_range() {
    for coin in [false, true] {
        let mut equal = [7u8; 40];
        quick_sort(&mut equal, &mut Constant(coin));
        assert_eq!(equal, [7u8; 40]);

        let mut input: Vec<u32> = (0..200).map(|x| (x * 7919) % 13).collect();
        let mut expected = input.clone();
        expected.sort();
        quick_sort(&mut input, &mut Constant(coin));
        assert_eq!(input, expected);

        let mut descending: Vec<i32> = (0..100).rev().collect();
        quick_sort(&mut descending, &mut Constant(coin));
        assert_eq!(descending, (0..100).collect::<Vec<i32>>());
    }
}

#[test]
fn sorts_keep_the_order_of_ties_that_are_the_same() {
    let input = [(2, 'b'), (1, 'a'), (2, 'b'), (1, 'a'), (3, 'c'), (2, 'b')];
    let expected = [(1, 'a'), (1, 'a'), (2, 'b'), (2, 'b'), (2, 'b'), (3, 'c')];
    let mut by_merge = input;
    merge_sort(&mut by_merge);
    assert_eq!(by_merge, expected);
    let mut by_selection = input;
    selection_sort(&mut by_selection);
    assert_eq!(by_selection, expected);
}

#[test]
fn merge_sort_into_buffer_on_every_length_up_to_forty() {
    for len in 0..40usize {
        let keys: Vec<u8> = (0..len).map(|x| ((x * 29 + 3) % 7) as u8).collect();
        let mut items = tagged(&keys);
        let mut scratch = tagged(&vec![0u8; len + 2]);
        merge_sort_into_buffer(&mut items, &mut scratch);
        let mut expected: Vec<(u8, usize)> = keys.iter().copied().zip(0..len).collect();
        expected.sort();
        assert_eq!(tags(&items), expected);
        assert_eq!(tags(&scratch[len..]), vec![(0, len), (0, len + 1)]);
    }
}
