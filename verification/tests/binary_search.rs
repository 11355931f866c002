use algorithms::binary_search::lower_bound;

#[test]
fn test_lower_bound() {
    let input = [1, 2, 2, 3, 4, 5];
    assert_eq!(lower_bound(&input, 1), Some(0));
    assert_eq!(lower_bound(&input, 2), Some(1));
    assert_eq!(lower_bound(&input, 3), Some(3));
    assert_eq!(lower_bound(&input, 6), Some(6));
    assert_eq!(lower_bound(&input, 0), None);

    let input = [1, 3, 5, 7, 9];
    assert_eq!(lower_bound(&input, 2), Some(1));
    assert_eq!(lower_bound(&input, 4), Some(2));
    assert_eq!(lower_bound(&input, 8), Some(4));
    assert_eq!(lower_bound(&input, 10), Some(5));

    let input = [2];
    assert_eq!(lower_bound(&input, 1), None);
    assert_eq!(lower_bound(&input, 2), Some(0));
    assert_eq!(lower_bound(&input, 3), Some(1));
}

#[test]
fn test_empty_input() {
    let input: [i32; 0] = [];
    assert_eq!(lower_bound(&input, 1), None);
}

#[test]
fn lower_bound_is_the_first_of_equal_elements() {
    let input = [1, 4, 4, 4, 4, 9];
    assert_eq!(lower_bound(&input, 4), Some(1));
    assert_eq!(lower_bound(&input, 5), Some(5));
    assert_eq!(lower_bound(&input, 9), Some(5));
}

#[test]
fn lower_bound_on_strings() {
    let input = ["apple", "banana", "cherry"];
    assert_eq!(lower_bound(&input, "banana"), Some(1));
    assert_eq!(lower_bound(&input, "blueberry"), Some(2));
    assert_eq!(lower_bound(&input, "aardvark"), None);
    assert_eq!(lower_bound(&input, "zucchini"), Some(3));
}

#[test]
fn lower_bound_splits_every_sorted_input() {
    let input: Vec<u32> = vec![0, 0, 1, 3, 3, 3, 6, 7, 7, 10, 12, 12, 15];
    for target in 0..17u32 {
        let expected = input.iter().filter(|x| **x < target).count();
        assert_eq!(lower_bound(&input, target), Some(expected));
    }
}

#[test]
fn lower_bound_on_unsorted_input_ends_at_a_boundary() {
    let input = [5, 1, 4, 2, 3];
    for target in 0..7 {
        match lower_bound(&input, target) {
            Some(at) => {
                assert!(at <= input.len());
                assert!(at == 0 || input[at - 1] < target);
                assert!(at == input.len() || input[at] >= target);
            }
            None => assert!(input[0] > target),
        }
    }
}
