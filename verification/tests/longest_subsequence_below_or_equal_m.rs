use algorithms::longest_subsequence_below_or_equal_m::{find, Output};

#[test]
fn longest_subsequence_below_or_equal_m_test_find() {
    let input = vec![1, 2, 3, 4, 5];
    let target = 10;
    let result = find(&input, target);
    assert_eq!(result, Some(Output { left: 0, right: 4 }));

    let input = vec![1, 2, 3];
    let target = 5;
    let result = find(&input, target);
    assert_eq!(result, Some(Output { left: 0, right: 2 }));

    let input = vec![5, 6, 7];
    let target = 4;
    let result = find(&input, target);
    assert_eq!(result, None);

    let input = vec![1];
    let target = 1;
    let result = find(&input, target);
    assert_eq!(result, Some(Output { left: 0, right: 1 }));

    let input = vec![5, 6, 4];
    let target = 4;
    let result = find(&input, target);
    assert_eq!(result, Some(Output { left: 2, right: 3 }));
}

#[test]
fn nothing_fits_in_an_empty_input() {
    assert_eq!(find(&[], 100), None);
}

#[test]
fn the_first_of_the_longest_runs_wins() {
    assert_eq!(find(&[2, 2, 9, 2, 2], 4), Some(Output { left: 0, right: 2 }));
    assert_eq!(find(&[9, 1, 1, 9, 1, 1, 1], 3), Some(Output { left: 4, right: 7 }));
    assert_eq!(find(&[0, 0, 0], 0), Some(Output { left: 0, right: 3 }));
}

#[test]
fn a_sum_beyond_the_largest_number_does_not_fit() {
    let input = [u64::MAX, 1, u64::MAX];
    assert_eq!(find(&input, u64::MAX), Some(Output { left: 0, right: 1 }));
    let input = [u64::MAX - 1, 1, 1];
    assert_eq!(find(&input, u64::MAX), Some(Output { left: 0, right: 2 }));
}

#[test]
fn default_output_is_the_empty_run_at_the_front() {
    assert_eq!(Output::default(), Output { left: 0, right: 0 });
}

#[test]
fn the_longest_run_agrees_with_a_search_of_all_runs() {
    let input: Vec<u64> = (0..40).map(|x| (x * 13 + 5) % 11).collect();
    for target in [0u64, 3, 10, 25, 60, 1000] {
        let mut expected: Option<Output> = None;
        for left in 0..input.len() {
            for right in left + 1..=input.len() {
                let total: u64 = input[left..right].iter().sum();
                let longer = match &expected {
                    Some(run) => right - left > run.right - run.left,
                    None => true,
                };
                if total <= target && longer {
                    expected = Some(Output { left, right });
                }
            }
        }
        assert_eq!(find(&input, target), expected);
    }
}
