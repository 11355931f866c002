use algorithms::longest_increasing_subsequence::{find, find_lexicographically_smallest};

#[test]
fn test_longest_increasing_subsequence() {
    let input = vec![10, 22, 9, 33, 21, 50, 41, 60, 80];
    let expected = vec![0, 1, 3, 5, 7, 8];
    assert_eq!(find(&input), Some(expected));

    let input = vec![3, 2];
    assert_eq!(find(&input), None);

    let input: Vec<i32> = vec![];
    assert_eq!(find(&input), None);
}

#[test]
fn test_lexicographically_smallest() {
    let input = vec![1, 5, 3, 7, 4, 3];
    let expected_lex = vec![0, 1, 3];
    assert_eq!(find_lexicographically_smallest(&input), Some(expected_lex));

    let expected = vec![0, 2, 4];
    assert_eq!(find(&input), Some(expected));
}

#[test]
fn no_increasing_pair_gives_none() {
    assert_eq!(find(&[7]), None);
    assert_eq!(find_lexicographically_smallest(&[7]), None);
    assert_eq!(find(&[4, 4, 4]), None);
    assert_eq!(find_lexicographically_smallest(&[4, 4, 4]), None);
    assert_eq!(find(&[9, 7, 7, 2]), None);
    assert_eq!(find_lexicographically_smallest(&[9, 7, 7, 2]), None);
    let empty: [u8; 0] = [];
    assert_eq!(find_lexicographically_smallest(&empty), None);
}

#[test]
fn ends_at_the_last_position_and_comes_from_the_first() {
    assert_eq!(find(&[1, 2, 1, 2]), Some(vec![0, 3]));
    assert_eq!(find(&[1, 1, 2, 2]), Some(vec![0, 3]));
    assert_eq!(find(&[3, 1, 2, 4, 3]), Some(vec![1, 2, 4]));
}

#[test]
fn starts_at_the_last_position_and_goes_on_to_the_first() {
    assert_eq!(find_lexicographically_smallest(&[1, 2, 1, 2]), Some(vec![2, 3]));
    assert_eq!(find_lexicographically_smallest(&[1, 1, 2, 2]), Some(vec![1, 2]));
    assert_eq!(
        find_lexicographically_smallest(&[3, 1, 2, 4, 3]),
        Some(vec![1, 2, 3])
    );
}

fn longest_by_search(input: &[i32]) -> usize {
    let mut best = 0;
    for mask in 0u32..(1 << input.len()) {
        let chosen: Vec<i32> = (0..input.len())
            .filter(|i| mask & (1 << i) != 0)
            .map(|i| input[i])
            .collect();
        if chosen.windows(2).all(|pair| pair[0] < pair[1]) {
            best = best.max(chosen.len());
        }
    }
    best
}

#[test]
fn result_is_increasing_and_longest() {
    let inputs: Vec<Vec<i32>> = vec![
        vec![5, 1, 6, 2, 7, 3, 8, 4],
        vec![2, 2, 3, 1, 4, 4, 5, 0, 6],
        vec![9, 8, 7, 1, 2, 3, 6, 5, 4],
        vec![1, 3, 2, 4, 3, 5, 4, 6],
    ];
    for input in inputs {
        let longest = longest_by_search(&input);
        for found in [find(&input), find_lexicographically_smallest(&input)] {
            let indices = found.unwrap();
            assert_eq!(indices.len(), longest);
            for pair in indices.windows(2) {
                assert!(pair[0] < pair[1]);
                assert!(input[pair[0]] < input[pair[1]]);
            }
        }
    }
}
