use algorithms::left_nearest_number::find;

#[test]
fn left_nearest_number_test_find() {
    let input = vec![3, 2, 1, 4, 5];
    let expected = vec![None, None, None, Some(2), Some(3)];
    assert_eq!(find(&input), expected);

    let input = vec![1, 2, 3, 4, 5];
    let expected = vec![None, Some(0), Some(1), Some(2), Some(3)];
    assert_eq!(find(&input), expected);

    let input = vec![5, 4, 3, 2, 1];
    let expected = vec![None; 5];
    assert_eq!(find(&input), expected);

    let input = vec![1, 7, 9, 3, 10, 4, 7, 5];
    let expected = vec![
        None,
        Some(0),
        Some(1),
        Some(0),
        Some(3),
        Some(3),
        Some(5),
        Some(5),
    ];
    assert_eq!(find(&input), expected);
}

#[test]
fn left_nearest_of_nothing() {
    let input: Vec<u8> = vec![];
    assert_eq!(find(&input), Vec::<Option<usize>>::new());
}

#[test]
fn left_nearest_skips_equal_elements() {
    let input = vec![2, 2, 2, 3, 3];
    assert_eq!(find(&input), vec![None, None, None, Some(2), Some(2)]);
}

#[test]
fn left_nearest_agrees_with_a_plain_scan() {
    let input: Vec<i32> = (0..60).map(|x| (x * 31 + 7) % 23 - 11).collect();
    let found = find(&input);
    assert_eq!(found.len(), input.len());
    for i in 0..input.len() {
        let expected = (0..i).rev().find(|j| input[*j] < input[i]);
        assert_eq!(found[i], expected);
    }
}
