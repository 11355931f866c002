use algorithms::levenshtein_distance::calculate;

#[test]
fn test_identical_strings() {
    assert_eq!(calculate("kitten", "kitten"), 0);
}

#[test]
fn test_single_insertion() {
    assert_eq!(calculate("kitten", "sitten"), 1);
}

#[test]
fn test_single_deletion() {
    assert_eq!(calculate("kitten", "kittn"), 1);
}

#[test]
fn test_single_substitution() {
    assert_eq!(calculate("kitten", "kitchen"), 2);
}

#[test]
fn test_multiple_edits() {
    assert_eq!(calculate("flaw", "lawn"), 2);
    assert_eq!(calculate("intention", "execution"), 5);
}

#[test]
fn test_empty_strings() {
    assert_eq!(calculate("", ""), 0);
    assert_eq!(calculate("abc", ""), 3);
    assert_eq!(calculate("", "abc"), 3);
}

#[test]
fn test_case_sensitivity() {
    assert_eq!(calculate("abc", "ABC"), 3);
}

#[test]
fn distance_is_the_same_in_both_directions() {
    let words = ["", "a", "sunday", "saturday", "rosettacode", "raisethysword"];
    for a in words {
        for b in words {
            assert_eq!(calculate(a, b), calculate(b, a));
        }
    }
    assert_eq!(calculate("sunday", "saturday"), 3);
    assert_eq!(calculate("rosettacode", "raisethysword"), 8);
}

#[test]
fn distance_counts_characters() {
    assert_eq!(calculate("héllo", "hello"), 1);
    assert_eq!(calculate("日本語", "日本"), 1);
    assert_eq!(calculate("", "日本語"), 3);
    assert_eq!(calculate("ñandú", ""), 5);
    assert_eq!(calculate("über", "uber"), 1);
}

#[test]
fn distance_is_at_most_the_longer_length() {
    assert_eq!(calculate("abcdef", "uvwxyz"), 6);
    assert_eq!(calculate("abc", "uvwxyz"), 6);
    assert_eq!(calculate("uvwxyz", "abc"), 6);
}
