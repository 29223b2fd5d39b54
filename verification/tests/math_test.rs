use superdiff::math::{combinations, factorial};

#[test]
fn test_factorial() {
    assert_eq!(factorial(1, 1), 1);
    assert_eq!(factorial(2, 1), 2);
    assert_eq!(factorial(10, 1), 3628800);
    assert_eq!(factorial(6, 3), 360);
}

#[test]
fn test_combinations() {
    assert_eq!(combinations(9, 2), 36);
}

#[test]
fn combinations_of_too_few_is_zero() {
    assert_eq!(combinations(1, 2), 0);
}

#[test]
fn combinations_counts_file_pairs_with_self_pairs() {
    // 4 files: 6 unordered distinct pairs, plus 4 self-pairs handled separately
    assert_eq!(combinations(4, 2) + 4, 10);
}
