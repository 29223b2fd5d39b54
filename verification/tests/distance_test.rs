use superdiff::distance::{levenshtein_distance, to_char_vec};

#[test]
fn test_lev_distance() {
    // Normal use of function
    assert_eq!(levenshtein_distance("the same the same", "the same the same", 10), 0);
    assert_eq!(levenshtein_distance("kitten", "sitting", 3), 3);
    assert_eq!(levenshtein_distance("train", "shine", 4), 4);
    assert_eq!(levenshtein_distance("a", "aaa", 2), 2);
    // Maximum threshold
    assert_eq!(levenshtein_distance("arst", "zxcv", 4), 4);
    // Short circuit at the end
    assert_eq!(levenshtein_distance("ieanrstien", "            ", 5), 6);
    // Short circuit at the start
    assert_eq!(levenshtein_distance("arstarst", "zxcv", 100), 100);
    // A bit tight
    assert_eq!(levenshtein_distance("the same", "the same", 0), 0);
}

#[test]
fn lev_distance_is_symmetric_at_the_threshold() {
    // whether the distance clears the threshold never depends on the order
    let cases = [("kitten", "sitting", 3), ("train", "shine", 3), ("abc", "abcdef", 3)];
    for (a, b, t) in cases {
        assert_eq!(
            levenshtein_distance(a, b, t) <= t,
            levenshtein_distance(b, a, t) <= t,
        );
    }
}

#[test]
fn lev_distance_of_a_string_to_itself_is_zero() {
    assert_eq!(levenshtein_distance("zero edits", "zero edits", 4), 0);
}

#[test]
fn lev_distance_exceeds_threshold_on_length_gap() {
    // the length difference alone puts the answer past the threshold
    assert_eq!(levenshtein_distance("ab", "abcdefgh", 3), 4);
}

#[test]
fn to_char_vec_collects_code_points() {
    assert_eq!(to_char_vec("abc"), vec!['a', 'b', 'c']);
    assert_eq!(to_char_vec(""), Vec::<char>::new());
}
