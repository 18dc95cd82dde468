use plagiarism_basic::string_compare::is_plagiarised;
use plagiarism_basic::Metric;

#[test]
fn test_equal() {
    assert!(is_plagiarised("a", "a", Metric::Equal, 0));
}

#[test]
fn equal_rejects_different_strings() {
    assert!(!is_plagiarised("a", "b", Metric::Equal, 5));
}

#[test]
fn test_lev() {
    assert!(is_plagiarised("abcd", "ac", Metric::Lev, 2));
    assert!(!is_plagiarised("abcd", "ac", Metric::Lev, 1));
}

#[test]
fn lev_boundary_is_inclusive() {
    // levenshtein("kitten", "sitting") == 3
    assert!(is_plagiarised("kitten", "sitting", Metric::Lev, 3));
    assert!(!is_plagiarised("kitten", "sitting", Metric::Lev, 2));
}

#[test]
fn lev_symmetric_on_example() {
    assert_eq!(
        is_plagiarised("abcd", "ac", Metric::Lev, 2),
        is_plagiarised("ac", "abcd", Metric::Lev, 2)
    );
}
