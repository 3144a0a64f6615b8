use puzzles::reports::check;
use puzzles::reports::test_diff;
use puzzles::reports::test_list;
use puzzles::reports::test_signums;

#[test]
fn is_safe() {
    let input: Vec<i32> = vec![7, 6, 4, 2, 1];
    let result = check(&input);
    assert!(result.is_some());
    assert_eq!(result.unwrap(), 1);
}

#[test]
fn always_unsafe() {
    let input = vec![1, 2, 7, 8, 9];
    let result = check(&input);
    assert!(result.is_none());
}

#[test]
fn safe_with_removals() {
    let input = vec![1, 3, 2, 4, 5];
    let result = check(&input);
    assert!(result.is_some());
    assert_eq!(result.unwrap(), 1);
}

#[test]
fn list_safe_when_descending_gently() {
    assert!(test_list(&[9, 7, 6, 4]));
    assert!(!test_list(&[9, 9, 8]));
    assert!(!test_list(&[1, 5, 6]));
}

#[test]
fn signums_all_match_first() {
    assert!(test_signums(&[-1, -2, -3]));
    assert!(!test_signums(&[1, -2, 3]));
    assert!(test_signums(&[4]));
}

#[test]
fn diffs_between_one_and_three() {
    assert!(test_diff(&[1, -2, 3]));
    assert!(!test_diff(&[0, 1]));
    assert!(!test_diff(&[4]));
    assert!(test_diff(&[]));
}

#[test]
fn check_two_levels_safe() {
    let result = check(&[3, 1]);
    assert!(result.is_some());
}
