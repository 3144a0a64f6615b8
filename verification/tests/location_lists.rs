use puzzles::location_lists::solve_part_one;
use puzzles::location_lists::solve_part_two;

#[test]
fn total_distance_of_sorted_example_lists() {
    let left = vec![1, 2, 3, 3, 3, 4];
    let right = vec![3, 3, 3, 4, 5, 9];
    assert_eq!(solve_part_one(&left, &right), 11);
}

#[test]
fn distance_pairs_stop_at_shorter_list() {
    assert_eq!(solve_part_one(&[10, 1], &[7]), 3);
    assert_eq!(solve_part_one(&[], &[5, 6]), 0);
}

#[test]
fn similarity_of_example_lists() {
    let left = vec![3, 4, 2, 1, 3, 3];
    let right = vec![4, 3, 5, 3, 9, 3];
    assert_eq!(solve_part_two(&left, &right), 31);
}

#[test]
fn similarity_of_absent_value_is_zero() {
    assert_eq!(solve_part_two(&[7], &[1, 2, 3]), 0);
}
