use puzzles::calibration::combine_numbers;
use puzzles::calibration::solve_part_one;
use puzzles::calibration::solve_part_two;
use puzzles::calibration::test_line_both;
use puzzles::calibration::Op;

fn example_lines() -> Vec<(i64, Vec<i64>)> {
    vec![
        (190, vec![10, 19]),
        (3267, vec![81, 40, 27]),
        (83, vec![17, 5]),
        (156, vec![15, 6]),
        (7290, vec![6, 8, 6, 15]),
        (161011, vec![16, 10, 13]),
        (192, vec![17, 8, 14]),
        (21037, vec![9, 7, 18, 13]),
        (292, vec![11, 6, 16, 20]),
    ]
}

#[test]
fn test_solve_part_one() {
    let solution = solve_part_one(&example_lines());
    assert_eq!(solution, 3749);
}

#[test]
fn test_solve_part_two() {
    let solution = solve_part_two(&example_lines());
    assert_eq!(solution, 11387);
}

#[test]
fn concatenation_glues_decimal_digits() {
    assert_eq!(combine_numbers(10, 19), 1019);
    assert_eq!(combine_numbers(7, 5), 75);
    assert_eq!(combine_numbers(0, 9), 9);
    assert_eq!(combine_numbers(12, 0), 120);
    assert_eq!(combine_numbers(6, 100), 6100);
}

#[test]
fn reachability_respects_the_operator_set() {
    let two_ops = [Op::Mul, Op::Add];
    let three_ops = [Op::Mul, Op::Add, Op::Concat];
    // 156 = 15 concatenated with 6, not reachable by + and * alone
    assert!(!test_line_both(&two_ops, &156, &[15, 6], 0));
    assert!(test_line_both(&three_ops, &156, &[15, 6], 0));
    // 190 = 10 * 19 with either set
    assert!(test_line_both(&two_ops, &190, &[10, 19], 0));
}
