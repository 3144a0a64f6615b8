use puzzles::instructions::solve_part_one;
use puzzles::instructions::solve_part_two;
use puzzles::instructions::Operation;

#[test]
fn sums_all_products() {
    let ops = vec![
        Operation::Mul(2, 4),
        Operation::Mul(5, 5),
        Operation::Mul(11, 8),
        Operation::Mul(8, 5),
    ];
    assert_eq!(solve_part_one(&ops), 161);
}

#[test]
fn toggles_disable_and_enable_products() {
    let ops = vec![
        Operation::Mul(2, 4),
        Operation::Dont,
        Operation::Mul(5, 5),
        Operation::Mul(11, 8),
        Operation::Do,
        Operation::Mul(8, 5),
    ];
    assert_eq!(solve_part_two(&ops), 48);
}

#[test]
fn toggles_do_not_change_the_plain_sum() {
    let ops = vec![
        Operation::Mul(2, 4),
        Operation::Dont,
        Operation::Mul(5, 5),
        Operation::Mul(11, 8),
        Operation::Do,
        Operation::Mul(8, 5),
    ];
    assert_eq!(solve_part_one(&ops), 161);
}

#[test]
fn empty_program_sums_to_zero() {
    assert_eq!(solve_part_one(&[]), 0);
    assert_eq!(solve_part_two(&[]), 0);
}
