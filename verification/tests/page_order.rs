use puzzles::page_order::solve_part_one;
use puzzles::page_order::solve_part_two;

fn example_input() -> (Vec<(i32, i32)>, Vec<Vec<i32>>) {
    (
        vec![
            (47, 53),
            (97, 13),
            (97, 61),
            (97, 47),
            (75, 29),
            (61, 13),
            (75, 53),
            (29, 13),
            (97, 29),
            (53, 29),
            (61, 53),
            (97, 53),
            (61, 29),
            (47, 13),
            (75, 47),
            (97, 75),
            (47, 61),
            (75, 61),
            (47, 29),
            (75, 13),
            (53, 13),
        ],
        vec![
            vec![75, 47, 61, 53, 29],
            vec![97, 61, 53, 29, 13],
            vec![75, 29, 13],
            vec![75, 97, 47, 61, 53],
            vec![61, 13, 29],
            vec![97, 13, 75, 29, 47],
        ],
    )
}

#[test]
fn page_order_part_one() {
    let input = example_input();
    let solution = solve_part_one(&input);
    assert_eq!(solution, 143)
}

#[test]
fn page_order_part_two() {
    let input = example_input();
    let solution = solve_part_two(&input);
    assert_eq!(solution, 123)
}

#[test]
fn correct_updates_only_counted_once_each() {
    let rules = vec![(1, 2), (2, 3), (1, 3)];
    let updates = vec![vec![1, 2, 3], vec![3, 2, 1]];
    // only the first update is in order; its middle page is 2
    assert_eq!(solve_part_one(&(rules.clone(), updates.clone())), 2);
    // only the second needs fixing; reordered it is 1 2 3, middle 2
    assert_eq!(solve_part_two(&(rules, updates)), 2);
}
