use puzzles::word_search::add_vector;
use puzzles::word_search::get_cross;
use puzzles::word_search::get_xmas;
use puzzles::word_search::solve_part_one;
use puzzles::word_search::solve_part_two;
use puzzles::word_search::Characters;

fn grid_of(lines: &[&str]) -> Vec<Vec<Characters>> {
    lines
        .iter()
        .map(|line| {
            line.chars()
                .map(|c| match c {
                    'X' => Characters::X,
                    'M' => Characters::M,
                    'A' => Characters::A,
                    'S' => Characters::S,
                    _ => panic!("not a puzzle letter"),
                })
                .collect()
        })
        .collect()
}

fn example_grid() -> Vec<Vec<Characters>> {
    grid_of(&[
        "MMMSXXMASM",
        "MSAMXMSMSA",
        "AMXSXMAAMM",
        "MSAMASMSMX",
        "XMASAMXAMM",
        "XXAMMXXAMA",
        "SMSMSASXSS",
        "SAXAMASAAA",
        "MAMMMXMMMM",
        "MXMXAXMASX",
    ])
}

#[test]
fn main_test_part_one() {
    let solution = solve_part_one(&example_grid());
    assert_eq!(solution, 18)
}

#[test]
fn main_test_part_two() {
    let solution = solve_part_two(&example_grid());
    assert_eq!(solution, 9)
}

#[test]
fn straight_word_found_with_its_vector() {
    let grid = grid_of(&["XMAS"]);
    // coordinates are (row, column)
    assert!(get_xmas(&grid, (0, 0), (0, 1)));
    assert!(!get_xmas(&grid, (0, 0), (1, 0)));
    assert!(!get_xmas(&grid, (0, 1), (0, 1)));
}

#[test]
fn cross_found_around_centre() {
    let grid = grid_of(&["MXM", "XAX", "SXS"]);
    assert!(get_cross(&grid, (1, 1)));
    assert!(!get_cross(&grid, (0, 0)));
    let other = grid_of(&["MXS", "XAX", "MXS"]);
    assert!(get_cross(&other, (1, 1)));
}

#[test]
fn vectors_add_componentwise() {
    assert_eq!(add_vector((1, -2), (3, 5)), (4, 3));
}
