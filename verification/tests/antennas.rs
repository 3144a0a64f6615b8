use puzzles::antennas::generate_position_pairs;
use puzzles::antennas::get_antinodes_from_pair;
use puzzles::antennas::get_lots_of_antinodes_from_pair;
use puzzles::antennas::solve_part_one;
use puzzles::antennas::solve_part_two;
use puzzles::antennas::Characters;

fn grid_of(lines: &[&str]) -> Vec<Vec<Characters>> {
    lines
        .iter()
        .map(|line| {
            line.chars()
                .map(|c| if c == '.' { Characters::Empty } else { Characters::Char(c) })
                .collect()
        })
        .collect()
}

fn example_grid() -> Vec<Vec<Characters>> {
    grid_of(&[
        "............",
        "........0...",
        ".....0......",
        ".......0....",
        "....0.......",
        "......A.....",
        "............",
        "............",
        "........A...",
        ".........A..",
        "............",
        "............",
    ])
}

#[test]
fn test_solution_one() {
    let solution = solve_part_one(&example_grid());
    assert_eq!(solution, 14)
}

#[test]
fn test_solution_two() {
    let solution = solve_part_two(&example_grid());
    assert_eq!(solution, 34)
}

#[test]
fn ordered_pairs_of_three_positions() {
    let positions = vec![(0, 0), (1, 1), (2, 2)];
    let pairs = generate_position_pairs(&positions);
    assert_eq!(
        pairs,
        vec![
            ((0, 0), (1, 1)),
            ((0, 0), (2, 2)),
            ((1, 1), (0, 0)),
            ((1, 1), (2, 2)),
            ((2, 2), (0, 0)),
            ((2, 2), (1, 1)),
        ]
    );
}

#[test]
fn antinodes_sit_one_step_beyond_each_end() {
    // pair at (4,3) and (5,5): candidates (3,1) and (6,7)
    let nodes = get_antinodes_from_pair(10, 10, ((4, 3), (5, 5)));
    assert_eq!(nodes, vec![(3, 1), (6, 7)]);
    // near the edge one candidate falls off
    let nodes = get_antinodes_from_pair(10, 10, ((0, 0), (2, 1)));
    assert_eq!(nodes, vec![(4, 2)]);
}

#[test]
fn resonant_antinodes_cover_the_whole_line() {
    // maxes are inclusive here, as the search passes them
    // both ends come first; each ray then revisits the opposite end
    let nodes = get_lots_of_antinodes_from_pair(9, 9, ((0, 0), (1, 3)));
    assert_eq!(nodes, vec![(0, 0), (1, 3), (1, 3), (2, 6), (3, 9), (0, 0)]);
}
