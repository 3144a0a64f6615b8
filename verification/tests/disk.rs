use puzzles::disk::convert_input;
use puzzles::disk::find_zero_block;
use puzzles::disk::get_checksum;
use puzzles::disk::rearrange;
use puzzles::disk::rearrange_part_two;
use puzzles::disk::solve_part_one;
use puzzles::disk::solve_part_two;
use puzzles::disk::Thing;

fn digits_of(s: &str) -> Vec<i64> {
    s.chars().map(|c| c.to_digit(10).unwrap() as i64).collect()
}

#[test]
fn parse_convert_input() {
    let result = convert_input(&[1, 2, 3, 4, 5]);
    assert_eq!(
        result,
        vec![
            Thing::Block(0),
            Thing::Free,
            Thing::Free,
            Thing::Block(1),
            Thing::Block(1),
            Thing::Block(1),
            Thing::Free,
            Thing::Free,
            Thing::Free,
            Thing::Free,
            Thing::Block(2),
            Thing::Block(2),
            Thing::Block(2),
            Thing::Block(2),
            Thing::Block(2),
        ]
    );
}

#[test]
fn test_rearrange() {
    let result = rearrange(&vec![
        Thing::Block(0),
        Thing::Free,
        Thing::Free,
        Thing::Block(1),
        Thing::Block(1),
        Thing::Block(1),
        Thing::Free,
        Thing::Free,
        Thing::Free,
        Thing::Free,
        Thing::Block(2),
        Thing::Block(2),
        Thing::Block(2),
        Thing::Block(2),
        Thing::Block(2),
    ]);
    assert_eq!(
        result,
        vec![
            Thing::Block(0),
            Thing::Block(2),
            Thing::Block(2),
            Thing::Block(1),
            Thing::Block(1),
            Thing::Block(1),
            Thing::Block(2),
            Thing::Block(2),
            Thing::Block(2),
            Thing::Free,
            Thing::Free,
            Thing::Free,
            Thing::Free,
            Thing::Free,
            Thing::Free,
        ]
    );
}

#[test]
fn test_part_one() {
    let input = digits_of("2333133121414131402");
    let result = solve_part_one(&input);
    assert_eq!(result, 1928);
}

#[test]
fn test_part_two() {
    let input = digits_of("2333133121414131402");
    let result = solve_part_two(&input);
    assert_eq!(result, 2858);
}

#[test]
fn checksum_counts_positions_times_ids() {
    let layout = vec![Thing::Block(0), Thing::Block(2), Thing::Free, Thing::Block(3)];
    assert_eq!(get_checksum(&layout), 0 * 0 + 1 * 2 + 3 * 3);
    assert_eq!(get_checksum(&vec![]), 0);
}

#[test]
fn find_zero_block_picks_first_span() {
    let layout = vec![
        Thing::Block(0),
        Thing::Free,
        Thing::Block(1),
        Thing::Free,
        Thing::Free,
        Thing::Block(2),
    ];
    assert_eq!(find_zero_block(&layout, 2), Some(vec![3, 4]));
    assert_eq!(find_zero_block(&layout, 1), Some(vec![1]));
    assert_eq!(find_zero_block(&layout, 3), None);
    assert_eq!(find_zero_block(&layout, 0), None);
}

#[test]
fn whole_file_moves_only_forward() {
    // one free cell before file 1, but file 1 has two blocks: it stays
    let layout = vec![
        Thing::Block(0),
        Thing::Free,
        Thing::Block(1),
        Thing::Block(1),
    ];
    let moved = rearrange_part_two(&layout);
    assert_eq!(moved, layout);
}

#[test]
fn convert_empty_is_empty() {
    assert_eq!(convert_input(&[]), Vec::<Thing>::new());
}
