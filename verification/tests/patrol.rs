use puzzles::parse::parse_input;
use puzzles::parse::ParseError;
use puzzles::patrol::check_for_loop;
use puzzles::patrol::solve_part_one;
use puzzles::patrol::solve_part_two;
use puzzles::patrol::Direction;
use puzzles::patrol::GameState;
use puzzles::patrol::MapThing;
use puzzles::patrol::RunOutcome;
use puzzles::patrol::run_patrol;
use puzzles::patrol::TickOutcome;

#[test]
fn parse_full_input() {
    let input = "....#.....\n.........#\n..........\n..#.......\n.......#..\n..........\n.#..^.....\n........#.\n#.........\n......#...";
    let result = parse_input(input.as_bytes());
    assert!(result.is_ok());
    assert!(result.unwrap().len() == 10);
}

#[test]
fn part_one() {
    let input = "....#.....\n.........#\n..........\n..#.......\n.......#..\n..........\n.#..^.....\n........#.\n#.........\n......#...";
    let parsed = parse_input(input.as_bytes()).expect("failed to parse");
    let solution = solve_part_one(&parsed);
    assert_eq!(solution, 41)
}

#[test]
fn check_loops() {
    let input = "....#.....\n.........#\n..........\n..#.......\n.......#..\n..........\n.#..^.....\n........#.\n#.........\n......#...";
    let parsed = parse_input(input.as_bytes()).expect("failed to parse");
    let solution = check_for_loop(&parsed, 3, 6);
    assert_eq!(solution, true)
}

#[test]
fn part_two() {
    let input = "....#.....\n.........#\n..........\n..#.......\n.......#..\n..........\n.#..^.....\n........#.\n#.........\n......#...";
    let parsed = parse_input(input.as_bytes()).expect("failed to parse");
    let solution = solve_part_two(&parsed);
    assert_eq!(solution, 6)
}

#[test]
fn visited_count_includes_start() {
    // the agent exits immediately upward; only the start cell is visited
    let parsed = parse_input(b"^").expect("failed to parse");
    assert_eq!(solve_part_one(&parsed), 1);
}

#[test]
fn zero_obstacle_grid_exits() {
    let parsed = parse_input(b"...\n.^.\n...").expect("failed to parse");
    let gs = GameState::create(&parsed);
    let (outcome, visited) = run_patrol(gs);
    assert_eq!(outcome, RunOutcome::Exited);
    assert_eq!(visited.len(), 2);
}

#[test]
fn enclosed_agent_is_reported_looping() {
    let parsed = parse_input(b".#.\n#^#\n.#.").expect("failed to parse");
    let gs = GameState::create(&parsed);
    let (outcome, _) = run_patrol(gs);
    assert_eq!(outcome, RunOutcome::Looping);
}

#[test]
fn runs_are_deterministic() {
    let input = "....#.....\n.........#\n..........\n..#.......\n.......#..\n..........\n.#..^.....\n........#.\n#.........\n......#...";
    let a = parse_input(input.as_bytes()).expect("failed to parse");
    let b = parse_input(input.as_bytes()).expect("failed to parse");
    assert_eq!(solve_part_one(&a), solve_part_one(&b));
    assert_eq!(solve_part_two(&a), solve_part_two(&b));
}

#[test]
fn start_cell_is_never_a_candidate() {
    // the start cell would block the agent itself; a grid whose only
    // free cells are the start and one other tries only the other
    let parsed = parse_input(b"#.#\n#^#\n###").expect("failed to parse");
    assert_eq!(solve_part_two(&parsed), 1);
}

#[test]
fn tick_rotates_on_obstacle() {
    let parsed = parse_input(b".#.\n.^.\n...").expect("failed to parse");
    let gs = GameState::create(&parsed);
    let (gs, outcome) = gs.tick();
    assert_eq!(outcome, TickOutcome::Rotated);
    assert_eq!(gs.player.direction, Direction::Right);
    assert_eq!((gs.player.x, gs.player.y), (1, 1));
    let (gs, outcome) = gs.tick();
    assert_eq!(outcome, TickOutcome::Moved);
    assert_eq!((gs.player.x, gs.player.y), (2, 1));
}

#[test]
fn tick_exits_at_edge() {
    let parsed = parse_input(b"^..").expect("failed to parse");
    let gs = GameState::create(&parsed);
    assert!(!gs.out_of_bounds(0, 0));
    assert!(gs.out_of_bounds(3, 0));
    assert!(gs.out_of_bounds(0, 1));
    let (gs, outcome) = gs.tick();
    assert_eq!(outcome, TickOutcome::Exited);
    assert_eq!((gs.player.x, gs.player.y), (0, 0));
}

#[test]
fn map_keeps_cells_after_clearing_start() {
    let parsed = parse_input(b"#.\n.^").expect("failed to parse");
    let gs = GameState::create(&parsed);
    assert_eq!(gs.map[0][0], MapThing::Obstacle);
    assert_eq!(gs.map[1][1], MapThing::Empty);
    assert_eq!((gs.player.x, gs.player.y), (1, 1));
    assert_eq!(gs.player.direction, Direction::Up);
}

#[test]
fn cell_lookup_reports_off_grid_distinctly() {
    let parsed = parse_input(b"#.\n.^").expect("failed to parse");
    let gs = GameState::create(&parsed);
    assert_eq!(gs.cell_at(0, 0), Some(MapThing::Obstacle));
    assert_eq!(gs.cell_at(1, 1), Some(MapThing::Empty));
    assert_eq!(gs.cell_at(2, 0), None);
    assert_eq!(gs.cell_at(0, 2), None);
}

#[test]
fn parse_rejects_unrecognized_symbol() {
    assert_eq!(parse_input(b"..\n.x"), Err(ParseError::UnrecognizedSymbol));
}

#[test]
fn parse_rejects_unequal_rows() {
    assert_eq!(parse_input(b"...\n..\n..."), Err(ParseError::UnequalRows));
}

#[test]
fn parse_rejects_missing_start() {
    assert_eq!(parse_input(b"...\n..."), Err(ParseError::NoStart));
    assert_eq!(parse_input(b""), Err(ParseError::NoStart));
}

#[test]
fn parse_rejects_two_starts() {
    assert_eq!(parse_input(b"^..\n..^"), Err(ParseError::MultipleStarts));
}
