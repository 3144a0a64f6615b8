//! A patrol simulation on a rectangular grid.
//!
//! A mobile agent walks the grid under a deterministic rule: if the cell
//! ahead is an obstacle it turns clockwise in place, otherwise it moves
//! forward; the run ends when a move would leave the grid.  The module
//! reports the distinct cells the agent visits before leaving, detects
//! runs that cycle forever, and counts the single-cell obstacle
//! insertions that turn the patrol into an infinite loop.

use vstd::prelude::*;

verus! {

/// The four facings of the patrol agent.
#[derive(Clone, Copy, Debug, PartialEq, Eq, Structural)]
pub enum Direction {
    Up,
    Down,
    Left,
    Right,
}

/// The facing after a single clockwise quarter turn.
pub open spec fn spec_rotate_clockwise(d: Direction) -> Direction {
    match d {
        Direction::Up => Direction::Right,
        Direction::Right => Direction::Down,
        Direction::Down => Direction::Left,
        Direction::Left => Direction::Up,
    }
}

impl Direction {
    /// Turn one quarter turn clockwise, the deflection an obstacle causes.
    pub fn rotate_clockwise(self) -> (r: Direction)
        ensures
            r == spec_rotate_clockwise(self),
    {
        match self {
            Direction::Up => Direction::Right,
            Direction::Right => Direction::Down,
            Direction::Down => Direction::Left,
            Direction::Left => Direction::Up,
        }
    }
}

/// The content of one grid cell as parsed from the input picture.
///
/// `Player` marks the agent's starting cell; the agent always starts
/// facing up, so a well-formed grid holds exactly one `Player(Up)` cell.
#[derive(Clone, Copy, Debug, PartialEq, Eq, Structural)]
pub enum MapThing {
    Obstacle,
    Empty,
    Player(Direction),
}

/// The agent's full configuration: position and facing.
pub ghost struct AgentState {
    pub x: int,
    pub y: int,
    pub facing: Direction,
}

/// The mathematical view of a grid: a sequence of rows of cells.
pub type GridSeq = Seq<Seq<MapThing>>;

/// The rows of a grid held as vectors, seen as sequences.
pub open spec fn rows_view(rows: Seq<Vec<MapThing>>) -> GridSeq {
    rows.map_values(|r: Vec<MapThing>| r@)
}

/// The grid is non-empty and rectangular: at least one row, at least one
/// column, and every row of the same length.
pub open spec fn grid_rect(m: GridSeq) -> bool {
    &&& m.len() >= 1
    &&& m[0].len() >= 1
    &&& forall|y: int| 0 <= y < m.len() ==> (#[trigger] m[y]).len() == m[0].len()
}

pub open spec fn grid_width(m: GridSeq) -> int {
    m[0].len() as int
}

pub open spec fn grid_height(m: GridSeq) -> int {
    m.len() as int
}

/// The grid is small enough that every count this module computes fits
/// in the machine integers it is returned in.
pub open spec fn grid_area_bounded(m: GridSeq) -> bool {
    grid_height(m) * grid_width(m) <= 0x4000_0000
}

pub open spec fn in_bounds(m: GridSeq, x: int, y: int) -> bool {
    0 <= x < grid_width(m) && 0 <= y < grid_height(m)
}

/// Whether the cell holds the agent's start marker.
pub open spec fn is_start_cell(m: GridSeq, x: int, y: int) -> bool {
    in_bounds(m, x, y) && m[y][x] == MapThing::Player(Direction::Up)
}

/// The grid holds exactly one start marker, and no marker with another
/// facing anywhere.
pub open spec fn one_start(m: GridSeq) -> bool {
    &&& exists|p: (int, int)| is_start_cell(m, p.0, p.1)
    &&& forall|x1: int, y1: int, x2: int, y2: int|
        is_start_cell(m, x1, y1) && is_start_cell(m, x2, y2) ==> x1 == x2 && y1 == y2
    &&& forall|x: int, y: int|
        in_bounds(m, x, y) && (#[trigger] m[y][x]) is Player ==> m[y][x]
            == MapThing::Player(Direction::Up)
}

/// A valid parsed grid: rectangular, of bounded area, with one start.
pub open spec fn grid_input_wf(m: GridSeq) -> bool {
    grid_rect(m) && grid_area_bounded(m) && one_start(m)
}

/// The coordinates of the unique start marker.
pub open spec fn start_of(m: GridSeq) -> (int, int) {
    choose|p: (int, int)| is_start_cell(m, p.0, p.1)
}


/// The cell one step ahead of the agent in its current facing.
pub open spec fn step_ahead(st: AgentState) -> (int, int) {
    match st.facing {
        Direction::Up => (st.x, st.y - 1),
        Direction::Down => (st.x, st.y + 1),
        Direction::Left => (st.x - 1, st.y),
        Direction::Right => (st.x + 1, st.y),
    }
}

/// What a single tick does: exactly one of exit, rotate, or move.
#[derive(Clone, Copy, Debug, PartialEq, Eq, Structural)]
pub enum TickOutcome {
    /// The cell ahead lies outside the grid; the run is over and the
    /// agent keeps its last valid position.
    Exited,
    /// The cell ahead is an obstacle; the agent turns clockwise in place.
    Rotated,
    /// The cell ahead is open; the agent moves into it.
    Moved,
}

/// The single-tick transition rule of the patrol.
pub open spec fn spec_tick(m: GridSeq, st: AgentState) -> (TickOutcome, AgentState) {
    let (nx, ny) = step_ahead(st);
    if !in_bounds(m, nx, ny) {
        (TickOutcome::Exited, st)
    } else if m[ny][nx] == MapThing::Obstacle {
        (
            TickOutcome::Rotated,
            AgentState { facing: spec_rotate_clockwise(st.facing), ..st },
        )
    } else {
        (TickOutcome::Moved, AgentState { x: nx, y: ny, ..st })
    }
}

/// A tick from an in-bounds state leaves the agent in bounds unless it exits.
pub proof fn lemma_tick_stays_in_bounds(m: GridSeq, st: AgentState)
    requires
        in_bounds(m, st.x, st.y),
    ensures
        spec_tick(m, st).0 != TickOutcome::Exited ==> in_bounds(
            m,
            spec_tick(m, st).1.x,
            spec_tick(m, st).1.y,
        ),
        spec_tick(m, st).0 == TickOutcome::Exited ==> spec_tick(m, st).1 == st,
{
}

/// The patrol agent: a position inside the grid and a facing.
pub struct Player {
    pub x: usize,
    pub y: usize,
    pub direction: Direction,
}

/// A run in progress: the agent together with the (cleared) grid it walks.
pub struct GameState {
    pub player: Player,
    pub map: Vec<Vec<MapThing>>,
}

impl GameState {
    /// The mathematical view of the grid the agent walks.
    pub open spec fn grid(self) -> GridSeq {
        rows_view(self.map@)
    }

    /// The agent's configuration as a mathematical state.
    pub open spec fn state(self) -> AgentState {
        AgentState { x: self.player.x as int, y: self.player.y as int, facing: self.player.direction }
    }

    /// A well-formed running game: rectangular bounded grid, agent inside it.
    pub open spec fn wf(self) -> bool {
        &&& grid_rect(self.grid())
        &&& grid_area_bounded(self.grid())
        &&& in_bounds(self.grid(), self.state().x, self.state().y)
    }

    /// The cell at `(x, y)`, or `None` when the coordinates leave the
    /// grid, so a caller can tell running off the grid apart from any
    /// cell content.
    pub fn cell_at(&self, x: usize, y: usize) -> (r: Option<MapThing>)
        requires
            grid_rect(self.grid()),
        ensures
            r.is_some() <==> in_bounds(self.grid(), x as int, y as int),
            r matches Some(c) ==> c == self.grid()[y as int][x as int],
    {
        if self.out_of_bounds(x, y) {
            None
        } else {
            Some(self.map[y][x])
        }
    }

    /// Whether `(x, y)` lies outside the grid.
    pub fn out_of_bounds(&self, x: usize, y: usize) -> (r: bool)
        requires
            grid_rect(self.grid()),
        ensures
            r == !in_bounds(self.grid(), x as int, y as int),
    {
        x >= self.map[0].len() || y >= self.map.len()
    }

    /// One tick of the patrol rule: exit, rotate in place, or move
    /// forward, and report which of the three happened.
    pub fn tick(self) -> (r: (GameState, TickOutcome))
        requires
            self.wf(),
        ensures
            r.1 == spec_tick(self.grid(), self.state()).0,
            r.0.state() == spec_tick(self.grid(), self.state()).1,
            r.0.grid() == self.grid(),
            r.0.map@ == self.map@,
            r.0.wf(),
    {
        let width = self.map[0].len();
        let height = self.map.len();
        let x = self.player.x;
        let y = self.player.y;
        let ahead: Option<(usize, usize)> = match self.player.direction {
            Direction::Up => if y == 0 { None } else { Some((x, y - 1)) },
            Direction::Down => if y + 1 >= height { None } else { Some((x, y + 1)) },
            Direction::Left => if x == 0 { None } else { Some((x - 1, y)) },
            Direction::Right => if x + 1 >= width { None } else { Some((x + 1, y)) },
        };
        match ahead {
            None => (self, TickOutcome::Exited),
            Some((nx, ny)) => {
                if self.map[ny][nx] == MapThing::Obstacle {
                    let turned = self.player.direction.rotate_clockwise();
                    let gs = GameState {
                        player: Player { x, y, direction: turned },
                        map: self.map,
                    };
                    (gs, TickOutcome::Rotated)
                } else {
                    let gs = GameState {
                        player: Player { x: nx, y: ny, direction: self.player.direction },
                        map: self.map,
                    };
                    (gs, TickOutcome::Moved)
                }
            },
        }
    }
}


/// The terminal outcome of a complete run.
#[derive(Clone, Copy, Debug, PartialEq, Eq, Structural)]
pub enum RunOutcome {
    /// The agent walked off the grid.
    Exited,
    /// The agent returned to a position and facing it had already been
    /// in; from there the simulation repeats forever.
    Looping,
}

/// The accounting of a finished run: its outcome, the set of distinct
/// cells the agent occupied before the run ended, and how many ticks it
/// took.
pub ghost struct RunRes {
    pub outcome: RunOutcome,
    pub visited: Set<(int, int)>,
    pub ticks: nat,
}

/// A complete run from state `st`, where `seen` holds the states already
/// recorded by the cycle detector.  Before every tick the current state
/// is checked against `seen`: a recurrence ends the run as `Looping`,
/// since the next tick is a function of the state alone.  Otherwise the
/// state is recorded, the cell is marked visited, and one tick is taken.
/// `None` means the fuel ran out before the run ended; the termination
/// lemma below shows that enough fuel always exists.
pub open spec fn run_from(m: GridSeq, st: AgentState, seen: Set<AgentState>, fuel: nat) -> Option<
    RunRes,
>
    decreases fuel,
{
    if seen.contains(st) {
        Some(RunRes { outcome: RunOutcome::Looping, visited: Set::empty(), ticks: 0 })
    } else if fuel == 0 {
        None
    } else {
        let (tk, st2) = spec_tick(m, st);
        if tk == TickOutcome::Exited {
            Some(
                RunRes {
                    outcome: RunOutcome::Exited,
                    visited: set![(st.x, st.y)],
                    ticks: 1,
                },
            )
        } else {
            match run_from(m, st2, seen.insert(st), (fuel - 1) as nat) {
                Some(r) => Some(
                    RunRes {
                        outcome: r.outcome,
                        visited: r.visited.insert((st.x, st.y)),
                        ticks: r.ticks + 1,
                    },
                ),
                None => None,
            }
        }
    }
}

/// A fixed enumeration of the four facings.
pub open spec fn dir_index(d: Direction) -> int {
    match d {
        Direction::Up => 0,
        Direction::Right => 1,
        Direction::Down => 2,
        Direction::Left => 3,
    }
}

/// Encode an agent state as an integer; distinct in-bounds states get
/// distinct codes below `4 * height * width`.
pub open spec fn state_code(st: AgentState, w: int) -> int {
    (st.y * w + st.x) * 4 + dir_index(st.facing)
}

/// Row-major decomposition is unique: `y * w + x` with `0 <= x < w`
/// determines `x` and `y`.
proof fn lemma_row_major_injective(w: int, x1: int, y1: int, x2: int, y2: int)
    requires
        0 <= x1 < w,
        0 <= x2 < w,
        0 <= y1,
        0 <= y2,
        y1 * w + x1 == y2 * w + x2,
    ensures
        x1 == x2 && y1 == y2,
{
    assert(y1 == y2) by (nonlinear_arith)
        requires
            0 <= x1 < w,
            0 <= x2 < w,
            0 <= y1,
            0 <= y2,
            y1 * w + x1 == y2 * w + x2,
    ;
}

/// An in-bounds state's code lies in `[0, 4 * height * width)`.
proof fn lemma_state_code_range(m: GridSeq, st: AgentState)
    requires
        grid_rect(m),
        in_bounds(m, st.x, st.y),
    ensures
        0 <= state_code(st, grid_width(m)) < 4 * grid_height(m) * grid_width(m),
{
    let w = grid_width(m);
    let h = grid_height(m);
    assert(0 <= st.y * w + st.x < h * w) by (nonlinear_arith)
        requires
            0 <= st.x < w,
            0 <= st.y < h,
    ;
    assert(4 * (st.y * w + st.x) + 3 < 4 * (h * w)) by (nonlinear_arith)
        requires
            st.y * w + st.x < h * w,
    ;
    assert(4 * (h * w) == 4 * h * w) by (nonlinear_arith);
    assert((st.y * w + st.x) * 4 == 4 * (st.y * w + st.x)) by (nonlinear_arith);
}

/// There are at most `4 * height * width` distinct in-bounds states, so
/// the cycle detector's history can never grow past that bound.
pub proof fn lemma_seen_len_bound(m: GridSeq, seen: Set<AgentState>)
    requires
        grid_rect(m),
        seen.finite(),
        forall|s: AgentState| seen.contains(s) ==> in_bounds(m, s.x, s.y),
    ensures
        seen.len() <= 4 * grid_height(m) * grid_width(m),
{
    let w = grid_width(m);
    let h = grid_height(m);
    let f = |st: AgentState| state_code(st, w);
    assert(vstd::relations::injective_on(f, seen)) by {
        assert forall|s1: AgentState, s2: AgentState|
            seen.contains(s1) && seen.contains(s2) && #[trigger] f(s1) == #[trigger] f(s2)
            implies s1 == s2 by {
            let a1 = s1.y * w + s1.x;
            let a2 = s2.y * w + s2.x;
            assert(a1 * 4 + dir_index(s1.facing) == a2 * 4 + dir_index(s2.facing));
            assert(a1 == a2 && dir_index(s1.facing) == dir_index(s2.facing)) by (nonlinear_arith)
                requires
                    a1 * 4 + dir_index(s1.facing) == a2 * 4 + dir_index(s2.facing),
                    0 <= dir_index(s1.facing) < 4,
                    0 <= dir_index(s2.facing) < 4,
            ;
            lemma_row_major_injective(w, s1.x, s1.y, s2.x, s2.y);
        }
    }
    let image = seen.map(f);
    vstd::set_lib::lemma_map_size(seen, image, f);
    assert(image.subset_of(vstd::set_lib::set_int_range(0, 4 * h * w))) by {
        assert forall|c: int| image.contains(c) implies 0 <= c < 4 * h * w by {
            let s = choose|s: AgentState| seen.contains(s) && f(s) == c;
            lemma_state_code_range(m, s);
        }
    }
    vstd::set_lib::lemma_int_range(0, 4 * h * w);
    vstd::set_lib::lemma_len_subset(image, vstd::set_lib::set_int_range(0, 4 * h * w));
}

/// There are at most `height * width` distinct in-bounds cells.
pub proof fn lemma_positions_len_bound(m: GridSeq, ps: Set<(int, int)>)
    requires
        grid_rect(m),
        ps.finite(),
        forall|p: (int, int)| ps.contains(p) ==> in_bounds(m, p.0, p.1),
    ensures
        ps.len() <= grid_height(m) * grid_width(m),
{
    let w = grid_width(m);
    let h = grid_height(m);
    let f = |p: (int, int)| p.1 * w + p.0;
    assert(vstd::relations::injective_on(f, ps)) by {
        assert forall|p1: (int, int), p2: (int, int)|
            ps.contains(p1) && ps.contains(p2) && #[trigger] f(p1) == #[trigger] f(p2)
            implies p1 == p2 by {
            lemma_row_major_injective(w, p1.0, p1.1, p2.0, p2.1);
        }
    }
    let image = ps.map(f);
    vstd::set_lib::lemma_map_size(ps, image, f);
    assert(image.subset_of(vstd::set_lib::set_int_range(0, h * w))) by {
        assert forall|c: int| image.contains(c) implies 0 <= c < h * w by {
            let p = choose|p: (int, int)| ps.contains(p) && f(p) == c;
            assert(0 <= p.1 * w + p.0 < h * w) by (nonlinear_arith)
                requires
                    0 <= p.0 < w,
                    0 <= p.1 < h,
            ;
        }
    }
    vstd::set_lib::lemma_int_range(0, h * w);
    vstd::set_lib::lemma_len_subset(image, vstd::set_lib::set_int_range(0, h * w));
}

/// Every run ends: with fuel for one tick per state the cycle detector
/// guarantees an `Exited` or `Looping` outcome, after at most
/// `width * height * 4` ticks counting those already accounted in `seen`.
pub proof fn lemma_run_from_terminates(m: GridSeq, st: AgentState, seen: Set<AgentState>, fuel: nat)
    requires
        grid_rect(m),
        in_bounds(m, st.x, st.y),
        seen.finite(),
        forall|s: AgentState| seen.contains(s) ==> in_bounds(m, s.x, s.y),
        fuel + seen.len() > 4 * grid_height(m) * grid_width(m),
    ensures
        run_from(m, st, seen, fuel).is_some(),
        run_from(m, st, seen, fuel).unwrap().ticks + seen.len() <= 4 * grid_height(m)
            * grid_width(m),
    decreases fuel,
{
    broadcast use vstd::set::group_set_axioms;

    if seen.contains(st) {
        lemma_seen_len_bound(m, seen);
    } else {
        let seen2 = seen.insert(st);
        lemma_seen_len_bound(m, seen2);
        assert(fuel > 0);
        let (tk, st2) = spec_tick(m, st);
        if tk == TickOutcome::Exited {
        } else {
            lemma_tick_stays_in_bounds(m, st);
            lemma_run_from_terminates(m, st2, seen2, (fuel - 1) as nat);
        }
    }
}

/// Every cell a run marks visited is in bounds, and unless the run was
/// already at a recorded state, the cell the run started on is visited.
pub proof fn lemma_run_from_visited(m: GridSeq, st: AgentState, seen: Set<AgentState>, fuel: nat)
    requires
        grid_rect(m),
        in_bounds(m, st.x, st.y),
        run_from(m, st, seen, fuel).is_some(),
    ensures
        run_from(m, st, seen, fuel).unwrap().visited.finite(),
        forall|p: (int, int)|
            run_from(m, st, seen, fuel).unwrap().visited.contains(p) ==> in_bounds(m, p.0, p.1),
        !seen.contains(st) ==> run_from(m, st, seen, fuel).unwrap().visited.contains(
            (st.x, st.y),
        ),
    decreases fuel,
{
    broadcast use vstd::set::group_set_axioms;

    if seen.contains(st) {
    } else {
        let (tk, st2) = spec_tick(m, st);
        if tk == TickOutcome::Exited {
        } else {
            lemma_tick_stays_in_bounds(m, st);
            lemma_run_from_visited(m, st2, seen.insert(st), (fuel - 1) as nat);
        }
    }
}


/// A single-cell update of the grid.
pub open spec fn grid_update(m: GridSeq, x: int, y: int, c: MapThing) -> GridSeq {
    m.update(y, m[y].update(x, c))
}

/// The grid the agent actually walks: the parsed grid with the start
/// marker replaced by an open cell.
pub open spec fn cleared(m: GridSeq) -> GridSeq {
    grid_update(m, start_of(m).0, start_of(m).1, MapThing::Empty)
}

/// The agent's initial configuration: the marked cell, facing up.
pub open spec fn start_state(m: GridSeq) -> AgentState {
    AgentState { x: start_of(m).0, y: start_of(m).1, facing: Direction::Up }
}

/// Fuel for one tick per distinct state, plus one.
pub open spec fn run_fuel(m: GridSeq) -> nat {
    (4 * grid_height(m) * grid_width(m) + 1) as nat
}

/// The complete patrol of a parsed grid, from its start marker with a
/// fresh cycle detector.
pub open spec fn patrol_result(m: GridSeq) -> Option<RunRes> {
    run_from(cleared(m), start_state(m), Set::empty(), run_fuel(m))
}

pub open spec fn patrol_outcome(m: GridSeq) -> RunOutcome {
    patrol_result(m).unwrap().outcome
}

/// The distinct cells the agent occupies during the patrol of `m`.
pub open spec fn visited_cells(m: GridSeq) -> Set<(int, int)> {
    patrol_result(m).unwrap().visited
}

/// The unique start marker of a well-formed grid is where `start_of`
/// says, and a single-cell update elsewhere keeps it unique.
pub proof fn lemma_start_cell(m: GridSeq)
    requires
        one_start(m),
    ensures
        is_start_cell(m, start_of(m).0, start_of(m).1),
{
    let p = choose|p: (int, int)| is_start_cell(m, p.0, p.1);
    assert(is_start_cell(m, p.0, p.1));
}

/// Clearing the marker keeps the grid rectangular with the same
/// dimensions, and the walked grid is bounded whenever the input is.
pub proof fn lemma_cleared_shape(m: GridSeq)
    requires
        grid_rect(m),
        one_start(m),
    ensures
        grid_rect(cleared(m)),
        grid_height(cleared(m)) == grid_height(m),
        grid_width(cleared(m)) == grid_width(m),
        forall|x: int, y: int|
            in_bounds(m, x, y) && (x, y) != start_of(m) ==> cleared(m)[y][x] == m[y][x],
        cleared(m)[start_of(m).1][start_of(m).0] == MapThing::Empty,
{
    lemma_start_cell(m);
    let (sx, sy) = start_of(m);
    let c = cleared(m);
    assert(c.len() == m.len());
    assert forall|y: int| 0 <= y < c.len() implies (#[trigger] c[y]).len() == c[0].len() by {
        assert(c[y].len() == m[y].len());
        assert(c[0].len() == m[0].len());
    }
}

/// The patrol of a well-formed grid always ends, in at most
/// `width * height * 4` ticks.
pub proof fn lemma_patrol_terminates(m: GridSeq)
    requires
        grid_input_wf(m),
    ensures
        patrol_result(m).is_some(),
        patrol_result(m).unwrap().ticks <= 4 * grid_height(m) * grid_width(m),
{
    lemma_cleared_shape(m);
    lemma_start_cell(m);
    lemma_run_from_terminates(cleared(m), start_state(m), Set::empty(), run_fuel(m));
}

/// The patrol of a well-formed grid visits its own starting cell: the
/// cell is recorded before the first tick.
pub proof fn lemma_start_cell_visited(m: GridSeq)
    requires
        grid_input_wf(m),
    ensures
        visited_cells(m).contains(start_of(m)),
        visited_cells(m).len() >= 1,
{
    broadcast use vstd::set::group_set_axioms;

    lemma_patrol_terminates(m);
    lemma_cleared_shape(m);
    lemma_start_cell(m);
    lemma_run_from_visited(cleared(m), start_state(m), Set::empty(), run_fuel(m));
    assert(visited_cells(m).contains((start_of(m).0, start_of(m).1)));
    vstd::set_lib::lemma_len_subset(
        set![start_of(m)],
        visited_cells(m),
    );
    assert(set![start_of(m)].len() == 1);
}


impl GameState {
    /// Build the running game from a parsed grid: locate the unique
    /// start marker, clear it to an open cell, and place the agent there
    /// facing up.
    pub fn create(input: &[Vec<MapThing>]) -> (gs: GameState)
        requires
            grid_rect(rows_view(input@)),
            grid_area_bounded(rows_view(input@)),
            one_start(rows_view(input@)),
        ensures
            gs.wf(),
            gs.grid() == cleared(rows_view(input@)),
            gs.state() == start_state(rows_view(input@)),
    {
        let ghost m = rows_view(input@);
        proof {
            lemma_start_cell(m);
            lemma_cleared_shape(m);
        }
        let height = input.len();
        let width = input[0].len();
        let mut px: usize = 0;
        let mut py: usize = 0;
        let mut found = false;
        let mut y: usize = 0;
        while y < height
            invariant
                m == rows_view(input@),
                grid_rect(m),
                height == grid_height(m),
                width == grid_width(m),
                y <= height,
                found ==> is_start_cell(m, px as int, py as int),
                !found ==> forall|i: int, j: int|
                    0 <= j < y && 0 <= i < width ==> !is_start_cell(m, i, j),
            decreases height - y,
        {
            let mut x: usize = 0;
            while x < width
                invariant
                    m == rows_view(input@),
                    grid_rect(m),
                    height == grid_height(m),
                    width == grid_width(m),
                    y < height,
                    x <= width,
                    found ==> is_start_cell(m, px as int, py as int),
                    !found ==> forall|i: int, j: int|
                        0 <= j < y && 0 <= i < width ==> !is_start_cell(m, i, j),
                    !found ==> forall|i: int| 0 <= i < x ==> !is_start_cell(m, i, y as int),
                decreases width - x,
            {
                proof {
                    assert(input@[y as int]@ == m[y as int]);
                }
                if input[y][x] == MapThing::Player(Direction::Up) {
                    px = x;
                    py = y;
                    found = true;
                }
                x += 1;
            }
            y += 1;
        }
        proof {
            if !found {
                let (sx, sy) = start_of(m);
                assert(is_start_cell(m, sx, sy));
                assert(false);
            }
            assert((px as int, py as int) == start_of(m));
        }
        let mut map: Vec<Vec<MapThing>> = Vec::new();
        let mut y: usize = 0;
        while y < height
            invariant
                m == rows_view(input@),
                grid_rect(m),
                one_start(m),
                height == grid_height(m),
                width == grid_width(m),
                y <= height,
                (px as int, py as int) == start_of(m),
                map@.len() == y,
                forall|j: int| 0 <= j < y ==> (#[trigger] map@[j])@ == cleared(m)[j],
            decreases height - y,
        {
            proof {
                lemma_cleared_shape(m);
            }
            let mut row: Vec<MapThing> = Vec::new();
            let mut x: usize = 0;
            while x < width
                invariant
                    m == rows_view(input@),
                    grid_rect(m),
                    one_start(m),
                    height == grid_height(m),
                    width == grid_width(m),
                    y < height,
                    x <= width,
                    (px as int, py as int) == start_of(m),
                    row@.len() == x,
                    forall|i: int| 0 <= i < x ==> row@[i] == cleared(m)[y as int][i],
                decreases width - x,
            {
                proof {
                    lemma_cleared_shape(m);
                    assert(input@[y as int]@ == m[y as int]);
                }
                let c = if y == py && x == px {
                    MapThing::Empty
                } else {
                    input[y][x]
                };
                row.push(c);
                x += 1;
            }
            proof {
                lemma_cleared_shape(m);
                assert(row@ =~= cleared(m)[y as int]);
            }
            map.push(row);
            y += 1;
        }
        let gs = GameState { player: Player { x: px, y: py, direction: Direction::Up }, map };
        proof {
            lemma_cleared_shape(m);
            assert(gs.grid() =~= cleared(m));
        }
        gs
    }
}


/// A grid cell the agent has occupied.
#[derive(Clone, Copy, Debug, PartialEq, Eq, Structural)]
pub struct Position {
    pub x: usize,
    pub y: usize,
}

/// A cycle-detector key: the agent's position and facing.
#[derive(Clone, Copy, Debug, PartialEq, Eq, Structural)]
pub struct StateKey {
    pub x: usize,
    pub y: usize,
    pub facing: Direction,
}

pub open spec fn key_state(k: StateKey) -> AgentState {
    AgentState { x: k.x as int, y: k.y as int, facing: k.facing }
}

pub open spec fn pos_pair(p: Position) -> (int, int) {
    (p.x as int, p.y as int)
}

fn contains_key(v: &Vec<StateKey>, k: StateKey) -> (r: bool)
    ensures
        r == exists|i: int| 0 <= i < v@.len() && v@[i] == k,
{
    let mut i: usize = 0;
    while i < v.len()
        invariant
            i <= v@.len(),
            forall|j: int| 0 <= j < i ==> v@[j] != k,
        decreases v@.len() - i,
    {
        if v[i] == k {
            assert(v@[i as int] == k);
            return true;
        }
        i += 1;
    }
    false
}

fn contains_pos(v: &Vec<Position>, p: Position) -> (r: bool)
    ensures
        r == exists|i: int| 0 <= i < v@.len() && v@[i] == p,
{
    let mut i: usize = 0;
    while i < v.len()
        invariant
            i <= v@.len(),
            forall|j: int| 0 <= j < i ==> v@[j] != p,
        decreases v@.len() - i,
    {
        if v[i] == p {
            assert(v@[i as int] == p);
            return true;
        }
        i += 1;
    }
    false
}

/// Run the patrol to completion from `gs` with a fresh cycle detector
/// and a fresh visited record.  Returns the terminal outcome and the
/// distinct cells the agent occupied, one entry per cell.
#[verifier::rlimit(60)]
pub fn run_patrol(gs: GameState) -> (r: (RunOutcome, Vec<Position>))
    requires
        gs.wf(),
    ensures
        run_from(gs.grid(), gs.state(), Set::empty(), run_fuel(gs.grid())).is_some(),
        r.0 == run_from(gs.grid(), gs.state(), Set::empty(), run_fuel(gs.grid())).unwrap().outcome,
        r.1@.len() == run_from(
            gs.grid(),
            gs.state(),
            Set::empty(),
            run_fuel(gs.grid()),
        ).unwrap().visited.len(),
        forall|i: int|
            0 <= i < r.1@.len() ==> run_from(
                gs.grid(),
                gs.state(),
                Set::empty(),
                run_fuel(gs.grid()),
            ).unwrap().visited.contains(pos_pair(#[trigger] r.1@[i])),
        forall|p: (int, int)|
            run_from(gs.grid(), gs.state(), Set::empty(), run_fuel(gs.grid())).unwrap(
            ).visited.contains(p) ==> exists|i: int|
                0 <= i < r.1@.len() && pos_pair(#[trigger] r.1@[i]) == p,
{
    broadcast use vstd::set::group_set_axioms;

    let ghost m = gs.grid();
    let ghost st0 = gs.state();
    let ghost fuel0 = run_fuel(m);
    let mut gs = gs;
    let h = gs.map.len();
    let w = gs.map[0].len();
    assert(grid_height(m) == h as int && grid_width(m) == w as int);
    assert(fuel0 == 4 * (h as int) * (w as int) + 1 && 4 * (h as int) <= u64::MAX && 4 * (
    h as int) * (w as int) <= u64::MAX && 4 * (h as int) * (w as int) + 1 <= u64::MAX)
        by (nonlinear_arith)
        requires
            (h as int) * (w as int) <= 0x4000_0000,
            h as int >= 1,
            w as int >= 1,
            fuel0 == (4 * (h as int) * (w as int) + 1) as nat,
    ;
    let mut fuel: u64 = 4 * (h as u64) * (w as u64) + 1;
    let mut seen: Vec<StateKey> = Vec::new();
    let ghost mut seen_set: Set<AgentState> = Set::empty();
    let mut visited: Vec<Position> = Vec::new();
    let ghost mut visited_set: Set<(int, int)> = Set::empty();
    let mut outcome = RunOutcome::Exited;
    proof {
        lemma_run_from_terminates(m, st0, Set::empty(), fuel0);
        assert(run_from(m, st0, Set::empty(), fuel0).unwrap().visited =~= run_from(
            m,
            st0,
            Set::empty(),
            fuel0,
        ).unwrap().visited.union(visited_set));
    }
    loop
        invariant_except_break
            gs.wf(),
            gs.grid() == m,
            grid_rect(m),
            grid_area_bounded(m),
            fuel0 == 4 * grid_height(m) * grid_width(m) + 1,
            seen_set.finite(),
            visited_set.finite(),
            forall|s: AgentState| seen_set.contains(s) ==> in_bounds(m, s.x, s.y),
            forall|i: int| 0 <= i < seen@.len() ==> seen_set.contains(key_state(#[trigger] seen@[i])),
            forall|s: AgentState|
                seen_set.contains(s) ==> exists|i: int|
                    0 <= i < seen@.len() && key_state(#[trigger] seen@[i]) == s,
            fuel as int == fuel0 - seen_set.len(),
            forall|p: (int, int)| visited_set.contains(p) ==> in_bounds(m, p.0, p.1),
            visited@.len() == visited_set.len(),
            forall|i: int|
                0 <= i < visited@.len() ==> visited_set.contains(pos_pair(#[trigger] visited@[i])),
            forall|p: (int, int)|
                visited_set.contains(p) ==> exists|i: int|
                    0 <= i < visited@.len() && pos_pair(#[trigger] visited@[i]) == p,
            ({
                let full = run_from(m, st0, Set::empty(), fuel0);
                let rem = run_from(m, gs.state(), seen_set, fuel as nat);
                &&& full.is_some()
                &&& rem.is_some()
                &&& full.unwrap().outcome == rem.unwrap().outcome
                &&& full.unwrap().visited == rem.unwrap().visited.union(visited_set)
            }),
        ensures
            ({
                let full = run_from(m, st0, Set::empty(), fuel0);
                &&& full.is_some()
                &&& full.unwrap().outcome == outcome
                &&& full.unwrap().visited == visited_set
            }),
            visited@.len() == visited_set.len(),
            forall|i: int|
                0 <= i < visited@.len() ==> visited_set.contains(pos_pair(#[trigger] visited@[i])),
            forall|p: (int, int)|
                visited_set.contains(p) ==> exists|i: int|
                    0 <= i < visited@.len() && pos_pair(#[trigger] visited@[i]) == p,
        decreases fuel,
    {
        broadcast use vstd::set::group_set_axioms;

        proof {
            lemma_run_from_terminates(m, gs.state(), seen_set, fuel as nat);
        }
        let key = StateKey { x: gs.player.x, y: gs.player.y, facing: gs.player.direction };
        assert(key_state(key) == gs.state());
        if contains_key(&seen, key) {
            proof {
                let i = choose|i: int| 0 <= i < seen@.len() && seen@[i] == key;
                assert(seen_set.contains(key_state(seen@[i])));
                assert(seen_set.contains(gs.state()));
                assert(run_from(m, st0, Set::empty(), fuel0).unwrap().visited =~= visited_set);
            }
            outcome = RunOutcome::Looping;
            break;
        }
        proof {
            if seen_set.contains(gs.state()) {
                let i = choose|i: int|
                    0 <= i < seen@.len() && key_state(#[trigger] seen@[i]) == gs.state();
                assert(seen@[i] == key);
                assert(false);
            }
        }
        let ghost old_seen_set = seen_set;
        let ghost old_seen_seq = seen@;
        let ghost old_visited_set = visited_set;
        let ghost old_visited_seq = visited@;
        let ghost old_state = gs.state();
        seen.push(key);
        proof {
            seen_set = seen_set.insert(old_state);
            assert forall|s: AgentState| seen_set.contains(s) implies exists|i: int|
                0 <= i < seen@.len() && key_state(#[trigger] seen@[i]) == s by {
                if old_seen_set.contains(s) {
                    let i = choose|i: int|
                        0 <= i < old_seen_seq.len() && key_state(#[trigger] old_seen_seq[i]) == s;
                    assert(key_state(seen@[i]) == s);
                } else {
                    assert(key_state(seen@[seen@.len() - 1]) == s);
                }
            }
        }
        let pos = Position { x: gs.player.x, y: gs.player.y };
        if !contains_pos(&visited, pos) {
            proof {
                if visited_set.contains(pos_pair(pos)) {
                    let i = choose|i: int|
                        0 <= i < visited@.len() && pos_pair(#[trigger] visited@[i]) == pos_pair(
                            pos,
                        );
                    assert(visited@[i] == pos);
                    assert(false);
                }
            }
            visited.push(pos);
            proof {
                visited_set = visited_set.insert(pos_pair(pos));
            }
        } else {
            proof {
                let i = choose|i: int| 0 <= i < visited@.len() && visited@[i] == pos;
                assert(visited_set.contains(pos_pair(visited@[i])));
                assert(visited_set.insert(pos_pair(pos)) =~= visited_set);
                visited_set = visited_set.insert(pos_pair(pos));
            }
        }
        proof {
            assert forall|q: (int, int)| visited_set.contains(q) implies exists|i: int|
                0 <= i < visited@.len() && pos_pair(#[trigger] visited@[i]) == q by {
                if old_visited_set.contains(q) {
                    let i = choose|i: int|
                        0 <= i < old_visited_seq.len() && pos_pair(#[trigger] old_visited_seq[i])
                            == q;
                    assert(pos_pair(visited@[i]) == q);
                } else {
                    assert(q == pos_pair(pos));
                    assert(pos_pair(visited@[visited@.len() - 1]) == q);
                }
            }
        }
        fuel = fuel - 1;
        let tick_res = gs.tick();
        gs = tick_res.0;
        let tk = tick_res.1;
        proof {
            let full = run_from(m, st0, Set::empty(), fuel0);
            let rem_old = run_from(m, old_state, old_seen_set, (fuel + 1) as nat);
            if tk == TickOutcome::Exited {
                assert(rem_old.unwrap().visited =~= set![(old_state.x, old_state.y)]);
                assert(full.unwrap().visited =~= visited_set);
            } else {
                let rem_new = run_from(m, gs.state(), seen_set, fuel as nat);
                assert(rem_old.unwrap().visited =~= rem_new.unwrap().visited.insert(
                    (old_state.x, old_state.y),
                ));
                assert(full.unwrap().visited =~= rem_new.unwrap().visited.union(visited_set));
            }
        }
        if tk == TickOutcome::Exited {
            outcome = RunOutcome::Exited;
            break;
        }
    }
    let ghost vseq = visited@;
    let rr = (outcome, visited);
    proof {
        assert forall|p: (int, int)|
            run_from(m, st0, Set::empty(), fuel0).unwrap().visited.contains(p) implies exists|
                i: int,
            |
                0 <= i < rr.1@.len() && pos_pair(#[trigger] rr.1@[i]) == p by {
            let i = choose|i: int| 0 <= i < vseq.len() && pos_pair(#[trigger] vseq[i]) == p;
            assert(0 <= i < rr.1@.len() && pos_pair(rr.1@[i]) == p);
        }
    }
    rr
}


/// Count the distinct cells the agent occupies before its patrol of the
/// parsed grid ends.
pub fn solve_part_one(input: &[Vec<MapThing>]) -> (r: i32)
    requires
        grid_input_wf(rows_view(input@)),
    ensures
        r == visited_cells(rows_view(input@)).len(),
{
    let ghost m = rows_view(input@);
    let gs = GameState::create(input);
    proof {
        lemma_cleared_shape(m);
    }
    let run = run_patrol(gs);
    let visited = run.1;
    proof {
        assert(run_fuel(cleared(m)) == run_fuel(m));
        lemma_patrol_terminates(m);
        lemma_start_cell(m);
        lemma_run_from_visited(cleared(m), start_state(m), Set::empty(), run_fuel(m));
        lemma_positions_len_bound(cleared(m), visited_cells(m));
        assert(grid_height(m) * grid_width(m) <= 0x4000_0000);
        assert(visited@.len() <= 0x4000_0000);
    }
    visited.len() as i32
}

/// Whether turning the empty cell `(x, y)` into an obstacle makes the
/// patrol loop instead of exiting.
pub fn check_for_loop(input: &[Vec<MapThing>], x: usize, y: usize) -> (r: bool)
    requires
        grid_input_wf(rows_view(input@)),
        in_bounds(rows_view(input@), x as int, y as int),
        rows_view(input@)[y as int][x as int] == MapThing::Empty,
    ensures
        r == (patrol_outcome(
            grid_update(rows_view(input@), x as int, y as int, MapThing::Obstacle),
        ) == RunOutcome::Looping),
{
    let ghost m = rows_view(input@);
    let ghost m2 = grid_update(m, x as int, y as int, MapThing::Obstacle);
    proof {
        lemma_trial_wf(m, x as int, y as int);
    }
    let height = input.len();
    let width = input[0].len();
    let mut map: Vec<Vec<MapThing>> = Vec::new();
    let mut j: usize = 0;
    while j < height
        invariant
            m == rows_view(input@),
            m2 == grid_update(m, x as int, y as int, MapThing::Obstacle),
            grid_rect(m),
            grid_rect(m2),
            in_bounds(m, x as int, y as int),
            height == grid_height(m),
            width == grid_width(m),
            j <= height,
            map@.len() == j,
            forall|a: int| 0 <= a < j ==> (#[trigger] map@[a])@ == m2[a],
        decreases height - j,
    {
        let mut row: Vec<MapThing> = Vec::new();
        let mut i: usize = 0;
        while i < width
            invariant
                m == rows_view(input@),
                m2 == grid_update(m, x as int, y as int, MapThing::Obstacle),
                grid_rect(m),
                grid_rect(m2),
                in_bounds(m, x as int, y as int),
                height == grid_height(m),
                width == grid_width(m),
                j < height,
                i <= width,
                row@.len() == i,
                forall|a: int| 0 <= a < i ==> row@[a] == m2[j as int][a],
            decreases width - i,
        {
            proof {
                assert(input@[j as int]@ == m[j as int]);
            }
            let c = if j == y && i == x {
                MapThing::Obstacle
            } else {
                input[j][i]
            };
            row.push(c);
            i += 1;
        }
        proof {
            assert(row@ =~= m2[j as int]);
        }
        map.push(row);
        j += 1;
    }
    proof {
        assert(rows_view(map@) =~= m2);
    }
    let gs = GameState::create(map.as_slice());
    proof {
        lemma_cleared_shape(m2);
        assert(run_fuel(cleared(m2)) == run_fuel(m2));
        lemma_patrol_terminates(m2);
    }
    let run = run_patrol(gs);
    run.0 == RunOutcome::Looping
}

/// A single-cell change of an empty non-start cell to an obstacle keeps
/// the grid well formed and keeps the same start.
pub proof fn lemma_trial_wf(m: GridSeq, x: int, y: int)
    requires
        grid_input_wf(m),
        in_bounds(m, x, y),
        m[y][x] == MapThing::Empty,
    ensures
        grid_input_wf(grid_update(m, x, y, MapThing::Obstacle)),
        start_of(grid_update(m, x, y, MapThing::Obstacle)) == start_of(m),
        grid_height(grid_update(m, x, y, MapThing::Obstacle)) == grid_height(m),
        grid_width(grid_update(m, x, y, MapThing::Obstacle)) == grid_width(m),
{
    lemma_start_cell(m);
    let m2 = grid_update(m, x, y, MapThing::Obstacle);
    assert(m2.len() == m.len());
    assert forall|j: int| 0 <= j < m2.len() implies (#[trigger] m2[j]).len() == m2[0].len() by {
        assert(m2[j].len() == m[j].len());
        assert(m2[0].len() == m[0].len());
    }
    assert forall|i: int, j: int| in_bounds(m2, i, j) implies #[trigger] m2[j][i] == (if i == x
        && j == y {
        MapThing::Obstacle
    } else {
        m[j][i]
    }) by {
        assert(m2[j].len() == m[j].len());
    }
    assert(is_start_cell(m2, start_of(m).0, start_of(m).1));
    assert(forall|i: int, j: int| is_start_cell(m2, i, j) ==> is_start_cell(m, i, j));
    let p2 = choose|p: (int, int)| is_start_cell(m2, p.0, p.1);
    assert(is_start_cell(m2, p2.0, p2.1));
    assert(p2 == start_of(m));
}

/// The cells of the original grid where a hypothetical obstacle may be
/// placed: every empty cell.  The agent's own starting cell holds the
/// start marker, not an empty cell, so it is never a candidate.
pub open spec fn candidate_cells(m: GridSeq) -> Set<(int, int)> {
    Set::new(|p: (int, int)| in_bounds(m, p.0, p.1) && m[p.1][p.0] == MapThing::Empty)
}

/// The candidates whose obstacle makes the patrol loop forever.
pub open spec fn loop_candidates(m: GridSeq) -> Set<(int, int)> {
    Set::new(
        |p: (int, int)|
            candidate_cells(m).contains(p) && patrol_outcome(
                grid_update(m, p.0, p.1, MapThing::Obstacle),
            ) == RunOutcome::Looping,
    )
}

/// The obstacle search never considers the agent's own starting cell.
pub proof fn lemma_start_not_candidate(m: GridSeq)
    requires
        grid_input_wf(m),
    ensures
        !candidate_cells(m).contains(start_of(m)),
        !loop_candidates(m).contains(start_of(m)),
{
    lemma_start_cell(m);
}


/// The loop-inducing candidates among the cells strictly before column
/// `x` of row `y` in row-major order.
pub open spec fn loop_candidates_before(m: GridSeq, y: int, x: int) -> Set<(int, int)> {
    Set::new(
        |p: (int, int)| loop_candidates(m).contains(p) && (p.1 < y || (p.1 == y && p.0 < x)),
    )
}

/// Count the single-cell obstacle insertions that turn the patrol into
/// an infinite loop: every empty cell of the parsed grid is tried in
/// turn, with a fresh and independent simulation per trial grid.
pub fn solve_part_two(input: &[Vec<MapThing>]) -> (r: i32)
    requires
        grid_input_wf(rows_view(input@)),
    ensures
        r == loop_candidates(rows_view(input@)).len(),
{
    broadcast use vstd::set::group_set_axioms;

    let ghost m = rows_view(input@);
    let height = input.len();
    let width = input[0].len();
    let mut count: i32 = 0;
    let ghost mut cset: Set<(int, int)> = Set::empty();
    proof {
        assert(cset =~= loop_candidates_before(m, 0, 0));
    }
    let mut y: usize = 0;
    while y < height
        invariant
            m == rows_view(input@),
            grid_input_wf(m),
            height == grid_height(m),
            width == grid_width(m),
            y <= height,
            cset.finite(),
            cset == loop_candidates_before(m, y as int, 0),
            count == cset.len(),
            forall|p: (int, int)| cset.contains(p) ==> in_bounds(m, p.0, p.1),
        decreases height - y,
    {
        let mut x: usize = 0;
        while x < width
            invariant
                m == rows_view(input@),
                grid_input_wf(m),
                height == grid_height(m),
                width == grid_width(m),
                y < height,
                x <= width,
                cset.finite(),
                cset == loop_candidates_before(m, y as int, x as int),
                count == cset.len(),
                forall|p: (int, int)| cset.contains(p) ==> in_bounds(m, p.0, p.1),
            decreases width - x,
        {
            proof {
                assert(input@[y as int]@ == m[y as int]);
            }
            let is_empty_cell = input[y][x] == MapThing::Empty;
            if is_empty_cell && check_for_loop(input, x, y) {
                proof {
                    lemma_positions_len_bound(m, cset);
                    assert(grid_height(m) * grid_width(m) <= 0x4000_0000);
                    assert(!cset.contains((x as int, y as int)));
                    cset = cset.insert((x as int, y as int));
                }
                count = count + 1;
            }
            proof {
                assert(cset =~= loop_candidates_before(m, y as int, x as int + 1));
            }
            x += 1;
        }
        proof {
            assert(cset =~= loop_candidates_before(m, y as int + 1, 0));
        }
        y += 1;
    }
    proof {
        assert(cset =~= loop_candidates(m));
    }
    count
}

/// A grid with no obstacle at all.
pub open spec fn obstacle_free(m: GridSeq) -> bool {
    forall|x: int, y: int| in_bounds(m, x, y) ==> #[trigger] m[y][x] != MapThing::Obstacle
}

/// On an obstacle-free grid the agent never turns: facing up it walks a
/// straight line to the top edge and exits.
proof fn lemma_straight_up_exits(m: GridSeq, st: AgentState, seen: Set<AgentState>, fuel: nat)
    requires
        grid_rect(m),
        obstacle_free(m),
        in_bounds(m, st.x, st.y),
        st.facing == Direction::Up,
        forall|yy: int|
            0 <= yy <= st.y ==> !seen.contains(AgentState { x: st.x, y: yy, facing: Direction::Up }),
        fuel > st.y,
    ensures
        run_from(m, st, seen, fuel).is_some(),
        run_from(m, st, seen, fuel).unwrap().outcome == RunOutcome::Exited,
    decreases st.y,
{
    assert(!seen.contains(st));
    let (tk, st2) = spec_tick(m, st);
    if st.y == 0 {
        assert(tk == TickOutcome::Exited);
    } else {
        assert(in_bounds(m, st.x, st.y - 1));
        assert(m[st.y - 1][st.x] != MapThing::Obstacle);
        assert(tk == TickOutcome::Moved);
        assert(st2 == AgentState { x: st.x, y: st.y - 1, facing: Direction::Up });
        lemma_straight_up_exits(m, st2, seen.insert(st), (fuel - 1) as nat);
    }
}

/// On a grid with no obstacles the patrol always ends `Exited`, never
/// `Looping`: no rotation is ever triggered and the agent walks
/// straight off the top edge.
pub proof fn lemma_obstacle_free_exits(m: GridSeq)
    requires
        grid_input_wf(m),
        obstacle_free(m),
    ensures
        patrol_result(m).is_some(),
        patrol_outcome(m) == RunOutcome::Exited,
{
    lemma_cleared_shape(m);
    lemma_start_cell(m);
    let c = cleared(m);
    assert(obstacle_free(c)) by {
        assert forall|x: int, y: int| in_bounds(c, x, y) implies #[trigger] c[y][x]
            != MapThing::Obstacle by {
            if (x, y) == start_of(m) {
                assert(c[y][x] == MapThing::Empty);
            } else {
                assert(c[y][x] == m[y][x]);
            }
        }
    }
    let st = start_state(m);
    assert(st.y < grid_height(m));
    assert(4 * grid_height(m) * grid_width(m) >= grid_height(m)) by (nonlinear_arith)
        requires
            grid_height(m) >= 1,
            grid_width(m) >= 1,
    ;
    assert(run_fuel(m) > st.y);
    lemma_straight_up_exits(c, st, Set::empty(), run_fuel(m));
}

/// The two patrol counts are functions of the parsed grid alone: two
/// runs over equal grids give equal results, and the loop count is the
/// cardinality of a set of cells, independent of any enumeration order.
pub proof fn lemma_counts_deterministic(a: GridSeq, b: GridSeq)
    requires
        a == b,
    ensures
        visited_cells(a) == visited_cells(b),
        visited_cells(a).len() == visited_cells(b).len(),
        loop_candidates(a) == loop_candidates(b),
        loop_candidates(a).len() == loop_candidates(b).len(),
{
}



} // verus!
