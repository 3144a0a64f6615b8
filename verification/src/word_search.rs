//! Counting words in a letter grid: straight-line `XMAS` in any of the
//! eight directions, and two crossed `MAS` strokes around a centre.

use vstd::prelude::*;

verus! {

/// The four letters the grid is made of.
#[derive(Clone, Copy, Debug, PartialEq, Eq, Structural)]
pub enum Characters {
    X,
    M,
    A,
    S,
}

/// The rows of the letter grid, seen as sequences.
pub type CharRows = Seq<Vec<Characters>>;

/// Whether `(y, x)` denotes a cell of the (possibly ragged) grid.
pub open spec fn cell_in(rows: CharRows, y: int, x: int) -> bool {
    0 <= y < rows.len() && 0 <= x < rows[y]@.len()
}

pub open spec fn char_at(rows: CharRows, y: int, x: int) -> Characters {
    rows[y]@[x]
}

/// Coordinate bound under which four steps of a unit vector cannot
/// overflow the machine integers.
pub open spec fn coord_small(c: (i32, i32)) -> bool {
    -0x1000_0000 <= c.0 <= 0x1000_0000 && -0x1000_0000 <= c.1 <= 0x1000_0000
}

/// The componentwise sum of two coordinate vectors.
pub fn add_vector(a: (i32, i32), b: (i32, i32)) -> (r: (i32, i32))
    requires
        i32::MIN <= a.0 + b.0 <= i32::MAX,
        i32::MIN <= a.1 + b.1 <= i32::MAX,
    ensures
        r.0 == a.0 + b.0,
        r.1 == a.1 + b.1,
{
    (a.0 + b.0, a.1 + b.1)
}

/// The word `XMAS` read from `start`, one step of `v` per letter, all
/// four letters on the grid.
pub open spec fn xmas_at(rows: CharRows, start: (int, int), v: (int, int)) -> bool {
    &&& cell_in(rows, start.0, start.1)
    &&& cell_in(rows, start.0 + v.0, start.1 + v.1)
    &&& cell_in(rows, start.0 + 2 * v.0, start.1 + 2 * v.1)
    &&& cell_in(rows, start.0 + 3 * v.0, start.1 + 3 * v.1)
    &&& char_at(rows, start.0, start.1) == Characters::X
    &&& char_at(rows, start.0 + v.0, start.1 + v.1) == Characters::M
    &&& char_at(rows, start.0 + 2 * v.0, start.1 + 2 * v.1) == Characters::A
    &&& char_at(rows, start.0 + 3 * v.0, start.1 + 3 * v.1) == Characters::S
}

/// Read one cell, if it is on the grid.  Coordinates are `(y, x)`.
fn char_of(input: &[Vec<Characters>], y: i32, x: i32) -> (r: Option<Characters>)
    ensures
        r.is_some() <==> cell_in(input@, y as int, x as int),
        r matches Some(c) ==> c == char_at(input@, y as int, x as int),
{
    if y < 0 || x < 0 {
        return None;
    }
    let yy = y as usize;
    let xx = x as usize;
    if yy >= input.len() {
        return None;
    }
    if xx >= input[yy].len() {
        return None;
    }
    Some(input[yy][xx])
}

/// Whether `XMAS` is read from `starting_cordinates` along `vector`.
pub fn get_xmas(input: &[Vec<Characters>], starting_cordinates: (i32, i32), vector: (i32, i32)) -> (r:
    bool)
    requires
        coord_small(starting_cordinates),
        coord_small(vector),
    ensures
        r == xmas_at(
            input@,
            (starting_cordinates.0 as int, starting_cordinates.1 as int),
            (vector.0 as int, vector.1 as int),
        ),
{
    let c0 = char_of(input, starting_cordinates.0, starting_cordinates.1);
    let p1 = add_vector(starting_cordinates, vector);
    let c1 = char_of(input, p1.0, p1.1);
    let v2 = add_vector(vector, vector);
    let p2 = add_vector(starting_cordinates, v2);
    let c2 = char_of(input, p2.0, p2.1);
    let v3 = add_vector(vector, v2);
    let p3 = add_vector(starting_cordinates, v3);
    let c3 = char_of(input, p3.0, p3.1);
    c0 == Some(Characters::X) && c1 == Some(Characters::M) && c2 == Some(Characters::A) && c3
        == Some(Characters::S)
}

/// The four diagonal neighbours of `start`, read in the fixed order
/// up-left, up-right, down-right, down-left, spelling two crossed
/// `MAS` strokes: `MMSS` in some rotation.
pub open spec fn cross_at(rows: CharRows, start: (int, int)) -> bool {
    &&& cell_in(rows, start.0 - 1, start.1 - 1)
    &&& cell_in(rows, start.0 - 1, start.1 + 1)
    &&& cell_in(rows, start.0 + 1, start.1 + 1)
    &&& cell_in(rows, start.0 + 1, start.1 - 1)
    &&& ({
        let a = char_at(rows, start.0 - 1, start.1 - 1);
        let b = char_at(rows, start.0 - 1, start.1 + 1);
        let c = char_at(rows, start.0 + 1, start.1 + 1);
        let d = char_at(rows, start.0 + 1, start.1 - 1);
        ||| (a == Characters::M && b == Characters::M && c == Characters::S && d == Characters::S)
        ||| (a == Characters::S && b == Characters::M && c == Characters::M && d == Characters::S)
        ||| (a == Characters::S && b == Characters::S && c == Characters::M && d == Characters::M)
        ||| (a == Characters::M && b == Characters::S && c == Characters::S && d == Characters::M)
    })
}

/// Whether two crossed `MAS` strokes surround `starting_cordinates`.
pub fn get_cross(input: &[Vec<Characters>], starting_cordinates: (i32, i32)) -> (r: bool)
    requires
        coord_small(starting_cordinates),
    ensures
        r == cross_at(input@, (starting_cordinates.0 as int, starting_cordinates.1 as int)),
{
    let s = starting_cordinates;
    let a = char_of(input, s.0 - 1, s.1 - 1);
    let b = char_of(input, s.0 - 1, s.1 + 1);
    let c = char_of(input, s.0 + 1, s.1 + 1);
    let d = char_of(input, s.0 + 1, s.1 - 1);
    match (a, b, c, d) {
        (Some(a), Some(b), Some(c), Some(d)) => {
            (a == Characters::M && b == Characters::M && c == Characters::S && d == Characters::S)
                || (a == Characters::S && b == Characters::M && c == Characters::M && d
                == Characters::S) || (a == Characters::S && b == Characters::S && c
                == Characters::M && d == Characters::M) || (a == Characters::M && b
                == Characters::S && c == Characters::S && d == Characters::M)
        },
        _ => false,
    }
}

/// The eight straight-line directions.
pub open spec fn xmas_vectors() -> Seq<(int, int)> {
    seq![(1, 1), (1, 0), (1, -1), (0, 1), (0, -1), (-1, 1), (-1, 0), (-1, -1)]
}

/// How many of the first `k` directions spell `XMAS` from `(y, x)`,
/// counted only from an `X` cell.
pub open spec fn cell_hits(rows: CharRows, y: int, x: int, k: int) -> int
    decreases k,
{
    if k <= 0 || !cell_in(rows, y, x) || char_at(rows, y, x) != Characters::X {
        0
    } else {
        cell_hits(rows, y, x, k - 1) + if xmas_at(rows, (y, x), xmas_vectors()[k - 1]) {
            1int
        } else {
            0int
        }
    }
}

/// The `XMAS` hits of the first `x` cells of row `y`.
pub open spec fn xmas_row_prefix(rows: CharRows, y: int, x: int) -> int
    decreases x,
{
    if x <= 0 {
        0
    } else {
        xmas_row_prefix(rows, y, x - 1) + cell_hits(rows, y, x - 1, 8)
    }
}

/// The `XMAS` hits of the first `y` rows.
pub open spec fn xmas_rows_prefix(rows: CharRows, y: int) -> int
    decreases y,
{
    if y <= 0 {
        0
    } else {
        xmas_rows_prefix(rows, y - 1) + xmas_row_prefix(rows, y - 1, rows[y - 1]@.len() as int)
    }
}

/// The number of straight-line `XMAS` occurrences in the grid.
pub open spec fn xmas_total(rows: CharRows) -> int {
    xmas_rows_prefix(rows, rows.len() as int)
}

/// The crossed-`MAS` hits of the first `x` cells of row `y`, counted
/// only at an `A` cell.
pub open spec fn cross_row_prefix(rows: CharRows, y: int, x: int) -> int
    decreases x,
{
    if x <= 0 {
        0
    } else {
        cross_row_prefix(rows, y, x - 1) + if cell_in(rows, y, x - 1) && char_at(rows, y, x - 1)
            == Characters::A && cross_at(rows, (y, x - 1)) {
            1int
        } else {
            0int
        }
    }
}

pub open spec fn cross_rows_prefix(rows: CharRows, y: int) -> int
    decreases y,
{
    if y <= 0 {
        0
    } else {
        cross_rows_prefix(rows, y - 1) + cross_row_prefix(rows, y - 1, rows[y - 1]@.len() as int)
    }
}

/// The number of crossed-`MAS` occurrences in the grid.
pub open spec fn cross_total(rows: CharRows) -> int {
    cross_rows_prefix(rows, rows.len() as int)
}

proof fn lemma_cell_hits_bound(rows: CharRows, y: int, x: int, k: int)
    ensures
        0 <= cell_hits(rows, y, x, k),
        k >= 0 ==> cell_hits(rows, y, x, k) <= k,
    decreases k,
{
    if k > 0 {
        lemma_cell_hits_bound(rows, y, x, k - 1);
    }
}

proof fn lemma_xmas_row_bound(rows: CharRows, y: int, x: int)
    requires
        x >= 0,
    ensures
        0 <= xmas_row_prefix(rows, y, x) <= 8 * x,
    decreases x,
{
    if x > 0 {
        lemma_xmas_row_bound(rows, y, x - 1);
        lemma_cell_hits_bound(rows, y, x - 1, 8);
    }
}

proof fn lemma_cross_row_bound(rows: CharRows, y: int, x: int)
    requires
        x >= 0,
    ensures
        0 <= cross_row_prefix(rows, y, x) <= x,
    decreases x,
{
    if x > 0 {
        lemma_cross_row_bound(rows, y, x - 1);
    }
}

/// Count every straight-line `XMAS` in the grid, each starting cell
/// and direction counted separately.
pub fn solve_part_one(input: &[Vec<Characters>]) -> (r: i32)
    requires
        input@.len() <= 10000,
        forall|y: int| 0 <= y < input@.len() ==> (#[trigger] input@[y])@.len() <= 10000,
    ensures
        r == xmas_total(input@),
{
    let mut count: i32 = 0;
    let mut y: usize = 0;
    while y < input.len()
        invariant
            input@.len() <= 10000,
            forall|q: int| 0 <= q < input@.len() ==> (#[trigger] input@[q])@.len() <= 10000,
            y <= input@.len(),
            count == xmas_rows_prefix(input@, y as int),
            0 <= count <= (y as int) * 80000,
        decreases input@.len() - y,
    {
        let width = input[y].len();
        let mut x: usize = 0;
        while x < width
            invariant
                input@.len() <= 10000,
                forall|q: int| 0 <= q < input@.len() ==> (#[trigger] input@[q])@.len() <= 10000,
                y < input@.len(),
                width == input@[y as int]@.len(),
                x <= width,
                count == xmas_rows_prefix(input@, y as int) + xmas_row_prefix(
                    input@,
                    y as int,
                    x as int,
                ),
                0 <= count <= (y as int) * 80000 + 8 * (x as int),
            decreases width - x,
        {
            let is_x = input[y][x] == Characters::X;
            let mut hits: i32 = 0;
            if is_x {
                let vectors: [(i32, i32); 8] = [
                    (1, 1),
                    (1, 0),
                    (1, -1),
                    (0, 1),
                    (0, -1),
                    (-1, 1),
                    (-1, 0),
                    (-1, -1),
                ];
                let mut k: usize = 0;
                while k < 8
                    invariant
                        input@.len() <= 10000,
                        forall|q: int|
                            0 <= q < input@.len() ==> (#[trigger] input@[q])@.len() <= 10000,
                        y < input@.len(),
                        x < input@[y as int]@.len(),
                        char_at(input@, y as int, x as int) == Characters::X,
                        vectors@.len() == 8,
                        forall|q: int|
                            0 <= q < 8 ==> (#[trigger] vectors@[q].0 as int, vectors@[q].1 as int)
                                == xmas_vectors()[q],
                        k <= 8,
                        hits == cell_hits(input@, y as int, x as int, k as int),
                        0 <= hits <= k,
                    decreases 8 - k,
                {
                    let v = vectors[k];
                    let found = get_xmas(input, (y as i32, x as i32), v);
                    if found {
                        hits += 1;
                    }
                    k += 1;
                }
            }
            proof {
                if !is_x {
                    assert(cell_hits(input@, y as int, x as int, 8) == 0);
                }
                lemma_cell_hits_bound(input@, y as int, x as int, 8);
            }
            count = count + hits;
            x += 1;
        }
        proof {
            assert((y as int) * 80000 + 80000 == (y as int + 1) * 80000) by (nonlinear_arith);
            assert((y as int + 1) * 80000 <= 10000 * 80000) by (nonlinear_arith)
                requires
                    y as int + 1 <= 10000,
            ;
            lemma_xmas_row_bound(input@, y as int, width as int);
        }
        y += 1;
    }
    count
}

/// Count every crossed-`MAS` centre in the grid.
pub fn solve_part_two(input: &[Vec<Characters>]) -> (r: i32)
    requires
        input@.len() <= 10000,
        forall|y: int| 0 <= y < input@.len() ==> (#[trigger] input@[y])@.len() <= 10000,
    ensures
        r == cross_total(input@),
{
    let mut count: i32 = 0;
    let mut y: usize = 0;
    while y < input.len()
        invariant
            input@.len() <= 10000,
            forall|q: int| 0 <= q < input@.len() ==> (#[trigger] input@[q])@.len() <= 10000,
            y <= input@.len(),
            count == cross_rows_prefix(input@, y as int),
            0 <= count <= (y as int) * 10000,
        decreases input@.len() - y,
    {
        let width = input[y].len();
        let mut x: usize = 0;
        while x < width
            invariant
                input@.len() <= 10000,
                forall|q: int| 0 <= q < input@.len() ==> (#[trigger] input@[q])@.len() <= 10000,
                y < input@.len(),
                width == input@[y as int]@.len(),
                x <= width,
                count == cross_rows_prefix(input@, y as int) + cross_row_prefix(
                    input@,
                    y as int,
                    x as int,
                ),
                0 <= count <= (y as int) * 10000 + (x as int),
            decreases width - x,
        {
            let is_a = input[y][x] == Characters::A;
            if is_a {
                let found = get_cross(input, (y as i32, x as i32));
                if found {
                    count = count + 1;
                }
            }
            x += 1;
        }
        proof {
            assert((y as int) * 10000 + 10000 == (y as int + 1) * 10000) by (nonlinear_arith);
            assert((y as int + 1) * 10000 <= 10000 * 10000) by (nonlinear_arith)
                requires
                    y as int + 1 <= 10000,
            ;
            lemma_cross_row_bound(input@, y as int, width as int);
        }
        y += 1;
    }
    count
}

} // verus!
