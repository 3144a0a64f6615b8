//! Parsing the textual grid picture into cells.
//!
//! The picture is rows of `.` (empty), `#` (obstacle) and `^` (the
//! agent's start, facing up), separated by line breaks.  Unequal row
//! lengths, an unrecognized symbol, and zero or several start markers
//! are each rejected before any simulation runs.

use vstd::prelude::*;
use crate::patrol::Direction;
use crate::patrol::GridSeq;
use crate::patrol::MapThing;
use crate::patrol::grid_height;
use crate::patrol::grid_input_wf;
use crate::patrol::grid_width;
use crate::patrol::grid_rect;
use crate::patrol::grid_area_bounded;
use crate::patrol::in_bounds;
use crate::patrol::is_start_cell;
use crate::patrol::one_start;
use crate::patrol::rows_view;

verus! {

/// Why a grid picture was rejected.
#[derive(Clone, Copy, Debug, PartialEq, Eq, Structural)]
pub enum ParseError {
    /// A byte other than `.`, `#`, `^` or a line break.
    UnrecognizedSymbol,
    /// Rows of differing lengths.
    UnequalRows,
    /// No `^` marker anywhere.
    NoStart,
    /// More than one `^` marker.
    MultipleStarts,
}

/// The cell a byte stands for, if any.
pub open spec fn cell_of_byte(b: u8) -> Option<MapThing> {
    if b == 35 {  // '#'
        Some(MapThing::Obstacle)
    } else if b == 46 {  // '.'
        Some(MapThing::Empty)
    } else if b == 94 {  // '^'
        Some(MapThing::Player(Direction::Up))
    } else {
        None
    }
}

/// The input split at line breaks; always at least one row, and a
/// trailing break yields a final empty row.
pub open spec fn split_rows(s: Seq<u8>) -> Seq<Seq<u8>>
    decreases s.len(),
{
    if s.len() == 0 {
        seq![Seq::<u8>::empty()]
    } else if s[0] == 10 {  // '\n'
        seq![Seq::<u8>::empty()].add(split_rows(s.drop_first()))
    } else {
        let rest = split_rows(s.drop_first());
        rest.update(0, seq![s[0]].add(rest[0]))
    }
}

pub open spec fn row_recognized(r: Seq<u8>) -> bool {
    forall|i: int| 0 <= i < r.len() ==> cell_of_byte(#[trigger] r[i]).is_some()
}

pub open spec fn all_rows_recognized(rows: Seq<Seq<u8>>) -> bool {
    forall|k: int| 0 <= k < rows.len() ==> row_recognized(#[trigger] rows[k])
}

/// Every row has the same length.
pub open spec fn rows_rect(rows: Seq<Seq<u8>>) -> bool {
    forall|k: int| 0 <= k < rows.len() ==> (#[trigger] rows[k]).len() == rows[0].len()
}

/// The cells of one recognized row.
pub open spec fn row_cells(r: Seq<u8>) -> Seq<MapThing> {
    r.map_values(|b: u8| cell_of_byte(b).unwrap())
}

/// The grid a recognized picture stands for.
pub open spec fn grid_of_rows(rows: Seq<Seq<u8>>) -> GridSeq {
    rows.map_values(|r: Seq<u8>| row_cells(r))
}

/// How many of the first `n` cells of a row are start markers.
pub open spec fn starts_in_row_prefix(r: Seq<MapThing>, n: int) -> int
    decreases n,
{
    if n <= 0 {
        0
    } else {
        starts_in_row_prefix(r, n - 1) + if r[n - 1] is Player {
            1int
        } else {
            0int
        }
    }
}

pub open spec fn row_starts(r: Seq<MapThing>) -> int {
    starts_in_row_prefix(r, r.len() as int)
}

/// How many start markers the first `n` rows hold.
pub open spec fn starts_in_rows_prefix(m: GridSeq, n: int) -> int
    decreases n,
{
    if n <= 0 {
        0
    } else {
        starts_in_rows_prefix(m, n - 1) + row_starts(m[n - 1])
    }
}

/// How many start markers the grid holds.
pub open spec fn start_marker_count(m: GridSeq) -> int {
    starts_in_rows_prefix(m, m.len() as int)
}

proof fn lemma_row_prefix_nonneg(r: Seq<MapThing>, n: int)
    ensures
        starts_in_row_prefix(r, n) >= 0,
    decreases n,
{
    if n > 0 {
        lemma_row_prefix_nonneg(r, n - 1);
    }
}

proof fn lemma_row_prefix_mono(r: Seq<MapThing>, a: int, b: int)
    requires
        0 <= a <= b,
    ensures
        starts_in_row_prefix(r, a) <= starts_in_row_prefix(r, b),
    decreases b,
{
    if a < b {
        lemma_row_prefix_mono(r, a, b - 1);
    }
}

/// A player cell makes its row's count at least one.
proof fn lemma_row_has_start(r: Seq<MapThing>, i: int)
    requires
        0 <= i < r.len(),
        r[i] is Player,
    ensures
        row_starts(r) >= 1,
{
    assert(starts_in_row_prefix(r, i + 1) >= 1) by {
        lemma_row_prefix_nonneg(r, i);
    }
    lemma_row_prefix_mono(r, i + 1, r.len() as int);
}

/// Two distinct player cells in one row make its count at least two.
proof fn lemma_row_has_two_starts(r: Seq<MapThing>, i: int, j: int)
    requires
        0 <= i < j < r.len(),
        r[i] is Player,
        r[j] is Player,
    ensures
        row_starts(r) >= 2,
{
    assert(starts_in_row_prefix(r, i + 1) >= 1) by {
        lemma_row_prefix_nonneg(r, i);
    }
    lemma_row_prefix_mono(r, i + 1, j);
    assert(starts_in_row_prefix(r, j + 1) >= 2);
    lemma_row_prefix_mono(r, j + 1, r.len() as int);
}

proof fn lemma_rows_prefix_nonneg(m: GridSeq, n: int)
    ensures
        starts_in_rows_prefix(m, n) >= 0,
    decreases n,
{
    if n > 0 {
        lemma_rows_prefix_nonneg(m, n - 1);
        lemma_row_prefix_nonneg(m[n - 1], m[n - 1].len() as int);
    }
}

proof fn lemma_rows_prefix_mono(m: GridSeq, a: int, b: int)
    requires
        0 <= a <= b,
        forall|k: int| a <= k < b ==> row_starts(#[trigger] m[k]) >= 0,
    ensures
        starts_in_rows_prefix(m, a) <= starts_in_rows_prefix(m, b),
    decreases b,
{
    if a < b {
        lemma_rows_prefix_mono(m, a, b - 1);
    }
}

/// One row's count bounds the grid's count from below.
proof fn lemma_rows_count_from_row(m: GridSeq, k: int)
    requires
        0 <= k < m.len(),
    ensures
        start_marker_count(m) >= row_starts(m[k]),
{
    assert forall|j: int| 0 <= j < m.len() implies row_starts(#[trigger] m[j]) >= 0 by {
        lemma_row_prefix_nonneg(m[j], m[j].len() as int);
    }
    assert(starts_in_rows_prefix(m, k + 1) >= starts_in_rows_prefix(m, k) + row_starts(m[k]));
    lemma_rows_prefix_nonneg(m, k);
    lemma_rows_prefix_mono(m, k + 1, m.len() as int);
}

/// Player cells in two distinct rows make the grid's count at least two.
proof fn lemma_rows_two_rows(m: GridSeq, k1: int, k2: int)
    requires
        0 <= k1 < k2 < m.len(),
        row_starts(m[k1]) >= 1,
        row_starts(m[k2]) >= 1,
    ensures
        start_marker_count(m) >= 2,
{
    assert forall|j: int| 0 <= j < m.len() implies row_starts(#[trigger] m[j]) >= 0 by {
        lemma_row_prefix_nonneg(m[j], m[j].len() as int);
    }
    lemma_rows_prefix_nonneg(m, k1);
    assert(starts_in_rows_prefix(m, k1 + 1) >= 1);
    lemma_rows_prefix_mono(m, k1 + 1, k2);
    assert(starts_in_rows_prefix(m, k2 + 1) >= 2);
    lemma_rows_prefix_mono(m, k2 + 1, m.len() as int);
}

/// A rectangular grid with exactly one start marker, all markers facing
/// up, is well formed in the sense of the patrol module, provided its
/// area is bounded.
pub proof fn lemma_one_marker_wf(m: GridSeq)
    requires
        grid_rect(m),
        grid_area_bounded(m),
        start_marker_count(m) == 1,
        forall|x: int, y: int|
            in_bounds(m, x, y) && (#[trigger] m[y][x]) is Player ==> m[y][x] == MapThing::Player(
                Direction::Up,
            ),
    ensures
        grid_input_wf(m),
{
    assert forall|j: int| 0 <= j < m.len() implies row_starts(#[trigger] m[j]) >= 0 by {
        lemma_row_prefix_nonneg(m[j], m[j].len() as int);
    }
    // existence: some row has a positive count, hence a player cell
    assert(exists|k: int| 0 <= k < m.len() && row_starts(#[trigger] m[k]) >= 1) by {
        if forall|k: int| 0 <= k < m.len() ==> row_starts(#[trigger] m[k]) == 0 {
            assert forall|n: int| 0 <= n <= m.len() implies starts_in_rows_prefix(m, n) == 0 by {
                lemma_rows_zero_all(m, n);
            }
            assert(false);
        }
    }
    let k = choose|k: int| 0 <= k < m.len() && row_starts(#[trigger] m[k]) >= 1;
    let r = m[k];
    assert(exists|i: int| 0 <= i < r.len() && (#[trigger] r[i]) is Player) by {
        if forall|i: int| 0 <= i < r.len() ==> !(#[trigger] r[i] is Player) {
            assert forall|n: int| 0 <= n <= r.len() implies starts_in_row_prefix(r, n) == 0 by {
                lemma_row_zero_all(r, n);
            }
            assert(false);
        }
    }
    let i = choose|i: int| 0 <= i < r.len() && (#[trigger] r[i]) is Player;
    assert(is_start_cell(m, i, k));
    assert(exists|p: (int, int)| is_start_cell(m, p.0, p.1)) by {
        assert(is_start_cell(m, (i, k).0, (i, k).1));
    }
    // uniqueness: a second distinct player cell would make the count two
    assert forall|x1: int, y1: int, x2: int, y2: int|
        is_start_cell(m, x1, y1) && is_start_cell(m, x2, y2) implies x1 == x2 && y1 == y2 by {
        if y1 == y2 && x1 != x2 {
            if x1 < x2 {
                lemma_row_has_two_starts(m[y1], x1, x2);
            } else {
                lemma_row_has_two_starts(m[y1], x2, x1);
            }
            lemma_rows_count_from_row(m, y1);
            assert(false);
        } else if y1 != y2 {
            lemma_row_has_start(m[y1], x1);
            lemma_row_has_start(m[y2], x2);
            if y1 < y2 {
                lemma_rows_two_rows(m, y1, y2);
            } else {
                lemma_rows_two_rows(m, y2, y1);
            }
            assert(false);
        }
    }
}

proof fn lemma_row_zero_all(r: Seq<MapThing>, n: int)
    requires
        forall|i: int| 0 <= i < r.len() ==> !(#[trigger] r[i] is Player),
        0 <= n <= r.len(),
    ensures
        starts_in_row_prefix(r, n) == 0,
    decreases n,
{
    if n > 0 {
        lemma_row_zero_all(r, n - 1);
    }
}

proof fn lemma_rows_zero_all(m: GridSeq, n: int)
    requires
        forall|k: int| 0 <= k < m.len() ==> row_starts(#[trigger] m[k]) == 0,
        0 <= n <= m.len(),
    ensures
        starts_in_rows_prefix(m, n) == 0,
    decreases n,
{
    if n > 0 {
        lemma_rows_zero_all(m, n - 1);
    }
}

/// The sum of the row lengths, head first.
pub open spec fn rows_total_len(rows: Seq<Seq<u8>>) -> int
    decreases rows.len(),
{
    if rows.len() == 0 {
        0
    } else {
        rows[0].len() + rows_total_len(rows.drop_first())
    }
}

/// Splitting never loses bytes: the rows and their separators add back
/// up to the input's length.
proof fn lemma_split_rows_size(s: Seq<u8>)
    ensures
        split_rows(s).len() >= 1,
        rows_total_len(split_rows(s)) + split_rows(s).len() - 1 == s.len(),
    decreases s.len(),
{
    if s.len() == 0 {
        assert(split_rows(s) =~= seq![Seq::<u8>::empty()]);
        assert(rows_total_len(split_rows(s)) == 0 + rows_total_len(
            split_rows(s).drop_first(),
        ));
        assert(split_rows(s).drop_first() =~= Seq::<Seq<u8>>::empty());
    } else {
        lemma_split_rows_size(s.drop_first());
        let rest = split_rows(s.drop_first());
        if s[0] == 10 {
            let whole = seq![Seq::<u8>::empty()].add(rest);
            assert(split_rows(s) == whole);
            assert(whole.drop_first() =~= rest);
            assert(rows_total_len(whole) == 0 + rows_total_len(rest));
        } else {
            let whole = rest.update(0, seq![s[0]].add(rest[0]));
            assert(split_rows(s) == whole);
            assert(whole.len() == rest.len());
            assert(whole.drop_first() =~= rest.drop_first());
            assert(whole[0].len() == rest[0].len() + 1);
            assert(rows_total_len(whole) == whole[0].len() + rows_total_len(whole.drop_first()));
            assert(rows_total_len(rest) == rest[0].len() + rows_total_len(rest.drop_first()));
        }
    }
}

/// In a rectangle the total length is rows times columns.
proof fn lemma_rows_total_uniform(rows: Seq<Seq<u8>>, w: int)
    requires
        forall|k: int| 0 <= k < rows.len() ==> (#[trigger] rows[k]).len() == w,
    ensures
        rows_total_len(rows) == rows.len() * w,
    decreases rows.len(),
{
    if rows.len() == 0 {
        assert(rows.len() * w == 0) by (nonlinear_arith)
            requires
                rows.len() == 0,
        ;
    } else {
        let rest = rows.drop_first();
        assert(forall|k: int| 0 <= k < rest.len() ==> (#[trigger] rest[k]).len() == w);
        lemma_rows_total_uniform(rest, w);
        assert(rows.len() * w == w + rest.len() * w) by (nonlinear_arith)
            requires
                rows.len() == rest.len() + 1,
        ;
    }
}

/// A rectangular picture no longer than the bound yields a grid of
/// bounded area.
pub proof fn lemma_grid_area_from_input(s: Seq<u8>)
    requires
        s.len() <= 0x4000_0000,
        rows_rect(split_rows(s)),
    ensures
        grid_height(grid_of_rows(split_rows(s))) * grid_width(grid_of_rows(split_rows(s)))
            <= 0x4000_0000,
{
    let rows = split_rows(s);
    let m = grid_of_rows(rows);
    lemma_split_rows_size(s);
    lemma_rows_total_uniform(rows, rows[0].len() as int);
    assert(m.len() == rows.len());
    assert(m[0].len() == rows[0].len());
    assert(grid_height(m) * grid_width(m) == rows.len() * rows[0].len());
}

/// `rows` with `c` glued onto the front of its first row.
pub open spec fn prepend_first(c: Seq<u8>, rows: Seq<Seq<u8>>) -> Seq<Seq<u8>> {
    rows.update(0, c.add(rows[0]))
}

proof fn lemma_rows_total_nonneg(rows: Seq<Seq<u8>>)
    ensures
        rows_total_len(rows) >= 0,
    decreases rows.len(),
{
    if rows.len() > 0 {
        lemma_rows_total_nonneg(rows.drop_first());
    }
}

/// Each row is no longer than the total.
proof fn lemma_row_le_total(rows: Seq<Seq<u8>>, k: int)
    requires
        0 <= k < rows.len(),
    ensures
        rows[k].len() <= rows_total_len(rows),
    decreases k,
{
    lemma_rows_total_nonneg(rows.drop_first());
    if k == 0 {
    } else {
        lemma_row_le_total(rows.drop_first(), k - 1);
    }
}

/// Parse a grid picture.  Rows are separated by line breaks; `.` is an
/// empty cell, `#` an obstacle, `^` the agent's start.  A malformed
/// picture is rejected with the first applicable error, checked in this
/// order: an unrecognized symbol anywhere, rows of unequal lengths, no
/// start marker, more than one start marker.
pub fn parse_input(input: &[u8]) -> (r: Result<Vec<Vec<MapThing>>, ParseError>)
    requires
        input@.len() <= 0x4000_0000,
    ensures
        (r == Err::<Vec<Vec<MapThing>>, ParseError>(ParseError::UnrecognizedSymbol))
            <==> !all_rows_recognized(split_rows(input@)),
        (r == Err::<Vec<Vec<MapThing>>, ParseError>(ParseError::UnequalRows))
            <==> (all_rows_recognized(split_rows(input@)) && !rows_rect(split_rows(input@))),
        (r == Err::<Vec<Vec<MapThing>>, ParseError>(ParseError::NoStart)) <==> (
        all_rows_recognized(split_rows(input@)) && rows_rect(split_rows(input@))
            && start_marker_count(grid_of_rows(split_rows(input@))) == 0),
        (r == Err::<Vec<Vec<MapThing>>, ParseError>(ParseError::MultipleStarts)) <==> (
        all_rows_recognized(split_rows(input@)) && rows_rect(split_rows(input@))
            && start_marker_count(grid_of_rows(split_rows(input@))) >= 2),
        r.is_ok() <==> (all_rows_recognized(split_rows(input@)) && rows_rect(split_rows(input@))
            && start_marker_count(grid_of_rows(split_rows(input@))) == 1),
        r matches Ok(g) ==> rows_view(g@) == grid_of_rows(split_rows(input@)) && grid_input_wf(
            rows_view(g@),
        ),
{
    let ghost whole = split_rows(input@);
    let mut rows: Vec<Vec<MapThing>> = Vec::new();
    let mut cur: Vec<MapThing> = Vec::new();
    let ghost mut rows_bytes: Seq<Seq<u8>> = Seq::empty();
    let ghost mut cur_bytes: Seq<u8> = Seq::empty();
    proof {
        lemma_split_rows_size(input@);
        assert(input@.skip(0) =~= input@);
        assert(cur_bytes.add(whole[0]) =~= whole[0]);
        assert(prepend_first(cur_bytes, whole) =~= whole);
        assert(rows_bytes.add(prepend_first(cur_bytes, whole)) =~= whole);
    }
    let n = input.len();
    let mut i: usize = 0;
    while i < n
        invariant
            whole == split_rows(input@),
            n == input@.len(),
            i <= n,
            whole == rows_bytes.add(prepend_first(cur_bytes, split_rows(input@.skip(i as int)))),
            rows@.len() == rows_bytes.len(),
            forall|k: int| 0 <= k < rows_bytes.len() ==> row_recognized(#[trigger] rows_bytes[k]),
            forall|k: int|
                0 <= k < rows_bytes.len() ==> (#[trigger] rows@[k])@ == row_cells(rows_bytes[k]),
            row_recognized(cur_bytes),
            cur@ == row_cells(cur_bytes),
        decreases n - i,
    {
        let b = input[i];
        let ghost rest = split_rows(input@.skip(i as int));
        let ghost rest2 = split_rows(input@.skip(i as int + 1));
        proof {
            lemma_split_rows_size(input@.skip(i as int));
            lemma_split_rows_size(input@.skip(i as int + 1));
            assert(input@.skip(i as int).len() > 0);
            assert(input@.skip(i as int)[0] == b);
            assert(input@.skip(i as int).drop_first() =~= input@.skip(i as int + 1));
        }
        if b == 10 {
            proof {
                assert(rest == seq![Seq::<u8>::empty()].add(rest2));
                assert(rest[0] =~= Seq::<u8>::empty());
                assert(cur_bytes.add(rest[0]) =~= cur_bytes);
                assert(Seq::<u8>::empty().add(rest2[0]) =~= rest2[0]);
                assert(prepend_first(Seq::<u8>::empty(), rest2) =~= rest2);
                assert(prepend_first(cur_bytes, rest) =~= seq![cur_bytes].add(rest2));
                assert(rows_bytes.add(prepend_first(cur_bytes, rest)) =~= rows_bytes.push(
                    cur_bytes,
                ).add(prepend_first(Seq::<u8>::empty(), rest2)));
            }
            rows.push(cur);
            cur = Vec::new();
            proof {
                rows_bytes = rows_bytes.push(cur_bytes);
                cur_bytes = Seq::empty();
                assert(cur@ =~= row_cells(cur_bytes));
            }
        } else {
            let cell_opt = if b == 35 {
                Some(MapThing::Obstacle)
            } else if b == 46 {
                Some(MapThing::Empty)
            } else if b == 94 {
                Some(MapThing::Player(Direction::Up))
            } else {
                None
            };
            assert(cell_opt == cell_of_byte(b));
            match cell_opt {
                None => {
                    proof {
                        let k = rows_bytes.len() as int;
                        assert(rest == rest2.update(0, seq![b].add(rest2[0])));
                        assert(rest[0] == seq![b].add(rest2[0]));
                        assert(whole[k] == prepend_first(cur_bytes, rest)[0]);
                        assert(whole[k] == cur_bytes.add(rest[0]));
                        assert(whole[k][cur_bytes.len() as int] == b);
                        assert(!row_recognized(whole[k]));
                        assert(!all_rows_recognized(whole));
                    }
                    return Err(ParseError::UnrecognizedSymbol);
                },
                Some(c) => {
                    proof {
                        assert(rest == rest2.update(0, seq![b].add(rest2[0])));
                        assert(rest[0] == seq![b].add(rest2[0]));
                        assert(cur_bytes.add(rest[0]) =~= cur_bytes.push(b).add(rest2[0]));
                        assert(prepend_first(cur_bytes, rest) =~= prepend_first(
                            cur_bytes.push(b),
                            rest2,
                        ));
                    }
                    cur.push(c);
                    proof {
                        cur_bytes = cur_bytes.push(b);
                        assert(cur@ =~= row_cells(cur_bytes));
                    }
                },
            }
        }
        i += 1;
    }
    proof {
        assert(input@.skip(n as int) =~= Seq::<u8>::empty());
        assert(split_rows(input@.skip(n as int)) == seq![Seq::<u8>::empty()]);
        assert(cur_bytes.add(Seq::<u8>::empty()) =~= cur_bytes);
        assert(prepend_first(cur_bytes, seq![Seq::<u8>::empty()]) =~= seq![cur_bytes]);
        assert(whole =~= rows_bytes.push(cur_bytes));
    }
    rows.push(cur);
    proof {
        rows_bytes = rows_bytes.push(cur_bytes);
        assert(whole == rows_bytes);
        assert(all_rows_recognized(whole));
        assert(rows_view(rows@) =~= grid_of_rows(whole)) by {
            assert forall|k: int| 0 <= k < rows@.len() implies (#[trigger] rows@[k])@
                == grid_of_rows(whole)[k] by {
                assert(rows@[k]@ == row_cells(rows_bytes[k]));
            }
        }
    }
    let ghost m = grid_of_rows(whole);
    // rows of equal length
    let height = rows.len();
    let width = rows[0].len();
    proof {
        assert(rows@[0]@ == row_cells(whole[0]));
    }
    let mut k: usize = 0;
    while k < height
        invariant
            rows_view(rows@) == m,
            m == grid_of_rows(whole),
            whole == split_rows(input@),
            all_rows_recognized(whole),
            height == rows@.len(),
            height == whole.len(),
            width == whole[0].len(),
            k <= height,
            forall|j: int| 0 <= j < k ==> (#[trigger] whole[j]).len() == whole[0].len(),
        decreases height - k,
    {
        proof {
            assert(rows_view(rows@)[k as int] == rows@[k as int]@);
            assert(m[k as int] == row_cells(whole[k as int]));
        }
        if rows[k].len() != width {
            proof {
                assert(whole[k as int].len() != whole[0].len());
                assert(!rows_rect(whole));
            }
            return Err(ParseError::UnequalRows);
        }
        k += 1;
    }
    assert(rows_rect(whole));
    proof {
        lemma_split_rows_size(input@);
        assert forall|j: int| 0 <= j < whole.len() implies (#[trigger] whole[j]).len()
            <= 0x4000_0000 by {
            lemma_row_le_total(whole, j);
            lemma_rows_total_nonneg(whole);
        }
        assert(whole.len() <= 0x4000_0001) by {
            lemma_rows_total_nonneg(whole);
        }
    }
    // count the start markers
    let mut count: u64 = 0;
    let mut y: usize = 0;
    while y < height
        invariant
            rows_view(rows@) == m,
            m == grid_of_rows(whole),
            whole == split_rows(input@),
            height == rows@.len(),
            height == m.len(),
            height <= 0x4000_0001,
            forall|j: int| 0 <= j < whole.len() ==> (#[trigger] whole[j]).len() <= 0x4000_0000,
            y <= height,
            count == starts_in_rows_prefix(m, y as int),
            count <= (y as int) * 0x4000_0000,
        decreases height - y,
    {
        proof {
            assert(rows_view(rows@)[y as int] == rows@[y as int]@);
            assert(m[y as int] == row_cells(whole[y as int]));
            assert(m[y as int].len() == whole[y as int].len());
        }
        let row_len = rows[y].len();
        let mut x: usize = 0;
        let mut row_count: usize = 0;
        while x < row_len
            invariant
                rows_view(rows@) == m,
                m == grid_of_rows(whole),
                height == rows@.len(),
                height == m.len(),
                y < height,
                row_len == m[y as int].len(),
                x <= row_len,
                row_count == starts_in_row_prefix(m[y as int], x as int),
                row_count <= x,
            decreases row_len - x,
        {
            proof {
                assert(rows_view(rows@)[y as int] == rows@[y as int]@);
            }
            let is_marker = match rows[y][x] {
                MapThing::Player(_) => true,
                _ => false,
            };
            if is_marker {
                row_count += 1;
            }
            x += 1;
        }
        proof {
            assert(row_count == row_starts(m[y as int]));
            lemma_rows_prefix_nonneg(m, y as int);
            assert(row_count <= 0x4000_0000);
            assert(count + row_count <= (y as int) * 0x4000_0000 + 0x4000_0000);
            assert((y as int) * 0x4000_0000 + 0x4000_0000 == (y as int + 1) * 0x4000_0000)
                by (nonlinear_arith);
            assert((y as int + 1) * 0x4000_0000 <= 0x4000_0001 * 0x4000_0000)
                by (nonlinear_arith)
                requires
                    y as int + 1 <= 0x4000_0001,
            ;
        }
        count = count + (row_count as u64);
        y += 1;
    }
    proof {
        assert(count == start_marker_count(m));
    }
    if count == 0 {
        return Err(ParseError::NoStart);
    }
    if count > 1 {
        return Err(ParseError::MultipleStarts);
    }
    proof {
        assert(start_marker_count(m) == 1);
        assert forall|xx: int, yy: int|
            in_bounds(m, xx, yy) && (#[trigger] m[yy][xx]) is Player implies m[yy][xx]
            == MapThing::Player(Direction::Up) by {
            assert(m[yy] == row_cells(whole[yy]));
            assert(m[yy][xx] == cell_of_byte(whole[yy][xx]).unwrap());
            assert(row_recognized(whole[yy]));
            assert(cell_of_byte(whole[yy][xx]).is_some());
        }
        assert(grid_rect(m)) by {
            assert(m.len() == whole.len());
            assert(m[0].len() == whole[0].len());
            if m[0].len() == 0 {
                assert forall|j: int| 0 <= j < m.len() implies row_starts(#[trigger] m[j])
                    == 0 by {
                    assert(m[j] == row_cells(whole[j]));
                    assert(m[j].len() == whole[j].len());
                    assert(m[j].len() == 0);
                    lemma_row_zero_all(m[j], m[j].len() as int);
                }
                lemma_rows_zero_all(m, m.len() as int);
                assert(false);
            }
            assert forall|j: int| 0 <= j < m.len() implies (#[trigger] m[j]).len() == m[0].len()
            by {
                assert(m[j] == row_cells(whole[j]));
                assert(m[j].len() == whole[j].len());
            }
        }
        lemma_grid_area_from_input(input@);
        lemma_one_marker_wf(m);
    }
    Ok(rows)
}
} // verus!
