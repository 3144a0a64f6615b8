//! Antenna grids and their antinodes.
//!
//! Cells may hold an antenna labelled by a character.  Every ordered
//! pair of same-labelled antennas projects antinodes along its line:
//! one step beyond each end, or, in the resonant variant, every grid
//! point on the line outward from either end.  The puzzle counts the
//! distinct antinode positions.

use vstd::prelude::*;

verus! {

/// One cell of the antenna grid.
#[derive(Clone, Copy, Debug, PartialEq, Eq, Structural)]
pub enum Characters {
    Empty,
    Char(char),
}

/// All ordered pairs of distinct indices, first index outermost, as
/// the search enumerates them: the pairs over the first `i` firsts,
/// plus those of first `i` and second below `j`.
pub open spec fn pairs_upto(
    ps: Seq<(usize, usize)>,
    i: int,
    j: int,
) -> Seq<((usize, usize), (usize, usize))>
    decreases i, j,
{
    if i < 0 || j < 0 {
        Seq::empty()
    } else if j == 0 {
        if i == 0 {
            Seq::empty()
        } else {
            pairs_upto(ps, i - 1, ps.len() as int)
        }
    } else {
        pairs_upto(ps, i, j - 1).add(
            if i != j - 1 {
                seq![(ps[i], ps[j - 1])]
            } else {
                Seq::empty()
            },
        )
    }
}

/// Every ordered pair of two distinct positions of the list.
pub open spec fn position_pairs(ps: Seq<(usize, usize)>) -> Seq<(
    (usize, usize),
    (usize, usize),
)> {
    pairs_upto(ps, ps.len() as int, 0)
}

/// Enumerate every ordered pair of distinct entries.
pub fn generate_position_pairs(positions: &[(usize, usize)]) -> (r: Vec<
    ((usize, usize), (usize, usize)),
>)
    ensures
        r@ == position_pairs(positions@),
{
    let mut pairs: Vec<((usize, usize), (usize, usize))> = Vec::new();
    let mut i: usize = 0;
    while i < positions.len()
        invariant
            i <= positions@.len(),
            pairs@ == pairs_upto(positions@, i as int, 0),
        decreases positions@.len() - i,
    {
        let mut j: usize = 0;
        while j < positions.len()
            invariant
                i < positions@.len(),
                j <= positions@.len(),
                pairs@ == pairs_upto(positions@, i as int, j as int),
            decreases positions@.len() - j,
        {
            if i != j {
                pairs.push((positions[i], positions[j]));
            }
            j += 1;
        }
        proof {
            assert(pairs@ == pairs_upto(positions@, i as int + 1, 0));
        }
        i += 1;
    }
    pairs
}

/// Positions small enough that stepping them by a grid vector cannot
/// overflow the machine integers.
pub open spec fn pos_small(p: (usize, usize)) -> bool {
    p.0 <= 0x1000_0000 && p.1 <= 0x1000_0000
}

/// The two antinode candidates of an ordered pair: one step beyond
/// each end of the segment.
pub open spec fn anti_candidates(pair: ((usize, usize), (usize, usize))) -> ((int, int), (
    int,
    int,
)) {
    (
        (2 * pair.0.0 - pair.1.0, 2 * pair.0.1 - pair.1.1),
        (2 * pair.1.0 - pair.0.0, 2 * pair.1.1 - pair.0.1),
    )
}

/// Whether a candidate lies on the grid, under the bounds the search
/// passes down.
pub open spec fn anti_in_bounds(c: (int, int), maxy: int, maxx: int) -> bool {
    c.0 >= 0 && c.0 < maxx && c.1 >= 0 && c.1 < maxy
}

/// The antinodes of one pair, in candidate order.
pub open spec fn pair_antinodes(
    maxy: int,
    maxx: int,
    pair: ((usize, usize), (usize, usize)),
) -> Seq<(int, int)> {
    let (c1, c2) = anti_candidates(pair);
    (if anti_in_bounds(c1, maxy, maxx) {
        seq![c1]
    } else {
        Seq::empty()
    }).add(
        if anti_in_bounds(c2, maxy, maxx) {
            seq![c2]
        } else {
            Seq::empty()
        },
    )
}

/// The in-bounds antinodes one step beyond each end of the pair.
pub fn get_antinodes_from_pair(
    maxy: usize,
    maxx: usize,
    pair: ((usize, usize), (usize, usize)),
) -> (r: Vec<(i32, i32)>)
    requires
        pos_small(pair.0),
        pos_small(pair.1),
        maxy <= 0x1000_0000,
        maxx <= 0x1000_0000,
    ensures
        r@.map_values(|c: (i32, i32)| (c.0 as int, c.1 as int)) == pair_antinodes(
            maxy as int,
            maxx as int,
            pair,
        ),
{
    let vector: (i32, i32) = (
        pair.1.0 as i32 - pair.0.0 as i32,
        pair.1.1 as i32 - pair.0.1 as i32,
    );
    let c1: (i32, i32) = (pair.0.0 as i32 - vector.0, pair.0.1 as i32 - vector.1);
    let c2: (i32, i32) = (pair.1.0 as i32 + vector.0, pair.1.1 as i32 + vector.1);
    let mut out: Vec<(i32, i32)> = Vec::new();
    if c1.0 >= 0 && c1.0 < maxx as i32 && c1.1 >= 0 && c1.1 < maxy as i32 {
        out.push(c1);
    }
    if c2.0 >= 0 && c2.0 < maxx as i32 && c2.1 >= 0 && c2.1 < maxy as i32 {
        out.push(c2);
    }
    proof {
        assert(out@.map_values(|c: (i32, i32)| (c.0 as int, c.1 as int)) =~= pair_antinodes(
            maxy as int,
            maxx as int,
            pair,
        ));
    }
    out
}


/// The resonant bounds check: inclusive on both axes, as the search
/// passes them down.
pub open spec fn lots_in_bounds(c: (int, int), maxy: int, maxx: int) -> bool {
    !(c.0 > maxy || c.1 > maxx || c.0 < 0 || c.1 < 0)
}

/// The grid points `p + v·d`, `p + v·(d+1)`, ... while they stay on
/// the grid, stopping at the first that leaves it.  The fuel only
/// bounds the recursion; callers pass more than the line can hold.
pub open spec fn ray_points(
    p: (int, int),
    v: (int, int),
    maxy: int,
    maxx: int,
    d: int,
    fuel: nat,
) -> Seq<(int, int)>
    decreases fuel,
{
    if fuel == 0 {
        Seq::empty()
    } else {
        let c = (p.0 + v.0 * d, p.1 + v.1 * d);
        if !lots_in_bounds(c, maxy, maxx) {
            Seq::empty()
        } else {
            seq![c].add(ray_points(p, v, maxy, maxx, d + 1, (fuel - 1) as nat))
        }
    }
}

/// Fuel that outlasts any ray from `p`: one unit per step the ray can
/// take before some coordinate leaves `[0, maxy]` or `[0, maxx]`.
pub open spec fn ray_fuel(p: (int, int), maxy: int, maxx: int) -> nat {
    (p.0 + p.1 + maxy + maxx + 2) as nat
}

/// The resonant antinodes of an ordered pair: both ends, then every
/// grid point outward beyond the second end, then every grid point
/// outward behind the first end.
pub open spec fn lots_antinodes(
    maxy: int,
    maxx: int,
    pair: ((usize, usize), (usize, usize)),
) -> Seq<(int, int)> {
    let p0 = (pair.0.0 as int, pair.0.1 as int);
    let p1 = (pair.1.0 as int, pair.1.1 as int);
    let v = (p1.0 - p0.0, p1.1 - p0.1);
    seq![p0, p1].add(ray_points(p0, v, maxy, maxx, 1, ray_fuel(p0, maxy, maxx))).add(
        ray_points(p1, (-v.0, -v.1), maxy, maxx, 1, ray_fuel(p1, maxy, maxx)),
    )
}

/// While a ray is still on the grid, its step count is bounded by the
/// fuel budget, so the fuel never runs out mid-grid.
proof fn lemma_ray_step_bound(p: (int, int), v: (int, int), maxy: int, maxx: int, d: int)
    requires
        0 <= p.0,
        0 <= p.1,
        !(v.0 == 0 && v.1 == 0),
        d >= 1,
        lots_in_bounds((p.0 + v.0 * d, p.1 + v.1 * d), maxy, maxx),
    ensures
        d <= p.0 + p.1 + maxy + maxx,
{
    if v.0 >= 1 {
        assert(d <= v.0 * d) by (nonlinear_arith)
            requires
                v.0 >= 1,
                d >= 1,
        ;
    } else if v.0 <= -1 {
        assert(d <= -(v.0 * d)) by (nonlinear_arith)
            requires
                v.0 <= -1,
                d >= 1,
        ;
    } else if v.1 >= 1 {
        assert(d <= v.1 * d) by (nonlinear_arith)
            requires
                v.1 >= 1,
                d >= 1,
        ;
    } else {
        assert(d <= -(v.1 * d)) by (nonlinear_arith)
            requires
                v.1 <= -1,
                d >= 1,
        ;
    }
}

/// Every point of a ray lies on the grid.
proof fn lemma_ray_points_in_bounds(
    p: (int, int),
    v: (int, int),
    maxy: int,
    maxx: int,
    d: int,
    fuel: nat,
)
    ensures
        forall|k: int|
            0 <= k < ray_points(p, v, maxy, maxx, d, fuel).len() ==> lots_in_bounds(
                #[trigger] ray_points(p, v, maxy, maxx, d, fuel)[k],
                maxy,
                maxx,
            ),
    decreases fuel,
{
    if fuel > 0 {
        let c = (p.0 + v.0 * d, p.1 + v.1 * d);
        if lots_in_bounds(c, maxy, maxx) {
            lemma_ray_points_in_bounds(p, v, maxy, maxx, d + 1, (fuel - 1) as nat);
            let whole = ray_points(p, v, maxy, maxx, d, fuel);
            let rest = ray_points(p, v, maxy, maxx, d + 1, (fuel - 1) as nat);
            assert forall|k: int| 0 <= k < whole.len() implies lots_in_bounds(
                #[trigger] whole[k],
                maxy,
                maxx,
            ) by {
                if k >= 1 {
                    assert(whole[k] == rest[k - 1]);
                }
            }
        }
    }
}

/// Walk one ray, pushing every on-grid point onto `nodes`.
fn walk_ray(nodes: &mut Vec<(i32, i32)>, p: (usize, usize), v: (i32, i32), maxy: usize, maxx: usize)
    requires
        pos_small(p),
        -0x1000_0000 <= v.0 <= 0x1000_0000,
        -0x1000_0000 <= v.1 <= 0x1000_0000,
        !(v.0 == 0 && v.1 == 0),
        maxy <= 0x1000_0000,
        maxx <= 0x1000_0000,
    ensures
        final(nodes)@ == old(nodes)@.add(
            ray_points(
                (p.0 as int, p.1 as int),
                (v.0 as int, v.1 as int),
                maxy as int,
                maxx as int,
                1,
                ray_fuel((p.0 as int, p.1 as int), maxy as int, maxx as int),
            ).map_values(|c: (int, int)| (c.0 as i32, c.1 as i32)),
        ),
{
    let ghost p_int = (p.0 as int, p.1 as int);
    let ghost v_int = (v.0 as int, v.1 as int);
    let ghost fuel0 = ray_fuel(p_int, maxy as int, maxx as int);
    let ghost base = nodes@;
    let mut cur: (i32, i32) = (p.0 as i32 + v.0, p.1 as i32 + v.1);
    let ghost mut d: int = 1;
    proof {
        assert(base.add(
            ray_points(p_int, v_int, maxy as int, maxx as int, 1, fuel0).map_values(
                |c: (int, int)| (c.0 as i32, c.1 as i32),
            ),
        ) =~= base.add(Seq::empty()).add(
            ray_points(p_int, v_int, maxy as int, maxx as int, 1, fuel0).map_values(
                |c: (int, int)| (c.0 as i32, c.1 as i32),
            ),
        ));
    }
    while cur.0 >= 0 && cur.0 <= maxy as i32 && cur.1 >= 0 && cur.1 <= maxx as i32
        invariant
            pos_small(p),
            p_int == (p.0 as int, p.1 as int),
            v_int == (v.0 as int, v.1 as int),
            -0x1000_0000 <= v.0 <= 0x1000_0000,
            -0x1000_0000 <= v.1 <= 0x1000_0000,
            !(v.0 == 0 && v.1 == 0),
            maxy <= 0x1000_0000,
            maxx <= 0x1000_0000,
            fuel0 == ray_fuel(p_int, maxy as int, maxx as int),
            d >= 1,
            cur.0 as int == p_int.0 + v_int.0 * d,
            cur.1 as int == p_int.1 + v_int.1 * d,
            d <= p_int.0 + p_int.1 + maxy + maxx + 1,
            base.add(
                ray_points(p_int, v_int, maxy as int, maxx as int, 1, fuel0).map_values(
                    |c: (int, int)| (c.0 as i32, c.1 as i32),
                ),
            ) == nodes@.add(
                ray_points(
                    p_int,
                    v_int,
                    maxy as int,
                    maxx as int,
                    d,
                    (fuel0 - (d - 1)) as nat,
                ).map_values(|c: (int, int)| (c.0 as i32, c.1 as i32)),
            ),
        decreases fuel0 - d,
    {
        proof {
            lemma_ray_step_bound(p_int, v_int, maxy as int, maxx as int, d);
            assert(fuel0 - (d - 1) >= 2);
            let rest = ray_points(
                p_int,
                v_int,
                maxy as int,
                maxx as int,
                d + 1,
                (fuel0 - d) as nat,
            );
            assert(ray_points(p_int, v_int, maxy as int, maxx as int, d, (fuel0 - (d - 1)) as nat)
                == seq![(cur.0 as int, cur.1 as int)].add(rest));
            assert(nodes@.add(
                seq![(cur.0 as int, cur.1 as int)].add(rest).map_values(
                    |c: (int, int)| (c.0 as i32, c.1 as i32),
                ),
            ) =~= nodes@.push(cur).add(
                rest.map_values(|c: (int, int)| (c.0 as i32, c.1 as i32)),
            ));
            assert(v_int.0 * (d + 1) == v_int.0 * d + v_int.0) by (nonlinear_arith);
            assert(v_int.1 * (d + 1) == v_int.1 * d + v_int.1) by (nonlinear_arith);
        }
        nodes.push(cur);
        cur = (cur.0 + v.0, cur.1 + v.1);
        proof {
            d = d + 1;
        }
    }
    proof {
        assert(ray_points(p_int, v_int, maxy as int, maxx as int, d, (fuel0 - (d - 1)) as nat)
            =~= Seq::<(int, int)>::empty());
        assert(nodes@.add(Seq::<(int, int)>::empty().map_values(
            |c: (int, int)| (c.0 as i32, c.1 as i32),
        )) =~= nodes@);
    }
}

/// The resonant antinodes of an ordered pair: the pair's own cells and
/// every on-grid point outward along its line in both directions.
pub fn get_lots_of_antinodes_from_pair(
    maxy: usize,
    maxx: usize,
    pair: ((usize, usize), (usize, usize)),
) -> (r: Vec<(i32, i32)>)
    requires
        pos_small(pair.0),
        pos_small(pair.1),
        pair.0 != pair.1,
        maxy <= 0x1000_0000,
        maxx <= 0x1000_0000,
    ensures
        r@.map_values(|c: (i32, i32)| (c.0 as int, c.1 as int)) == lots_antinodes(
            maxy as int,
            maxx as int,
            pair,
        ),
{
    let vector: (i32, i32) = (
        pair.1.0 as i32 - pair.0.0 as i32,
        pair.1.1 as i32 - pair.0.1 as i32,
    );
    let mut nodes: Vec<(i32, i32)> = Vec::new();
    nodes.push((pair.0.0 as i32, pair.0.1 as i32));
    nodes.push((pair.1.0 as i32, pair.1.1 as i32));
    walk_ray(&mut nodes, pair.0, vector, maxy, maxx);
    walk_ray(&mut nodes, pair.1, (-vector.0, -vector.1), maxy, maxx);
    proof {
        let p0 = (pair.0.0 as int, pair.0.1 as int);
        let p1 = (pair.1.0 as int, pair.1.1 as int);
        let v = (p1.0 - p0.0, p1.1 - p0.1);
        let f1 = ray_fuel(p0, maxy as int, maxx as int);
        let f2 = ray_fuel(p1, maxy as int, maxx as int);
        let ray1 = ray_points(p0, v, maxy as int, maxx as int, 1, f1);
        let ray2 = ray_points(p1, (-v.0, -v.1), maxy as int, maxx as int, 1, f2);
        lemma_ray_points_in_bounds(p0, v, maxy as int, maxx as int, 1, f1);
        lemma_ray_points_in_bounds(p1, (-v.0, -v.1), maxy as int, maxx as int, 1, f2);
        let to_exec = |c: (int, int)| (c.0 as i32, c.1 as i32);
        let to_spec = |c: (i32, i32)| (c.0 as int, c.1 as int);
        let lots = lots_antinodes(maxy as int, maxx as int, pair);
        assert(nodes@.len() == 2 + ray1.len() + ray2.len());
        assert(lots.len() == 2 + ray1.len() + ray2.len());
        assert forall|k: int| 0 <= k < nodes@.len() implies to_spec(nodes@[k]) == lots[k] by {
            if k < 2 {
            } else if k < 2 + ray1.len() {
                assert(nodes@[k] == to_exec(ray1[k - 2]));
                assert(lots[k] == ray1[k - 2]);
                assert(lots_in_bounds(ray1[k - 2], maxy as int, maxx as int));
            } else {
                assert(nodes@[k] == to_exec(ray2[k - 2 - ray1.len()]));
                assert(lots[k] == ray2[k - 2 - ray1.len()]);
                assert(lots_in_bounds(ray2[k - 2 - ray1.len()], maxy as int, maxx as int));
            }
        }
        assert(nodes@.map_values(to_spec) =~= lots);
    }
    nodes
}


/// The labelled antenna cells of the first `x` cells of row `y`, as
/// `(label, (x, y))` in scan order.
pub open spec fn occ_row_prefix(row: Seq<Characters>, y: int, x: int) -> Seq<
    (char, (usize, usize)),
>
    decreases x,
{
    if x <= 0 {
        Seq::empty()
    } else {
        occ_row_prefix(row, y, x - 1).add(
            match row[x - 1] {
                Characters::Char(c) => seq![(c, ((x - 1) as usize, y as usize))],
                Characters::Empty => Seq::empty(),
            },
        )
    }
}

/// The labelled antenna cells of the first `y` rows, in scan order.
pub open spec fn occ_prefix(rows: Seq<Vec<Characters>>, y: int) -> Seq<(char, (usize, usize))>
    decreases y,
{
    if y <= 0 {
        Seq::empty()
    } else {
        occ_prefix(rows, y - 1).add(
            occ_row_prefix(rows[y - 1]@, y - 1, rows[y - 1]@.len() as int),
        )
    }
}

/// Every labelled antenna cell of the grid, in scan order.
pub open spec fn occurrences(rows: Seq<Vec<Characters>>) -> Seq<(char, (usize, usize))> {
    occ_prefix(rows, rows.len() as int)
}

/// The distinct antinodes that the ordered pairs of same-labelled
/// antennas project one step beyond their ends.
pub open spec fn near_antinode_set(
    occ: Seq<(char, (usize, usize))>,
    maxy: int,
    maxx: int,
) -> Set<(int, int)> {
    Set::new(
        |m: (int, int)|
            exists|i: int, j: int|
                0 <= i < occ.len() && 0 <= j < occ.len() && i != j && (#[trigger] occ[i]).0 == (
                #[trigger] occ[j]).0 && pair_antinodes(maxy, maxx, (occ[i].1, occ[j].1)).contains(
                    m,
                ),
    )
}

/// As `near_antinode_set`, but only over the pairs the search has
/// already visited: every first index below `a`, and first index `a`
/// with second index below `b`.
pub open spec fn near_before(
    occ: Seq<(char, (usize, usize))>,
    maxy: int,
    maxx: int,
    a: int,
    b: int,
) -> Set<(int, int)> {
    Set::new(
        |m: (int, int)|
            exists|i: int, j: int|
                0 <= i < occ.len() && 0 <= j < occ.len() && i != j && (i < a || (i == a && j < b))
                    && (#[trigger] occ[i]).0 == (#[trigger] occ[j]).0 && pair_antinodes(
                    maxy,
                    maxx,
                    (occ[i].1, occ[j].1),
                ).contains(m),
    )
}

/// The distinct antinodes of the resonant variant: both cells of each
/// same-labelled pair and every grid point outward along its line.
pub open spec fn resonant_antinode_set(
    occ: Seq<(char, (usize, usize))>,
    maxy: int,
    maxx: int,
) -> Set<(int, int)> {
    Set::new(
        |m: (int, int)|
            exists|i: int, j: int|
                0 <= i < occ.len() && 0 <= j < occ.len() && i != j && (#[trigger] occ[i]).0 == (
                #[trigger] occ[j]).0 && lots_antinodes(maxy, maxx, (occ[i].1, occ[j].1)).contains(
                    m,
                ),
    )
}

pub open spec fn resonant_before(
    occ: Seq<(char, (usize, usize))>,
    maxy: int,
    maxx: int,
    a: int,
    b: int,
) -> Set<(int, int)> {
    Set::new(
        |m: (int, int)|
            exists|i: int, j: int|
                0 <= i < occ.len() && 0 <= j < occ.len() && i != j && (i < a || (i == a && j < b))
                    && (#[trigger] occ[i]).0 == (#[trigger] occ[j]).0 && lots_antinodes(
                    maxy,
                    maxx,
                    (occ[i].1, occ[j].1),
                ).contains(m),
    )
}

pub open spec fn node_spec(c: (i32, i32)) -> (int, int) {
    (c.0 as int, c.1 as int)
}

/// A growing record of distinct grid points.
struct NodeSet {
    items: Vec<(i32, i32)>,
    gset: Ghost<Set<(int, int)>>,
}

impl NodeSet {
    spec fn set_view(self) -> Set<(int, int)> {
        self.gset@
    }

    spec fn wf(self) -> bool {
        &&& self.gset@.finite()
        &&& self.items@.len() == self.gset@.len()
        &&& forall|i: int|
            0 <= i < self.items@.len() ==> self.gset@.contains(node_spec(#[trigger] self.items@[i]))
        &&& forall|m: (int, int)|
            self.gset@.contains(m) ==> exists|i: int|
                0 <= i < self.items@.len() && node_spec(#[trigger] self.items@[i]) == m
    }

    fn new() -> (r: NodeSet)
        ensures
            r.wf(),
            r.set_view() == Set::<(int, int)>::empty(),
    {
        NodeSet { items: Vec::new(), gset: Ghost(Set::empty()) }
    }

    fn insert(&mut self, c: (i32, i32))
        requires
            old(self).wf(),
        ensures
            final(self).wf(),
            final(self).set_view() == old(self).set_view().insert(node_spec(c)),
    {
        broadcast use vstd::set::group_set_axioms;

        let mut i: usize = 0;
        let mut present = false;
        while i < self.items.len()
            invariant
                i <= self.items@.len(),
                present ==> exists|q: int|
                    0 <= q < self.items@.len() && #[trigger] self.items@[q] == c,
                !present ==> forall|q: int| 0 <= q < i ==> self.items@[q] != c,
            decreases self.items@.len() - i,
        {
            if self.items[i].0 == c.0 && self.items[i].1 == c.1 {
                present = true;
                proof {
                    assert(self.items@[i as int] == c);
                }
            }
            i += 1;
        }
        let ghost old_items = self.items@;
        let ghost old_set = self.gset@;
        if present {
            proof {
                let q = choose|q: int| 0 <= q < self.items@.len() && #[trigger] self.items@[q] == c;
                assert(self.gset@.contains(node_spec(c)));
                assert(old_set.insert(node_spec(c)) =~= old_set);
                self.gset@ = self.gset@.insert(node_spec(c));
            }
        } else {
            proof {
                if old_set.contains(node_spec(c)) {
                    let q = choose|q: int|
                        0 <= q < old_items.len() && node_spec(#[trigger] old_items[q]) == node_spec(
                            c,
                        );
                    assert(old_items[q] == c);
                    assert(false);
                }
            }
            self.items.push(c);
            proof {
                self.gset@ = self.gset@.insert(node_spec(c));
                assert forall|m: (int, int)| self.gset@.contains(m) implies exists|q: int|
                    0 <= q < self.items@.len() && node_spec(#[trigger] self.items@[q]) == m by {
                    if old_set.contains(m) {
                        let q = choose|q: int|
                            0 <= q < old_items.len() && node_spec(#[trigger] old_items[q]) == m;
                        assert(node_spec(self.items@[q]) == m);
                    } else {
                        assert(node_spec(self.items@[self.items@.len() - 1]) == m);
                    }
                }
            }
        }
    }

    fn count(&self) -> (r: usize)
        requires
            self.wf(),
        ensures
            r == self.set_view().len(),
    {
        self.items.len()
    }
}

/// A set of grid points inside a bounded box holds at most one point
/// per cell of the box.
proof fn lemma_box_len(ps: Set<(int, int)>, a: int, b: int)
    requires
        ps.finite(),
        a >= 0,
        b >= 0,
        forall|m: (int, int)| ps.contains(m) ==> 0 <= m.0 < a && 0 <= m.1 < b,
    ensures
        ps.len() <= a * b,
{
    let f = |m: (int, int)| m.1 * a + m.0;
    assert(vstd::relations::injective_on(f, ps)) by {
        assert forall|m1: (int, int), m2: (int, int)|
            ps.contains(m1) && ps.contains(m2) && #[trigger] f(m1) == #[trigger] f(m2) implies m1
            == m2 by {
            assert(m1.1 == m2.1) by (nonlinear_arith)
                requires
                    0 <= m1.0 < a,
                    0 <= m2.0 < a,
                    0 <= m1.1,
                    0 <= m2.1,
                    m1.1 * a + m1.0 == m2.1 * a + m2.0,
            ;
        }
    }
    let image = ps.map(f);
    vstd::set_lib::lemma_map_size(ps, image, f);
    assert(image.subset_of(vstd::set_lib::set_int_range(0, a * b))) by {
        assert forall|c: int| image.contains(c) implies 0 <= c < a * b by {
            let m = choose|m: (int, int)| ps.contains(m) && f(m) == c;
            assert(0 <= m.1 * a + m.0 < b * a) by (nonlinear_arith)
                requires
                    0 <= m.0 < a,
                    0 <= m.1 < b,
            ;
            assert(b * a == a * b) by (nonlinear_arith);
        }
    }
    vstd::set_lib::lemma_int_range(0, a * b);
    vstd::set_lib::lemma_len_subset(image, vstd::set_lib::set_int_range(0, a * b));
}


/// Count the distinct antinodes that same-labelled antenna pairs
/// project one step beyond their ends, within the grid.
#[verifier::rlimit(100)]
pub fn solve_part_one(input: &Vec<Vec<Characters>>) -> (r: i32)
    requires
        input@.len() >= 1,
        input@.len() <= 10000,
        forall|y: int| 0 <= y < input@.len() ==> (#[trigger] input@[y])@.len() <= 10000,
    ensures
        r == near_antinode_set(
            occurrences(input@),
            input@[0]@.len() as int,
            input@.len() as int,
        ).len(),
{
    broadcast use vstd::set::group_set_axioms;

    let maxy = input[0].len();
    let maxx = input.len();
    let occ = collect_occurrences(input);
    let ghost occs = occ@;
    let mut nodes = NodeSet::new();
    proof {
        assert(nodes.set_view() =~= near_before(occs, maxy as int, maxx as int, 0, 0));
    }
    let mut a: usize = 0;
    while a < occ.len()
        invariant
            occs == occ@,
            occs == occurrences(input@),
            maxy == input@[0]@.len(),
            maxx == input@.len(),
            maxy <= 10000,
            maxx <= 10000,
            forall|q: int|
                0 <= q < occs.len() ==> pos_small((#[trigger] occs[q]).1),
            a <= occs.len(),
            nodes.wf(),
            nodes.set_view() == near_before(occs, maxy as int, maxx as int, a as int, 0),
            forall|m: (int, int)|
                nodes.set_view().contains(m) ==> 0 <= m.0 < maxx && 0 <= m.1 < maxy,
        decreases occs.len() - a,
    {
        let mut b: usize = 0;
        while b < occ.len()
            invariant
                occs == occ@,
                maxy <= 10000,
                maxx <= 10000,
                forall|q: int|
                    0 <= q < occs.len() ==> pos_small((#[trigger] occs[q]).1),
                a < occs.len(),
                b <= occs.len(),
                nodes.wf(),
                nodes.set_view() == near_before(occs, maxy as int, maxx as int, a as int, b as int),
                forall|m: (int, int)|
                    nodes.set_view().contains(m) ==> 0 <= m.0 < maxx && 0 <= m.1 < maxy,
            decreases occs.len() - b,
        {
            let ghost before_set = nodes.set_view();
            let same = a != b && occ[a].0 == occ[b].0;
            if same {
                let found = get_antinodes_from_pair(maxy, maxx, (occ[a].1, occ[b].1));
                let ghost pair_set = pair_antinodes(
                    maxy as int,
                    maxx as int,
                    (occs[a as int].1, occs[b as int].1),
                );
                let mut k: usize = 0;
                while k < found.len()
                    invariant
                        occs == occ@,
                        maxy <= 10000,
                        maxx <= 10000,
                        a < occs.len(),
                        b < occs.len(),
                        pair_set == pair_antinodes(
                            maxy as int,
                            maxx as int,
                            (occs[a as int].1, occs[b as int].1),
                        ),
                        found@.map_values(|c: (i32, i32)| (c.0 as int, c.1 as int)) == pair_set,
                        k <= found@.len(),
                        nodes.wf(),
                        nodes.set_view() == before_set.union(pair_set.take(k as int).to_set()),
                        forall|m: (int, int)|
                            before_set.contains(m) ==> 0 <= m.0 < maxx && 0 <= m.1 < maxy,
                        forall|m: (int, int)|
                            nodes.set_view().contains(m) ==> 0 <= m.0 < maxx && 0 <= m.1 < maxy,
                    decreases found@.len() - k,
                {
                    proof {
                        assert(node_spec(found@[k as int]) == pair_set[k as int]);
                        assert(pair_set.contains(pair_set[k as int]));
                        assert(anti_in_bounds(pair_set[k as int], maxy as int, maxx as int));
                        assert(pair_set.take(k as int + 1).to_set() =~= pair_set.take(
                            k as int,
                        ).to_set().insert(pair_set[k as int])) by {
                            let t1 = pair_set.take(k as int + 1);
                            let t0 = pair_set.take(k as int);
                            assert forall|m: (int, int)| t1.to_set().contains(m)
                                implies t0.to_set().insert(pair_set[k as int]).contains(m) by {
                                let idx = choose|idx: int| 0 <= idx < t1.len() && t1[idx] == m;
                                if idx < k as int {
                                    assert(t0[idx] == m);
                                    assert(t0.contains(m));
                                } else {
                                    assert(m == pair_set[k as int]);
                                }
                            }
                            assert forall|m: (int, int)|
                                t0.to_set().insert(pair_set[k as int]).contains(m)
                                implies t1.to_set().contains(m) by {
                                if t0.to_set().contains(m) {
                                    let idx = choose|idx: int|
                                        0 <= idx < t0.len() && t0[idx] == m;
                                    assert(t1[idx] == m);
                                    assert(t1.contains(m));
                                } else {
                                    assert(t1[k as int] == m);
                                    assert(t1.contains(m));
                                }
                            }
                        }
                        assert(before_set.union(pair_set.take(k as int + 1).to_set())
                            =~= before_set.union(pair_set.take(k as int).to_set()).insert(
                            pair_set[k as int],
                        ));
                    }
                    nodes.insert(found[k]);
                    k += 1;
                }
                proof {
                    assert(pair_set.take(pair_set.len() as int) =~= pair_set);
                    assert(nodes.set_view() == before_set.union(pair_set.to_set()));
                }
            }
            proof {
                lemma_near_step(occs, maxy as int, maxx as int, a as int, b as int, same);
                if same {
                    assert(nodes.set_view() =~= near_before(
                        occs,
                        maxy as int,
                        maxx as int,
                        a as int,
                        b as int + 1,
                    ));
                } else {
                    assert(nodes.set_view() =~= near_before(
                        occs,
                        maxy as int,
                        maxx as int,
                        a as int,
                        b as int + 1,
                    ));
                }
            }
            b += 1;
        }
        proof {
            assert(near_before(occs, maxy as int, maxx as int, a as int, occs.len() as int)
                =~= near_before(occs, maxy as int, maxx as int, a as int + 1, 0));
        }
        a += 1;
    }
    proof {
        assert(near_before(occs, maxy as int, maxx as int, occs.len() as int, 0)
            =~= near_antinode_set(occs, maxy as int, maxx as int));
        lemma_box_len(nodes.set_view(), maxx as int, maxy as int);
        assert((maxx as int) * (maxy as int) <= 10000 * 10000) by (nonlinear_arith)
            requires
                0 <= maxx as int <= 10000,
                0 <= maxy as int <= 10000,
        ;
    }
    let n = nodes.count();
    n as i32
}

/// Visiting the pair `(a, b)` extends the visited-pair antinode set by
/// that pair's contribution, or leaves it unchanged for a pair of
/// different labels or equal indices.
proof fn lemma_near_step(
    occ: Seq<(char, (usize, usize))>,
    maxy: int,
    maxx: int,
    a: int,
    b: int,
    same: bool,
)
    requires
        0 <= a < occ.len(),
        0 <= b < occ.len(),
        same == (a != b && occ[a].0 == occ[b].0),
    ensures
        same ==> near_before(occ, maxy, maxx, a, b + 1) =~= near_before(occ, maxy, maxx, a, b).union(
            pair_antinodes(maxy, maxx, (occ[a].1, occ[b].1)).to_set(),
        ),
        !same ==> near_before(occ, maxy, maxx, a, b + 1) =~= near_before(occ, maxy, maxx, a, b),
{
    broadcast use vstd::set::group_set_axioms;

    let old_set = near_before(occ, maxy, maxx, a, b);
    let new_set = near_before(occ, maxy, maxx, a, b + 1);
    if same {
        let pair_set = pair_antinodes(maxy, maxx, (occ[a].1, occ[b].1)).to_set();
        assert forall|m: (int, int)| new_set.contains(m) implies old_set.union(pair_set).contains(
            m,
        ) by {
            let (i, j) = choose|i: int, j: int|
                0 <= i < occ.len() && 0 <= j < occ.len() && i != j && (i < a || (i == a && j < b
                    + 1)) && (#[trigger] occ[i]).0 == (#[trigger] occ[j]).0 && pair_antinodes(
                    maxy,
                    maxx,
                    (occ[i].1, occ[j].1),
                ).contains(m);
            if i == a && j == b {
                assert(pair_set.contains(m));
            } else {
                assert(old_set.contains(m));
            }
        }
        assert forall|m: (int, int)| old_set.union(pair_set).contains(m) implies new_set.contains(
            m,
        ) by {
            if old_set.contains(m) {
                let (i, j) = choose|i: int, j: int|
                    0 <= i < occ.len() && 0 <= j < occ.len() && i != j && (i < a || (i == a && j
                        < b)) && (#[trigger] occ[i]).0 == (#[trigger] occ[j]).0 && pair_antinodes(
                        maxy,
                        maxx,
                        (occ[i].1, occ[j].1),
                    ).contains(m);
                assert(0 <= i < occ.len() && 0 <= j < occ.len() && i != j && (i < a || (i == a && j
                    < b + 1)) && occ[i].0 == occ[j].0 && pair_antinodes(
                    maxy,
                    maxx,
                    (occ[i].1, occ[j].1),
                ).contains(m));
            } else {
                assert(0 <= a < occ.len() && 0 <= b < occ.len() && a != b && (a < a || (a == a && b
                    < b + 1)) && occ[a].0 == occ[b].0 && pair_antinodes(
                    maxy,
                    maxx,
                    (occ[a].1, occ[b].1),
                ).contains(m));
            }
        }
    } else {
        assert forall|m: (int, int)| new_set.contains(m) implies old_set.contains(m) by {
            let (i, j) = choose|i: int, j: int|
                0 <= i < occ.len() && 0 <= j < occ.len() && i != j && (i < a || (i == a && j < b
                    + 1)) && (#[trigger] occ[i]).0 == (#[trigger] occ[j]).0 && pair_antinodes(
                    maxy,
                    maxx,
                    (occ[i].1, occ[j].1),
                ).contains(m);
            assert(!(i == a && j == b));
        }
        assert forall|m: (int, int)| old_set.contains(m) implies new_set.contains(m) by {
            let (i, j) = choose|i: int, j: int|
                0 <= i < occ.len() && 0 <= j < occ.len() && i != j && (i < a || (i == a && j < b))
                    && (#[trigger] occ[i]).0 == (#[trigger] occ[j]).0 && pair_antinodes(
                    maxy,
                    maxx,
                    (occ[i].1, occ[j].1),
                ).contains(m);
            assert(0 <= i < occ.len() && 0 <= j < occ.len() && i != j && (i < a || (i == a && j < b
                + 1)) && occ[i].0 == occ[j].0 && pair_antinodes(
                maxy,
                maxx,
                (occ[i].1, occ[j].1),
            ).contains(m));
        }
    }
}

/// Scan the grid for its labelled antenna cells, in row order.
fn collect_occurrences(input: &Vec<Vec<Characters>>) -> (r: Vec<(char, (usize, usize))>)
    requires
        input@.len() <= 10000,
        forall|y: int| 0 <= y < input@.len() ==> (#[trigger] input@[y])@.len() <= 10000,
    ensures
        r@ == occurrences(input@),
        forall|q: int| 0 <= q < r@.len() ==> pos_small((#[trigger] r@[q]).1),
        forall|q: int|
            0 <= q < r@.len() ==> (#[trigger] r@[q]).1.0 < 10000 && r@[q].1.1 < 10000,
        forall|q1: int, q2: int|
            0 <= q1 < q2 < r@.len() ==> (#[trigger] r@[q1]).1 != (#[trigger] r@[q2]).1,
{
    let mut occ: Vec<(char, (usize, usize))> = Vec::new();
    let mut y: usize = 0;
    while y < input.len()
        invariant
            input@.len() <= 10000,
            forall|q: int| 0 <= q < input@.len() ==> (#[trigger] input@[q])@.len() <= 10000,
            y <= input@.len(),
            occ@ == occ_prefix(input@, y as int),
            forall|q: int| 0 <= q < occ@.len() ==> pos_small((#[trigger] occ@[q]).1),
            forall|q: int|
                0 <= q < occ@.len() ==> (#[trigger] occ@[q]).1.0 < 10000 && occ@[q].1.1 < 10000,
            forall|q: int| 0 <= q < occ@.len() ==> ((#[trigger] occ@[q]).1.1 as int) < y,
            forall|q1: int, q2: int|
                0 <= q1 < q2 < occ@.len() ==> (#[trigger] occ@[q1]).1 != (#[trigger] occ@[q2]).1,
        decreases input@.len() - y,
    {
        let width = input[y].len();
        let mut x: usize = 0;
        while x < width
            invariant
                input@.len() <= 10000,
                forall|q: int| 0 <= q < input@.len() ==> (#[trigger] input@[q])@.len() <= 10000,
                y < input@.len(),
                width == input@[y as int]@.len(),
                x <= width,
                occ@ == occ_prefix(input@, y as int).add(
                    occ_row_prefix(input@[y as int]@, y as int, x as int),
                ),
                forall|q: int| 0 <= q < occ@.len() ==> pos_small((#[trigger] occ@[q]).1),
                forall|q: int|
                    0 <= q < occ@.len() ==> (#[trigger] occ@[q]).1.0 < 10000 && occ@[q].1.1
                        < 10000,
                forall|q: int|
                    0 <= q < occ@.len() ==> (((#[trigger] occ@[q]).1.1 as int) < y || ((
                    occ@[q]).1.1 as int == y && ((occ@[q]).1.0 as int) < x)),
                forall|q1: int, q2: int|
                    0 <= q1 < q2 < occ@.len() ==> (#[trigger] occ@[q1]).1 != (
                    #[trigger] occ@[q2]).1,
            decreases width - x,
        {
            match input[y][x] {
                Characters::Char(c) => {
                    occ.push((c, (x, y)));
                },
                Characters::Empty => {},
            }
            x += 1;
        }
        proof {
            assert(occ@ == occ_prefix(input@, y as int + 1));
        }
        y += 1;
    }
    proof {
        assert(occ@ == occurrences(input@));
    }
    occ
}


/// Every resonant antinode of a pair of nearby cells lies in the same
/// ten-thousand-cell box.
proof fn lemma_lots_elements_bounds(maxy: int, maxx: int, pair: ((usize, usize), (usize, usize)))
    requires
        pair.0.0 < 10000,
        pair.0.1 < 10000,
        pair.1.0 < 10000,
        pair.1.1 < 10000,
        0 <= maxy < 10000,
        0 <= maxx < 10000,
    ensures
        forall|k: int|
            0 <= k < lots_antinodes(maxy, maxx, pair).len() ==> 0 <= (#[trigger] lots_antinodes(
                maxy,
                maxx,
                pair,
            )[k]).0 < 10000 && 0 <= lots_antinodes(maxy, maxx, pair)[k].1 < 10000,
{
    let p0 = (pair.0.0 as int, pair.0.1 as int);
    let p1 = (pair.1.0 as int, pair.1.1 as int);
    let v = (p1.0 - p0.0, p1.1 - p0.1);
    let f1 = ray_fuel(p0, maxy, maxx);
    let f2 = ray_fuel(p1, maxy, maxx);
    let ray1 = ray_points(p0, v, maxy, maxx, 1, f1);
    let ray2 = ray_points(p1, (-v.0, -v.1), maxy, maxx, 1, f2);
    lemma_ray_points_in_bounds(p0, v, maxy, maxx, 1, f1);
    lemma_ray_points_in_bounds(p1, (-v.0, -v.1), maxy, maxx, 1, f2);
    let lots = lots_antinodes(maxy, maxx, pair);
    assert forall|k: int| 0 <= k < lots.len() implies 0 <= (#[trigger] lots[k]).0 < 10000 && 0
        <= lots[k].1 < 10000 by {
        if k < 2 {
        } else if k < 2 + ray1.len() {
            assert(lots[k] == ray1[k - 2]);
            assert(lots_in_bounds(ray1[k - 2], maxy, maxx));
        } else {
            assert(lots[k] == ray2[k - 2 - ray1.len()]);
            assert(lots_in_bounds(ray2[k - 2 - ray1.len()], maxy, maxx));
        }
    }
}

/// Visiting the pair `(a, b)` extends the visited-pair resonant set by
/// that pair's contribution, or leaves it unchanged.
proof fn lemma_resonant_step(
    occ: Seq<(char, (usize, usize))>,
    maxy: int,
    maxx: int,
    a: int,
    b: int,
    same: bool,
)
    requires
        0 <= a < occ.len(),
        0 <= b < occ.len(),
        same == (a != b && occ[a].0 == occ[b].0),
    ensures
        same ==> resonant_before(occ, maxy, maxx, a, b + 1) =~= resonant_before(
            occ,
            maxy,
            maxx,
            a,
            b,
        ).union(lots_antinodes(maxy, maxx, (occ[a].1, occ[b].1)).to_set()),
        !same ==> resonant_before(occ, maxy, maxx, a, b + 1) =~= resonant_before(
            occ,
            maxy,
            maxx,
            a,
            b,
        ),
{
    broadcast use vstd::set::group_set_axioms;

    let old_set = resonant_before(occ, maxy, maxx, a, b);
    let new_set = resonant_before(occ, maxy, maxx, a, b + 1);
    if same {
        let pair_set = lots_antinodes(maxy, maxx, (occ[a].1, occ[b].1)).to_set();
        assert forall|m: (int, int)| new_set.contains(m) implies old_set.union(pair_set).contains(
            m,
        ) by {
            let (i, j) = choose|i: int, j: int|
                0 <= i < occ.len() && 0 <= j < occ.len() && i != j && (i < a || (i == a && j < b
                    + 1)) && (#[trigger] occ[i]).0 == (#[trigger] occ[j]).0 && lots_antinodes(
                    maxy,
                    maxx,
                    (occ[i].1, occ[j].1),
                ).contains(m);
            if i == a && j == b {
                assert(pair_set.contains(m));
            } else {
                assert(old_set.contains(m));
            }
        }
        assert forall|m: (int, int)| old_set.union(pair_set).contains(m) implies new_set.contains(
            m,
        ) by {
            if old_set.contains(m) {
                let (i, j) = choose|i: int, j: int|
                    0 <= i < occ.len() && 0 <= j < occ.len() && i != j && (i < a || (i == a && j
                        < b)) && (#[trigger] occ[i]).0 == (#[trigger] occ[j]).0 && lots_antinodes(
                        maxy,
                        maxx,
                        (occ[i].1, occ[j].1),
                    ).contains(m);
                assert(0 <= i < occ.len() && 0 <= j < occ.len() && i != j && (i < a || (i == a && j
                    < b + 1)) && occ[i].0 == occ[j].0 && lots_antinodes(
                    maxy,
                    maxx,
                    (occ[i].1, occ[j].1),
                ).contains(m));
            } else {
                assert(0 <= a < occ.len() && 0 <= b < occ.len() && a != b && (a < a || (a == a && b
                    < b + 1)) && occ[a].0 == occ[b].0 && lots_antinodes(
                    maxy,
                    maxx,
                    (occ[a].1, occ[b].1),
                ).contains(m));
            }
        }
    } else {
        assert forall|m: (int, int)| new_set.contains(m) implies old_set.contains(m) by {
            let (i, j) = choose|i: int, j: int|
                0 <= i < occ.len() && 0 <= j < occ.len() && i != j && (i < a || (i == a && j < b
                    + 1)) && (#[trigger] occ[i]).0 == (#[trigger] occ[j]).0 && lots_antinodes(
                    maxy,
                    maxx,
                    (occ[i].1, occ[j].1),
                ).contains(m);
            assert(!(i == a && j == b));
        }
        assert forall|m: (int, int)| old_set.contains(m) implies new_set.contains(m) by {
            let (i, j) = choose|i: int, j: int|
                0 <= i < occ.len() && 0 <= j < occ.len() && i != j && (i < a || (i == a && j < b))
                    && (#[trigger] occ[i]).0 == (#[trigger] occ[j]).0 && lots_antinodes(
                    maxy,
                    maxx,
                    (occ[i].1, occ[j].1),
                ).contains(m);
            assert(0 <= i < occ.len() && 0 <= j < occ.len() && i != j && (i < a || (i == a && j < b
                + 1)) && occ[i].0 == occ[j].0 && lots_antinodes(
                maxy,
                maxx,
                (occ[i].1, occ[j].1),
            ).contains(m));
        }
    }
}

/// Count the distinct resonant antinodes: each same-labelled pair
/// marks its own two cells and every grid point outward along its
/// line in both directions.
#[verifier::rlimit(100)]
pub fn solve_part_two(input: &Vec<Vec<Characters>>) -> (r: i32)
    requires
        input@.len() >= 1,
        input@[0]@.len() >= 1,
        input@.len() <= 10000,
        forall|y: int| 0 <= y < input@.len() ==> (#[trigger] input@[y])@.len() <= 10000,
    ensures
        r == resonant_antinode_set(
            occurrences(input@),
            input@.len() - 1,
            input@[0]@.len() - 1,
        ).len(),
{
    broadcast use vstd::set::group_set_axioms;

    let maxy = input.len() - 1;
    let maxx = input[0].len() - 1;
    let occ = collect_occurrences(input);
    let ghost occs = occ@;
    let mut nodes = NodeSet::new();
    proof {
        assert(nodes.set_view() =~= resonant_before(occs, maxy as int, maxx as int, 0, 0));
    }
    let mut a: usize = 0;
    while a < occ.len()
        invariant
            occs == occ@,
            occs == occurrences(input@),
            maxy == input@.len() - 1,
            maxx == input@[0]@.len() - 1,
            maxy < 10000,
            maxx < 10000,
            forall|q: int| 0 <= q < occs.len() ==> pos_small((#[trigger] occs[q]).1),
            forall|q: int|
                0 <= q < occs.len() ==> (#[trigger] occs[q]).1.0 < 10000 && occs[q].1.1 < 10000,
            forall|q1: int, q2: int|
                0 <= q1 < q2 < occs.len() ==> (#[trigger] occs[q1]).1 != (#[trigger] occs[q2]).1,
            a <= occs.len(),
            nodes.wf(),
            nodes.set_view() == resonant_before(occs, maxy as int, maxx as int, a as int, 0),
            forall|m: (int, int)|
                nodes.set_view().contains(m) ==> 0 <= m.0 < 10000 && 0 <= m.1 < 10000,
        decreases occs.len() - a,
    {
        let mut b: usize = 0;
        while b < occ.len()
            invariant
                occs == occ@,
                maxy < 10000,
                maxx < 10000,
                forall|q: int| 0 <= q < occs.len() ==> pos_small((#[trigger] occs[q]).1),
                forall|q: int|
                    0 <= q < occs.len() ==> (#[trigger] occs[q]).1.0 < 10000 && occs[q].1.1
                        < 10000,
                forall|q1: int, q2: int|
                    0 <= q1 < q2 < occs.len() ==> (#[trigger] occs[q1]).1 != (
                    #[trigger] occs[q2]).1,
                a < occs.len(),
                b <= occs.len(),
                nodes.wf(),
                nodes.set_view() == resonant_before(
                    occs,
                    maxy as int,
                    maxx as int,
                    a as int,
                    b as int,
                ),
                forall|m: (int, int)|
                    nodes.set_view().contains(m) ==> 0 <= m.0 < 10000 && 0 <= m.1 < 10000,
            decreases occs.len() - b,
        {
            let ghost before_set = nodes.set_view();
            let same = a != b && occ[a].0 == occ[b].0;
            if same {
                proof {
                    if a < b {
                        assert(occs[a as int].1 != occs[b as int].1);
                    } else {
                        assert(occs[b as int].1 != occs[a as int].1);
                    }
                }
                let found = get_lots_of_antinodes_from_pair(maxy, maxx, (occ[a].1, occ[b].1));
                let ghost pair_set = lots_antinodes(
                    maxy as int,
                    maxx as int,
                    (occs[a as int].1, occs[b as int].1),
                );
                proof {
                    lemma_lots_elements_bounds(
                        maxy as int,
                        maxx as int,
                        (occs[a as int].1, occs[b as int].1),
                    );
                }
                let mut k: usize = 0;
                while k < found.len()
                    invariant
                        occs == occ@,
                        maxy < 10000,
                        maxx < 10000,
                        a < occs.len(),
                        b < occs.len(),
                        pair_set == lots_antinodes(
                            maxy as int,
                            maxx as int,
                            (occs[a as int].1, occs[b as int].1),
                        ),
                        found@.map_values(|c: (i32, i32)| (c.0 as int, c.1 as int)) == pair_set,
                        forall|q: int|
                            0 <= q < pair_set.len() ==> 0 <= (#[trigger] pair_set[q]).0 < 10000
                                && 0 <= pair_set[q].1 < 10000,
                        k <= found@.len(),
                        nodes.wf(),
                        nodes.set_view() == before_set.union(pair_set.take(k as int).to_set()),
                        forall|m: (int, int)|
                            before_set.contains(m) ==> 0 <= m.0 < 10000 && 0 <= m.1 < 10000,
                        forall|m: (int, int)|
                            nodes.set_view().contains(m) ==> 0 <= m.0 < 10000 && 0 <= m.1 < 10000,
                    decreases found@.len() - k,
                {
                    proof {
                        assert(node_spec(found@[k as int]) == pair_set[k as int]);
                        assert(pair_set.take(k as int + 1).to_set() =~= pair_set.take(
                            k as int,
                        ).to_set().insert(pair_set[k as int])) by {
                            let t1 = pair_set.take(k as int + 1);
                            let t0 = pair_set.take(k as int);
                            assert forall|m: (int, int)| t1.to_set().contains(m)
                                implies t0.to_set().insert(pair_set[k as int]).contains(m) by {
                                let idx = choose|idx: int| 0 <= idx < t1.len() && t1[idx] == m;
                                if idx < k as int {
                                    assert(t0[idx] == m);
                                    assert(t0.contains(m));
                                } else {
                                    assert(m == pair_set[k as int]);
                                }
                            }
                            assert forall|m: (int, int)|
                                t0.to_set().insert(pair_set[k as int]).contains(m)
                                implies t1.to_set().contains(m) by {
                                if t0.to_set().contains(m) {
                                    let idx = choose|idx: int|
                                        0 <= idx < t0.len() && t0[idx] == m;
                                    assert(t1[idx] == m);
                                    assert(t1.contains(m));
                                } else {
                                    assert(t1[k as int] == m);
                                    assert(t1.contains(m));
                                }
                            }
                        }
                        assert(before_set.union(pair_set.take(k as int + 1).to_set())
                            =~= before_set.union(pair_set.take(k as int).to_set()).insert(
                            pair_set[k as int],
                        ));
                    }
                    nodes.insert(found[k]);
                    k += 1;
                }
                proof {
                    assert(pair_set.take(pair_set.len() as int) =~= pair_set);
                    assert(nodes.set_view() == before_set.union(pair_set.to_set()));
                }
            }
            proof {
                lemma_resonant_step(occs, maxy as int, maxx as int, a as int, b as int, same);
                assert(nodes.set_view() =~= resonant_before(
                    occs,
                    maxy as int,
                    maxx as int,
                    a as int,
                    b as int + 1,
                ));
            }
            b += 1;
        }
        proof {
            assert(resonant_before(occs, maxy as int, maxx as int, a as int, occs.len() as int)
                =~= resonant_before(occs, maxy as int, maxx as int, a as int + 1, 0));
        }
        a += 1;
    }
    proof {
        assert(resonant_before(occs, maxy as int, maxx as int, occs.len() as int, 0)
            =~= resonant_antinode_set(occs, maxy as int, maxx as int));
        lemma_box_len(nodes.set_view(), 10000, 10000);
    }
    let n = nodes.count();
    n as i32
}

} // verus!
