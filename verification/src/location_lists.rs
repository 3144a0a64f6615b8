//! Comparing two lists of location ids.
//!
//! Pairing the lists entry by entry gives a total distance; counting
//! how often each left entry occurs on the right gives a similarity
//! score.

use vstd::prelude::*;
use crate::reports::spec_abs;

verus! {

/// The summed distance of the first `n` pairs.
pub open spec fn distance_prefix(l: Seq<i32>, r: Seq<i32>, n: int) -> int
    decreases n,
{
    if n <= 0 {
        0
    } else {
        distance_prefix(l, r, n - 1) + spec_abs(l[n - 1] - r[n - 1])
    }
}

pub open spec fn pair_count(l: Seq<i32>, r: Seq<i32>) -> int {
    if l.len() <= r.len() {
        l.len() as int
    } else {
        r.len() as int
    }
}

/// The total distance between the lists, paired entry by entry.
pub open spec fn total_distance(l: Seq<i32>, r: Seq<i32>) -> int {
    distance_prefix(l, r, pair_count(l, r))
}

proof fn lemma_distance_mono(l: Seq<i32>, r: Seq<i32>, a: int, b: int)
    requires
        0 <= a <= b,
    ensures
        distance_prefix(l, r, a) <= distance_prefix(l, r, b),
        distance_prefix(l, r, a) >= 0,
    decreases b,
{
    if a < b {
        lemma_distance_mono(l, r, a, b - 1);
    } else if a == b && a > 0 {
        lemma_distance_mono(l, r, a - 1, a - 1);
    }
}

/// Sum the entry-by-entry distances of the two lists.
pub fn solve_part_one(left: &[i32], right: &[i32]) -> (r: i32)
    requires
        total_distance(left@, right@) <= i32::MAX,
    ensures
        r == total_distance(left@, right@),
{
    let n = if left.len() <= right.len() {
        left.len()
    } else {
        right.len()
    };
    let mut acc: i64 = 0;
    let mut i: usize = 0;
    while i < n
        invariant
            n == pair_count(left@, right@),
            n <= left@.len() && n <= right@.len(),
            total_distance(left@, right@) <= i32::MAX,
            i <= n,
            acc == distance_prefix(left@, right@, i as int),
        decreases n - i,
    {
        let d: i64 = (left[i] as i64) - (right[i] as i64);
        let ad: i64 = if d < 0 {
            -d
        } else {
            d
        };
        proof {
            lemma_distance_mono(left@, right@, i as int, i as int);
            lemma_distance_mono(left@, right@, i as int + 1, n as int);
        }
        acc = acc + ad;
        i += 1;
    }
    proof {
        lemma_distance_mono(left@, right@, 0, n as int);
    }
    acc as i32
}

/// How often `v` occurs among the first `n` entries.
pub open spec fn count_prefix(s: Seq<i32>, v: i32, n: int) -> int
    decreases n,
{
    if n <= 0 {
        0
    } else {
        count_prefix(s, v, n - 1) + if s[n - 1] == v {
            1int
        } else {
            0int
        }
    }
}

/// How often `v` occurs in the list.
pub open spec fn count_of(s: Seq<i32>, v: i32) -> int {
    count_prefix(s, v, s.len() as int)
}

/// The summed similarity of the first `n` left entries: each times its
/// count on the right.
pub open spec fn similarity_prefix(l: Seq<i32>, r: Seq<i32>, n: int) -> int
    decreases n,
{
    if n <= 0 {
        0
    } else {
        similarity_prefix(l, r, n - 1) + l[n - 1] * count_of(r, l[n - 1])
    }
}

/// The similarity score of the two lists.
pub open spec fn similarity(l: Seq<i32>, r: Seq<i32>) -> int {
    similarity_prefix(l, r, l.len() as int)
}

/// Score each left entry by its frequency on the right and sum.
pub fn solve_part_two(left: &[i32], right: &[i32]) -> (r: i32)
    requires
        right@.len() <= 0x7fff_ffff,
        forall|k: int|
            0 <= k <= left@.len() ==> i32::MIN <= #[trigger] similarity_prefix(left@, right@, k)
                <= i32::MAX,
    ensures
        r == similarity(left@, right@),
{
    let mut acc: i32 = 0;
    let mut i: usize = 0;
    while i < left.len()
        invariant
            right@.len() <= 0x7fff_ffff,
            forall|k: int|
                0 <= k <= left@.len() ==> i32::MIN <= #[trigger] similarity_prefix(
                    left@,
                    right@,
                    k,
                ) <= i32::MAX,
            i <= left@.len(),
            acc == similarity_prefix(left@, right@, i as int),
        decreases left@.len() - i,
    {
        let v = left[i];
        let mut count: i32 = 0;
        let mut j: usize = 0;
        while j < right.len()
            invariant
                right@.len() <= 0x7fff_ffff,
                j <= right@.len(),
                count == count_prefix(right@, v, j as int),
                0 <= count <= j,
            decreases right@.len() - j,
        {
            if right[j] == v {
                count += 1;
            }
            j += 1;
        }
        proof {
            assert(count == count_of(right@, v));
            assert(similarity_prefix(left@, right@, i as int + 1) == acc + v * count);
            assert(i32::MIN <= similarity_prefix(left@, right@, i as int + 1) <= i32::MAX);
            assert(i32::MIN * 0x8000_0000 <= (v as int) * (count as int) <= i32::MAX
                * 0x8000_0000) by (nonlinear_arith)
                requires
                    i32::MIN <= v as int <= i32::MAX,
                    0 <= count as int <= 0x7fff_ffff,
            ;
        }
        let prod: i64 = (v as i64) * (count as i64);
        let next: i64 = (acc as i64) + prod;
        acc = next as i32;
        i += 1;
    }
    acc
}

} // verus!
