//! Page-ordering rules and update lists.
//!
//! A rule `(a, b)` says page `a` must be printed before page `b`.  An
//! update is in the right order when no page is preceded by one of its
//! successors; the puzzle sums the middle pages of the correct
//! updates, and of the incorrect updates once reordered.

use vstd::prelude::*;

verus! {

pub open spec fn rule_in(rules: Seq<(i32, i32)>, a: i32, b: i32) -> bool {
    rules.contains((a, b))
}

/// The update breaks the rules: some page is followed, at or after its
/// own position, by a page that must precede it.
pub open spec fn violates(rules: Seq<(i32, i32)>, update: Seq<i32>) -> bool {
    exists|i: int, j: int|
        0 <= i <= j < update.len() && rule_in(rules, #[trigger] update[j], #[trigger] update[i])
}

/// Whether the rule `(a, b)` is present.
fn rule_exists(rules: &Vec<(i32, i32)>, a: i32, b: i32) -> (r: bool)
    ensures
        r == rule_in(rules@, a, b),
{
    let mut k: usize = 0;
    while k < rules.len()
        invariant
            k <= rules@.len(),
            forall|q: int| 0 <= q < k ==> rules@[q] != (a, b),
        decreases rules@.len() - k,
    {
        if rules[k].0 == a && rules[k].1 == b {
            proof {
                assert(rules@[k as int] == (a, b));
            }
            return true;
        }
        k += 1;
    }
    proof {
        if rule_in(rules@, a, b) {
            let q = choose|q: int| 0 <= q < rules@.len() && rules@[q] == (a, b);
            assert(false);
        }
    }
    false
}

/// Whether the update breaks the rules.
fn update_violates(rules: &Vec<(i32, i32)>, update: &Vec<i32>) -> (r: bool)
    ensures
        r == violates(rules@, update@),
{
    let mut i: usize = 0;
    while i < update.len()
        invariant
            i <= update@.len(),
            forall|a: int, b: int|
                #![trigger update@[a], update@[b]]
                0 <= a <= b < update@.len() && a < i ==> !rule_in(rules@, update@[b], update@[a]),
        decreases update@.len() - i,
    {
        let mut j: usize = i;
        while j < update.len()
            invariant
                i < update@.len(),
                i <= j <= update@.len(),
                forall|a: int, b: int|
                    #![trigger update@[a], update@[b]]
                    0 <= a <= b < update@.len() && a < i ==> !rule_in(
                        rules@,
                        update@[b],
                        update@[a],
                    ),
                forall|b: int| i <= b < j ==> !rule_in(rules@, #[trigger] update@[b], update@[i as int]),
            decreases update@.len() - j,
        {
            if rule_exists(rules, update[j], update[i]) {
                proof {
                    assert(i as int <= j as int && (j as int) < update@.len() && rule_in(
                        rules@,
                        update@[j as int],
                        update@[i as int],
                    ));
                }
                return true;
            }
            j += 1;
        }
        i += 1;
    }
    false
}

/// The middle pages of the first `n` rule-abiding updates, summed.
pub open spec fn correct_middle_prefix(
    rules: Seq<(i32, i32)>,
    updates: Seq<Vec<i32>>,
    n: int,
) -> int
    decreases n,
{
    if n <= 0 {
        0
    } else {
        correct_middle_prefix(rules, updates, n - 1) + (if !violates(rules, updates[n - 1]@) {
            updates[n - 1]@[updates[n - 1]@.len() as int / 2] as int
        } else {
            0
        })
    }
}

/// The summed middle pages of the updates already in the right order.
pub open spec fn correct_middle_total(rules: Seq<(i32, i32)>, updates: Seq<Vec<i32>>) -> int {
    correct_middle_prefix(rules, updates, updates.len() as int)
}

/// Sum the middle page of every update that already obeys the rules.
pub fn solve_part_one(input: &(Vec<(i32, i32)>, Vec<Vec<i32>>)) -> (r: i32)
    requires
        forall|k: int| 0 <= k < input.1@.len() ==> (#[trigger] input.1@[k])@.len() >= 1,
        forall|n: int|
            0 <= n <= input.1@.len() ==> i32::MIN <= #[trigger] correct_middle_prefix(
                input.0@,
                input.1@,
                n,
            ) <= i32::MAX,
    ensures
        r == correct_middle_total(input.0@, input.1@),
{
    let rules = &input.0;
    let updates = &input.1;
    let mut acc: i32 = 0;
    let mut n: usize = 0;
    while n < updates.len()
        invariant
            rules@ == input.0@,
            updates@ == input.1@,
            forall|k: int| 0 <= k < updates@.len() ==> (#[trigger] updates@[k])@.len() >= 1,
            forall|q: int|
                0 <= q <= updates@.len() ==> i32::MIN <= #[trigger] correct_middle_prefix(
                    rules@,
                    updates@,
                    q,
                ) <= i32::MAX,
            n <= updates@.len(),
            acc == correct_middle_prefix(rules@, updates@, n as int),
        decreases updates@.len() - n,
    {
        let update = &updates[n];
        if !update_violates(rules, update) {
            let mid = update[update.len() / 2];
            proof {
                assert(correct_middle_prefix(rules@, updates@, n as int + 1) == acc + mid);
            }
            acc = ((acc as i64) + (mid as i64)) as i32;
        }
        n += 1;
    }
    acc
}


/// How many of the first `n` pages of the update must precede `p`.
pub open spec fn pred_count(rules: Seq<(i32, i32)>, update: Seq<i32>, p: i32, n: int) -> int
    decreases n,
{
    if n <= 0 {
        0
    } else {
        pred_count(rules, update, p, n - 1) + if rule_in(rules, update[n - 1], p) {
            1int
        } else {
            0int
        }
    }
}

/// How many pages of the update must precede `p`: the position `p`
/// takes once the update is put in the right order.
pub open spec fn page_rank(rules: Seq<(i32, i32)>, update: Seq<i32>, p: i32) -> int {
    pred_count(rules, update, p, update.len() as int)
}

/// The rules order the update's pages strictly and totally: pages are
/// distinct, no page precedes itself, each pair is ordered one way
/// exactly, and precedence is transitive.
pub open spec fn update_sortable(rules: Seq<(i32, i32)>, update: Seq<i32>) -> bool {
    &&& forall|i: int, j: int|
        #![trigger update[i], update[j]]
        0 <= i < j < update.len() ==> update[i] != update[j]
    &&& forall|i: int|
        0 <= i < update.len() ==> !rule_in(rules, #[trigger] update[i], update[i])
    &&& forall|i: int, j: int|
        #![trigger update[i], update[j]]
        0 <= i < update.len() && 0 <= j < update.len() && update[i] != update[j] ==> (rule_in(
            rules,
            update[i],
            update[j],
        ) <==> !rule_in(rules, update[j], update[i]))
    &&& forall|i: int, j: int, k: int|
        #![trigger update[i], update[j], update[k]]
        0 <= i < update.len() && 0 <= j < update.len() && 0 <= k < update.len() && rule_in(
            rules,
            update[i],
            update[j],
        ) && rule_in(rules, update[j], update[k]) ==> rule_in(rules, update[i], update[k])
}

proof fn lemma_pred_count_bounds(rules: Seq<(i32, i32)>, update: Seq<i32>, p: i32, n: int)
    requires
        0 <= n <= update.len(),
    ensures
        0 <= pred_count(rules, update, p, n) <= n,
    decreases n,
{
    if n > 0 {
        lemma_pred_count_bounds(rules, update, p, n - 1);
    }
}

/// A page that does not precede `p` keeps the count below `n`.
proof fn lemma_pred_count_missing(
    rules: Seq<(i32, i32)>,
    update: Seq<i32>,
    p: i32,
    a: int,
    n: int,
)
    requires
        0 <= a < n <= update.len(),
        !rule_in(rules, update[a], p),
    ensures
        pred_count(rules, update, p, n) <= n - 1,
    decreases n,
{
    lemma_pred_count_bounds(rules, update, p, n);
    if a == n - 1 {
        lemma_pred_count_bounds(rules, update, p, n - 1);
    } else {
        lemma_pred_count_missing(rules, update, p, a, n - 1);
    }
}

/// Counting a pointwise-smaller predicate, with one witness where the
/// larger holds and the smaller does not, stays strictly behind.
proof fn lemma_pred_count_strict(
    rules: Seq<(i32, i32)>,
    update: Seq<i32>,
    pa: i32,
    pb: i32,
    a: int,
    n: int,
)
    requires
        0 <= a < update.len(),
        n <= update.len(),
        forall|k: int|
            0 <= k < update.len() && rule_in(rules, #[trigger] update[k], pa) ==> rule_in(
                rules,
                update[k],
                pb,
            ),
        !rule_in(rules, update[a], pa),
        rule_in(rules, update[a], pb),
    ensures
        pred_count(rules, update, pa, n) <= pred_count(rules, update, pb, n),
        n > a ==> pred_count(rules, update, pa, n) < pred_count(rules, update, pb, n),
    decreases n,
{
    if n > 0 {
        lemma_pred_count_strict(rules, update, pa, pb, a, n - 1);
    }
}

/// A page that must precede another gets the smaller rank.
proof fn lemma_rank_strict(rules: Seq<(i32, i32)>, update: Seq<i32>, a: int, b: int)
    requires
        update_sortable(rules, update),
        0 <= a < update.len(),
        0 <= b < update.len(),
        rule_in(rules, update[a], update[b]),
    ensures
        page_rank(rules, update, update[a]) < page_rank(rules, update, update[b]),
{
    assert forall|k: int|
        0 <= k < update.len() && rule_in(rules, #[trigger] update[k], update[a]) implies rule_in(
        rules,
        update[k],
        update[b],
    ) by {}
    lemma_pred_count_strict(
        rules,
        update,
        update[a],
        update[b],
        a,
        update.len() as int,
    );
}

/// Distinct pages of a sortable update get distinct ranks.
proof fn lemma_rank_distinct(rules: Seq<(i32, i32)>, update: Seq<i32>, a: int, b: int)
    requires
        update_sortable(rules, update),
        0 <= a < update.len(),
        0 <= b < update.len(),
        update[a] != update[b],
    ensures
        page_rank(rules, update, update[a]) != page_rank(rules, update, update[b]),
{
    if rule_in(rules, update[a], update[b]) {
        lemma_rank_strict(rules, update, a, b);
    } else {
        lemma_rank_strict(rules, update, b, a);
    }
}

/// Every position below the length is some page's rank: the distinct
/// ranks of the distinct pages fill `[0, len)` completely.
proof fn lemma_rank_onto(rules: Seq<(i32, i32)>, update: Seq<i32>, r: int)
    requires
        update_sortable(rules, update),
        0 <= r < update.len(),
    ensures
        exists|k: int|
            0 <= k < update.len() && page_rank(rules, update, #[trigger] update[k]) == r,
{
    broadcast use vstd::set::group_set_axioms;

    let len = update.len() as int;
    let idxs = vstd::set_lib::set_int_range(0, len);
    let f = |k: int| page_rank(rules, update, update[k]);
    vstd::set_lib::lemma_int_range(0, len);
    assert(vstd::relations::injective_on(f, idxs)) by {
        assert forall|k1: int, k2: int|
            idxs.contains(k1) && idxs.contains(k2) && #[trigger] f(k1) == #[trigger] f(k2)
            implies k1 == k2 by {
            if k1 != k2 {
                if k1 < k2 {
                    assert(update[k1] != update[k2]);
                } else {
                    assert(update[k2] != update[k1]);
                }
                lemma_rank_distinct(rules, update, k1, k2);
            }
        }
    }
    let image = idxs.map(f);
    vstd::set_lib::lemma_map_size(idxs, image, f);
    assert(image.subset_of(vstd::set_lib::set_int_range(0, len))) by {
        assert forall|c: int| image.contains(c) implies 0 <= c < len by {
            let k = choose|k: int| idxs.contains(k) && f(k) == c;
            lemma_pred_count_bounds(rules, update, update[k], len);
            lemma_pred_count_missing(rules, update, update[k], k, len);
        }
    }
    vstd::set_lib::lemma_subset_equality(image, vstd::set_lib::set_int_range(0, len));
    assert(image.contains(r));
    let k = choose|k: int| idxs.contains(k) && f(k) == r;
    assert(0 <= k < update.len() && page_rank(rules, update, update[k]) == r);
}

/// The rank of `p` among the update's pages.
fn count_preds(rules: &Vec<(i32, i32)>, update: &Vec<i32>, p: i32) -> (r: usize)
    ensures
        r == page_rank(rules@, update@, p),
{
    let mut count: usize = 0;
    let mut k: usize = 0;
    while k < update.len()
        invariant
            k <= update@.len(),
            count == pred_count(rules@, update@, p, k as int),
            count <= k,
        decreases update@.len() - k,
    {
        if rule_exists(rules, update[k], p) {
            count += 1;
        }
        k += 1;
    }
    count
}

/// Put a sortable update into the order the rules demand: the page at
/// each position is the one that exactly that many pages precede.
fn reorder_update(rules: &Vec<(i32, i32)>, update: &Vec<i32>) -> (r: Vec<i32>)
    requires
        update_sortable(rules@, update@),
    ensures
        r@.len() == update@.len(),
        forall|i: int|
            #![trigger r@[i]]
            0 <= i < r@.len() ==> update@.contains(r@[i]) && page_rank(rules@, update@, r@[i])
                == i,
{
    let mut fixed: Vec<i32> = Vec::new();
    let mut pos: usize = 0;
    while pos < update.len()
        invariant
            update_sortable(rules@, update@),
            pos <= update@.len(),
            fixed@.len() == pos,
            forall|i: int|
                #![trigger fixed@[i]]
                0 <= i < pos ==> update@.contains(fixed@[i]) && page_rank(
                    rules@,
                    update@,
                    fixed@[i],
                ) == i,
        decreases update@.len() - pos,
    {
        let mut k: usize = 0;
        let mut found = false;
        let mut value: i32 = 0;
        while k < update.len() && !found
            invariant
                update_sortable(rules@, update@),
                pos < update@.len(),
                k <= update@.len(),
                !found ==> forall|q: int|
                    0 <= q < k ==> page_rank(rules@, update@, #[trigger] update@[q]) != pos,
                found ==> update@.contains(value) && page_rank(rules@, update@, value) == pos,
            decreases update@.len() - k + if found {
                0int
            } else {
                1int
            },
        {
            let rank = count_preds(rules, update, update[k]);
            if rank == pos {
                value = update[k];
                found = true;
                proof {
                    assert(update@[k as int] == value);
                    assert(update@.contains(value));
                }
            }
            k += 1;
        }
        proof {
            if !found {
                lemma_rank_onto(rules@, update@, pos as int);
                let q = choose|q: int|
                    0 <= q < update@.len() && page_rank(rules@, update@, #[trigger] update@[q])
                        == pos;
                assert(false);
            }
        }
        fixed.push(value);
        pos += 1;
    }
    fixed
}

/// The middle page the update will have once put in the right order:
/// the page that exactly half the pages precede.
pub open spec fn fixed_middle(rules: Seq<(i32, i32)>, update: Seq<i32>) -> int {
    update[choose|k: int|
        0 <= k < update.len() && page_rank(rules, update, #[trigger] update[k]) == update.len()
            as int / 2] as int
}

/// The middle pages of the first `n` rule-breaking updates after
/// reordering, summed.
pub open spec fn reordered_middle_prefix(
    rules: Seq<(i32, i32)>,
    updates: Seq<Vec<i32>>,
    n: int,
) -> int
    decreases n,
{
    if n <= 0 {
        0
    } else {
        reordered_middle_prefix(rules, updates, n - 1) + (if violates(rules, updates[n - 1]@) {
            fixed_middle(rules, updates[n - 1]@)
        } else {
            0
        })
    }
}

pub open spec fn reordered_middle_total(rules: Seq<(i32, i32)>, updates: Seq<Vec<i32>>) -> int {
    reordered_middle_prefix(rules, updates, updates.len() as int)
}

/// Reorder every rule-breaking update and sum their middle pages.
pub fn solve_part_two(input: &(Vec<(i32, i32)>, Vec<Vec<i32>>)) -> (r: i32)
    requires
        forall|k: int| 0 <= k < input.1@.len() ==> (#[trigger] input.1@[k])@.len() >= 1,
        forall|k: int|
            0 <= k < input.1@.len() && violates(input.0@, (#[trigger] input.1@[k])@)
                ==> update_sortable(input.0@, input.1@[k]@),
        forall|n: int|
            0 <= n <= input.1@.len() ==> i32::MIN <= #[trigger] reordered_middle_prefix(
                input.0@,
                input.1@,
                n,
            ) <= i32::MAX,
    ensures
        r == reordered_middle_total(input.0@, input.1@),
{
    let rules = &input.0;
    let updates = &input.1;
    let mut acc: i32 = 0;
    let mut n: usize = 0;
    while n < updates.len()
        invariant
            rules@ == input.0@,
            updates@ == input.1@,
            forall|k: int| 0 <= k < updates@.len() ==> (#[trigger] updates@[k])@.len() >= 1,
            forall|k: int|
                0 <= k < updates@.len() && violates(rules@, (#[trigger] updates@[k])@)
                    ==> update_sortable(rules@, updates@[k]@),
            forall|q: int|
                0 <= q <= updates@.len() ==> i32::MIN <= #[trigger] reordered_middle_prefix(
                    rules@,
                    updates@,
                    q,
                ) <= i32::MAX,
            n <= updates@.len(),
            acc == reordered_middle_prefix(rules@, updates@, n as int),
        decreases updates@.len() - n,
    {
        let update = &updates[n];
        if update_violates(rules, update) {
            let fixed = reorder_update(rules, update);
            let mid = fixed[fixed.len() / 2];
            proof {
                let half = update@.len() as int / 2;
                assert(update@.contains(mid) && page_rank(rules@, update@, mid) == half);
                let k0 = choose|k: int| 0 <= k < update@.len() && update@[k] == mid;
                assert(exists|k: int|
                    0 <= k < update@.len() && page_rank(rules@, update@, #[trigger] update@[k])
                        == half) by {
                    assert(page_rank(rules@, update@, update@[k0]) == half);
                }
                let kc = choose|k: int|
                    0 <= k < update@.len() && page_rank(rules@, update@, #[trigger] update@[k])
                        == half;
                if update@[kc] != update@[k0] {
                    lemma_rank_distinct(rules@, update@, kc, k0);
                    assert(false);
                }
                assert(mid as int == fixed_middle(rules@, update@));
                assert(reordered_middle_prefix(rules@, updates@, n as int + 1) == acc + mid);
            }
            acc = ((acc as i64) + (mid as i64)) as i32;
        }
        n += 1;
    }
    acc
}


} // verus!
