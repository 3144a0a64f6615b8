//! A dense disk layout and its compaction.
//!
//! A digit string alternately gives the sizes of file-block runs and
//! free runs.  The layout is expanded cell by cell, compacted either by
//! moving single blocks into the leftmost free cells or by moving whole
//! files into the first free span that fits, and summed into a
//! checksum.

use vstd::prelude::*;

verus! {

/// One cell of the expanded layout: a block of the file with the given
/// id, or free space.
#[derive(Clone, Copy, Debug, PartialEq, Eq, Structural)]
pub enum Thing {
    Block(i64),
    Free,
}

/// What the next run of cells holds.
#[derive(Clone, Copy, Debug, PartialEq, Eq, Structural)]
pub enum NextThing {
    Block,
    Free,
}

/// The expanded layout of the sizes from `idx` on, when the run at
/// `idx` holds what `next` says and the next file gets id `id`.
pub open spec fn layout_from(sizes: Seq<i64>, idx: int, id: int, next: NextThing) -> Seq<Thing>
    decreases sizes.len() - idx,
{
    if idx < 0 || idx >= sizes.len() {
        Seq::empty()
    } else {
        let n = sizes[idx];
        let len = if n >= 0 {
            n as nat
        } else {
            0
        };
        match next {
            NextThing::Block => Seq::new(len, |k: int| Thing::Block(id as i64)).add(
                layout_from(sizes, idx + 1, id + 1, NextThing::Free),
            ),
            NextThing::Free => Seq::new(len, |k: int| Thing::Free).add(
                layout_from(sizes, idx + 1, id, NextThing::Block),
            ),
        }
    }
}

/// The expanded layout of a size list: runs alternate between file
/// blocks and free cells, starting with the file of id zero.
pub open spec fn convert_spec(sizes: Seq<i64>) -> Seq<Thing> {
    layout_from(sizes, 0, 0, NextThing::Block)
}

/// The sum of the sizes from `idx` on.
pub open spec fn sizes_total(sizes: Seq<i64>, idx: int) -> int
    decreases sizes.len() - idx,
{
    if idx < 0 || idx >= sizes.len() {
        0
    } else {
        (if sizes[idx] >= 0 {
            sizes[idx] as int
        } else {
            0
        }) + sizes_total(sizes, idx + 1)
    }
}

proof fn lemma_layout_len(sizes: Seq<i64>, idx: int, id: int, next: NextThing)
    ensures
        layout_from(sizes, idx, id, next).len() == sizes_total(sizes, idx),
    decreases sizes.len() - idx,
{
    if 0 <= idx < sizes.len() {
        lemma_layout_len(sizes, idx + 1, id + 1, NextThing::Free);
        lemma_layout_len(sizes, idx + 1, id, NextThing::Block);
    }
}

/// Expand a size list into its cell-by-cell layout.
pub fn convert_input(input: &[i64]) -> (r: Vec<Thing>)
    requires
        forall|i: int| 0 <= i < input@.len() ==> 0 <= #[trigger] input@[i] <= 9,
        input@.len() <= 0x1000_0000,
    ensures
        r@ == convert_spec(input@),
{
    let mut result: Vec<Thing> = Vec::new();
    let mut next_block = true;
    let mut next_id: i64 = 0;
    let mut i: usize = 0;
    proof {
        assert(result@.add(convert_spec(input@)) =~= convert_spec(input@));
    }
    while i < input.len()
        invariant
            forall|j: int| 0 <= j < input@.len() ==> 0 <= #[trigger] input@[j] <= 9,
            input@.len() <= 0x1000_0000,
            i <= input@.len(),
            0 <= next_id <= i,
            result@.len() <= 9 * i,
            convert_spec(input@) == result@.add(
                layout_from(
                    input@,
                    i as int,
                    next_id as int,
                    if next_block {
                        NextThing::Block
                    } else {
                        NextThing::Free
                    },
                ),
            ),
        decreases input@.len() - i,
    {
        let n = input[i];
        let ghost tail = layout_from(
            input@,
            i as int + 1,
            if next_block {
                next_id + 1
            } else {
                next_id as int
            },
            if next_block {
                NextThing::Free
            } else {
                NextThing::Block
            },
        );
        let ghost run = if next_block {
            Seq::new(n as nat, |k: int| Thing::Block(next_id))
        } else {
            Seq::new(n as nat, |k: int| Thing::Free)
        };
        proof {
            assert(layout_from(
                input@,
                i as int,
                next_id as int,
                if next_block {
                    NextThing::Block
                } else {
                    NextThing::Free
                },
            ) == run.add(tail));
        }
        let ghost before = result@;
        let mut k: i64 = 0;
        while k < n
            invariant
                0 <= k <= 9,
                0 <= n <= 9,
                k <= n,
                run.len() == n,
                before.len() <= 0x9000_0000,
                result@.len() == before.len() + k,
                result@ == before.add(run.take(k as int)),
                run == (if next_block {
                    Seq::new(n as nat, |j: int| Thing::Block(next_id))
                } else {
                    Seq::new(n as nat, |j: int| Thing::Free)
                }),
            decreases n - k,
        {
            let c = if next_block {
                Thing::Block(next_id)
            } else {
                Thing::Free
            };
            result.push(c);
            proof {
                assert(result@ =~= before.add(run.take(k as int + 1)));
            }
            k += 1;
        }
        proof {
            assert(run.take(n as int) =~= run);
            assert(result@ == before.add(run));
            assert(before.add(run).add(tail) =~= before.add(run.add(tail)));
        }
        if next_block {
            next_id += 1;
            next_block = false;
        } else {
            next_block = true;
        }
        i += 1;
    }
    proof {
        assert(layout_from(input@, i as int, next_id as int, NextThing::Block) =~= Seq::<
            Thing,
        >::empty());
        assert(layout_from(input@, i as int, next_id as int, NextThing::Free) =~= Seq::<
            Thing,
        >::empty());
        assert(result@ =~= convert_spec(input@));
    }
    result
}

/// The checksum of the first `n` cells: each block contributes its
/// position times its file id.
pub open spec fn checksum_prefix(s: Seq<Thing>, n: int) -> int
    decreases n,
{
    if n <= 0 {
        0
    } else {
        checksum_prefix(s, n - 1) + (match s[n - 1] {
            Thing::Block(id) => (n - 1) * id,
            Thing::Free => 0,
        })
    }
}

/// The checksum of a layout.
pub open spec fn checksum_of(s: Seq<Thing>) -> int {
    checksum_prefix(s, s.len() as int)
}

/// All file ids in the layout are nonnegative.
pub open spec fn ids_nonneg(s: Seq<Thing>) -> bool {
    forall|i: int|
        0 <= i < s.len() ==> (#[trigger] s[i] matches Thing::Block(id) ==> id >= 0)
}

proof fn lemma_checksum_nonneg(s: Seq<Thing>, n: int)
    requires
        ids_nonneg(s),
        n <= s.len(),
    ensures
        checksum_prefix(s, n) >= 0,
    decreases n,
{
    if n > 0 {
        lemma_checksum_nonneg(s, n - 1);
        assert((n - 1) * (match s[n - 1] {
            Thing::Block(id) => id,
            Thing::Free => 0,
        }) >= 0) by (nonlinear_arith)
            requires
                n - 1 >= 0,
                (match s[n - 1] {
                    Thing::Block(id) => id,
                    Thing::Free => 0,
                }) >= 0,
        ;
    }
}

proof fn lemma_checksum_mono(s: Seq<Thing>, a: int, b: int)
    requires
        ids_nonneg(s),
        0 <= a <= b <= s.len(),
    ensures
        checksum_prefix(s, a) <= checksum_prefix(s, b),
    decreases b,
{
    if a < b {
        lemma_checksum_mono(s, a, b - 1);
        assert((b - 1) * (match s[b - 1] {
            Thing::Block(id) => id,
            Thing::Free => 0,
        }) >= 0) by (nonlinear_arith)
            requires
                b - 1 >= 0,
                (match s[b - 1] {
                    Thing::Block(id) => id,
                    Thing::Free => 0,
                }) >= 0,
        ;
    }
}

/// Sum the checksum of a layout.
pub fn get_checksum(input: &Vec<Thing>) -> (r: i64)
    requires
        input@.len() <= 0x7fff_ffff_ffff_ffff,
        ids_nonneg(input@),
        checksum_of(input@) <= i64::MAX,
    ensures
        r == checksum_of(input@),
{
    let mut acc: i64 = 0;
    let mut i: usize = 0;
    while i < input.len()
        invariant
            input@.len() <= 0x7fff_ffff_ffff_ffff,
            ids_nonneg(input@),
            checksum_of(input@) <= i64::MAX,
            i <= input@.len(),
            acc == checksum_prefix(input@, i as int),
        decreases input@.len() - i,
    {
        match input[i] {
            Thing::Block(id) => {
                proof {
                    lemma_checksum_nonneg(input@, i as int);
                    lemma_checksum_mono(input@, i as int + 1, input@.len() as int);
                    assert((i as int) * id >= 0) by (nonlinear_arith)
                        requires
                            0 <= i as int,
                            0 <= id,
                    ;
                }
                acc = acc + (i as i64) * id;
            },
            Thing::Free => {},
        }
        i += 1;
    }
    acc
}


/// How many of the first `n` cells are blocks.
pub open spec fn blocks_prefix(s: Seq<Thing>, n: int) -> int
    decreases n,
{
    if n <= 0 {
        0
    } else {
        blocks_prefix(s, n - 1) + if s[n - 1] is Block {
            1int
        } else {
            0int
        }
    }
}

/// The number of blocks in a layout.
pub open spec fn count_blocks(s: Seq<Thing>) -> int {
    blocks_prefix(s, s.len() as int)
}

/// Two cells exchanged.
pub open spec fn swap_cells(s: Seq<Thing>, a: int, b: int) -> Seq<Thing> {
    s.update(a, s[b]).update(b, s[a])
}

/// The two-pointer compaction rule, from `start` and `end` inward: skip
/// blocks at the front and frees at the back, and move each rearmost
/// block into the foremost free cell.
pub open spec fn compact_step(s: Seq<Thing>, start: int, end: int) -> Seq<Thing>
    decreases end + 1 - start,
{
    if start >= end {
        s
    } else {
        match (s[start], s[end]) {
            (Thing::Block(_), Thing::Free) => compact_step(s, start + 1, end - 1),
            (Thing::Block(_), Thing::Block(_)) => compact_step(s, start + 1, end),
            (Thing::Free, Thing::Block(_)) => compact_step(
                swap_cells(s, start, end),
                start + 1,
                end - 1,
            ),
            (Thing::Free, Thing::Free) => compact_step(s, start, end - 1),
        }
    }
}

/// The compacted layout: blocks drawn forward from the rear into the
/// free cells, in the order the two-pointer rule visits them.
pub open spec fn rearrange_spec(s: Seq<Thing>) -> Seq<Thing> {
    compact_step(s, 0, s.len() - 1)
}

proof fn lemma_blocks_prefix_update(s: Seq<Thing>, p: int, v: Thing, n: int)
    requires
        0 <= p < s.len(),
        n <= s.len(),
    ensures
        blocks_prefix(s.update(p, v), n) == blocks_prefix(s, n) + if p < n {
            (if v is Block {
                1int
            } else {
                0int
            }) - (if s[p] is Block {
                1int
            } else {
                0int
            })
        } else {
            0int
        },
    decreases n,
{
    if n > 0 {
        lemma_blocks_prefix_update(s, p, v, n - 1);
    }
}

/// In a layout whose first `k` cells are blocks and whose rest is free,
/// the block count is exactly `k`.
proof fn lemma_count_sandwich(s: Seq<Thing>, k: int, n: int)
    requires
        0 <= k <= s.len(),
        0 <= n <= s.len(),
        forall|i: int| 0 <= i < k ==> (#[trigger] s[i]) is Block,
        forall|i: int| k <= i < s.len() ==> !((#[trigger] s[i]) is Block),
    ensures
        blocks_prefix(s, n) == if n <= k {
            n
        } else {
            k
        },
    decreases n,
{
    if n > 0 {
        lemma_count_sandwich(s, k, n - 1);
    }
}

/// The compaction rule keeps the length and the block count, and ends
/// with every block before every free cell, provided it starts with a
/// block prefix and a free suffix already in place.
proof fn lemma_compact_step(s: Seq<Thing>, start: int, end: int)
    requires
        0 <= start <= end + 1,
        end < s.len(),
        forall|i: int| 0 <= i < start ==> (#[trigger] s[i]) is Block,
        forall|i: int| end < i < s.len() ==> !((#[trigger] s[i]) is Block),
    ensures
        compact_step(s, start, end).len() == s.len(),
        count_blocks(compact_step(s, start, end)) == count_blocks(s),
        forall|i: int|
            0 <= i < s.len() ==> ((#[trigger] compact_step(s, start, end)[i]) is Block <==> i
                < count_blocks(s)),
    decreases end + 1 - start,
{
    let b = count_blocks(s);
    if start >= end {
        if start == end + 1 {
            lemma_count_sandwich(s, start, s.len() as int);
        } else {
            if s[start] is Block {
                lemma_count_sandwich(s, start + 1, s.len() as int);
            } else {
                lemma_count_sandwich(s, start, s.len() as int);
            }
        }
    } else {
        match (s[start], s[end]) {
            (Thing::Block(_), Thing::Free) => {
                lemma_compact_step(s, start + 1, end - 1);
            },
            (Thing::Block(_), Thing::Block(_)) => {
                lemma_compact_step(s, start + 1, end);
            },
            (Thing::Free, Thing::Block(_)) => {
                let s2 = swap_cells(s, start, end);
                assert(s2.len() == s.len());
                assert(count_blocks(s2) == count_blocks(s)) by {
                    lemma_blocks_prefix_update(s, start, s[end], s.len() as int);
                    lemma_blocks_prefix_update(
                        s.update(start, s[end]),
                        end,
                        s[start],
                        s.len() as int,
                    );
                }
                lemma_compact_step(s2, start + 1, end - 1);
            },
            (Thing::Free, Thing::Free) => {
                lemma_compact_step(s, start, end - 1);
            },
        }
    }
}

/// Compact the layout: walk a front and a rear pointer inward, moving
/// each rearmost block into the foremost free cell.
pub fn rearrange(input: &Vec<Thing>) -> (r: Vec<Thing>)
    requires
        input@.len() >= 1,
    ensures
        r@ == rearrange_spec(input@),
        r@.len() == input@.len(),
        count_blocks(r@) == count_blocks(input@),
        forall|i: int|
            0 <= i < r@.len() ==> ((#[trigger] r@[i]) is Block <==> i < count_blocks(input@)),
{
    let mut start: usize = 0;
    let mut end: usize = input.len() - 1;
    let mut result: Vec<Thing> = Vec::new();
    let mut k: usize = 0;
    while k < input.len()
        invariant
            k <= input@.len(),
            result@.len() == k,
            forall|j: int| 0 <= j < k ==> result@[j] == input@[j],
        decreases input@.len() - k,
    {
        result.push(input[k]);
        k += 1;
    }
    proof {
        assert(result@ =~= input@);
    }
    while start < end
        invariant
            input@.len() >= 1,
            result@.len() == input@.len(),
            start < input@.len(),
            end < input@.len(),
            rearrange_spec(input@) == compact_step(result@, start as int, end as int),
        decreases end + 1 - start,
    {
        let a = result[start];
        let b = result[end];
        match (a, b) {
            (Thing::Block(_), Thing::Free) => {
                start += 1;
                end -= 1;
            },
            (Thing::Block(_), Thing::Block(_)) => {
                start += 1;
            },
            (Thing::Free, Thing::Block(_)) => {
                let ghost before = result@;
                result.set(start, b);
                result.set(end, a);
                proof {
                    assert(result@ =~= swap_cells(before, start as int, end as int));
                }
                start += 1;
                end -= 1;
            },
            (Thing::Free, Thing::Free) => {
                end -= 1;
            },
        }
        proof {
            if start > end {
                assert(compact_step(result@, start as int, end as int) == result@);
            }
        }
    }
    proof {
        assert(compact_step(result@, start as int, end as int) == result@);
        lemma_compact_step(input@, 0, input@.len() - 1);
    }
    result
}


/// `len_` consecutive free cells beginning at `start`.
pub open spec fn free_run_at(s: Seq<Thing>, start: int, len_: int) -> bool {
    &&& 0 <= start
    &&& start + len_ <= s.len()
    &&& forall|k: int| start <= k < start + len_ ==> (#[trigger] s[k]) is Free
}

/// Find the first span of exactly `target_length` consecutive free
/// cells, returned as the list of its indices; `None` when no such
/// span exists or the length asked for is zero.
pub fn find_zero_block(vec: &[Thing], target_length: usize) -> (r: Option<Vec<usize>>)
    ensures
        match r {
            Some(v) => {
                &&& target_length >= 1
                &&& v@.len() == target_length
                &&& forall|k: int| 0 <= k < v@.len() ==> #[trigger] v@[k] as int == v@[0] + k
                &&& free_run_at(vec@, v@[0] as int, target_length as int)
                &&& forall|s2: int| 0 <= s2 < v@[0] ==> !free_run_at(vec@, s2, target_length as int)
            },
            None => target_length == 0 || forall|s2: int|
                !free_run_at(vec@, s2, target_length as int),
        },
{
    if target_length == 0 {
        return None;
    }
    let mut current_length: usize = 0;
    let mut start_index: usize = 0;
    let mut i: usize = 0;
    while i < vec.len()
        invariant
            1 <= target_length,
            i <= vec@.len(),
            current_length < target_length,
            current_length <= i,
            start_index == i - current_length,
            forall|k: int| start_index <= k < i ==> (#[trigger] vec@[k]) is Free,
            current_length > 0 ==> start_index == 0 || !((vec@[start_index - 1]) is Free),
            current_length == 0 ==> i == 0 || !((vec@[i - 1]) is Free),
            forall|s2: int|
                s2 + target_length <= i ==> !free_run_at(vec@, s2, target_length as int),
        decreases vec@.len() - i,
    {
        let is_free = vec[i] == Thing::Free;
        if is_free {
            if current_length == 0 {
                start_index = i;
            }
            current_length += 1;
            if current_length == target_length {
                let mut out: Vec<usize> = Vec::new();
                let mut k: usize = 0;
                while k < target_length
                    invariant
                        k <= target_length,
                        out@.len() == k,
                        start_index + target_length <= vec@.len(),
                        vec@.len() <= usize::MAX,
                        forall|j: int|
                            0 <= j < k ==> #[trigger] out@[j] as int == start_index + j,
                    decreases target_length - k,
                {
                    out.push(start_index + k);
                    k += 1;
                }
                proof {
                    assert(out@[0] == start_index);
                    assert(free_run_at(vec@, start_index as int, target_length as int));
                    assert forall|s2: int| 0 <= s2 < start_index implies !free_run_at(
                        vec@,
                        s2,
                        target_length as int,
                    ) by {
                        if free_run_at(vec@, s2, target_length as int) {
                            if s2 + target_length <= i {
                                assert(!free_run_at(vec@, s2, target_length as int));
                            } else {
                                assert(s2 <= start_index - 1 < s2 + target_length);
                                assert(vec@[start_index - 1] is Free);
                            }
                        }
                    }
                }
                return Some(out);
            }
        } else {
            current_length = 0;
            start_index = i + 1;
        }
        proof {
            assert forall|s2: int| s2 + target_length <= i + 1 implies !free_run_at(
                vec@,
                s2,
                target_length as int,
            ) by {
                if s2 + target_length == i + 1 && free_run_at(vec@, s2, target_length as int) {
                    if is_free {
                        assert(s2 >= 0);
                        assert(s2 < start_index) by {
                            assert(i + 1 - (target_length as int) < i - current_length + 1);
                        }
                        assert(s2 <= start_index - 1 < s2 + target_length);
                        assert(vec@[start_index - 1] is Free);
                        assert(start_index == 0 ==> s2 < 0);
                        assert(false);
                    } else {
                        assert(vec@[i as int] is Free);
                        assert(false);
                    }
                }
            }
        }
        i += 1;
    }
    proof {
        assert forall|s2: int| !free_run_at(vec@, s2, target_length as int) by {
            if free_run_at(vec@, s2, target_length as int) {
                assert(s2 + target_length <= vec@.len());
            }
        }
    }
    None
}


/// The positions, in order, of the blocks of file `id` among the first
/// `n` cells.
pub open spec fn id_positions(s: Seq<Thing>, id: i64, n: int) -> Seq<int>
    decreases n,
{
    if n <= 0 {
        Seq::empty()
    } else {
        id_positions(s, id, n - 1).add(
            if s[n - 1] == Thing::Block(id) {
                seq![n - 1]
            } else {
                Seq::empty()
            },
        )
    }
}

pub open spec fn has_free_run(s: Seq<Thing>, len_: int) -> bool {
    exists|st: int| free_run_at(s, st, len_)
}

/// The start of the first span of `len_` consecutive free cells at or
/// after `from`; the length of the layout when there is none.
pub open spec fn first_free_run_from(s: Seq<Thing>, len_: int, from: int) -> int
    decreases s.len() - from,
{
    if from < 0 || from + len_ > s.len() {
        s.len() as int
    } else if free_run_at(s, from, len_) {
        from
    } else {
        first_free_run_from(s, len_, from + 1)
    }
}

/// The start of the first span of `len_` consecutive free cells.
pub open spec fn first_free_run(s: Seq<Thing>, len_: int) -> int {
    first_free_run_from(s, len_, 0)
}

proof fn lemma_first_free_run_from(s: Seq<Thing>, len_: int, from: int)
    requires
        0 <= from,
        0 <= len_,
        exists|st: int| st >= from && free_run_at(s, st, len_),
    ensures
        from <= first_free_run_from(s, len_, from),
        free_run_at(s, first_free_run_from(s, len_, from), len_),
        forall|s2: int|
            from <= s2 < first_free_run_from(s, len_, from) ==> !free_run_at(s, s2, len_),
    decreases s.len() - from,
{
    let st = choose|st: int| st >= from && free_run_at(s, st, len_);
    assert(st + len_ <= s.len());
    if from + len_ > s.len() {
        assert(false);
    } else if free_run_at(s, from, len_) {
    } else {
        assert(st >= from + 1);
        lemma_first_free_run_from(s, len_, from + 1);
    }
}

/// With some span present, `first_free_run` names the first one.
proof fn lemma_first_free_run(s: Seq<Thing>, len_: int)
    requires
        0 <= len_,
        has_free_run(s, len_),
    ensures
        free_run_at(s, first_free_run(s, len_), len_),
        forall|s2: int| 0 <= s2 < first_free_run(s, len_) ==> !free_run_at(s, s2, len_),
{
    let st = choose|st: int| free_run_at(s, st, len_);
    assert(st >= 0 && free_run_at(s, st, len_));
    lemma_first_free_run_from(s, len_, 0);
}

/// The cells at `idxs` exchanged one by one with the run starting at `f0`.
pub open spec fn swap_many(s: Seq<Thing>, idxs: Seq<int>, f0: int) -> Seq<Thing>
    decreases idxs.len(),
{
    if idxs.len() == 0 {
        s
    } else {
        swap_many(swap_cells(s, idxs[0], f0), idxs.drop_first(), f0 + 1)
    }
}

/// One defragmentation step: move the whole file `id` into the first
/// free span that fits, if that span lies before the file.
pub open spec fn defrag_one(s: Seq<Thing>, id: i64) -> Seq<Thing> {
    let idxs = id_positions(s, id, s.len() as int);
    let l = idxs.len() as int;
    if l >= 1 && has_free_run(s, l) && first_free_run(s, l) < idxs[0] {
        swap_many(s, idxs, first_free_run(s, l))
    } else {
        s
    }
}

/// Defragment the files with ids `id` down to zero, highest first.
pub open spec fn defrag_down(s: Seq<Thing>, id: i64) -> Seq<Thing>
    decreases id + 1,
{
    if id < 0 {
        s
    } else {
        defrag_down(defrag_one(s, id), (id - 1) as i64)
    }
}

/// The position of the rearmost block among the first `n` cells.
pub open spec fn last_block_pos(s: Seq<Thing>, n: int) -> int
    decreases n,
{
    if n <= 0 {
        -1
    } else if s[n - 1] is Block {
        n - 1
    } else {
        last_block_pos(s, n - 1)
    }
}

/// The id of the rearmost block: the highest file id in a layout that
/// lists its files in order.
pub open spec fn top_id(s: Seq<Thing>) -> i64 {
    s[last_block_pos(s, s.len() as int)]->Block_0
}

proof fn lemma_swap_many_len(s: Seq<Thing>, idxs: Seq<int>, f0: int)
    requires
        forall|j: int| 0 <= j < idxs.len() ==> 0 <= #[trigger] idxs[j] < s.len(),
        0 <= f0,
        f0 + idxs.len() <= s.len(),
    ensures
        swap_many(s, idxs, f0).len() == s.len(),
    decreases idxs.len(),
{
    if idxs.len() > 0 {
        let s2 = swap_cells(s, idxs[0], f0);
        assert(s2.len() == s.len());
        assert(forall|j: int|
            0 <= j < idxs.drop_first().len() ==> 0 <= #[trigger] idxs.drop_first()[j] < s2.len());
        lemma_swap_many_len(s2, idxs.drop_first(), f0 + 1);
    }
}

#[verifier::rlimit(60)]
proof fn lemma_defrag_down_len(s: Seq<Thing>, id: i64)
    ensures
        defrag_down(s, id).len() == s.len(),
    decreases id + 1,
{
    if id >= 0 {
        let idxs = id_positions(s, id, s.len() as int);
        let l = idxs.len() as int;
        if l >= 1 && has_free_run(s, l) && first_free_run(s, l) < idxs[0] {
            lemma_first_free_run(s, l);
            lemma_id_positions_bounds(s, id, s.len() as int);
            lemma_swap_many_len(s, idxs, first_free_run(s, l));
        }
        lemma_defrag_down_len(defrag_one(s, id), (id - 1) as i64);
    }
}

/// Every recorded position of file `id` lies in bounds.
proof fn lemma_id_positions_bounds(s: Seq<Thing>, id: i64, n: int)
    requires
        n <= s.len(),
    ensures
        forall|j: int|
            0 <= j < id_positions(s, id, n).len() ==> 0 <= #[trigger] id_positions(s, id, n)[j]
                < n,
    decreases n,
{
    if n > 0 {
        lemma_id_positions_bounds(s, id, n - 1);
        let prev = id_positions(s, id, n - 1);
        let curr = id_positions(s, id, n);
        assert forall|j: int| 0 <= j < curr.len() implies 0 <= #[trigger] curr[j] < n by {
            if j < prev.len() {
                assert(curr[j] == prev[j]);
            } else {
                assert(curr[j] == n - 1);
            }
        }
    }
}

/// A non-block suffix does not move the rearmost block.
proof fn lemma_last_block_skip(s: Seq<Thing>, a: int, b: int)
    requires
        0 <= a <= b <= s.len(),
        forall|k: int| a <= k < b ==> !((#[trigger] s[k]) is Block),
    ensures
        last_block_pos(s, b) == last_block_pos(s, a),
    decreases b,
{
    if a < b {
        lemma_last_block_skip(s, a, b - 1);
    }
}

/// Move whole files, highest id first, each into the first free span
/// that fits and lies before it.
#[verifier::rlimit(60)]
pub fn rearrange_part_two(input: &Vec<Thing>) -> (r: Vec<Thing>)
    requires
        exists|i: int| 0 <= i < input@.len() && (#[trigger] input@[i]) is Block,
    ensures
        r@ == defrag_down(input@, top_id(input@)),
        r@.len() == input@.len(),
{
    // the id of the rearmost block
    let mut j: usize = input.len();
    let mut active_id: i64 = 0;
    let mut found = false;
    while j > 0 && !found
        invariant
            exists|i: int| 0 <= i < input@.len() && (#[trigger] input@[i]) is Block,
            j <= input@.len(),
            !found ==> forall|k: int| j <= k < input@.len() ==> !((#[trigger] input@[k]) is Block),
            found ==> j < input@.len() && input@[j as int] is Block && (forall|k: int|
                j < k < input@.len() ==> !((#[trigger] input@[k]) is Block)) && active_id
                == input@[j as int]->Block_0,
        decreases j + if found {
            0int
        } else {
            1int
        },
    {
        let probe = j - 1;
        match input[probe] {
            Thing::Block(id) => {
                active_id = id;
                found = true;
                j = probe;
            },
            Thing::Free => {
                j = probe;
            },
        }
    }
    proof {
        if !found {
            let i = choose|i: int| 0 <= i < input@.len() && (#[trigger] input@[i]) is Block;
            assert(false);
        }
        lemma_last_block_skip(input@, j as int + 1, input@.len() as int);
        assert(last_block_pos(input@, j as int + 1) == j as int);
        assert(active_id == top_id(input@));
    }
    // working copy
    let mut result: Vec<Thing> = Vec::new();
    let mut k: usize = 0;
    while k < input.len()
        invariant
            k <= input@.len(),
            result@.len() == k,
            forall|q: int| 0 <= q < k ==> result@[q] == input@[q],
        decreases input@.len() - k,
    {
        result.push(input[k]);
        k += 1;
    }
    proof {
        assert(result@ =~= input@);
    }
    let ghost target = defrag_down(input@, top_id(input@));
    while active_id >= 0
        invariant
            result@.len() == input@.len(),
            target == defrag_down(result@, active_id),
        decreases active_id + 1,
    {
        let ghost s0 = result@;
        let n = result.len();
        // collect the positions of the active file
        let mut indices: Vec<usize> = Vec::new();
        let mut k: usize = 0;
        while k < n
            invariant
                n == result@.len(),
                k <= n,
                indices@.len() == id_positions(result@, active_id, k as int).len(),
                forall|q: int|
                    0 <= q < indices@.len() ==> #[trigger] indices@[q] as int == id_positions(
                        result@,
                        active_id,
                        k as int,
                    )[q],
                forall|q: int| 0 <= q < indices@.len() ==> #[trigger] indices@[q] < n,
            decreases n - k,
        {
            let matches_id = result[k] == Thing::Block(active_id);
            if matches_id {
                indices.push(k);
            }
            k += 1;
        }
        let ghost idxs = id_positions(s0, active_id, s0.len() as int);
        proof {
            assert(indices@.len() == idxs.len());
            assert(forall|q: int|
                0 <= q < indices@.len() ==> #[trigger] indices@[q] as int == idxs[q]);
        }
        let free_opt = find_zero_block(result.as_slice(), indices.len());
        match free_opt {
            Some(free_space) => {
                proof {
                    assert(idxs.len() >= 1);
                    assert(free_run_at(s0, free_space@[0] as int, idxs.len() as int));
                    assert(has_free_run(s0, idxs.len() as int));
                    lemma_first_free_run(s0, idxs.len() as int);
                    let c = first_free_run(s0, idxs.len() as int);
                    assert(c == free_space@[0] as int) by {
                        let w = free_space@[0] as int;
                        if c < w {
                            assert(!free_run_at(s0, c, idxs.len() as int));
                        } else if w < c {
                            assert(!free_run_at(s0, w, idxs.len() as int));
                        }
                    }
                }
                let f0 = free_space[0];
                if f0 < indices[0] {
                    // swap the file into the span, cell by cell
                    let l = indices.len();
                    let mut q: usize = 0;
                    proof {
                        lemma_id_positions_bounds(s0, active_id, s0.len() as int);
                        assert(idxs.skip(0) =~= idxs);
                        assert(result@ == s0);
                    }
                    while q < l
                        invariant
                            n == result@.len(),
                            l == idxs.len(),
                            l <= free_space@.len(),
                            q <= l,
                            indices@.len() == l,
                            forall|p: int|
                                0 <= p < l ==> #[trigger] indices@[p] as int == idxs[p],
                            forall|p: int| 0 <= p < l ==> #[trigger] indices@[p] < n,
                            f0 + l <= n,
                            swap_many(s0, idxs, f0 as int) == swap_many(
                                result@,
                                idxs.skip(q as int),
                                f0 + q,
                            ),
                        decreases l - q,
                    {
                        let a = result[indices[q]];
                        let b = result[f0 + q];
                        let ghost before = result@;
                        result.set(indices[q], b);
                        result.set(f0 + q, a);
                        proof {
                            assert(result@ =~= swap_cells(
                                before,
                                idxs[q as int],
                                f0 as int + q,
                            ));
                            assert(idxs.skip(q as int).drop_first() =~= idxs.skip(q as int + 1));
                            assert(idxs.skip(q as int)[0] == idxs[q as int]);
                        }
                        q += 1;
                    }
                    proof {
                        assert(idxs.skip(l as int) =~= Seq::<int>::empty());
                        assert(result@ == swap_many(s0, idxs, f0 as int));
                        assert(defrag_one(s0, active_id) == result@);
                    }
                } else {
                    proof {
                        assert(defrag_one(s0, active_id) == s0);
                    }
                }
            },
            None => {
                proof {
                    if idxs.len() >= 1 && has_free_run(s0, idxs.len() as int) {
                        let st = choose|st: int| free_run_at(s0, st, idxs.len() as int);
                        assert(!free_run_at(s0, st, idxs.len() as int));
                        assert(false);
                    }
                    assert(defrag_one(s0, active_id) == s0);
                }
            },
        }
        proof {
            assert(target == defrag_down(result@, (active_id - 1) as i64));
        }
        active_id -= 1;
    }
    proof {
        assert(defrag_down(result@, active_id) == result@);
        lemma_defrag_down_len(input@, top_id(input@));
    }
    result
}


proof fn lemma_sizes_total_bound(sizes: Seq<i64>, idx: int)
    requires
        forall|i: int| 0 <= i < sizes.len() ==> 0 <= #[trigger] sizes[i] <= 9,
        0 <= idx <= sizes.len(),
    ensures
        0 <= sizes_total(sizes, idx) <= 9 * (sizes.len() - idx),
    decreases sizes.len() - idx,
{
    if idx < sizes.len() {
        lemma_sizes_total_bound(sizes, idx + 1);
    }
}

proof fn lemma_layout_ids_nonneg(sizes: Seq<i64>, idx: int, id: int, next: NextThing)
    requires
        id >= 0,
        id + (sizes.len() - idx) <= i64::MAX,
    ensures
        ids_nonneg(layout_from(sizes, idx, id, next)),
    decreases sizes.len() - idx,
{
    if 0 <= idx < sizes.len() {
        lemma_layout_ids_nonneg(sizes, idx + 1, id + 1, NextThing::Free);
        lemma_layout_ids_nonneg(sizes, idx + 1, id, NextThing::Block);
        let whole = layout_from(sizes, idx, id, next);
        assert forall|i: int|
            0 <= i < whole.len() implies (#[trigger] whole[i] matches Thing::Block(b) ==> b >= 0)
        by {
            let n = sizes[idx];
            let len = if n >= 0 {
                n as nat
            } else {
                0
            };
            if i >= len {
                match next {
                    NextThing::Block => {
                        assert(whole[i] == layout_from(sizes, idx + 1, id + 1, NextThing::Free)[i
                            - len]);
                    },
                    NextThing::Free => {
                        assert(whole[i] == layout_from(sizes, idx + 1, id, NextThing::Block)[i
                            - len]);
                    },
                }
            }
        }
    }
}

proof fn lemma_compact_nonneg(s: Seq<Thing>, start: int, end: int)
    requires
        ids_nonneg(s),
        end < s.len(),
        0 <= start,
    ensures
        ids_nonneg(compact_step(s, start, end)),
    decreases end + 1 - start,
{
    if start < end {
        match (s[start], s[end]) {
            (Thing::Block(_), Thing::Free) => {
                lemma_compact_nonneg(s, start + 1, end - 1);
            },
            (Thing::Block(_), Thing::Block(_)) => {
                lemma_compact_nonneg(s, start + 1, end);
            },
            (Thing::Free, Thing::Block(_)) => {
                let s2 = swap_cells(s, start, end);
                assert(ids_nonneg(s2));
                lemma_compact_nonneg(s2, start + 1, end - 1);
            },
            (Thing::Free, Thing::Free) => {
                lemma_compact_nonneg(s, start, end - 1);
            },
        }
    }
}

proof fn lemma_swap_many_nonneg(s: Seq<Thing>, idxs: Seq<int>, f0: int)
    requires
        ids_nonneg(s),
        forall|j: int| 0 <= j < idxs.len() ==> 0 <= #[trigger] idxs[j] < s.len(),
        0 <= f0,
        f0 + idxs.len() <= s.len(),
    ensures
        ids_nonneg(swap_many(s, idxs, f0)),
    decreases idxs.len(),
{
    if idxs.len() > 0 {
        let s2 = swap_cells(s, idxs[0], f0);
        assert(ids_nonneg(s2));
        assert(forall|j: int|
            0 <= j < idxs.drop_first().len() ==> 0 <= #[trigger] idxs.drop_first()[j] < s2.len());
        lemma_swap_many_nonneg(s2, idxs.drop_first(), f0 + 1);
    }
}

proof fn lemma_defrag_down_nonneg(s: Seq<Thing>, id: i64)
    requires
        ids_nonneg(s),
    ensures
        ids_nonneg(defrag_down(s, id)),
    decreases id + 1,
{
    if id >= 0 {
        let idxs = id_positions(s, id, s.len() as int);
        let l = idxs.len() as int;
        if l >= 1 && has_free_run(s, l) && first_free_run(s, l) < idxs[0] {
            lemma_first_free_run(s, l);
            lemma_id_positions_bounds(s, id, s.len() as int);
            lemma_swap_many_nonneg(s, idxs, first_free_run(s, l));
        }
        lemma_defrag_down_nonneg(defrag_one(s, id), (id - 1) as i64);
    }
}

/// The checksum after single-block compaction of the expanded layout.
pub fn solve_part_one(input: &[i64]) -> (r: i64)
    requires
        forall|i: int| 0 <= i < input@.len() ==> 0 <= #[trigger] input@[i] <= 9,
        input@.len() <= 0x1000_0000,
        sizes_total(input@, 0) >= 1,
        checksum_of(rearrange_spec(convert_spec(input@))) <= i64::MAX,
    ensures
        r == checksum_of(rearrange_spec(convert_spec(input@))),
{
    proof {
        lemma_layout_len(input@, 0, 0, NextThing::Block);
        lemma_sizes_total_bound(input@, 0);
        lemma_layout_ids_nonneg(input@, 0, 0, NextThing::Block);
    }
    let expanded = convert_input(input);
    let compacted = rearrange(&expanded);
    proof {
        lemma_compact_nonneg(expanded@, 0, expanded@.len() - 1);
    }
    get_checksum(&compacted)
}

/// The checksum after whole-file defragmentation of the expanded layout.
pub fn solve_part_two(input: &[i64]) -> (r: i64)
    requires
        forall|i: int| 0 <= i < input@.len() ==> 0 <= #[trigger] input@[i] <= 9,
        input@.len() <= 0x1000_0000,
        input@.len() >= 1,
        input@[0] >= 1,
        checksum_of(defrag_down(convert_spec(input@), top_id(convert_spec(input@))))
            <= i64::MAX,
    ensures
        r == checksum_of(defrag_down(convert_spec(input@), top_id(convert_spec(input@)))),
{
    proof {
        lemma_layout_len(input@, 0, 0, NextThing::Block);
        lemma_sizes_total_bound(input@, 0);
        lemma_layout_ids_nonneg(input@, 0, 0, NextThing::Block);
        assert(convert_spec(input@)[0] == Thing::Block(0));
    }
    let expanded = convert_input(input);
    let moved = rearrange_part_two(&expanded);
    proof {
        lemma_defrag_down_nonneg(expanded@, top_id(expanded@));
    }
    get_checksum(&moved)
}

} // verus!
