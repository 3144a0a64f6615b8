//! Calibration equations: can a target value be built from a list of
//! operands by inserting operators left to right?
//!
//! The operators are addition, multiplication, and decimal
//! concatenation; a branch is abandoned as soon as it exceeds the
//! target, since every operand keeps the accumulator from shrinking.

use vstd::prelude::*;

verus! {

/// An operator that may be inserted between operands.
#[derive(Clone, Copy, Debug, PartialEq, Eq, Structural)]
pub enum Op {
    Add,
    Mul,
    Concat,
}

/// Ten to the `k`.
pub open spec fn ten_pow(k: nat) -> int
    decreases k,
{
    if k == 0 {
        1
    } else {
        10 * ten_pow((k - 1) as nat)
    }
}

/// The number of decimal digits of a nonnegative value.
pub open spec fn digits(b: int) -> nat
    decreases b,
{
    if b < 10 {
        1
    } else {
        1 + digits(b / 10)
    }
}

/// The decimal concatenation of two nonnegative values.
pub open spec fn concat_val(a: int, b: int) -> int {
    a * ten_pow(digits(b)) + b
}

/// What one operator computes.
pub open spec fn apply_op(op: Op, a: int, b: int) -> int {
    match op {
        Op::Add => a + b,
        Op::Mul => a * b,
        Op::Concat => concat_val(a, b),
    }
}

/// Whether the target is reachable from the accumulator: some operator
/// applied to the next operand stays within the target and reaches it
/// through the rest.  A zero accumulator instead starts with the first
/// operand.
pub open spec fn line_reachable(ops: Seq<Op>, target: int, inputs: Seq<i64>, acc: int) -> bool
    decreases inputs.len(),
{
    if inputs.len() == 0 {
        acc == target
    } else if acc == 0 && inputs.len() < 2 {
        false
    } else {
        let new_acc: int = if acc == 0 {
            inputs[0] as int
        } else {
            acc
        };
        let next: int = if acc == 0 {
            inputs[1] as int
        } else {
            inputs[0] as int
        };
        let remaining = if acc == 0 {
            inputs.skip(2)
        } else {
            inputs.skip(1)
        };
        exists|j: int|
            0 <= j < ops.len() && apply_op(#[trigger] ops[j], new_acc, next) <= target
                && line_reachable(ops, target, remaining, apply_op(ops[j], new_acc, next))
    }
}

proof fn lemma_ten_pow_pos(k: nat)
    ensures
        ten_pow(k) >= 1,
    decreases k,
{
    if k > 0 {
        lemma_ten_pow_pos((k - 1) as nat);
    }
}

proof fn lemma_ten_pow_mono(k1: nat, k2: nat)
    requires
        k1 <= k2,
    ensures
        ten_pow(k1) <= ten_pow(k2),
    decreases k2,
{
    if k1 < k2 {
        lemma_ten_pow_mono(k1, (k2 - 1) as nat);
        lemma_ten_pow_pos(k1);
    }
}

/// For a positive value, the power of ten one digit above it is at
/// most ten times the value, and strictly above it.
proof fn lemma_ten_pow_digits(b: int)
    requires
        b >= 1,
    ensures
        ten_pow(digits(b)) <= 10 * b,
        b < ten_pow(digits(b)),
    decreases b,
{
    if b < 10 {
        assert(ten_pow(0) == 1);
        assert(ten_pow(1) == 10);
        assert(digits(b) == 1);
    } else {
        let q = b / 10;
        vstd::arithmetic::div_mod::lemma_div_pos_is_pos(b, 10);
        vstd::arithmetic::div_mod::lemma_fundamental_div_mod(b, 10);
        vstd::arithmetic::div_mod::lemma_mod_bound(b, 10);
        assert(q >= 1);
        lemma_ten_pow_digits(q);
        assert(10 * q <= b && b <= 10 * q + 9);
        assert(ten_pow(digits(b)) == 10 * ten_pow(digits(q)));
        assert(10 * ten_pow(digits(q)) <= 10 * (10 * q)) by (nonlinear_arith)
            requires
                ten_pow(digits(q)) <= 10 * q,
        ;
        assert(10 * (10 * q) <= 10 * b) by (nonlinear_arith)
            requires
                10 * q <= b,
        ;
        assert(q <= ten_pow(digits(q)) - 1);
        assert(10 * q <= 10 * (ten_pow(digits(q)) - 1)) by (nonlinear_arith)
            requires
                q <= ten_pow(digits(q)) - 1,
        ;
    }
}

/// Decimal concatenation of two nonnegative values.
pub fn combine_numbers(a: i64, b: i64) -> (r: i64)
    requires
        a >= 0,
        0 <= b,
        b <= 0x0CCC_CCCC_CCCC_CCCC,
        concat_val(a as int, b as int) <= i64::MAX,
    ensures
        r == concat_val(a as int, b as int),
{
    let mut p: i64 = 10;
    let mut cur: i64 = b;
    let ghost mut steps: nat = 1;
    proof {
        assert(ten_pow(0) == 1);
        assert(ten_pow(1) == 10);
        if b >= 1 {
            lemma_ten_pow_digits(b as int);
        }
    }
    while cur >= 10
        invariant
            0 <= cur <= b,
            b <= 0x0CCC_CCCC_CCCC_CCCC,
            p >= 10,
            p == ten_pow(steps),
            steps >= 1,
            digits(b as int) == digits(cur as int) + steps - 1,
            ten_pow(digits(b as int)) <= 10 * (b as int) || b < 10,
        decreases cur,
    {
        proof {
            vstd::arithmetic::div_mod::lemma_div_pos_is_pos(cur as int, 10);
            vstd::arithmetic::div_mod::lemma_fundamental_div_mod(cur as int, 10);
            vstd::arithmetic::div_mod::lemma_mod_bound(cur as int, 10);
            assert(digits(cur as int) == 1 + digits(cur as int / 10));
            assert(digits(cur as int) >= 2) by {
                assert(digits(cur as int / 10) >= 1);
            }
            assert(steps + 1 <= digits(b as int));
            lemma_ten_pow_mono((steps + 1) as nat, digits(b as int));
            assert(ten_pow((steps + 1) as nat) == 10 * ten_pow(steps));
            assert(10 * (p as int) <= ten_pow(digits(b as int)));
            assert(10 * (p as int) <= 10 * (b as int));
        }
        cur = cur / 10;
        p = p * 10;
        proof {
            steps = steps + 1;
        }
    }
    proof {
        assert(digits(cur as int) == 1);
        assert(p == ten_pow(digits(b as int)));
        lemma_ten_pow_pos(digits(b as int));
        assert(a * p >= 0) by (nonlinear_arith)
            requires
                a >= 0,
                p >= 1,
        ;
    }
    a * p + b
}


/// Bounds under which the operator search cannot overflow: a bounded
/// target and small positive operands, never exactly one operand at
/// the start.
pub open spec fn line_wf(target: i64, vs: Seq<i64>) -> bool {
    &&& 0 <= target <= 100_000_000_000_000
    &&& vs.len() != 1
    &&& forall|j: int| 0 <= j < vs.len() ==> 1 <= #[trigger] vs[j] <= 1000
}

/// Whether the target is reachable from `acc` over the given operand
/// tail by some choice of operators, abandoning any branch that
/// exceeds the target.
pub fn test_line_both(operations: &[Op], target: &i64, inputs: &[i64], acc: i64) -> (r: bool)
    requires
        forall|j: int| 0 <= j < inputs@.len() ==> 1 <= #[trigger] inputs@[j] <= 1000,
        0 <= *target <= 100_000_000_000_000,
        0 <= acc <= 100_000_000_000_000,
        acc == 0 ==> inputs@.len() != 1,
    ensures
        r == line_reachable(operations@, *target as int, inputs@, acc as int),
    decreases inputs@.len(),
{
    if inputs.len() == 0 {
        return acc == *target;
    }
    let new_acc: i64;
    let next: i64;
    let off: usize;
    if acc == 0 {
        new_acc = inputs[0];
        next = inputs[1];
        off = 2;
    } else {
        new_acc = acc;
        next = inputs[0];
        off = 1;
    }
    let mut remaining: Vec<i64> = Vec::new();
    let mut k: usize = off;
    while k < inputs.len()
        invariant
            off <= inputs@.len(),
            off <= k <= inputs@.len(),
            remaining@.len() == k - off,
            forall|j: int| 0 <= j < remaining@.len() ==> remaining@[j] == inputs@[j + off],
        decreases inputs@.len() - k,
    {
        remaining.push(inputs[k]);
        k += 1;
    }
    proof {
        assert(remaining@ =~= inputs@.skip(off as int));
    }
    let mut result = false;
    let mut j: usize = 0;
    while j < operations.len()
        invariant
            forall|q: int| 0 <= q < inputs@.len() ==> 1 <= #[trigger] inputs@[q] <= 1000,
            forall|q: int| 0 <= q < remaining@.len() ==> 1 <= #[trigger] remaining@[q] <= 1000,
            remaining@ == inputs@.skip(off as int),
            inputs@.len() >= 1,
            off == (if acc == 0 {
                2int
            } else {
                1int
            }),
            acc == 0 ==> inputs@.len() >= 2,
            new_acc == (if acc == 0 {
                inputs@[0]
            } else {
                acc
            }),
            next == (if acc == 0 {
                inputs@[1]
            } else {
                inputs@[0]
            }),
            1 <= new_acc <= 100_000_000_000_000,
            1 <= next <= 1000,
            0 <= *target <= 100_000_000_000_000,
            j <= operations@.len(),
            result == exists|q: int|
                0 <= q < j && apply_op(#[trigger] operations@[q], new_acc as int, next as int)
                    <= *target && line_reachable(
                    operations@,
                    *target as int,
                    remaining@,
                    apply_op(operations@[q], new_acc as int, next as int),
                ),
        decreases operations@.len() - j,
    {
        let op = operations[j];
        let op_res: i64 = match op {
            Op::Add => new_acc + next,
            Op::Mul => {
                proof {
                    assert(new_acc * next <= 100_000_000_000_000 * 1000) by (nonlinear_arith)
                        requires
                            1 <= new_acc <= 100_000_000_000_000,
                            1 <= next <= 1000,
                    ;
                    assert(new_acc * next >= 1) by (nonlinear_arith)
                        requires
                            1 <= new_acc,
                            1 <= next,
                    ;
                }
                new_acc * next
            },
            Op::Concat => {
                proof {
                    lemma_ten_pow_digits(next as int);
                    assert(ten_pow(digits(next as int)) <= 10000);
                    assert(new_acc * ten_pow(digits(next as int)) <= 100_000_000_000_000
                        * 10000) by (nonlinear_arith)
                        requires
                            1 <= new_acc <= 100_000_000_000_000,
                            1 <= ten_pow(digits(next as int)) <= 10000,
                    ;
                    assert(new_acc * ten_pow(digits(next as int)) >= 1) by (nonlinear_arith)
                        requires
                            1 <= new_acc,
                            1 <= ten_pow(digits(next as int)),
                    ;
                }
                combine_numbers(new_acc, next)
            },
        };
        proof {
            assert(op_res == apply_op(operations@[j as int], new_acc as int, next as int));
            assert(op_res >= 1);
        }
        if op_res <= *target {
            let sub = test_line_both(operations, target, remaining.as_slice(), op_res);
            result = result || sub;
        }
        proof {
            assert forall|q: int|
                0 <= q < j + 1 && apply_op(#[trigger] operations@[q], new_acc as int, next as int)
                    <= *target && line_reachable(
                    operations@,
                    *target as int,
                    remaining@,
                    apply_op(operations@[q], new_acc as int, next as int),
                ) implies result by {}
        }
        j += 1;
    }
    proof {
        assert(result == line_reachable(operations@, *target as int, inputs@, acc as int));
    }
    result
}

/// The operators of the basic search: multiply or add.
pub open spec fn part_one_ops() -> Seq<Op> {
    seq![Op::Mul, Op::Add]
}

/// The operators of the extended search: multiply, add, or concatenate.
pub open spec fn part_two_ops() -> Seq<Op> {
    seq![Op::Mul, Op::Add, Op::Concat]
}

/// The summed targets of the first `n` solvable lines.
pub open spec fn calibration_prefix(ops: Seq<Op>, lines: Seq<(i64, Vec<i64>)>, n: int) -> int
    decreases n,
{
    if n <= 0 {
        0
    } else {
        calibration_prefix(ops, lines, n - 1) + (if line_reachable(
            ops,
            lines[n - 1].0 as int,
            lines[n - 1].1@,
            0,
        ) {
            lines[n - 1].0 as int
        } else {
            0
        })
    }
}

/// The summed targets of the solvable lines.
pub open spec fn calibration_total(ops: Seq<Op>, lines: Seq<(i64, Vec<i64>)>) -> int {
    calibration_prefix(ops, lines, lines.len() as int)
}

/// Sum the targets reachable with multiply and add.
pub fn solve_part_one(input: &[(i64, Vec<i64>)]) -> (r: i64)
    requires
        forall|k: int| 0 <= k < input@.len() ==> line_wf(#[trigger] input@[k].0, input@[k].1@),
        input@.len() <= 10000,
    ensures
        r == calibration_total(part_one_ops(), input@),
{
    let mut ops: Vec<Op> = Vec::new();
    ops.push(Op::Mul);
    ops.push(Op::Add);
    proof {
        assert(ops@ =~= part_one_ops());
    }
    let mut acc: i64 = 0;
    let mut i: usize = 0;
    while i < input.len()
        invariant
            forall|k: int| 0 <= k < input@.len() ==> line_wf(#[trigger] input@[k].0, input@[k].1@),
            input@.len() <= 10000,
            ops@ == part_one_ops(),
            i <= input@.len(),
            acc == calibration_prefix(ops@, input@, i as int),
            0 <= acc <= (i as int) * 100_000_000_000_000,
        decreases input@.len() - i,
    {
        let line = &input[i];
        proof {
            assert(line_wf(input@[i as int].0, input@[i as int].1@));
        }
        let hit = test_line_both(ops.as_slice(), &line.0, line.1.as_slice(), 0);
        if hit {
            acc = acc + line.0;
        }
        proof {
            assert((i as int) * 100_000_000_000_000 + 100_000_000_000_000 == (i as int + 1)
                * 100_000_000_000_000) by (nonlinear_arith);
            assert((i as int + 1) * 100_000_000_000_000 <= 10000 * 100_000_000_000_000)
                by (nonlinear_arith)
                requires
                    i as int + 1 <= 10000,
            ;
        }
        i += 1;
    }
    acc
}

/// Sum the targets reachable with multiply, add, and concatenation.
pub fn solve_part_two(input: &[(i64, Vec<i64>)]) -> (r: i64)
    requires
        forall|k: int| 0 <= k < input@.len() ==> line_wf(#[trigger] input@[k].0, input@[k].1@),
        input@.len() <= 10000,
    ensures
        r == calibration_total(part_two_ops(), input@),
{
    let mut ops: Vec<Op> = Vec::new();
    ops.push(Op::Mul);
    ops.push(Op::Add);
    ops.push(Op::Concat);
    proof {
        assert(ops@ =~= part_two_ops());
    }
    let mut acc: i64 = 0;
    let mut i: usize = 0;
    while i < input.len()
        invariant
            forall|k: int| 0 <= k < input@.len() ==> line_wf(#[trigger] input@[k].0, input@[k].1@),
            input@.len() <= 10000,
            ops@ == part_two_ops(),
            i <= input@.len(),
            acc == calibration_prefix(ops@, input@, i as int),
            0 <= acc <= (i as int) * 100_000_000_000_000,
        decreases input@.len() - i,
    {
        let line = &input[i];
        proof {
            assert(line_wf(input@[i as int].0, input@[i as int].1@));
        }
        let hit = test_line_both(ops.as_slice(), &line.0, line.1.as_slice(), 0);
        if hit {
            acc = acc + line.0;
        }
        proof {
            assert((i as int) * 100_000_000_000_000 + 100_000_000_000_000 == (i as int + 1)
                * 100_000_000_000_000) by (nonlinear_arith);
            assert((i as int + 1) * 100_000_000_000_000 <= 10000 * 100_000_000_000_000)
                by (nonlinear_arith)
                requires
                    i as int + 1 <= 10000,
            ;
        }
        i += 1;
    }
    acc
}

} // verus!
