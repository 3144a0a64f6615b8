//! Summing multiply instructions scanned out of a corrupted memory
//! dump, with or without the `do`/`don't` toggles that enable and
//! disable them.

use vstd::prelude::*;

verus! {

/// One recognized instruction.
#[derive(Clone, Copy, Debug, PartialEq, Eq, Structural)]
pub enum Operation {
    Do,
    Dont,
    Mul(i32, i32),
}

/// The summed products of the first `n` instructions.
pub open spec fn mul_prefix(ops: Seq<Operation>, n: int) -> int
    decreases n,
{
    if n <= 0 {
        0
    } else {
        mul_prefix(ops, n - 1) + (match ops[n - 1] {
            Operation::Mul(a, b) => a * b,
            _ => 0,
        })
    }
}

/// The sum of all products.
pub open spec fn mul_total(ops: Seq<Operation>) -> int {
    mul_prefix(ops, ops.len() as int)
}

/// Whether multiplication is enabled after the first `n` instructions;
/// it starts enabled.
pub open spec fn enabled_after(ops: Seq<Operation>, n: int) -> bool
    decreases n,
{
    if n <= 0 {
        true
    } else {
        match ops[n - 1] {
            Operation::Do => true,
            Operation::Dont => false,
            Operation::Mul(_, _) => enabled_after(ops, n - 1),
        }
    }
}

/// The summed products of the first `n` instructions, counting only
/// those executed while enabled.
pub open spec fn enabled_mul_prefix(ops: Seq<Operation>, n: int) -> int
    decreases n,
{
    if n <= 0 {
        0
    } else {
        enabled_mul_prefix(ops, n - 1) + (match ops[n - 1] {
            Operation::Mul(a, b) => if enabled_after(ops, n - 1) {
                a * b
            } else {
                0
            },
            _ => 0,
        })
    }
}

/// The sum of the enabled products.
pub open spec fn enabled_mul_total(ops: Seq<Operation>) -> int {
    enabled_mul_prefix(ops, ops.len() as int)
}

/// Sum every product.
pub fn solve_part_one(input: &[Operation]) -> (r: i32)
    requires
        forall|k: int|
            0 <= k <= input@.len() ==> i32::MIN <= #[trigger] mul_prefix(input@, k) <= i32::MAX,
    ensures
        r == mul_total(input@),
{
    let mut acc: i32 = 0;
    let mut i: usize = 0;
    while i < input.len()
        invariant
            forall|k: int|
                0 <= k <= input@.len() ==> i32::MIN <= #[trigger] mul_prefix(input@, k)
                    <= i32::MAX,
            i <= input@.len(),
            acc == mul_prefix(input@, i as int),
        decreases input@.len() - i,
    {
        match input[i] {
            Operation::Mul(a, b) => {
                proof {
                    assert(mul_prefix(input@, i as int + 1) == acc + (a as int) * (b as int));
                    assert(i32::MIN * 0x8000_0000 <= (a as int) * (b as int) <= i32::MIN
                        * -0x8000_0000) by (nonlinear_arith)
                        requires
                            i32::MIN <= a as int <= i32::MAX,
                            i32::MIN <= b as int <= i32::MAX,
                    ;
                }
                let prod: i64 = (a as i64) * (b as i64);
                let next: i64 = (acc as i64) + prod;
                acc = next as i32;
            },
            _ => {},
        }
        i += 1;
    }
    acc
}

/// Sum the products executed while enabled: `don't()` disables the
/// multiplies that follow, `do()` re-enables them.
pub fn solve_part_two(input: &[Operation]) -> (r: i32)
    requires
        forall|k: int|
            0 <= k <= input@.len() ==> i32::MIN <= #[trigger] enabled_mul_prefix(input@, k)
                <= i32::MAX,
    ensures
        r == enabled_mul_total(input@),
{
    let mut acc: i32 = 0;
    let mut on = true;
    let mut i: usize = 0;
    while i < input.len()
        invariant
            forall|k: int|
                0 <= k <= input@.len() ==> i32::MIN <= #[trigger] enabled_mul_prefix(input@, k)
                    <= i32::MAX,
            i <= input@.len(),
            on == enabled_after(input@, i as int),
            acc == enabled_mul_prefix(input@, i as int),
        decreases input@.len() - i,
    {
        match input[i] {
            Operation::Mul(a, b) => {
                if on {
                    proof {
                        assert(enabled_mul_prefix(input@, i as int + 1) == acc + (a as int) * (
                        b as int));
                        assert(i32::MIN * 0x8000_0000 <= (a as int) * (b as int) <= i32::MIN
                            * -0x8000_0000) by (nonlinear_arith)
                            requires
                                i32::MIN <= a as int <= i32::MAX,
                                i32::MIN <= b as int <= i32::MAX,
                        ;
                    }
                    let prod: i64 = (a as i64) * (b as i64);
                    let next: i64 = (acc as i64) + prod;
                    acc = next as i32;
                }
            },
            Operation::Do => {
                on = true;
            },
            Operation::Dont => {
                on = false;
            },
        }
        i += 1;
    }
    acc
}

} // verus!
