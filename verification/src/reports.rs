//! Safety checks over numeric reports.
//!
//! A report is a list of levels.  It is safe when the adjacent
//! differences all lean the same way and each lies between one and
//! three in magnitude.  A report that is not safe on its own may still
//! pass with one level removed.

use vstd::prelude::*;

verus! {

/// Mathematical sign of an integer: `1`, `-1`, or `0`.
pub open spec fn spec_signum(x: int) -> int {
    if x > 0 {
        1
    } else if x < 0 {
        -1
    } else {
        0
    }
}

pub open spec fn spec_abs(x: int) -> int {
    if x >= 0 {
        x
    } else {
        -x
    }
}

/// All the values share the sign of the first one.
pub open spec fn all_same_signum(s: Seq<i32>) -> bool {
    forall|i: int|
        #![trigger s[i]]
        0 <= i < s.len() ==> spec_signum(s[i] as int) == spec_signum(s[0] as int)
}

/// Every value has magnitude between one and three.
pub open spec fn all_small_steps(s: Seq<i32>) -> bool {
    forall|i: int| #![trigger s[i]] 0 <= i < s.len() ==> 1 <= spec_abs(s[i] as int) <= 3
}

/// The adjacent differences of a report, earlier minus later.
pub open spec fn spec_diff(s: Seq<i32>, i: int) -> int {
    s[i] - s[i + 1]
}

/// A safe report: levels strictly move one way, one to three at a time.
pub open spec fn report_safe(s: Seq<i32>) -> bool {
    &&& forall|i: int|
        0 <= i < s.len() - 1 ==> spec_signum(#[trigger] spec_diff(s, i)) == spec_signum(
            spec_diff(s, 0),
        )
    &&& forall|i: int| 0 <= i < s.len() - 1 ==> 1 <= spec_abs(#[trigger] spec_diff(s, i)) <= 3
}

/// Sign of a level difference.
fn signum(x: i32) -> (r: i32)
    ensures
        r == spec_signum(x as int),
{
    if x > 0 {
        1
    } else if x < 0 {
        -1
    } else {
        0
    }
}

/// Whether every value has the sign of the first.
pub fn test_signums(input: &[i32]) -> (r: bool)
    requires
        input@.len() >= 1,
    ensures
        r == all_same_signum(input@),
{
    let first = signum(input[0]);
    let mut i: usize = 0;
    while i < input.len()
        invariant
            input@.len() >= 1,
            i <= input@.len(),
            first == spec_signum(input@[0] as int),
            forall|j: int|
                #![trigger input@[j]]
                0 <= j < i ==> spec_signum(input@[j] as int) == spec_signum(input@[0] as int),
        decreases input@.len() - i,
    {
        if signum(input[i]) != first {
            return false;
        }
        i += 1;
    }
    true
}

/// Whether every value has magnitude between one and three.
pub fn test_diff(input: &[i32]) -> (r: bool)
    ensures
        r == all_small_steps(input@),
{
    let mut i: usize = 0;
    while i < input.len()
        invariant
            i <= input@.len(),
            forall|j: int| #![trigger input@[j]] 0 <= j < i ==> 1 <= spec_abs(input@[j] as int) <= 3,
        decreases input@.len() - i,
    {
        let x = input[i];
        if x == 0 || x > 3 || x < -3 {
            return false;
        }
        i += 1;
    }
    true
}

/// Whether the report is safe as it stands.
pub fn test_list(input: &[i32]) -> (r: bool)
    requires
        input@.len() >= 2,
        forall|i: int|
            0 <= i < input@.len() - 1 ==> i32::MIN <= #[trigger] spec_diff(input@, i) <= i32::MAX,
    ensures
        r == report_safe(input@),
{
    let mut changes: Vec<i32> = Vec::new();
    let mut i: usize = 0;
    while i < input.len() - 1
        invariant
            input@.len() >= 2,
            forall|j: int|
                0 <= j < input@.len() - 1 ==> i32::MIN <= #[trigger] spec_diff(input@, j)
                    <= i32::MAX,
            i <= input@.len() - 1,
            changes@.len() == i,
            forall|j: int| 0 <= j < i ==> #[trigger] changes@[j] as int == spec_diff(input@, j),
        decreases input@.len() - i,
    {
        proof {
            assert(spec_diff(input@, i as int) == input@[i as int] - input@[i as int + 1]);
        }
        let d = input[i] - input[i + 1];
        changes.push(d);
        i += 1;
    }
    let sig_ok = test_signums(changes.as_slice());
    let diff_ok = test_diff(changes.as_slice());
    let result = sig_ok && diff_ok;
    proof {
        assert(changes@.len() == input@.len() - 1);
        assert(changes@[0] as int == spec_diff(input@, 0));
        if result {
            assert forall|j: int| 0 <= j < input@.len() - 1 implies spec_signum(
                #[trigger] spec_diff(input@, j),
            ) == spec_signum(spec_diff(input@, 0)) && 1 <= spec_abs(spec_diff(input@, j)) <= 3 by {
                assert(changes@[j] as int == spec_diff(input@, j));
                assert(spec_signum(changes@[j] as int) == spec_signum(changes@[0] as int));
                assert(1 <= spec_abs(changes@[j] as int) <= 3);
            }
            assert(report_safe(input@));
        } else if report_safe(input@) {
            assert forall|j: int|
                #![trigger changes@[j]]
                0 <= j < changes@.len() implies spec_signum(changes@[j] as int) == spec_signum(
                changes@[0] as int,
            ) && 1 <= spec_abs(changes@[j] as int) <= 3 by {
                assert(changes@[j] as int == spec_diff(input@, j));
                assert(spec_signum(spec_diff(input@, j)) == spec_signum(spec_diff(input@, 0)));
                assert(1 <= spec_abs(spec_diff(input@, j)) <= 3);
            }
            assert(all_same_signum(changes@));
            assert(all_small_steps(changes@));
            assert(false);
        }
    }
    result
}

/// Whether the report is safe as it stands or becomes safe after
/// removing a single level.  Returns `Some(1)` in either case.
pub fn check(input: &[i32]) -> (r: Option<i32>)
    requires
        input@.len() >= 2,
        input@.len() >= 3 || report_safe(input@),
        forall|i: int, j: int|
            #![trigger input@[i], input@[j]]
            0 <= i < j < input@.len() && j - i <= 2 ==> i32::MIN <= input@[i] - input@[j]
                <= i32::MAX,
    ensures
        r.is_some() <==> (report_safe(input@) || exists|i: int|
            0 <= i < input@.len() && report_safe(input@.remove(i))),
        r.is_some() ==> r == Some(1i32),
{
    proof {
        assert forall|i: int| 0 <= i < input@.len() - 1 implies i32::MIN
            <= #[trigger] spec_diff(input@, i) <= i32::MAX by {
            assert(i32::MIN <= input@[i] - input@[i + 1] <= i32::MAX);
        }
    }
    if test_list(input) {
        return Some(1);
    }
    let mut i: usize = 0;
    while i < input.len()
        invariant
            input@.len() >= 3,
            forall|a: int, b: int|
                #![trigger input@[a], input@[b]]
                0 <= a < b < input@.len() && b - a <= 2 ==> i32::MIN <= input@[a] - input@[b]
                    <= i32::MAX,
            i <= input@.len(),
            forall|j: int| 0 <= j < i ==> !report_safe(input@.remove(j)),
        decreases input@.len() - i,
    {
        let mut removed: Vec<i32> = Vec::new();
        let mut k: usize = 0;
        while k < input.len()
            invariant
                i < input@.len(),
                k <= input@.len(),
                removed@.len() == if k <= i {
                    k as int
                } else {
                    k - 1
                },
                forall|j: int| 0 <= j < removed@.len() ==> removed@[j] == input@.remove(i as int)[j],
            decreases input@.len() - k,
        {
            if k != i {
                let v = input[k];
                proof {
                    assert(input@.remove(i as int)[removed@.len() as int] == input@[k as int]);
                }
                removed.push(v);
            }
            k += 1;
        }
        proof {
            assert(removed@ =~= input@.remove(i as int));
            assert forall|j: int| 0 <= j < removed@.len() - 1 implies i32::MIN
                <= #[trigger] spec_diff(removed@, j) <= i32::MAX by {
                let s = input@.remove(i as int);
                if j < i - 1 {
                    assert(s[j] == input@[j] && s[j + 1] == input@[j + 1]);
                } else if j == i - 1 {
                    assert(s[j] == input@[j] && s[j + 1] == input@[j + 2]);
                } else {
                    assert(s[j] == input@[j + 1] && s[j + 1] == input@[j + 2]);
                }
            }
        }
        if test_list(removed.as_slice()) {
            proof {
                assert(report_safe(input@.remove(i as int)));
            }
            return Some(1);
        }
        i += 1;
    }
    None
}

} // verus!
