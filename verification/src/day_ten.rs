//! Chaining joltage adapters: difference counts and arrangement counts.

use vstd::prelude::*;

verus! {

/// The adapters are listed in non-decreasing order.
pub open spec fn sorted(s: Seq<usize>) -> bool {
    forall|i: int, j: int| 0 <= i < j < s.len() ==> s[i] <= s[j]
}

/// The number of adjacent pairs of the sorted list whose difference is
/// exactly `d`.
pub open spec fn count_diffs(s: Seq<usize>, d: int) -> int
    decreases s.len(),
{
    if s.len() <= 1 {
        0
    } else {
        count_diffs(s.drop_last(), d) + if s.last() - s[s.len() - 2] == d {
            1int
        } else {
            0int
        }
    }
}

/// Counts the one-jolt and three-jolt steps of the sorted adapter list.
/// The step from the outlet to the first adapter and the final step to the
/// device each count once more, so both counts start at one.
pub fn find_jolt_differences(input: &[usize]) -> (r: [usize; 2])
    requires
        sorted(input@),
        input@.len() < usize::MAX,
    ensures
        r@[0] == 1 + count_diffs(input@, 1),
        r@[1] == 1 + count_diffs(input@, 3),
{
    let mut ones: usize = 1;
    let mut threes: usize = 1;
    let n = input.len();
    if n > 0 {
        for i in 0..n - 1
            invariant
                n == input@.len(),
                n >= 1,
                n < usize::MAX,
                sorted(input@),
                ones == 1 + count_diffs(input@.take(i + 1), 1),
                threes == 1 + count_diffs(input@.take(i + 1), 3),
                ones + threes <= 2 + i,
        {
            proof {
                assert(input@.take(i + 2).drop_last() =~= input@.take(i + 1));
                assert(input@.take(i + 2).last() == input@[i + 1]);
                assert(input@.take(i + 2)[i as int] == input@[i as int]);
            }
            let d = input[i + 1] - input[i];
            if d == 1 {
                ones = ones + 1;
            } else if d == 3 {
                threes = threes + 1;
            }
        }
        proof {
            assert(input@.take(n as int) =~= input@);
        }
    } else {
        proof {
            assert(input@.take(0) =~= input@);
        }
    }
    [ones, threes]
}

/// The counting state after the first `i` adapters of the sorted list,
/// preceded by the outlet at joltage zero. Where the adapters are distinct
/// with steps of at most three jolts, the three components read as the
/// numbers of valid adapter chains (subsequences whose consecutive jolt
/// gaps, from the outlet on, are at most three) ending at the jolt values
/// two below, one below, and exactly at adapter `i`: an adapter reachable
/// within three jolts extends every chain ending in that window, so each
/// step shifts the window and sums it. Outside those inputs the fold reads
/// differently: a step wider than three jolts still sums the window,
/// although no chain crosses it.
pub open spec fn arrangement_state(s: Seq<usize>, i: int) -> (int, int, int)
    decreases i,
    when 0 <= i
{
    if i == 0 {
        (0, 0, 1)
    } else {
        let p = arrangement_state(s, i - 1);
        let a: int = if i == 1 {
            0
        } else {
            s[i - 2] as int
        };
        let b = s[i - 1] as int;
        if b - a == 3 {
            (0, 0, p.2)
        } else if b - a == 2 {
            (p.2, 0, p.1 + p.2)
        } else {
            (p.1, p.2, p.0 + p.1 + p.2)
        }
    }
}

/// No component of the arrangement state is ever negative.
pub proof fn lemma_arrangement_state_nonneg(s: Seq<usize>, i: int)
    requires
        0 <= i,
    ensures
        arrangement_state(s, i).0 >= 0,
        arrangement_state(s, i).1 >= 0,
        arrangement_state(s, i).2 >= 1,
    decreases i,
{
    if i > 0 {
        lemma_arrangement_state_nonneg(s, i - 1);
    }
}

/// The arrangement count of the sorted adapters: the final component of
/// the counting fold, which on distinct adapters with steps of at most
/// three jolts is the number of ways to chain them from the outlet to the
/// device, each step spanning at most three jolts.
pub fn get_number_of_arrangements(input: &[usize]) -> (r: usize)
    requires
        sorted(input@),
        input@.len() > 0 ==> input@[0] >= 0,
        forall|i: int|
            0 <= i <= input@.len() ==> arrangement_state(input@, i).0 + arrangement_state(
                input@,
                i,
            ).1 + arrangement_state(input@, i).2 <= usize::MAX,
    ensures
        r == arrangement_state(input@, input@.len() as int).2,
{
    let mut x: usize = 0;
    let mut y: usize = 0;
    let mut z: usize = 1;
    let n = input.len();
    for k in 0..n
        invariant
            n == input@.len(),
            sorted(input@),
            forall|i: int|
                0 <= i <= input@.len() ==> arrangement_state(input@, i).0 + arrangement_state(
                    input@,
                    i,
                ).1 + arrangement_state(input@, i).2 <= usize::MAX,
            x == arrangement_state(input@, k as int).0,
            y == arrangement_state(input@, k as int).1,
            z == arrangement_state(input@, k as int).2,
    {
        let a: usize = if k == 0 {
            0
        } else {
            input[k - 1]
        };
        let b = input[k];
        proof {
            lemma_arrangement_state_nonneg(input@, k as int);
            assert(arrangement_state(input@, k + 1).0 + arrangement_state(input@, k + 1).1
                + arrangement_state(input@, k + 1).2 <= usize::MAX);
        }
        if k > 0 {
            proof {
                assert(input@[k - 1] <= input@[k as int]);
            }
        }
        let d = b - a;
        if d == 3 {
            x = 0;
            y = 0;
        } else if d == 2 {
            let nz = y + z;
            x = z;
            y = 0;
            z = nz;
        } else {
            let nz = x + y + z;
            x = y;
            y = z;
            z = nz;
        }
    }
    z
}

} // verus!
