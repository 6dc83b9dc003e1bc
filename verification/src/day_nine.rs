//! Searching number lists for pair sums and contiguous range sums.

use vstd::prelude::*;

use vstd::slice::SliceAdditionalExecFns;

verus! {

/// The numbers are listed in non-decreasing order.
pub open spec fn sorted_ints(s: Seq<isize>) -> bool {
    forall|i: int, j: int| 0 <= i < j < s.len() ==> s[i] <= s[j]
}

/// Sorts the numbers into a fresh vector by insertion.
fn sort_into_vec(v: &[isize]) -> (r: Vec<isize>)
    ensures
        sorted_ints(r@),
        r@.to_multiset() == v@.to_multiset(),
        r@.len() == v@.len(),
{
    broadcast use vstd::seq_lib::group_to_multiset_ensures, vstd::seq_lib::to_multiset_insert;

    let mut out: Vec<isize> = Vec::new();
    let n = v.len();
    proof {
        assert(v@.take(0) =~= Seq::<isize>::empty());
        assert(Seq::<isize>::empty().to_multiset() =~= out@.to_multiset());
    }
    for k in 0..n
        invariant
            n == v@.len(),
            sorted_ints(out@),
            out@.to_multiset() == v@.take(k as int).to_multiset(),
            out@.len() == k,
    {
        let x = v[k];
        let m = out.len();
        let mut p: usize = 0;
        loop
            invariant
                p <= m,
                m == out@.len(),
                forall|q: int| 0 <= q < p ==> out@[q] <= x,
            ensures
                p <= m,
                forall|q: int| 0 <= q < p ==> out@[q] <= x,
                p < m ==> out@[p as int] > x,
            decreases m - p,
        {
            if p >= m {
                break ;
            }
            if out[p] > x {
                break ;
            }
            p = p + 1;
        }
        let ghost out0 = out@;
        out.insert(p, x);
        proof {
            assert(out@ == out0.insert(p as int, x));
            vstd::seq_lib::to_multiset_insert(out0, p as int, x);
            assert(v@.take(k + 1) =~= v@.take(k as int).push(v@[k as int]));
            vstd::seq_lib::to_multiset_build(v@.take(k as int), v@[k as int]);
            assert forall|i: int, j: int| 0 <= i < j < out@.len() implies out@[i] <= out@[j] by {
                if j < p {
                    assert(out@[i] == out0[i] && out@[j] == out0[j]);
                } else if i < p && j == p {
                    assert(out@[i] == out0[i] && out@[j] == x);
                } else if i < p && j > p {
                    assert(out@[i] == out0[i] && out@[j] == out0[j - 1]);
                } else if i == p {
                    assert(out@[i] == x && out@[j] == out0[j - 1]);
                    assert(out0[p as int] > x);
                    assert(out0[p as int] <= out0[j - 1]);
                } else {
                    assert(out@[i] == out0[i - 1] && out@[j] == out0[j - 1]);
                }
            }
        }
    }
    proof {
        assert(v@.take(n as int) =~= v@);
    }
    out
}

/// The scan of one candidate smallest addend `s[x]` over the larger
/// addends after position `y`: true when some later number completes the
/// sum, stopping as soon as the (sorted) sums overshoot.
pub open spec fn pair_scan_inner(s: Seq<isize>, value: int, x: int, y: int) -> bool
    decreases s.len() - y,
    when 0 <= y
{
    if y >= s.len() {
        false
    } else if s[x] + s[y] == value {
        true
    } else if s[x] + s[y] > value {
        false
    } else {
        pair_scan_inner(s, value, x, y + 1)
    }
}

/// The scan of the sorted numbers for two distinct positions summing to
/// `value`, abandoning a candidate once its sums overshoot and the whole
/// scan once the smallest addend alone overshoots.
pub open spec fn pair_scan(s: Seq<isize>, value: int, x: int) -> bool
    decreases s.len() - x,
    when 0 <= x
{
    if x >= s.len() {
        false
    } else if s[x] > value {
        false
    } else if pair_scan_inner(s, value, x, x + 1) {
        true
    } else {
        pair_scan(s, value, x + 1)
    }
}

/// Sorts the numbers in place and reports whether two of them (at distinct
/// positions) sum to `value`, by the overshoot-pruned scan of the sorted
/// list.
pub fn is_number_sum_of_any(value: isize, numbers: &mut [isize]) -> (r: bool)
    ensures
        sorted_ints(final(numbers)@),
        final(numbers)@.to_multiset() == old(numbers)@.to_multiset(),
        final(numbers)@.len() == old(numbers)@.len(),
        r == pair_scan(final(numbers)@, value as int, 0),
{
    let sorted_vec = sort_into_vec(numbers);
    let n = numbers.len();
    for i in 0..n
        invariant
            n == numbers@.len(),
            sorted_vec@.len() == n,
            sorted_ints(sorted_vec@),
            sorted_vec@.to_multiset() == old(numbers)@.to_multiset(),
            forall|j: int| 0 <= j < i ==> numbers@[j] == sorted_vec@[j],
    {
        numbers.set(i, sorted_vec[i]);
    }
    proof {
        assert(numbers@ =~= sorted_vec@);
    }
    let ghost s = numbers@;
    let mut x: usize = 0;
    loop
        invariant
            x <= n,
            n == numbers@.len(),
            s == numbers@,
            n == old(numbers)@.len(),
            sorted_ints(s),
            s.to_multiset() == old(numbers)@.to_multiset(),
            pair_scan(s, value as int, 0) == pair_scan(s, value as int, x as int),
        ensures
            numbers@ == s,
            !pair_scan(s, value as int, 0),
        decreases n - x,
    {
        if x >= n {
            proof {
                assert(!pair_scan(s, value as int, x as int));
            }
            break ;
        }
        if numbers[x] > value {
            proof {
                assert(!pair_scan(s, value as int, x as int));
            }
            break ;
        }
        let mut y = x + 1;
        let mut found = false;
        loop
            invariant
                x < n,
                x < y <= n,
                n == numbers@.len(),
                s == numbers@,
                !found ==> pair_scan_inner(s, value as int, x as int, x as int + 1)
                    == pair_scan_inner(s, value as int, x as int, y as int),
                found ==> pair_scan_inner(s, value as int, x as int, x as int + 1),
            ensures
                numbers@ == s,
                x < n,
                found == pair_scan_inner(s, value as int, x as int, x as int + 1),
            decreases n - y,
        {
            if y >= n {
                break ;
            }
            let sum = (numbers[x] as i128) + (numbers[y] as i128);
            if sum == value as i128 {
                found = true;
                break ;
            }
            if sum > value as i128 {
                break ;
            }
            y = y + 1;
        }
        if found {
            proof {
                assert(pair_scan(s, value as int, x as int));
            }
            return true;
        }
        proof {
            assert(pair_scan(s, value as int, x as int) == pair_scan(s, value as int, x as int
                + 1));
        }
        x = x + 1;
    }
    false
}

/// The sum of the numbers at positions `from` up to (excluding) `to`.
pub open spec fn range_sum(s: Seq<isize>, from: int, to: int) -> int
    decreases to - from,
    when from <= to
{
    if from >= to {
        0
    } else {
        range_sum(s, from, to - 1) + s[to - 1]
    }
}

/// The smallest number at positions `from` up to (excluding) `to`.
pub open spec fn range_min(s: Seq<isize>, from: int, to: int) -> int
    decreases to - from,
    when from < to
{
    if from + 1 >= to {
        s[from] as int
    } else {
        let rest = range_min(s, from, to - 1);
        if s[to - 1] < rest {
            s[to - 1] as int
        } else {
            rest
        }
    }
}

/// The largest number at positions `from` up to (excluding) `to`.
pub open spec fn range_max(s: Seq<isize>, from: int, to: int) -> int
    decreases to - from,
    when from < to
{
    if from + 1 >= to {
        s[from] as int
    } else {
        let rest = range_max(s, from, to - 1);
        if s[to - 1] > rest {
            s[to - 1] as int
        } else {
            rest
        }
    }
}

/// The scan for a contiguous window starting at `from`, already summing
/// `range_sum(s, from, upto)`: true when extending it one number at a time
/// reaches `number` exactly before overshooting it.
pub open spec fn window_scan_inner(s: Seq<isize>, number: int, from: int, upto: int) -> Option<int>
    decreases s.len() - upto,
    when 0 <= upto
{
    if upto >= s.len() {
        None
    } else if range_sum(s, from, upto + 1) == number {
        Some(upto + 1)
    } else if range_sum(s, from, upto + 1) > number {
        None
    } else {
        window_scan_inner(s, number, from, upto + 1)
    }
}

/// The first window of at least two numbers, by starting position, whose
/// sum reaches `number` exactly before overshooting: the scan result is
/// its bounds.
pub open spec fn window_scan(s: Seq<isize>, number: int, from: int) -> Option<(int, int)>
    decreases s.len() - from,
    when 0 <= from
{
    if from >= s.len() {
        None
    } else {
        match window_scan_inner(s, number, from, from + 1) {
            Some(upto) => Some((from, upto)),
            None => window_scan(s, number, from + 1),
        }
    }
}

/// Finds the first contiguous window of at least two numbers that sums to
/// `number`, scanning windows by starting position and abandoning each
/// start once the growing sum overshoots; returns the smallest and largest
/// number of that window.
pub fn find_bounds_of_continuous_sum_matching_number(number: isize, numbers: &[isize]) -> (r:
    Option<(isize, isize)>)
    requires
        forall|i: int, j: int|
            0 <= i <= j <= numbers@.len() ==> isize::MIN <= #[trigger] range_sum(numbers@, i, j)
                <= isize::MAX,
    ensures
        ({
            match window_scan(numbers@, number as int, 0) {
                None => r is None,
                Some(w) => r == Some(
                    (
                        range_min(numbers@, w.0, w.1) as isize,
                        range_max(numbers@, w.0, w.1) as isize,
                    ),
                ),
            }
        }),
{
    let ghost s = numbers@;
    let n = numbers.len();
    let mut i: usize = 0;
    while i < n
        invariant
            i <= n,
            n == s.len(),
            s == numbers@,
            forall|a: int, b: int|
                0 <= a <= b <= s.len() ==> isize::MIN <= #[trigger] range_sum(s, a, b)
                    <= isize::MAX,
            window_scan(s, number as int, 0) == window_scan(s, number as int, i as int),
        decreases n - i,
    {
        let mut sum = numbers[i];
        let mut smallest = sum;
        let mut largest = sum;
        let mut j = i + 1;
        let mut found = false;
        proof {
            assert(range_sum(s, i as int, i as int + 1) == range_sum(s, i as int, i as int)
                + s[i as int]);
        }
        loop
            invariant_except_break
                !found,
                window_scan_inner(s, number as int, i as int, i as int + 1)
                    == window_scan_inner(s, number as int, i as int, j as int),
            invariant
                i < j <= n,
                n == s.len(),
                s == numbers@,
                forall|a: int, b: int|
                    0 <= a <= b <= s.len() ==> isize::MIN <= #[trigger] range_sum(s, a, b)
                        <= isize::MAX,
                sum == range_sum(s, i as int, j as int),
                smallest == range_min(s, i as int, j as int),
                largest == range_max(s, i as int, j as int),
            ensures
                s == numbers@,
                i < j <= n + 1,
                smallest == range_min(s, i as int, j as int),
                largest == range_max(s, i as int, j as int),
                found ==> window_scan_inner(s, number as int, i as int, i as int + 1) == Some(
                    j as int,
                ),
                !found ==> window_scan_inner(s, number as int, i as int, i as int + 1) is None,
            decreases n - j,
        {
            if j >= n {
                proof {
                    assert(window_scan_inner(s, number as int, i as int, j as int) is None);
                }
                break ;
            }
            let value = numbers[j];
            proof {
                assert(range_sum(s, i as int, j as int + 1) == range_sum(s, i as int, j as int)
                    + s[j as int]);
            }
            let new_sum = sum + value;
            sum = new_sum;
            if value < smallest {
                smallest = value;
            }
            if value > largest {
                largest = value;
            }
            proof {
                assert(range_min(s, i as int, j as int + 1) == smallest);
                assert(range_max(s, i as int, j as int + 1) == largest);
            }
            j = j + 1;
            if sum == number {
                found = true;
                proof {
                    assert(window_scan_inner(s, number as int, i as int, j as int - 1) == Some(
                        j as int,
                    ));
                }
                break ;
            }
            if sum > number {
                proof {
                    assert(window_scan_inner(s, number as int, i as int, j as int - 1) is None);
                }
                break ;
            }
        }
        if found {
            proof {
                assert(window_scan(s, number as int, i as int) == Some((i as int, j as int)));
            }
            return Some((smallest, largest));
        }
        proof {
            assert(window_scan(s, number as int, i as int) == window_scan(
                s,
                number as int,
                i as int + 1,
            ));
        }
        i = i + 1;
    }
    proof {
        assert(window_scan(s, number as int, i as int) is None);
    }
    None
}

} // verus!
