//! Bus schedules: a brute-force modular inverse for the timetable sieve.

use vstd::prelude::*;

verus! {

/// The first candidate at or after `z` that is a modular inverse of `x`
/// modulo `y`, searching below `y`; zero when none is.
pub open spec fn first_inverse_from(x: int, y: int, z: int) -> int
    decreases y - z,
    when 1 <= z
{
    if z >= y {
        0
    } else if (z * x) % y == 1 {
        z
    } else {
        first_inverse_from(x, y, z + 1)
    }
}

/// The smallest positive inverse of `x` modulo `y`, or zero when `x` has
/// none (or `y` is too small to search).
pub open spec fn spec_inverse(x: int, y: int) -> int {
    first_inverse_from(x, y, 1)
}

/// Searches `1..y` for the first multiplier that takes `x` to one modulo
/// `y`; answers zero when there is none.
pub fn inverse(x: usize, y: usize) -> (r: usize)
    requires
        y >= 1,
        (y - 1) * x <= usize::MAX,
    ensures
        r == spec_inverse(x as int, y as int),
{
    let mut z: usize = 1;
    loop
        invariant
            1 <= z <= y,
            (y - 1) * x <= usize::MAX,
            spec_inverse(x as int, y as int) == first_inverse_from(x as int, y as int, z as int),
        decreases y - z,
    {
        if z >= y {
            proof {
                assert(first_inverse_from(x as int, y as int, z as int) == 0);
            }
            return 0;
        }
        proof {
            assert(z * x <= (y - 1) * x) by (nonlinear_arith)
                requires
                    z <= y - 1,
                    x >= 0,
                    z >= 0,
            ;
        }
        let product = z * x;
        if product % y == 1 {
            proof {
                assert(first_inverse_from(x as int, y as int, z as int) == z as int);
            }
            return z;
        }
        z = z + 1;
    }
}

} // verus!
