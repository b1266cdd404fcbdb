//! Small arithmetic helpers shared by the solvers.

use vstd::prelude::*;

verus! {

/// The quotient of `a` by `b`, rounded up.
pub fn div_round_up(a: usize, b: usize) -> (r: usize)
    requires
        b > 0,
        a + b - 1 <= usize::MAX,
    ensures
        r == (a + (b - 1)) / (b as int),
        r * b >= a,
        a > 0 ==> (r - 1) * b < a,
{
    let r = (a + (b - 1)) / b;
    proof {
        assert(r * b >= a && (a > 0 ==> (r - 1) * b < a)) by (nonlinear_arith)
            requires
                b > 0,
                r == (a + (b - 1)) / (b as int),
        ;
    }
    r
}

} // verus!
