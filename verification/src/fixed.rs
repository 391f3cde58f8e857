//! Fixed-point arithmetic helpers shared by the curve, the pricer and the
//! estimator: the global scale and division that truncates toward zero.
use vstd::prelude::*;

verus! {

/// Number of fixed-point units in 1.0: values carry nine decimal places.
pub const SCALE: i64 = 1_000_000_000;

/// Division rounding toward zero, for a positive divisor `b`.
///
/// This is the rounding used by every fixed-point product and mean in this
/// crate.  On non-negative operands it agrees with Euclidean division.
pub open spec fn div_trunc(a: int, b: int) -> int {
    if a >= 0 {
        a / b
    } else {
        -((-a) / b)
    }
}

/// `div_trunc` never grows the magnitude of a quotient past `bound` when the
/// numerator stays within `bound * b`.
pub proof fn lemma_div_trunc_bounded(a: int, b: int, bound: int)
    requires
        1 <= b,
        0 <= bound,
        -(bound * b) <= a <= bound * b,
    ensures
        -bound <= div_trunc(a, b) <= bound,
{
    if a >= 0 {
        assert(a / b <= bound) by (nonlinear_arith)
            requires
                1 <= b,
                0 <= bound,
                0 <= a <= bound * b,
        ;
        assert(a / b >= 0) by (nonlinear_arith)
            requires
                1 <= b,
                0 <= a,
        ;
    } else {
        assert((-a) / b <= bound) by (nonlinear_arith)
            requires
                1 <= b,
                0 <= bound,
                0 <= -a <= bound * b,
        ;
        assert((-a) / b >= 0) by (nonlinear_arith)
            requires
                1 <= b,
                0 <= -a,
        ;
    }
}

/// Products of bounded non-negative factors stay bounded.
pub proof fn lemma_mul_le(a: int, b: int, x: int, y: int)
    by (nonlinear_arith)
    requires
        0 <= a <= x,
        0 <= b <= y,
    ensures
        a * b <= x * y,
{
}

/// A quotient stays below `c` when the numerator stays below `c` times a
/// lower bound of the denominator.
pub proof fn lemma_div_le(p: int, d: int, dmin: int, c: int)
    by (nonlinear_arith)
    requires
        0 <= p,
        1 <= dmin <= d,
        0 <= c,
        p <= c * dmin,
    ensures
        p / d <= c,
{
}

/// Truncating division on machine integers, proved to match [`div_trunc`].
pub(crate) fn div_trunc_i128(a: i128, b: i128) -> (q: i128)
    requires
        1 <= b,
        -0x7fffffffffffffffffffffffffffffff <= a,
    ensures
        q == div_trunc(a as int, b as int),
        a >= 0 ==> 0 <= q <= a,
        a < 0 ==> a <= q <= 0,
{
    if a >= 0 {
        let ua: u128 = a as u128;
        let ub: u128 = b as u128;
        let uq: u128 = ua / ub;
        proof {
            assert(ua as int == a as int);
            assert(ub as int == b as int);
            assert(uq <= ua) by (nonlinear_arith)
                requires
                    ub >= 1,
                    uq == ua / ub,
            ;
        }
        uq as i128
    } else {
        let ua: u128 = (-a) as u128;
        let ub: u128 = b as u128;
        let uq: u128 = ua / ub;
        proof {
            assert(ua as int == -(a as int));
            assert(ub as int == b as int);
            assert(uq <= ua) by (nonlinear_arith)
                requires
                    ub >= 1,
                    uq == ua / ub,
            ;
        }
        -(uq as i128)
    }
}

} // verus!
