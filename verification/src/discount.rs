//! A fixed-point exponential for discount factors under continuous
//! compounding.
//!
//! The discount factor for rate `r` and time `t` is `e^(-r*t)`.  Rates and
//! times are fixed-point values at scale [`SCALE`]; the exponential is
//! evaluated in integer arithmetic at the finer internal scale 10^18, by a
//! truncated Taylor series after halving the argument [`HALVINGS`] times,
//! followed by that many squarings.  The specification functions below state
//! the computed value exactly, so the pricer's contract is deterministic.
use vstd::prelude::*;

use crate::fixed::lemma_div_le;
use crate::fixed::lemma_mul_le;
use crate::fixed::SCALE;

verus! {

/// Internal scale of the exponential: 10^18, so intermediate values carry
/// eighteen decimal places.
pub const INNER: u128 = 1_000_000_000_000_000_000;

/// Number of Taylor terms kept; at arguments below 1/2 the first dropped
/// term is below 10^-25 of the result.
pub const TERMS: u32 = 20;

/// The argument is divided by 2^HALVINGS before the series and the result
/// squared back HALVINGS times.
pub const HALVINGS: u32 = 7;

/// Horner evaluation, from term `m` on, of the Taylor series of `e^(-u)`
/// with `u` and the result at scale [`INNER`]:
/// `series(u, m) = INNER - u * series(u, m + 1) / (INNER * (m + 1))`.
pub open spec fn exp_neg_series(u: int, m: int) -> int
    decreases 20 - m,
{
    if m < 0 || m >= 20 {
        INNER as int
    } else {
        (INNER as int) - u * exp_neg_series(u, m + 1) / ((INNER as int) * (m + 1))
    }
}

/// Horner evaluation, from term `m` on, of the Taylor series of `e^(+u)`
/// with `u` and the result at scale [`INNER`].
pub open spec fn exp_pos_series(u: int, m: int) -> int
    decreases 20 - m,
{
    if m < 0 || m >= 20 {
        INNER as int
    } else {
        (INNER as int) + u * exp_pos_series(u, m + 1) / ((INNER as int) * (m + 1))
    }
}

/// `w` squared down `j` times at scale [`INNER`], undoing `j` halvings of
/// the exponent.
pub open spec fn repeated_square(w: int, j: int) -> int
    decreases j,
{
    if j <= 0 {
        w
    } else {
        let p = repeated_square(w, j - 1);
        p * p / (INNER as int)
    }
}

/// The fixed-point value this crate takes for `e^(-x)`: `x` and the result
/// at scale [`SCALE`].  Non-negative exponents go through halving, the
/// series and squaring; the small negative range is served by the rising
/// series directly.
pub open spec fn spec_exp_neg(x: int) -> int {
    if x >= 0 {
        repeated_square(exp_neg_series(x * (SCALE as int) / 128, 0), 7) / (SCALE as int)
    } else {
        exp_pos_series((-x) * (SCALE as int), 0) / (SCALE as int)
    }
}

/// Largest exponent served: e^(-50) is zero at scale 10^9.
pub const EXP_ARG_MAX: i64 = 50_000_000_000;

/// Most negative exponent served: e^(1/2) still fits comfortably, and the
/// rising series needs no argument reduction below it.
pub const EXP_ARG_MIN: i64 = -500_000_000;

/// The falling series stays within `[INNER/2, INNER]` for arguments in
/// `[0, INNER/2]`.
proof fn lemma_exp_neg_series_bounds(u: int, m: int)
    requires
        0 <= u <= 500_000_000_000_000_000,
    ensures
        500_000_000_000_000_000 <= exp_neg_series(u, m) <= INNER as int,
    decreases 20 - m,
{
    if 0 <= m < 20 {
        lemma_exp_neg_series_bounds(u, m + 1);
        let v = exp_neg_series(u, m + 1);
        let d = (INNER as int) * (m + 1);
        assert((INNER as int) <= d) by (nonlinear_arith)
            requires
                0 <= m,
                d == (INNER as int) * (m + 1),
        ;
        lemma_mul_le(u, v, 500_000_000_000_000_000, INNER as int);
        lemma_div_le(u * v, d, INNER as int, 500_000_000_000_000_000);
        assert(u * v >= 0) by (nonlinear_arith)
            requires
                0 <= u,
                0 <= v,
        ;
        assert(u * v / d >= 0) by (nonlinear_arith)
            requires
                0 <= u * v,
                1 <= d,
        ;
    }
}

/// The rising series stays within `[INNER, 2 * INNER]` for arguments in
/// `[0, INNER/2]`.
proof fn lemma_exp_pos_series_bounds(u: int, m: int)
    requires
        0 <= u <= 500_000_000_000_000_000,
    ensures
        INNER as int <= exp_pos_series(u, m) <= 2 * (INNER as int),
    decreases 20 - m,
{
    if 0 <= m < 20 {
        lemma_exp_pos_series_bounds(u, m + 1);
        let v = exp_pos_series(u, m + 1);
        let d = (INNER as int) * (m + 1);
        assert((INNER as int) <= d) by (nonlinear_arith)
            requires
                0 <= m,
                d == (INNER as int) * (m + 1),
        ;
        lemma_mul_le(u, v, 500_000_000_000_000_000, 2 * (INNER as int));
        lemma_div_le(u * v, d, INNER as int, INNER as int);
        assert(u * v >= 0) by (nonlinear_arith)
            requires
                0 <= u,
                0 <= v,
        ;
        assert(u * v / d >= 0) by (nonlinear_arith)
            requires
                0 <= u * v,
                1 <= d,
        ;
    }
}

/// Squaring keeps values within `[0, INNER]`.
proof fn lemma_repeated_square_bounds(w: int, j: int)
    requires
        0 <= w <= INNER as int,
    ensures
        0 <= repeated_square(w, j) <= INNER as int,
    decreases j,
{
    if j > 0 {
        lemma_repeated_square_bounds(w, j - 1);
        let p = repeated_square(w, j - 1);
        lemma_mul_le(p, p, INNER as int, INNER as int);
        lemma_div_le(p * p, INNER as int, INNER as int, INNER as int);
        assert(p * p >= 0) by (nonlinear_arith)
            requires
                0 <= p,
        ;
        assert(p * p / (INNER as int) >= 0) by (nonlinear_arith)
            requires
                0 <= p * p,
        ;
    }
}

/// Fixed-point `e^(-x)` at scale [`SCALE`], equal to [`spec_exp_neg`].
///
/// The result is non-negative and at most `2 * SCALE` (that is, at most
/// `e^(1/2)` as a real value), which keeps every discounted cash flow
/// within `i64` range for the pricer.
pub fn exp_neg(x: i64) -> (r: i64)
    requires
        EXP_ARG_MIN <= x <= EXP_ARG_MAX,
    ensures
        r as int == spec_exp_neg(x as int),
        0 <= r <= 2 * SCALE,
{
    if x >= 0 {
        let x18: u128 = (x as u128) * 1_000_000_000;
        let u: u128 = x18 / 128;
        let mut v: u128 = INNER;
        let mut m: u32 = 20;
        proof {
            assert(u as int == (x as int) * (SCALE as int) / 128);
        }
        while m > 0
            invariant
                m <= 20,
                u <= 500_000_000_000_000_000,
                v as int == exp_neg_series(u as int, m as int),
                500_000_000_000_000_000 <= v <= INNER,
            decreases m,
        {
            m = m - 1;
            let d: u128 = INNER * ((m + 1) as u128);
            proof {
                lemma_mul_le(u as int, v as int, 500_000_000_000_000_000, INNER as int);
                assert((INNER as int) <= d as int) by (nonlinear_arith)
                    requires
                        d as int == (INNER as int) * ((m + 1) as int),
                        0 <= m as int,
                ;
                lemma_div_le(
                    (u as int) * (v as int),
                    d as int,
                    INNER as int,
                    500_000_000_000_000_000,
                );
                assert((u as int) * (v as int) >= 0) by (nonlinear_arith)
                    requires
                        0 <= u as int,
                        0 <= v as int,
                ;
            }
            let prod: u128 = u * v;
            let q: u128 = prod / d;
            v = INNER - q;
            proof {
                lemma_exp_neg_series_bounds(u as int, m as int);
            }
        }
        let ghost core: int = v as int;
        let mut j: u32 = 0;
        while j < 7
            invariant
                j <= 7,
                v as int == repeated_square(core, j as int),
                v <= INNER,
            decreases 7 - j,
        {
            proof {
                lemma_mul_le(v as int, v as int, INNER as int, INNER as int);
                lemma_div_le(
                    (v as int) * (v as int),
                    INNER as int,
                    INNER as int,
                    INNER as int,
                );
            }
            let p2: u128 = v * v;
            v = p2 / INNER;
            j = j + 1;
        }
        let r128: u128 = v / 1_000_000_000;
        r128 as i64
    } else {
        let y: i64 = -x;
        let u: u128 = (y as u128) * 1_000_000_000;
        let mut v: u128 = INNER;
        let mut m: u32 = 20;
        proof {
            assert(u as int == (-(x as int)) * (SCALE as int));
        }
        while m > 0
            invariant
                m <= 20,
                u <= 500_000_000_000_000_000,
                v as int == exp_pos_series(u as int, m as int),
                INNER <= v <= 2 * INNER,
            decreases m,
        {
            m = m - 1;
            let d: u128 = INNER * ((m + 1) as u128);
            proof {
                lemma_mul_le(u as int, v as int, 500_000_000_000_000_000, 2 * (INNER as int));
                assert((INNER as int) <= d as int) by (nonlinear_arith)
                    requires
                        d as int == (INNER as int) * ((m + 1) as int),
                        0 <= m as int,
                ;
                lemma_div_le((u as int) * (v as int), d as int, INNER as int, INNER as int);
                assert((u as int) * (v as int) >= 0) by (nonlinear_arith)
                    requires
                        0 <= u as int,
                        0 <= v as int,
                ;
            }
            let prod: u128 = u * v;
            let q: u128 = prod / d;
            v = INNER + q;
            proof {
                lemma_exp_pos_series_bounds(u as int, m as int);
            }
        }
        let r128: u128 = v / 1_000_000_000;
        r128 as i64
    }
}

} // verus!
