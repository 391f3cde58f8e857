//! The bond pricer: discounted-cash-flow valuation of a fixed-coupon bond
//! against a borrowed yield curve, under continuous compounding.
use vstd::prelude::*;

use crate::discount::exp_neg;
use crate::discount::spec_exp_neg;
use crate::discount::EXP_ARG_MAX;
use crate::discount::EXP_ARG_MIN;
use crate::fixed::div_trunc;
use crate::fixed::div_trunc_i128;
use crate::fixed::lemma_div_trunc_bounded;
use crate::fixed::SCALE;
use crate::yield_curve::lemma_rate_at_in_range;
use crate::yield_curve::lemma_seq_min_max;
use crate::yield_curve::rate_at;
use crate::yield_curve::seq_max;
use crate::yield_curve::seq_min;
use crate::yield_curve::YieldCurve;
use crate::yield_curve::MAT_LIMIT;
use crate::yield_curve::RATE_LIMIT;
use crate::PricingError;

verus! {

/// Largest representable face value magnitude: ten thousand currency units
/// at scale [`SCALE`].  A machine limit of the fixed-point representation.
pub const FACE_LIMIT: i64 = 10_000_000_000_000;

/// Largest supported number of cash flows in one schedule.  A machine
/// limit: it keeps the accumulated price within `i64`.
pub const PAYMENTS_LIMIT: u32 = 20_000;

/// Every price this pricer returns lies within this magnitude.
pub const PRICE_BOUND: i64 = 500_000_000_000_000_000;

/// The number of coupon payments: `maturity * payments_per_year` rounded to
/// the nearest integer, and none for non-positive maturities.
pub open spec fn num_payments(m: int, ppy: int) -> int {
    if m <= 0 {
        0
    } else {
        (m * ppy + 500_000_000) / 1_000_000_000
    }
}

/// The time of payment `i`, in years at scale [`SCALE`]: `i / ppy`.
pub open spec fn payment_time(i: int, ppy: int) -> int {
    (i * 1_000_000_000) / ppy
}

/// The present value of coupon payment `i`: the coupon amount discounted by
/// `e^(-rate * t)` with the rate the curve answers for the payment time.
pub open spec fn discounted_coupon(
    mats: Seq<int>,
    rates: Seq<int>,
    coupon: int,
    i: int,
    ppy: int,
) -> int {
    let t = payment_time(i, ppy);
    let x = div_trunc(rate_at(mats, rates, t) * t, SCALE as int);
    div_trunc(coupon * spec_exp_neg(x), SCALE as int)
}

/// The sum of the present values of coupon payments `1` to `k`.
pub open spec fn coupon_leg(mats: Seq<int>, rates: Seq<int>, coupon: int, ppy: int, k: int) -> int
    decreases k,
{
    if k <= 0 {
        0
    } else {
        coupon_leg(mats, rates, coupon, ppy, k - 1) + discounted_coupon(mats, rates, coupon, k, ppy)
    }
}

/// The present value of the face value repaid at maturity.
pub open spec fn face_leg(mats: Seq<int>, rates: Seq<int>, face: int, m: int) -> int {
    let x = div_trunc(rate_at(mats, rates, m) * m, SCALE as int);
    div_trunc(face * spec_exp_neg(x), SCALE as int)
}

/// The full fixed-point bond price: the per-period coupon amount
/// `face * coupon_rate / ppy`, its discounted sum over the schedule, plus
/// the discounted face value.
pub open spec fn price_spec(
    mats: Seq<int>,
    rates: Seq<int>,
    face: int,
    coupon_rate: int,
    m: int,
    ppy: int,
) -> int {
    let coupon = div_trunc(face * coupon_rate, (SCALE as int) * ppy);
    coupon_leg(mats, rates, coupon, ppy, num_payments(m, ppy)) + face_leg(mats, rates, face, m)
}

/// Machine limits a pricing request must respect so that every intermediate
/// value — schedule length, exponent, discounted cash flow, running sum —
/// stays representable.  Ordinary market inputs (tens of years,
/// single-digit percent rates, face values around 100) satisfy all of them
/// with orders of magnitude to spare.
pub open spec fn price_args_ok(c: YieldCurve, face: int, m: int, ppy: int) -> bool {
    let mn = seq_min(c.spec_rates());
    let mx = seq_max(c.spec_rates());
    let a = (if m >= 0 {
        m
    } else {
        -m
    }) + SCALE as int;
    &&& -(FACE_LIMIT as int) <= face <= FACE_LIMIT as int
    &&& -(MAT_LIMIT as int) <= m <= MAT_LIMIT as int
    &&& num_payments(m, ppy) <= PAYMENTS_LIMIT as int
    &&& mx * a <= (EXP_ARG_MAX as int) * (SCALE as int)
    &&& mn * a >= (EXP_ARG_MIN as int) * (SCALE as int)
    &&& (m < 0 ==> mx * (-m) <= -(EXP_ARG_MIN as int) * (SCALE as int) && mn * m <= (
    EXP_ARG_MAX as int) * (SCALE as int))
}

/// A product of a rate and a non-negative time stays within the exponent
/// range the discount function serves.
proof fn lemma_exp_arg_nonneg_t(r: int, t: int, mn: int, mx: int, a: int)
    requires
        mn <= r <= mx,
        0 <= t <= a,
        mx * a <= 50_000_000_000_000_000_000,
        mn * a >= -500_000_000_000_000_000,
    ensures
        -500_000_000_000_000_000 <= r * t <= 50_000_000_000_000_000_000,
{
    if r >= 0 {
        assert(r * t <= mx * a) by (nonlinear_arith)
            requires
                0 <= r <= mx,
                0 <= t <= a,
        ;
        assert(r * t >= 0) by (nonlinear_arith)
            requires
                0 <= r,
                0 <= t,
        ;
    } else {
        assert(r * t >= mn * a) by (nonlinear_arith)
            requires
                mn <= r,
                r < 0,
                0 <= t <= a,
        ;
        assert(r * t <= 0) by (nonlinear_arith)
            requires
                r < 0,
                0 <= t,
        ;
    }
}

/// A product of a rate and a negative maturity stays within the exponent
/// range the discount function serves.
proof fn lemma_exp_arg_neg_m(r: int, m: int, mn: int, mx: int)
    requires
        mn <= r <= mx,
        m < 0,
        mx * (-m) <= 500_000_000_000_000_000,
        mn * m <= 50_000_000_000_000_000_000,
    ensures
        -500_000_000_000_000_000 <= r * m <= 50_000_000_000_000_000_000,
{
    if r >= 0 {
        assert(r * m <= 0) by (nonlinear_arith)
            requires
                0 <= r,
                m < 0,
        ;
        assert(r * m >= -(mx * (-m))) by (nonlinear_arith)
            requires
                0 <= r <= mx,
                m < 0,
        ;
    } else {
        assert(r * m >= 0) by (nonlinear_arith)
            requires
                r < 0,
                m < 0,
        ;
        assert(r * m <= mn * m) by (nonlinear_arith)
            requires
                mn <= r,
                m < 0,
        ;
    }
}

/// No payment time in the schedule exceeds the maturity by more than one
/// year.
proof fn lemma_payment_time_bound(i: int, n: int, m: int, ppy: int, t: int)
    requires
        1 <= ppy,
        1 <= i <= n,
        0 < m,
        n == (m * ppy + 500_000_000) / 1_000_000_000,
        t == (i * 1_000_000_000) / ppy,
    ensures
        0 <= t <= m + 1_000_000_000,
{
    assert(n * 1_000_000_000 <= m * ppy + 500_000_000);
    assert(m * ppy + 500_000_000 <= (m + 1_000_000_000) * ppy) by (nonlinear_arith)
        requires
            1 <= ppy,
            0 < m,
    ;
    assert(t <= m + 1_000_000_000) by (nonlinear_arith)
        requires
            t == (i * 1_000_000_000) / ppy,
            i * 1_000_000_000 <= (m + 1_000_000_000) * ppy,
            1 <= ppy,
            0 <= i,
            0 < m,
    ;
    assert(t >= 0) by (nonlinear_arith)
        requires
            t == (i * 1_000_000_000) / ppy,
            0 <= i,
            1 <= ppy,
    ;
}

/// Determinism: the price is a function of the curve and the four call
/// arguments alone, so any two results of the pricing contract for the
/// same inputs are equal.
pub proof fn lemma_price_deterministic(
    mats: Seq<int>,
    rates: Seq<int>,
    face: int,
    coupon_rate: int,
    m: int,
    ppy: int,
    p1: int,
    p2: int,
)
    requires
        p1 == price_spec(mats, rates, face, coupon_rate, m, ppy),
        p2 == price_spec(mats, rates, face, coupon_rate, m, ppy),
    ensures
        p1 == p2,
{
}

/// Whether a pricing request respects the machine limits of
/// [`price_args_ok`].  Callers outside verified code check inputs with this
/// before pricing, as the pricer's contract presumes them.
pub fn price_inputs_ok(
    curve: &YieldCurve,
    face_value: i64,
    maturity: i64,
    payments_per_year: u32,
) -> (b: bool)
    requires
        curve.wf(),
    ensures
        b == price_args_ok(*curve, face_value as int, maturity as int, payments_per_year as int),
{
    if face_value < -FACE_LIMIT || face_value > FACE_LIMIT {
        return false;
    }
    if maturity < -MAT_LIMIT || maturity > MAT_LIMIT {
        return false;
    }
    if maturity > 0 {
        proof {
            crate::fixed::lemma_mul_le(
                maturity as int,
                payments_per_year as int,
                50_000_000_000,
                4_294_967_295,
            );
        }
        let prod: u128 = (maturity as u128) * (payments_per_year as u128);
        let nn: u128 = (prod + 500_000_000) / 1_000_000_000;
        if nn > PAYMENTS_LIMIT as u128 {
            return false;
        }
    }
    let rr: (i64, i64) = curve.rate_range();
    let mn: i64 = rr.0;
    let mx: i64 = rr.1;
    proof {
        assert forall|k: int| 0 <= k < curve.spec_rates().len() implies -1_000_000_000
            <= #[trigger] curve.spec_rates()[k] <= 1_000_000_000 by {}
        crate::yield_curve::lemma_min_max_within(
            curve.spec_rates(),
            -1_000_000_000,
            1_000_000_000,
        );
    }
    let am: i64 = if maturity >= 0 {
        maturity
    } else {
        -maturity
    };
    let a: i128 = am as i128 + SCALE as i128;
    proof {
        assert(-(1_000_000_000 * 51_000_000_000) <= (mx as int) * (a as int) && (mx as int) * (
        a as int) <= 1_000_000_000 * 51_000_000_000 && -(1_000_000_000 * 51_000_000_000) <= (
        mn as int) * (a as int) && (mn as int) * (a as int) <= 1_000_000_000 * 51_000_000_000)
            by (nonlinear_arith)
            requires
                -1_000_000_000 <= mx as int <= 1_000_000_000,
                -1_000_000_000 <= mn as int <= 1_000_000_000,
                0 <= a as int <= 51_000_000_000,
        ;
    }
    let c1: bool = (mx as i128) * a <= (EXP_ARG_MAX as i128) * (SCALE as i128);
    let c2: bool = (mn as i128) * a >= (EXP_ARG_MIN as i128) * (SCALE as i128);
    if maturity < 0 {
        proof {
            assert(-(1_000_000_000 * 51_000_000_000) <= (mx as int) * (-(maturity as int)) && (
            mx as int) * (-(maturity as int)) <= 1_000_000_000 * 51_000_000_000 && -(1_000_000_000
                * 51_000_000_000) <= (mn as int) * (maturity as int) && (mn as int) * (
            maturity as int) <= 1_000_000_000 * 51_000_000_000) by (nonlinear_arith)
                requires
                    -1_000_000_000 <= mx as int <= 1_000_000_000,
                    -1_000_000_000 <= mn as int <= 1_000_000_000,
                    -51_000_000_000 <= (maturity as int) && (maturity as int) < 0,
            ;
        }
        let c3: bool = (mx as i128) * ((-maturity) as i128) <= -(EXP_ARG_MIN as i128) * (
        SCALE as i128);
        let c4: bool = (mn as i128) * (maturity as i128) <= (EXP_ARG_MAX as i128) * (
        SCALE as i128);
        c1 && c2 && c3 && c4
    } else {
        c1 && c2
    }
}

/// A stateless pricer borrowing the curve it discounts against.
pub struct BondPricer<'a> {
    yield_curve: &'a YieldCurve,
}

impl<'a> BondPricer<'a> {
    /// The curve the pricer reads.
    pub closed spec fn curve(&self) -> YieldCurve {
        *self.yield_curve
    }

    /// Builds a pricer over a borrowed curve.
    pub fn new(yield_curve: &'a YieldCurve) -> (r: BondPricer<'a>)
        ensures
            r.curve() == *yield_curve,
    {
        BondPricer { yield_curve }
    }

    /// The fair value of the bond: every coupon and the face value
    /// discounted by `e^(-rate * t)` at the curve's rate for its payment
    /// time, summed — exactly [`price_spec`].
    ///
    /// Fails with [`PricingError::InvalidParameter`] exactly when
    /// `payments_per_year` is zero.
    pub fn price(
        &self,
        face_value: i64,
        coupon_rate: i64,
        maturity: i64,
        payments_per_year: u32,
    ) -> (r: Result<i64, PricingError>)
        requires
            self.curve().wf(),
            -RATE_LIMIT <= coupon_rate <= RATE_LIMIT,
            price_args_ok(
                self.curve(),
                face_value as int,
                maturity as int,
                payments_per_year as int,
            ),
        ensures
            payments_per_year == 0 <==> r is Err,
            r matches Err(e) ==> e == PricingError::InvalidParameter,
            r matches Ok(p) ==> p as int == price_spec(
                self.curve().spec_maturities(),
                self.curve().spec_rates(),
                face_value as int,
                coupon_rate as int,
                maturity as int,
                payments_per_year as int,
            ) && -PRICE_BOUND <= p <= PRICE_BOUND,
    {
        if payments_per_year == 0 {
            return Err(PricingError::InvalidParameter);
        }
        let ghost mats = self.curve().spec_maturities();
        let ghost rates_s = self.curve().spec_rates();
        let ghost mn = seq_min(rates_s);
        let ghost mx = seq_max(rates_s);
        proof {
            assert forall|k: int| 0 <= k < rates_s.len() implies mn <= #[trigger] rates_s[k]
                <= mx by {
                lemma_seq_min_max(rates_s, k);
            }
        }
        proof {
            assert((SCALE as int) * (payments_per_year as int) >= 1_000_000_000
                && (SCALE as int) * (payments_per_year as int)
                <= 5_000_000_000_000_000_000) by (nonlinear_arith)
                requires
                    1 <= payments_per_year as int <= 4_294_967_295,
            ;
            assert(-(10_000_000_000_000 * ((SCALE as int) * (payments_per_year as int))) <= (
            face_value as int) * (coupon_rate as int) && (face_value as int) * (coupon_rate as int)
                <= 10_000_000_000_000 * ((SCALE as int) * (payments_per_year as int)))
                by (nonlinear_arith)
                requires
                    -10_000_000_000_000 <= face_value as int <= 10_000_000_000_000,
                    -1_000_000_000 <= coupon_rate as int <= 1_000_000_000,
                    (SCALE as int) * (payments_per_year as int) >= 1_000_000_000,
            ;
            lemma_div_trunc_bounded(
                (face_value as int) * (coupon_rate as int),
                (SCALE as int) * (payments_per_year as int),
                10_000_000_000_000,
            );
        }
        let fc: i128 = (face_value as i128) * (coupon_rate as i128);
        let den: i128 = (SCALE as i128) * (payments_per_year as i128);
        let coupon: i128 = div_trunc_i128(fc, den);
        let n: u32 = if maturity <= 0 {
            0
        } else {
            let prod: u128 = (maturity as u128) * (payments_per_year as u128);
            let nn: u128 = (prod + 500_000_000) / 1_000_000_000;
            proof {
                crate::fixed::lemma_mul_le(
                    maturity as int,
                    payments_per_year as int,
                    50_000_000_000,
                    4_294_967_295,
                );
            }
            nn as u32
        };
        let ghost coupon_g: int = coupon as int;
        let mut acc: i64 = 0;
        let mut i: u32 = 1;
        while i <= n
            invariant
                self.curve().wf(),
                mats == self.curve().spec_maturities(),
                rates_s == self.curve().spec_rates(),
                mn == seq_min(rates_s),
                mx == seq_max(rates_s),
                forall|k: int| 0 <= k < rates_s.len() ==> mn <= #[trigger] rates_s[k] <= mx,
                1 <= payments_per_year,
                price_args_ok(
                    self.curve(),
                    face_value as int,
                    maturity as int,
                    payments_per_year as int,
                ),
                n as int == num_payments(maturity as int, payments_per_year as int),
                n <= PAYMENTS_LIMIT,
                coupon_g == coupon as int,
                coupon_g == div_trunc(
                    (face_value as int) * (coupon_rate as int),
                    (SCALE as int) * (payments_per_year as int),
                ),
                -10_000_000_000_000 <= coupon <= 10_000_000_000_000,
                1 <= i <= n + 1,
                acc as int == coupon_leg(mats, rates_s, coupon_g, payments_per_year as int, i as int - 1),
                -(20_000_000_000_000 * (i as int - 1)) <= acc as int <= 20_000_000_000_000 * (
                i as int - 1),
            decreases n as int + 1 - i as int,
        {
            let tprod: u128 = (i as u128) * 1_000_000_000;
            let t128: u128 = tprod / (payments_per_year as u128);
            let t: i64 = t128 as i64;
            proof {
                lemma_payment_time_bound(
                    i as int,
                    n as int,
                    maturity as int,
                    payments_per_year as int,
                    t as int,
                );
                lemma_rate_at_in_range(mats, rates_s, t as int, mn, mx);
                lemma_exp_arg_nonneg_t(
                    rate_at(mats, rates_s, t as int),
                    t as int,
                    mn,
                    mx,
                    maturity as int + 1_000_000_000,
                );
            }
            let rate: i64 = self.yield_curve.get_rate(t);
            let xprod: i128 = (rate as i128) * (t as i128);
            let x128: i128 = div_trunc_i128(xprod, SCALE as i128);
            let x: i64 = x128 as i64;
            let df: i64 = exp_neg(x);
            proof {
                assert(-(20_000_000_000_000 * (SCALE as int)) <= (coupon as int) * (df as int) && (
                coupon as int) * (df as int) <= 20_000_000_000_000 * (SCALE as int))
                    by (nonlinear_arith)
                    requires
                        -10_000_000_000_000 <= coupon as int <= 10_000_000_000_000,
                        0 <= df as int <= 2_000_000_000,
                ;
                lemma_div_trunc_bounded(
                    (coupon as int) * (df as int),
                    SCALE as int,
                    20_000_000_000_000,
                );
            }
            let cprod: i128 = coupon * (df as i128);
            let term: i128 = div_trunc_i128(cprod, SCALE as i128);
            acc = acc + (term as i64);
            i = i + 1;
        }
        let rate_m: i64 = self.yield_curve.get_rate(maturity);
        proof {
            lemma_rate_at_in_range(mats, rates_s, maturity as int, mn, mx);
            if maturity >= 0 {
                lemma_exp_arg_nonneg_t(
                    rate_at(mats, rates_s, maturity as int),
                    maturity as int,
                    mn,
                    mx,
                    maturity as int + 1_000_000_000,
                );
            } else {
                lemma_exp_arg_neg_m(
                    rate_at(mats, rates_s, maturity as int),
                    maturity as int,
                    mn,
                    mx,
                );
            }
        }
        let xprod_m: i128 = (rate_m as i128) * (maturity as i128);
        let xm128: i128 = div_trunc_i128(xprod_m, SCALE as i128);
        let xm: i64 = xm128 as i64;
        let dfm: i64 = exp_neg(xm);
        proof {
            assert(-(20_000_000_000_000 * (SCALE as int)) <= (face_value as int) * (dfm as int)
                && (face_value as int) * (dfm as int) <= 20_000_000_000_000 * (SCALE as int))
                by (nonlinear_arith)
                requires
                    -10_000_000_000_000 <= face_value as int <= 10_000_000_000_000,
                    0 <= dfm as int <= 2_000_000_000,
            ;
            lemma_div_trunc_bounded(
                (face_value as int) * (dfm as int),
                SCALE as int,
                20_000_000_000_000,
            );
        }
        let fprod: i128 = (face_value as i128) * (dfm as i128);
        let fl: i128 = div_trunc_i128(fprod, SCALE as i128);
        let total: i64 = acc + (fl as i64);
        Ok(total)
    }
}

} // verus!
