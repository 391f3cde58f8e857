//! The Monte Carlo estimator: independent trials that perturb the coupon
//! rate with a zero-mean random shock, re-price the bond, and average.
use vstd::prelude::*;

use vstd::arithmetic::div_mod::lemma_div_multiples_vanish;

use crate::bond_pricer::price_args_ok;
use crate::bond_pricer::price_spec;
use crate::bond_pricer::BondPricer;
use crate::bond_pricer::PRICE_BOUND;
use crate::fixed::div_trunc;
use crate::fixed::div_trunc_i128;
use crate::fixed::lemma_div_trunc_bounded;
use crate::yield_curve::seq_int;
use crate::yield_curve::YieldCurve;
use crate::yield_curve::RATE_LIMIT;
use crate::PricingError;

verus! {

/// Largest shock magnitude a trial can apply: 0.06 at scale
/// [`crate::SCALE`], the extreme of the sum of twelve uniform draws below.
pub const SHOCK_MAX: i64 = 60_000_000;

/// Half-width of one uniform draw: 0.005 at scale [`crate::SCALE`].
/// Twelve independent such draws sum to a zero-mean sample with standard
/// deviation 0.01, the shock size the estimator's model calls for.
pub const DRAW_HALF_WIDTH: i64 = 5_000_000;

/// Relies on rand::random: a sample of `T`'s standard distribution drawn
/// from the thread-local generator.  Nothing can be promised of a random
/// value, so no clause is stated.
pub assume_specification<T>[ rand::random::<T> ]() -> (r: T)
    where
        rand::distributions::Standard: rand::distributions::Distribution<T>,
;

/// The summed prices of trials `1` to `k`: trial `k` re-prices the bond
/// with the coupon rate shifted by `shocks[k - 1]`.
pub open spec fn trial_sum(
    mats: Seq<int>,
    rates: Seq<int>,
    face: int,
    coupon_rate: int,
    m: int,
    ppy: int,
    shocks: Seq<int>,
    k: int,
) -> int
    decreases k,
{
    if k <= 0 {
        0
    } else {
        trial_sum(mats, rates, face, coupon_rate, m, ppy, shocks, k - 1) + price_spec(
            mats,
            rates,
            face,
            coupon_rate + shocks[k - 1],
            m,
            ppy,
        )
    }
}

/// The Monte Carlo estimate for a given shock sequence: the mean of the
/// trial prices.
pub open spec fn mc_mean(
    mats: Seq<int>,
    rates: Seq<int>,
    face: int,
    coupon_rate: int,
    m: int,
    ppy: int,
    shocks: Seq<int>,
) -> int {
    div_trunc(
        trial_sum(mats, rates, face, coupon_rate, m, ppy, shocks, shocks.len() as int),
        shocks.len() as int,
    )
}

/// With every shock zero, each trial re-prices the nominal bond and the
/// trial sum is `k` times the deterministic price.
proof fn lemma_zero_trial_sum(
    mats: Seq<int>,
    rates: Seq<int>,
    face: int,
    coupon_rate: int,
    m: int,
    ppy: int,
    shocks: Seq<int>,
    k: int,
)
    requires
        0 <= k <= shocks.len(),
        forall|j: int| 0 <= j < shocks.len() ==> #[trigger] shocks[j] == 0,
    ensures
        trial_sum(mats, rates, face, coupon_rate, m, ppy, shocks, k) == k * price_spec(
            mats,
            rates,
            face,
            coupon_rate,
            m,
            ppy,
        ),
    decreases k,
{
    let p = price_spec(mats, rates, face, coupon_rate, m, ppy);
    if k <= 0 {
        assert(0 * p == 0) by (nonlinear_arith);
    } else {
        lemma_zero_trial_sum(mats, rates, face, coupon_rate, m, ppy, shocks, k - 1);
        assert((k - 1) * p + p == k * p) by (nonlinear_arith);
    }
}

/// The estimator converges to the deterministic price: with every shock
/// zero — the mean of the shock distribution — the estimate equals the
/// pricer's output at the nominal coupon rate exactly.
pub proof fn lemma_zero_shocks_mean(
    mats: Seq<int>,
    rates: Seq<int>,
    face: int,
    coupon_rate: int,
    m: int,
    ppy: int,
    shocks: Seq<int>,
)
    requires
        shocks.len() >= 1,
        forall|j: int| 0 <= j < shocks.len() ==> #[trigger] shocks[j] == 0,
    ensures
        mc_mean(mats, rates, face, coupon_rate, m, ppy, shocks) == price_spec(
            mats,
            rates,
            face,
            coupon_rate,
            m,
            ppy,
        ),
{
    let n = shocks.len() as int;
    let p = price_spec(mats, rates, face, coupon_rate, m, ppy);
    lemma_zero_trial_sum(mats, rates, face, coupon_rate, m, ppy, shocks, n);
    if p >= 0 {
        lemma_div_multiples_vanish(p, n);
        assert(n * p == p * n) by (nonlinear_arith);
    } else {
        lemma_div_multiples_vanish(-p, n);
        assert(-(n * p) == n * (-p)) by (nonlinear_arith);
    }
}

/// One coupon-rate shock: the sum of twelve independent uniform integer
/// draws on `[-DRAW_HALF_WIDTH, DRAW_HALF_WIDTH]`.  The sum has mean zero
/// and standard deviation 0.01 at scale [`crate::SCALE`], closely following
/// the Gaussian of the estimator's model, from integer entropy alone.
fn draw_shock() -> (s: i64)
    ensures
        -SHOCK_MAX <= s <= SHOCK_MAX,
{
    let mut total: i64 = 0;
    let mut k: u32 = 0;
    while k < 12
        invariant
            k <= 12,
            -(5_000_000 * (k as int)) <= total as int <= 5_000_000 * (k as int),
        decreases 12 - k,
    {
        let u: u64 = rand::random::<u64>();
        let d: i64 = (u % 10_000_001) as i64 - DRAW_HALF_WIDTH;
        total = total + d;
        k = k + 1;
    }
    total
}

/// A Monte Carlo estimator over a borrowed pricer, running a fixed number
/// of independent trials.
pub struct MonteCarlo<'a> {
    pricer: &'a BondPricer<'a>,
    num_simulations: u32,
}

impl<'a> MonteCarlo<'a> {
    /// The curve the borrowed pricer reads.
    pub closed spec fn curve(&self) -> YieldCurve {
        self.pricer.curve()
    }

    /// The number of trials one estimate runs.
    pub closed spec fn sims(&self) -> int {
        self.num_simulations as int
    }

    /// Builds an estimator over a borrowed pricer.
    pub fn new(pricer: &'a BondPricer<'a>, num_simulations: u32) -> (r: MonteCarlo<'a>)
        ensures
            r.curve() == pricer.curve(),
            r.sims() == num_simulations as int,
    {
        MonteCarlo { pricer, num_simulations }
    }

    /// The estimate for a caller-supplied shock sequence: each trial
    /// re-prices the bond at `coupon_rate + shocks[k]`, and the result is
    /// the mean of the trial prices — exactly [`mc_mean`].  Supplying the
    /// shocks makes a run reproducible: any seeded or recorded source can
    /// stand in for the random one.
    ///
    /// Fails with [`PricingError::InvalidParameter`] exactly when the shock
    /// sequence is empty or `payments_per_year` is zero.
    pub fn simulate_price_with_shocks(
        &self,
        shocks: &Vec<i64>,
        face_value: i64,
        coupon_rate: i64,
        maturity: i64,
        payments_per_year: u32,
    ) -> (r: Result<i64, PricingError>)
        requires
            self.curve().wf(),
            price_args_ok(
                self.curve(),
                face_value as int,
                maturity as int,
                payments_per_year as int,
            ),
            -RATE_LIMIT + SHOCK_MAX <= coupon_rate <= RATE_LIMIT - SHOCK_MAX,
            forall|k: int|
                0 <= k < shocks@.len() ==> -SHOCK_MAX <= #[trigger] shocks@[k] <= SHOCK_MAX,
        ensures
            (shocks@.len() == 0 || payments_per_year == 0) <==> r is Err,
            r matches Err(e) ==> e == PricingError::InvalidParameter,
            r matches Ok(p) ==> p as int == mc_mean(
                self.curve().spec_maturities(),
                self.curve().spec_rates(),
                face_value as int,
                coupon_rate as int,
                maturity as int,
                payments_per_year as int,
                seq_int(shocks@),
            ) && -PRICE_BOUND <= p <= PRICE_BOUND,
    {
        if payments_per_year == 0 || shocks.len() == 0 {
            return Err(PricingError::InvalidParameter);
        }
        let ghost mats = self.curve().spec_maturities();
        let ghost rates_s = self.curve().spec_rates();
        let ghost sh = seq_int(shocks@);
        let n: usize = shocks.len();
        let mut total: i128 = 0;
        let mut k: usize = 0;
        while k < n
            invariant
                self.curve().wf(),
                mats == self.curve().spec_maturities(),
                rates_s == self.curve().spec_rates(),
                sh == seq_int(shocks@),
                price_args_ok(
                    self.curve(),
                    face_value as int,
                    maturity as int,
                    payments_per_year as int,
                ),
                -RATE_LIMIT + SHOCK_MAX <= coupon_rate <= RATE_LIMIT - SHOCK_MAX,
                forall|j: int|
                    0 <= j < shocks@.len() ==> -SHOCK_MAX <= #[trigger] shocks@[j] <= SHOCK_MAX,
                1 <= payments_per_year,
                n == shocks@.len(),
                k <= n,
                total as int == trial_sum(
                    mats,
                    rates_s,
                    face_value as int,
                    coupon_rate as int,
                    maturity as int,
                    payments_per_year as int,
                    sh,
                    k as int,
                ),
                -(500_000_000_000_000_000 * (k as int)) <= total as int
                    <= 500_000_000_000_000_000 * (k as int),
            decreases n - k,
        {
            let shock: i64 = shocks[k];
            let adjusted: i64 = coupon_rate + shock;
            let trial = self.pricer.price(face_value, adjusted, maturity, payments_per_year);
            let v: i64 = match trial {
                Ok(v) => v,
                Err(e) => {
                    return Err(e);
                },
            };
            total = total + (v as i128);
            k = k + 1;
        }
        proof {
            lemma_div_trunc_bounded(total as int, n as int, PRICE_BOUND as int);
        }
        let mean: i128 = div_trunc_i128(total, n as i128);
        Ok(mean as i64)
    }

    /// The Monte Carlo estimate: `num_simulations` independent trials, each
    /// drawing its own zero-mean shock, re-pricing, and averaging.  The
    /// result is the mean of the trial prices for some shock sequence
    /// within `[-SHOCK_MAX, SHOCK_MAX]` — which sequence depends on the
    /// random source alone.
    ///
    /// Fails with [`PricingError::InvalidParameter`] exactly when the trial
    /// count or `payments_per_year` is zero.
    pub fn simulate_price(
        &self,
        face_value: i64,
        coupon_rate: i64,
        maturity: i64,
        payments_per_year: u32,
    ) -> (r: Result<i64, PricingError>)
        requires
            self.curve().wf(),
            price_args_ok(
                self.curve(),
                face_value as int,
                maturity as int,
                payments_per_year as int,
            ),
            -RATE_LIMIT + SHOCK_MAX <= coupon_rate <= RATE_LIMIT - SHOCK_MAX,
        ensures
            (self.sims() == 0 || payments_per_year == 0) <==> r is Err,
            r matches Err(e) ==> e == PricingError::InvalidParameter,
            r matches Ok(p) ==> -PRICE_BOUND <= p <= PRICE_BOUND && exists|sh: Seq<int>|
                {
                    &&& sh.len() == self.sims()
                    &&& (forall|k: int|
                        0 <= k < sh.len() ==> -(SHOCK_MAX as int) <= #[trigger] sh[k] <= (
                        SHOCK_MAX as int))
                    &&& p as int == mc_mean(
                        self.curve().spec_maturities(),
                        self.curve().spec_rates(),
                        face_value as int,
                        coupon_rate as int,
                        maturity as int,
                        payments_per_year as int,
                        sh,
                    )
                },
    {
        if self.num_simulations == 0 || payments_per_year == 0 {
            return Err(PricingError::InvalidParameter);
        }
        let n: u32 = self.num_simulations;
        let mut shocks: Vec<i64> = Vec::new();
        let mut k: u32 = 0;
        while k < n
            invariant
                k <= n,
                shocks@.len() == k as int,
                forall|j: int|
                    0 <= j < shocks@.len() ==> -SHOCK_MAX <= #[trigger] shocks@[j] <= SHOCK_MAX,
            decreases n - k,
        {
            let s: i64 = draw_shock();
            shocks.push(s);
            k = k + 1;
        }
        let res = self.simulate_price_with_shocks(
            &shocks,
            face_value,
            coupon_rate,
            maturity,
            payments_per_year,
        );
        proof {
            if res is Ok {
                let sh = seq_int(shocks@);
                assert(sh.len() == self.sims());
                assert forall|j: int| 0 <= j < sh.len() implies -(SHOCK_MAX as int)
                    <= #[trigger] sh[j] <= (SHOCK_MAX as int) by {
                    assert(-SHOCK_MAX <= shocks@[j] <= SHOCK_MAX);
                }
            }
        }
        res
    }
}

/// The reduction step of a fan-out of trials: the mean of already computed
/// trial prices, truncated toward zero as every mean in this crate is.
///
/// Fails with [`PricingError::InvalidParameter`] exactly when the list is
/// empty.
pub fn mean_price(values: &Vec<i64>) -> (r: Result<i64, PricingError>)
    requires
        forall|k: int|
            0 <= k < values@.len() ==> -PRICE_BOUND <= #[trigger] values@[k] <= PRICE_BOUND,
    ensures
        values@.len() == 0 <==> r is Err,
        r matches Err(e) ==> e == PricingError::InvalidParameter,
        r matches Ok(v) ==> v as int == div_trunc(
            sum_prefix(seq_int(values@), values@.len() as int),
            values@.len() as int,
        ) && -PRICE_BOUND <= v <= PRICE_BOUND,
{
    if values.len() == 0 {
        return Err(PricingError::InvalidParameter);
    }
    let n: usize = values.len();
    let ghost vs = seq_int(values@);
    let mut total: i128 = 0;
    let mut k: usize = 0;
    while k < n
        invariant
            n == values@.len(),
            vs == seq_int(values@),
            forall|j: int|
                0 <= j < values@.len() ==> -PRICE_BOUND <= #[trigger] values@[j] <= PRICE_BOUND,
            k <= n,
            total as int == sum_prefix(vs, k as int),
            -(500_000_000_000_000_000 * (k as int)) <= total as int <= 500_000_000_000_000_000
                * (k as int),
        decreases n - k,
    {
        let v: i64 = values[k];
        total = total + (v as i128);
        k = k + 1;
    }
    proof {
        lemma_div_trunc_bounded(total as int, n as int, PRICE_BOUND as int);
    }
    let mean: i128 = div_trunc_i128(total, n as i128);
    Ok(mean as i64)
}

/// The sum of the first `k` entries of `s`.
pub open spec fn sum_prefix(s: Seq<int>, k: int) -> int
    decreases k,
{
    if k <= 0 {
        0
    } else {
        sum_prefix(s, k - 1) + s[k - 1]
    }
}

} // verus!
