//! Fixed-point bond pricing: a yield curve answering rate queries by
//! piecewise-linear interpolation with flat extrapolation, a deterministic
//! discounted-cash-flow bond pricer under continuous compounding, and a
//! Monte Carlo estimator that perturbs the coupon rate and averages the
//! re-priced trials.
//!
//! Every quantity (maturity in years, rate, face value, price) is a
//! fixed-point number: an `i64` or `i128` holding the real value scaled by
//! [`SCALE`] (10^9), so `1_500_000_000` stands for 1.5.
use vstd::prelude::*;

mod fixed;
mod discount;
mod yield_curve;
mod bond_pricer;
mod monte_carlo;

pub use fixed::SCALE;
pub use fixed::div_trunc;
pub use yield_curve::YieldCurve;
pub use yield_curve::MAT_LIMIT;
pub use yield_curve::RATE_LIMIT;
pub use bond_pricer::price_inputs_ok;
pub use bond_pricer::FACE_LIMIT;
pub use bond_pricer::PAYMENTS_LIMIT;
pub use bond_pricer::PRICE_BOUND;
pub use bond_pricer::BondPricer;
pub use monte_carlo::mean_price;
pub use monte_carlo::SHOCK_MAX;
pub use monte_carlo::MonteCarlo;

verus! {

/// Why a curve cannot be built or a computation cannot run.
#[derive(Clone, Copy, Debug, PartialEq, Eq)]
pub enum PricingError {
    /// The knot sequences handed to the curve cannot form a valid curve.
    InvalidCurve,
    /// A count the computation divides by (payments per year, trials) is zero.
    InvalidParameter,
}

} // verus!
