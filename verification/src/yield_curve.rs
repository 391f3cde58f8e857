//! The yield curve: a sorted table of (maturity, rate) knot points, with
//! rate lookup by piecewise-linear interpolation and flat extrapolation.
use vstd::prelude::*;

use crate::fixed::div_trunc;
use crate::PricingError;

verus! {

/// Largest representable knot maturity: 50 years at scale [`crate::SCALE`].
/// A machine limit of the fixed-point representation, not a market rule.
pub const MAT_LIMIT: i64 = 50_000_000_000;

/// Largest representable knot rate magnitude: 100% at scale
/// [`crate::SCALE`].  A machine limit of the fixed-point representation.
pub const RATE_LIMIT: i64 = 1_000_000_000;

/// `s` grows strictly from left to right.
pub open spec fn strictly_increasing(s: Seq<int>) -> bool {
    forall|i: int, j: int| 0 <= i < j < s.len() ==> s[i] < s[j]
}

/// A sequence of machine integers as a sequence of mathematical integers.
pub open spec fn seq_int(s: Seq<i64>) -> Seq<int> {
    s.map(|_k: int, v: i64| v as int)
}

/// Index of the first entry of `s` at or above `m`, scanning from `i`;
/// `s.len()` when every entry from `i` on lies below `m`.
pub open spec fn lower_bound_from(s: Seq<int>, m: int, i: int) -> int
    decreases s.len() - i,
{
    if i < 0 || i >= s.len() {
        s.len() as int
    } else if s[i] >= m {
        i
    } else {
        lower_bound_from(s, m, i + 1)
    }
}

/// Index of the first entry of `s` at or above `m`; `s.len()` when all of
/// `s` lies below `m`.
pub open spec fn lower_bound(s: Seq<int>, m: int) -> int {
    lower_bound_from(s, m, 0)
}

/// The rate the curve with knots `(mats[i], rates[i])` answers for maturity
/// `m`: the knot's own rate at a knot, the boundary rate outside the knot
/// range, and linear interpolation between the two bracketing knots inside.
pub open spec fn rate_at(mats: Seq<int>, rates: Seq<int>, m: int) -> int {
    let n = mats.len() as int;
    let lb = lower_bound(mats, m);
    if lb < n && mats[lb] == m {
        rates[lb]
    } else if lb == 0 {
        rates[0]
    } else if lb == n {
        rates[n - 1]
    } else {
        rates[lb - 1] + div_trunc(
            (rates[lb] - rates[lb - 1]) * (m - mats[lb - 1]),
            mats[lb] - mats[lb - 1],
        )
    }
}

/// What any index computed by the binary search satisfies; it pins the
/// index down to [`lower_bound`].
proof fn lemma_lower_bound_unique(s: Seq<int>, m: int, idx: int, i: int)
    requires
        0 <= i <= idx <= s.len(),
        forall|j: int| i <= j < idx ==> s[j] < m,
        idx < s.len() ==> s[idx] >= m,
    ensures
        lower_bound_from(s, m, i) == idx,
    decreases s.len() - i,
{
    if i < s.len() && i < idx {
        assert(s[i] < m);
        lemma_lower_bound_unique(s, m, idx, i + 1);
    }
}

/// Facts every use of [`lower_bound`] needs: entries left of it lie below
/// `m`, the entry at it (if any) lies at or above `m`.
pub proof fn lemma_lower_bound_props(s: Seq<int>, m: int, i: int)
    requires
        0 <= i <= s.len(),
    ensures
        i <= lower_bound_from(s, m, i) <= s.len(),
        forall|j: int| i <= j < lower_bound_from(s, m, i) ==> s[j] < m,
        lower_bound_from(s, m, i) < s.len() ==> s[lower_bound_from(s, m, i)] >= m,
    decreases s.len() - i,
{
    if i < s.len() && s[i] < m {
        lemma_lower_bound_props(s, m, i + 1);
    }
}

/// A yield curve: maturities strictly increasing and non-negative, one rate
/// per maturity, both fixed-point at scale [`crate::SCALE`].
pub struct YieldCurve {
    maturities: Vec<i64>,
    rates: Vec<i64>,
}

impl YieldCurve {
    /// The maturity knots as mathematical integers.
    pub closed spec fn spec_maturities(&self) -> Seq<int> {
        seq_int(self.maturities@)
    }

    /// The rate knots as mathematical integers.
    pub closed spec fn spec_rates(&self) -> Seq<int> {
        seq_int(self.rates@)
    }

    /// The curve's invariant, established by construction: equally long,
    /// non-empty tables; strictly increasing maturities within
    /// `[0, MAT_LIMIT]`; rates within `[-RATE_LIMIT, RATE_LIMIT]`.
    pub open spec fn wf(&self) -> bool {
        &&& self.spec_maturities().len() == self.spec_rates().len()
        &&& self.spec_maturities().len() >= 1
        &&& strictly_increasing(self.spec_maturities())
        &&& forall|k: int|
            0 <= k < self.spec_maturities().len() ==> 0 <= #[trigger] self.spec_maturities()[k]
                <= MAT_LIMIT as int
        &&& forall|k: int|
            0 <= k < self.spec_rates().len() ==> -(RATE_LIMIT as int)
                <= #[trigger] self.spec_rates()[k] <= RATE_LIMIT as int
    }

    /// What [`Self::new`] accepts: the conditions of [`Self::wf`], on the
    /// raw input tables.
    pub open spec fn valid_knots(mats: Seq<i64>, rates: Seq<i64>) -> bool {
        &&& mats.len() == rates.len()
        &&& mats.len() >= 1
        &&& strictly_increasing(seq_int(mats))
        &&& forall|k: int| 0 <= k < mats.len() ==> 0 <= #[trigger] mats[k] <= MAT_LIMIT
        &&& forall|k: int| 0 <= k < rates.len() ==> -RATE_LIMIT <= #[trigger] rates[k] <= RATE_LIMIT
    }

    /// Builds a curve from parallel maturity and rate tables.
    ///
    /// Fails with [`PricingError::InvalidCurve`] exactly when the tables
    /// differ in length or are empty, when the maturities are not strictly
    /// increasing, or when a knot lies outside the representable range.
    pub fn new(maturities: Vec<i64>, rates: Vec<i64>) -> (r: Result<YieldCurve, PricingError>)
        ensures
            Self::valid_knots(maturities@, rates@) <==> r is Ok,
            r matches Ok(c) ==> {
                &&& c.wf()
                &&& c.spec_maturities() == seq_int(maturities@)
                &&& c.spec_rates() == seq_int(rates@)
            },
            r matches Err(e) ==> e == PricingError::InvalidCurve,
    {
        if maturities.len() != rates.len() {
            return Err(PricingError::InvalidCurve);
        }
        if maturities.len() == 0 {
            return Err(PricingError::InvalidCurve);
        }
        let n: usize = maturities.len();
        let mut i: usize = 0;
        while i < n
            invariant
                i <= n,
                n == maturities@.len(),
                n == rates@.len(),
                forall|j: int| 0 <= j < i ==> 0 <= #[trigger] maturities@[j] <= MAT_LIMIT,
                forall|j: int| 0 <= j < i ==> -RATE_LIMIT <= #[trigger] rates@[j] <= RATE_LIMIT,
                forall|j: int| 1 <= j < i ==> #[trigger] maturities@[j - 1] < maturities@[j],
            decreases n - i,
        {
            let mv: i64 = maturities[i];
            let rv: i64 = rates[i];
            if mv < 0 || mv > MAT_LIMIT {
                return Err(PricingError::InvalidCurve);
            }
            if rv < -RATE_LIMIT || rv > RATE_LIMIT {
                return Err(PricingError::InvalidCurve);
            }
            if i >= 1 && maturities[i - 1] >= mv {
                proof {
                    let s = seq_int(maturities@);
                    assert(s[i - 1] >= s[i as int]);
                }
                return Err(PricingError::InvalidCurve);
            }
            i = i + 1;
        }
        proof {
            let s = seq_int(maturities@);
            assert forall|p: int, q: int| 0 <= p < q < s.len() implies s[p] < s[q] by {
                lemma_adjacent_sorted(maturities@, p, q);
            }
        }
        Ok(YieldCurve { maturities, rates })
    }

    /// The rate for `maturity`, by the contract of [`rate_at`]: the knot's
    /// rate at a knot, flat extrapolation outside the knot range, linear
    /// interpolation between the bracketing knots inside.  The bracketing
    /// knots are located by binary search, logarithmic in the table size.
    pub fn get_rate(&self, maturity: i64) -> (r: i64)
        requires
            self.wf(),
        ensures
            r as int == rate_at(self.spec_maturities(), self.spec_rates(), maturity as int),
            -RATE_LIMIT <= r <= RATE_LIMIT,
    {
        let n: usize = self.maturities.len();
        let ghost s = self.spec_maturities();
        proof {
            lemma_rate_at_in_range(
                s,
                self.spec_rates(),
                maturity as int,
                -(RATE_LIMIT as int),
                RATE_LIMIT as int,
            );
        }
        let mut lo: usize = 0;
        let mut hi: usize = n;
        while lo < hi
            invariant
                self.wf(),
                s == self.spec_maturities(),
                n == s.len(),
                lo <= hi <= n,
                forall|j: int| 0 <= j < lo ==> s[j] < maturity as int,
                forall|j: int| hi <= j < n ==> s[j] >= maturity as int,
            decreases hi - lo,
        {
            let mid: usize = lo + (hi - lo) / 2;
            if self.maturities[mid] < maturity {
                proof {
                    assert forall|j: int| 0 <= j < mid + 1 implies s[j] < maturity as int by {
                        if j < mid {
                            assert(s[j] < s[mid as int]);
                        }
                    }
                }
                lo = mid + 1;
            } else {
                proof {
                    assert forall|j: int| mid <= j < n implies s[j] >= maturity as int by {
                        if j > mid {
                            assert(s[mid as int] < s[j]);
                        }
                    }
                }
                hi = mid;
            }
        }
        proof {
            lemma_lower_bound_unique(s, maturity as int, lo as int, 0);
        }
        if lo < n && self.maturities[lo] == maturity {
            self.rates[lo]
        } else if lo == 0 {
            self.rates[0]
        } else if lo == n {
            self.rates[n - 1]
        } else {
            let y1: i64 = self.rates[lo - 1];
            let y2: i64 = self.rates[lo];
            let x1: i64 = self.maturities[lo - 1];
            let x2: i64 = self.maturities[lo];
            proof {
                assert(s[lo - 1] < s[lo as int]);
                assert((y2 as int - y1 as int) * (maturity as int - x1 as int)
                    <= 200_000_000_000_000_000_000 && (y2 as int - y1 as int) * (maturity as int
                    - x1 as int) >= -200_000_000_000_000_000_000) by (nonlinear_arith)
                    requires
                        -2_000_000_000 <= y2 as int - y1 as int <= 2_000_000_000,
                        0 <= maturity as int - x1 as int <= 100_000_000_000,
                ;
                lemma_interp_within(y1 as int, y2 as int, x1 as int, x2 as int, maturity as int);
            }
            let num: i128 = (y2 as i128 - y1 as i128) * (maturity as i128 - x1 as i128);
            let den: i128 = x2 as i128 - x1 as i128;
            let q: i128 = crate::fixed::div_trunc_i128(num, den);
            y1 + (q as i64)
        }
    }

    /// The smallest and largest rate in the table, for callers that must
    /// bound the exponents the pricer will form.
    pub fn rate_range(&self) -> (r: (i64, i64))
        requires
            self.wf(),
        ensures
            r.0 as int == seq_min(self.spec_rates()),
            r.1 as int == seq_max(self.spec_rates()),
    {
        let n: usize = self.rates.len();
        let mut mn: i64 = self.rates[0];
        let mut mx: i64 = self.rates[0];
        let mut i: usize = 1;
        while i < n
            invariant
                self.wf(),
                1 <= i <= n,
                n == self.spec_rates().len(),
                mn as int == seq_min(self.spec_rates().take(i as int)),
                mx as int == seq_max(self.spec_rates().take(i as int)),
            decreases n - i,
        {
            proof {
                assert(self.spec_rates().take(i + 1).drop_last() =~= self.spec_rates().take(
                    i as int,
                ));
            }
            let v: i64 = self.rates[i];
            if v < mn {
                mn = v;
            }
            if v > mx {
                mx = v;
            }
            i = i + 1;
        }
        proof {
            assert(self.spec_rates().take(n as int) =~= self.spec_rates());
        }
        (mn, mx)
    }
}

/// Adjacent order extends to any pair of indices.
proof fn lemma_adjacent_sorted(v: Seq<i64>, p: int, q: int)
    requires
        forall|j: int| 1 <= j < v.len() ==> #[trigger] v[j - 1] < v[j],
        0 <= p < q < v.len(),
    ensures
        seq_int(v)[p] < seq_int(v)[q],
    decreases q - p,
{
    if p + 1 == q {
        assert(v[q - 1] < v[q]);
    } else {
        lemma_adjacent_sorted(v, p, q - 1);
        assert(v[q - 1] < v[q]);
    }
}

/// The smallest entry of a non-empty sequence.
pub open spec fn seq_min(s: Seq<int>) -> int
    decreases s.len(),
{
    if s.len() <= 1 {
        s[0]
    } else {
        let rest = seq_min(s.drop_last());
        if s.last() < rest {
            s.last()
        } else {
            rest
        }
    }
}

/// The largest entry of a non-empty sequence.
pub open spec fn seq_max(s: Seq<int>) -> int
    decreases s.len(),
{
    if s.len() <= 1 {
        s[0]
    } else {
        let rest = seq_max(s.drop_last());
        if s.last() > rest {
            s.last()
        } else {
            rest
        }
    }
}

/// Every entry of a non-empty sequence lies between its minimum and its
/// maximum.
pub proof fn lemma_seq_min_max(s: Seq<int>, k: int)
    requires
        0 <= k < s.len(),
    ensures
        seq_min(s) <= s[k] <= seq_max(s),
    decreases s.len(),
{
    if s.len() > 1 {
        if k < s.len() - 1 {
            lemma_seq_min_max(s.drop_last(), k);
        }
    }
}

/// A bound on every entry of a non-empty sequence bounds its minimum and
/// its maximum.
pub proof fn lemma_min_max_within(s: Seq<int>, lo: int, hi: int)
    requires
        s.len() >= 1,
        forall|k: int| 0 <= k < s.len() ==> lo <= #[trigger] s[k] <= hi,
    ensures
        lo <= seq_min(s),
        seq_max(s) <= hi,
        seq_min(s) <= seq_max(s),
    decreases s.len(),
{
    if s.len() > 1 {
        assert forall|k: int| 0 <= k < s.drop_last().len() implies lo <= #[trigger] s.drop_last()[k]
            <= hi by {
            assert(s.drop_last()[k] == s[k]);
        }
        lemma_min_max_within(s.drop_last(), lo, hi);
    }
    lemma_seq_min_max(s, 0);
}

/// An interpolated increment between two knots never leaves the segment:
/// the quotient stays between 0 and `y2 - y1`.
proof fn lemma_interp_within(y1: int, y2: int, x1: int, x2: int, m: int)
    requires
        x1 < m < x2,
    ensures
        y2 >= y1 ==> 0 <= div_trunc((y2 - y1) * (m - x1), x2 - x1) <= y2 - y1,
        y2 < y1 ==> y2 - y1 <= div_trunc((y2 - y1) * (m - x1), x2 - x1) <= 0,
{
    let dm = m - x1;
    let d = x2 - x1;
    if y2 >= y1 {
        let dy = y2 - y1;
        assert(0 <= dy * dm <= dy * d) by (nonlinear_arith)
            requires
                0 <= dy,
                0 <= dm <= d,
        ;
        crate::fixed::lemma_div_trunc_bounded(dy * dm, d, dy);
    } else {
        let dy = y1 - y2;
        assert((y2 - y1) * dm == -(dy * dm)) by (nonlinear_arith)
            requires
                dy == y1 - y2,
        ;
        assert(0 <= dy * dm <= dy * d) by (nonlinear_arith)
            requires
                0 <= dy,
                0 <= dm <= d,
        ;
        crate::fixed::lemma_div_trunc_bounded(-(dy * dm), d, dy);
    }
}

/// Exact knot recovery: querying the curve at a knot's maturity returns
/// that knot's rate.
pub proof fn lemma_knot_recovery(mats: Seq<int>, rates: Seq<int>, k: int)
    requires
        mats.len() == rates.len(),
        strictly_increasing(mats),
        0 <= k < mats.len(),
    ensures
        rate_at(mats, rates, mats[k]) == rates[k],
{
    lemma_lower_bound_unique(mats, mats[k], k, 0);
}

/// Flat extrapolation on the left: below the smallest knot the curve
/// answers the smallest knot's rate.
pub proof fn lemma_flat_left(mats: Seq<int>, rates: Seq<int>, m: int)
    requires
        mats.len() == rates.len(),
        mats.len() >= 1,
        strictly_increasing(mats),
        m <= mats[0],
    ensures
        rate_at(mats, rates, m) == rates[0],
{
    lemma_lower_bound_unique(mats, m, 0, 0);
}

/// Flat extrapolation on the right: above the largest knot the curve
/// answers the largest knot's rate.
pub proof fn lemma_flat_right(mats: Seq<int>, rates: Seq<int>, m: int)
    requires
        mats.len() == rates.len(),
        mats.len() >= 1,
        strictly_increasing(mats),
        m >= mats[mats.len() - 1],
    ensures
        rate_at(mats, rates, m) == rates[mats.len() - 1],
{
    let n = mats.len() as int;
    if m == mats[n - 1] {
        lemma_knot_recovery(mats, rates, n - 1);
    } else {
        assert forall|j: int| 0 <= j < n implies mats[j] < m by {
            if j < n - 1 {
                assert(mats[j] < mats[n - 1]);
            }
        }
        lemma_lower_bound_unique(mats, m, n, 0);
    }
}

/// The answered rate never leaves the range the knot rates span.
pub proof fn lemma_rate_at_in_range(mats: Seq<int>, rates: Seq<int>, m: int, lo: int, hi: int)
    requires
        mats.len() == rates.len(),
        mats.len() >= 1,
        strictly_increasing(mats),
        forall|k: int| 0 <= k < rates.len() ==> lo <= #[trigger] rates[k] <= hi,
    ensures
        lo <= rate_at(mats, rates, m) <= hi,
{
    let n = mats.len() as int;
    let lb = lower_bound(mats, m);
    lemma_lower_bound_props(mats, m, 0);
    if lb < n && mats[lb] == m {
        assert(lo <= rates[lb] <= hi);
    } else if lb == 0 {
        assert(lo <= rates[0] <= hi);
    } else if lb == n {
        assert(lo <= rates[n - 1] <= hi);
    } else {
        assert(mats[lb - 1] < m);
        assert(mats[lb] > m);
        lemma_interp_within(rates[lb - 1], rates[lb], mats[lb - 1], mats[lb], m);
        assert(lo <= rates[lb - 1] <= hi);
        assert(lo <= rates[lb] <= hi);
    }
}

} // verus!
