use bond_pricing_simulation::PricingError;
use bond_pricing_simulation::YieldCurve;

fn to_f64(x: i64) -> f64 {
    x as f64 / 1e9
}

fn sample_curve() -> YieldCurve {
    let maturities: Vec<i64> = vec![
        1_000_000_000,
        2_000_000_000,
        3_000_000_000,
        5_000_000_000,
        10_000_000_000,
    ];
    let rates: Vec<i64> = vec![10_000_000, 20_000_000, 25_000_000, 30_000_000, 35_000_000];
    YieldCurve::new(maturities, rates).unwrap()
}

#[test]
fn test_yield_curve() {
    let curve = sample_curve();

    assert!((to_f64(curve.get_rate(1_000_000_000)) - 0.01).abs() < 1e-10);
    assert!((to_f64(curve.get_rate(2_000_000_000)) - 0.02).abs() < 1e-10);
    assert!((to_f64(curve.get_rate(1_500_000_000)) - 0.015).abs() < 1e-10);
    assert!((to_f64(curve.get_rate(4_000_000_000)) - 0.0275).abs() < 1e-10);
    assert!((to_f64(curve.get_rate(500_000_000)) - 0.01).abs() < 1e-10);
    assert!((to_f64(curve.get_rate(15_000_000_000)) - 0.035).abs() < 1e-10);
}

#[test]
#[should_panic]
fn test_yield_curve_mismatched_lengths() {
    let maturities: Vec<i64> = vec![1_000_000_000, 2_000_000_000, 3_000_000_000];
    let rates: Vec<i64> = vec![10_000_000, 20_000_000];
    YieldCurve::new(maturities, rates).unwrap();
}

#[test]
fn exact_knot_recovery() {
    let curve = sample_curve();
    let maturities: Vec<i64> = vec![
        1_000_000_000,
        2_000_000_000,
        3_000_000_000,
        5_000_000_000,
        10_000_000_000,
    ];
    let rates: Vec<i64> = vec![10_000_000, 20_000_000, 25_000_000, 30_000_000, 35_000_000];
    for k in 0..maturities.len() {
        assert_eq!(curve.get_rate(maturities[k]), rates[k]);
    }
}

#[test]
fn flat_extrapolation_both_sides() {
    let curve = sample_curve();
    assert_eq!(curve.get_rate(0), 10_000_000);
    assert_eq!(curve.get_rate(999_999_999), 10_000_000);
    assert_eq!(curve.get_rate(10_000_000_001), 35_000_000);
    assert_eq!(curve.get_rate(50_000_000_000), 35_000_000);
}

#[test]
fn interpolation_midpoint() {
    let maturities: Vec<i64> = vec![1_000_000_000, 2_000_000_000];
    let rates: Vec<i64> = vec![10_000_000, 20_000_000];
    let curve = YieldCurve::new(maturities, rates).unwrap();
    assert_eq!(curve.get_rate(1_500_000_000), 15_000_000);
    assert!((to_f64(curve.get_rate(1_500_000_000)) - 0.015).abs() < 1e-10);
}

#[test]
fn monotonic_bracket_example() {
    let curve = sample_curve();
    assert_eq!(curve.get_rate(4_000_000_000), 27_500_000);
    assert!((to_f64(curve.get_rate(4_000_000_000)) - 0.0275).abs() < 1e-10);
}

#[test]
fn construction_validation() {
    let e1 = YieldCurve::new(
        vec![1_000_000_000, 2_000_000_000, 3_000_000_000],
        vec![10_000_000, 20_000_000],
    );
    assert_eq!(e1.err(), Some(PricingError::InvalidCurve));

    let e2 = YieldCurve::new(vec![1_000_000_000], vec![10_000_000, 20_000_000]);
    assert_eq!(e2.err(), Some(PricingError::InvalidCurve));

    let e3 = YieldCurve::new(Vec::new(), Vec::new());
    assert_eq!(e3.err(), Some(PricingError::InvalidCurve));
}

#[test]
fn construction_rejects_unsorted_and_unrepresentable() {
    let unsorted = YieldCurve::new(
        vec![2_000_000_000, 1_000_000_000],
        vec![10_000_000, 20_000_000],
    );
    assert_eq!(unsorted.err(), Some(PricingError::InvalidCurve));

    let duplicate = YieldCurve::new(
        vec![1_000_000_000, 1_000_000_000],
        vec![10_000_000, 20_000_000],
    );
    assert_eq!(duplicate.err(), Some(PricingError::InvalidCurve));

    let negative_maturity = YieldCurve::new(vec![-1_000_000_000], vec![10_000_000]);
    assert_eq!(negative_maturity.err(), Some(PricingError::InvalidCurve));

    let oversized_rate = YieldCurve::new(vec![1_000_000_000], vec![2_000_000_000]);
    assert_eq!(oversized_rate.err(), Some(PricingError::InvalidCurve));
}

#[test]
fn rate_range_reports_extremes() {
    let curve = sample_curve();
    let (mn, mx) = curve.rate_range();
    assert_eq!(mn, 10_000_000);
    assert_eq!(mx, 35_000_000);
}
