use bond_pricing_simulation::price_inputs_ok;
use bond_pricing_simulation::BondPricer;
use bond_pricing_simulation::PricingError;
use bond_pricing_simulation::YieldCurve;

fn to_f64(x: i64) -> f64 {
    x as f64 / 1e9
}

fn sample_curve() -> YieldCurve {
    let maturities: Vec<i64> = vec![
        1_000_000_000,
        2_000_000_000,
        3_000_000_000,
        5_000_000_000,
        10_000_000_000,
    ];
    let rates: Vec<i64> = vec![10_000_000, 20_000_000, 25_000_000, 30_000_000, 35_000_000];
    YieldCurve::new(maturities, rates).unwrap()
}

#[test]
fn test_bond_pricer() {
    let curve = sample_curve();
    let pricer = BondPricer::new(&curve);

    let price_zero_coupon = pricer.price(100_000_000_000, 0, 1_000_000_000, 1).unwrap();
    assert!((to_f64(price_zero_coupon) - 99.0049833).abs() < 1e-6);

    let price_coupon_bond = pricer.price(100_000_000_000, 50_000_000, 2_000_000_000, 2).unwrap();
    println!("Calculated price: {}", to_f64(price_coupon_bond));
    assert!((to_f64(price_coupon_bond) - 105.9249).abs() < 1e-1);
}

#[test]
fn zero_coupon_pricing() {
    let curve = sample_curve();
    let pricer = BondPricer::new(&curve);
    let p = pricer.price(100_000_000_000, 0, 1_000_000_000, 1).unwrap();
    assert!((to_f64(p) - 99.0049833).abs() < 1e-6);
}

#[test]
fn coupon_bond_pricing_magnitude() {
    let curve = sample_curve();
    let pricer = BondPricer::new(&curve);
    let p = pricer.price(100_000_000_000, 50_000_000, 2_000_000_000, 2).unwrap();
    assert!((to_f64(p) - 105.92).abs() < 0.1);
}

#[test]
fn price_is_deterministic() {
    let curve = sample_curve();
    let pricer = BondPricer::new(&curve);
    let p1 = pricer.price(100_000_000_000, 50_000_000, 5_000_000_000, 2).unwrap();
    let p2 = pricer.price(100_000_000_000, 50_000_000, 5_000_000_000, 2).unwrap();
    assert_eq!(p1, p2);
}

#[test]
fn zero_payment_frequency_is_rejected() {
    let curve = sample_curve();
    let pricer = BondPricer::new(&curve);
    let e = pricer.price(100_000_000_000, 50_000_000, 2_000_000_000, 0);
    assert_eq!(e.err(), Some(PricingError::InvalidParameter));
}

#[test]
fn negative_maturity_is_consistent() {
    // A financially meaningless input still prices by the same formula:
    // one inflated face value, 100 * e^(0.01), and no coupons.
    let curve = sample_curve();
    let pricer = BondPricer::new(&curve);
    let p = pricer.price(100_000_000_000, 50_000_000, -1_000_000_000, 2).unwrap();
    assert!((to_f64(p) - 101.00501670841679).abs() < 1e-5);
}

#[test]
fn negative_rates_are_consistent() {
    // A curve of -1% rates inflates instead of discounting.
    let curve = YieldCurve::new(
        vec![1_000_000_000, 2_000_000_000],
        vec![-10_000_000, -10_000_000],
    )
    .unwrap();
    let pricer = BondPricer::new(&curve);
    let p = pricer.price(100_000_000_000, 0, 1_000_000_000, 1).unwrap();
    assert!((to_f64(p) - 101.00501670841679).abs() < 1e-5);
}

#[test]
fn input_checker_matches_pricer_domain() {
    let curve = sample_curve();
    assert!(price_inputs_ok(&curve, 100_000_000_000, 2_000_000_000, 2));
    assert!(price_inputs_ok(&curve, 100_000_000_000, -1_000_000_000, 2));
    // Face value beyond the representable magnitude.
    assert!(!price_inputs_ok(&curve, 20_000_000_000_000, 2_000_000_000, 2));
    // A schedule of more than PAYMENTS_LIMIT cash flows.
    assert!(!price_inputs_ok(&curve, 100_000_000_000, 50_000_000_000, 4_000_000_000));
}
