use bond_pricing_simulation::mean_price;
use bond_pricing_simulation::BondPricer;
use bond_pricing_simulation::MonteCarlo;
use bond_pricing_simulation::PricingError;
use bond_pricing_simulation::YieldCurve;

fn to_f64(x: i64) -> f64 {
    x as f64 / 1e9
}

fn sample_curve() -> YieldCurve {
    let maturities: Vec<i64> = vec![
        1_000_000_000,
        2_000_000_000,
        3_000_000_000,
        5_000_000_000,
        10_000_000_000,
    ];
    let rates: Vec<i64> = vec![10_000_000, 20_000_000, 25_000_000, 30_000_000, 35_000_000];
    YieldCurve::new(maturities, rates).unwrap()
}

#[test]
fn test_monte_carlo() {
    let curve = sample_curve();
    let pricer = BondPricer::new(&curve);
    let mc = MonteCarlo::new(&pricer, 10000);

    let theoretical_price = pricer.price(100_000_000_000, 50_000_000, 5_000_000_000, 2).unwrap();
    let simulated_price = mc.simulate_price(100_000_000_000, 50_000_000, 5_000_000_000, 2).unwrap();

    assert!((to_f64(simulated_price) - to_f64(theoretical_price)).abs() < 0.5);
}

#[test]
fn monte_carlo_convergence() {
    let curve = sample_curve();
    let pricer = BondPricer::new(&curve);
    let mc = MonteCarlo::new(&pricer, 10000);
    let theoretical = pricer.price(100_000_000_000, 50_000_000, 5_000_000_000, 2).unwrap();
    let estimated = mc.simulate_price(100_000_000_000, 50_000_000, 5_000_000_000, 2).unwrap();
    assert!((to_f64(estimated) - to_f64(theoretical)).abs() < 0.5);
}

#[test]
fn zero_trials_are_rejected() {
    let curve = sample_curve();
    let pricer = BondPricer::new(&curve);
    let mc = MonteCarlo::new(&pricer, 0);
    let e = mc.simulate_price(100_000_000_000, 50_000_000, 5_000_000_000, 2);
    assert_eq!(e.err(), Some(PricingError::InvalidParameter));
}

#[test]
fn zero_payment_frequency_rejected_in_simulation() {
    let curve = sample_curve();
    let pricer = BondPricer::new(&curve);
    let mc = MonteCarlo::new(&pricer, 100);
    let e = mc.simulate_price(100_000_000_000, 50_000_000, 5_000_000_000, 0);
    assert_eq!(e.err(), Some(PricingError::InvalidParameter));
}

#[test]
fn zero_shocks_reproduce_deterministic_price() {
    let curve = sample_curve();
    let pricer = BondPricer::new(&curve);
    let mc = MonteCarlo::new(&pricer, 7);
    let shocks: Vec<i64> = vec![0; 7];
    let theoretical = pricer.price(100_000_000_000, 50_000_000, 5_000_000_000, 2).unwrap();
    let estimated = mc
        .simulate_price_with_shocks(&shocks, 100_000_000_000, 50_000_000, 5_000_000_000, 2)
        .unwrap();
    assert_eq!(estimated, theoretical);
}

#[test]
fn supplied_shocks_are_reproducible() {
    let curve = sample_curve();
    let pricer = BondPricer::new(&curve);
    let mc = MonteCarlo::new(&pricer, 3);
    let shocks: Vec<i64> = vec![10_000_000, -5_000_000, 2_500_000];
    let p1 = mc
        .simulate_price_with_shocks(&shocks, 100_000_000_000, 50_000_000, 5_000_000_000, 2)
        .unwrap();
    let p2 = mc
        .simulate_price_with_shocks(&shocks, 100_000_000_000, 50_000_000, 5_000_000_000, 2)
        .unwrap();
    assert_eq!(p1, p2);
    // An upward shock of every trial must raise the estimate.
    let zero_shocks: Vec<i64> = vec![0; 3];
    let base = mc
        .simulate_price_with_shocks(&zero_shocks, 100_000_000_000, 50_000_000, 5_000_000_000, 2)
        .unwrap();
    let up_shocks: Vec<i64> = vec![10_000_000; 3];
    let up = mc
        .simulate_price_with_shocks(&up_shocks, 100_000_000_000, 50_000_000, 5_000_000_000, 2)
        .unwrap();
    assert!(up > base);
}

#[test]
fn empty_shock_sequence_is_rejected() {
    let curve = sample_curve();
    let pricer = BondPricer::new(&curve);
    let mc = MonteCarlo::new(&pricer, 5);
    let shocks: Vec<i64> = Vec::new();
    let e = mc.simulate_price_with_shocks(&shocks, 100_000_000_000, 50_000_000, 5_000_000_000, 2);
    assert_eq!(e.err(), Some(PricingError::InvalidParameter));
}

#[test]
fn mean_price_truncates_toward_zero() {
    assert_eq!(mean_price(&vec![1, 2, 4]).unwrap(), 2);
    assert_eq!(mean_price(&vec![-1, -2, -4]).unwrap(), -2);
    assert_eq!(mean_price(&vec![7_000_000_000]).unwrap(), 7_000_000_000);
    let empty: Vec<i64> = Vec::new();
    assert_eq!(mean_price(&empty).err(), Some(PricingError::InvalidParameter));
}
