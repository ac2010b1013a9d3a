use numerical::fx::Fx;
use numerical::polynomial::{tnx_vec, CalcError, Chebyshev};

const SC: f64 = 1099511627776.0;

fn fx(v: f64) -> Fx {
    Fx::from_raw((v * SC).round() as i64)
}

fn fl(x: Fx) -> f64 {
    x.raw_units() as f64 / SC
}

#[test]
fn chebyshev_table_follows_the_recurrence() {
    // T0 = 1, T1 = x, T2 = 2 x^2 - 1, T3 = 4 x^3 - 3 x at x = 0.4.
    let t = tnx_vec(3, fx(0.4));
    assert_eq!(t.len(), 5);
    assert!((fl(t[0]) - 1.0).abs() < 1e-12);
    assert!((fl(t[1]) - 0.4).abs() < 1e-12);
    assert!((fl(t[2]) - (2.0 * 0.16 - 1.0)).abs() < 1e-10);
    assert!((fl(t[3]) - (4.0 * 0.064 - 3.0 * 0.4)).abs() < 1e-10);
}

#[test]
fn fitted_series_reproduces_a_smooth_function() {
    let che = Chebyshev::new(|x: Fx| fx(fl(x).exp()), 10);
    let pts: [f64; 5] = [-0.9, -0.3, 0.0, 0.5, 0.95];
    for &p in pts.iter() {
        let got = fl(che.calc(fx(p)).unwrap());
        assert!((got - p.exp()).abs() < 1e-9, "at {}: got {}", p, got);
    }
}

#[test]
fn fitted_series_is_exact_for_a_constant() {
    let che = Chebyshev::new(|_x: Fx| fx(2.5), 4);
    let got = fl(che.calc(fx(0.3)).unwrap());
    assert!((got - 2.5).abs() < 1e-10, "got {}", got);
}

#[test]
fn evaluation_outside_the_domain_is_refused() {
    let che = Chebyshev::new(|x: Fx| x, 3);
    assert_eq!(che.calc(fx(1.5)), Err(CalcError::OutOfDomain));
    assert_eq!(che.calc(fx(-1.0001)), Err(CalcError::OutOfDomain));
    assert!(che.calc(fx(1.0)).is_ok());
    assert!(che.calc(fx(-1.0)).is_ok());
}
