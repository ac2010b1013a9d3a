use numerical::fx::Fx;
use numerical::double::DIntegral;

const SC: f64 = 1099511627776.0;

fn fx(v: f64) -> Fx {
    Fx::from_raw((v * SC).round() as i64)
}

fn fl(x: Fx) -> f64 {
    x.raw_units() as f64 / SC
}

fn f_region(x: Fx, y: Fx) -> Fx {
    fx(fl(x) + fl(y) * fl(y))
}

fn lo_bound(_x: Fx) -> Fx {
    fx(1.0)
}

fn hi_bound(x: Fx) -> Fx {
    fx(1.0 + 0.5 * fl(x))
}

// The exact integral of x + y^2 over 0 <= x <= 2, 1 <= y <= 1 + x / 2
// is 19/6.
const EXACT: f64 = 19.0 / 6.0;

#[test]
fn trapezoid_and_gauss_agree_over_the_trapezoidal_region() {
    let d = DIntegral::new(f_region);
    let t = fl(d.trapezoid((fx(0.0), fx(2.0)), (lo_bound, hi_bound), 20));
    let g = fl(d.gauss_legendre((fx(0.0), fx(2.0)), (lo_bound, hi_bound), 10));
    assert!((t - g).abs() < 5e-3, "t {} g {}", t, g);
    assert!((g - EXACT).abs() < 1e-6, "g {}", g);
    assert!((t - EXACT).abs() < 5e-3, "t {}", t);
}

#[test]
fn simpson_is_sharp_over_the_trapezoidal_region() {
    let d = DIntegral::new(f_region);
    let s = fl(d.simpson((fx(0.0), fx(2.0)), (lo_bound, hi_bound), 20));
    assert!((s - EXACT).abs() < 1e-6, "s {}", s);
}

#[test]
fn chebyshev_is_sharp_over_the_trapezoidal_region() {
    let d = DIntegral::new(f_region);
    let c = fl(d.chebyshev((fx(0.0), fx(2.0)), (lo_bound, hi_bound), 10));
    assert!((c - EXACT).abs() < 1e-5, "c {}", c);
}

#[test]
fn double_exponential_is_sharp_over_the_trapezoidal_region() {
    let d = DIntegral::new(f_region);
    let e = fl(d.def((fx(0.0), fx(2.0)), (lo_bound, hi_bound), 30, fx(0.1)));
    assert!((e - EXACT).abs() < 1e-5, "e {}", e);
}

#[test]
fn two_dimensional_rules_are_zero_on_a_degenerate_outer_interval() {
    let d = DIntegral::new(f_region);
    let a = fx(0.7);
    assert_eq!(d.trapezoid((a, a), (lo_bound, hi_bound), 8).raw_units(), 0);
    assert_eq!(d.simpson((a, a), (lo_bound, hi_bound), 8).raw_units(), 0);
    assert_eq!(d.gauss_legendre((a, a), (lo_bound, hi_bound), 8).raw_units(), 0);
    assert_eq!(d.chebyshev((a, a), (lo_bound, hi_bound), 8).raw_units(), 0);
    assert_eq!(d.def((a, a), (lo_bound, hi_bound), 8, fx(0.1)).raw_units(), 0);
}

#[test]
fn two_dimensional_rules_negate_exactly_when_outer_bounds_swap() {
    let d = DIntegral::new(f_region);
    let a = fx(0.0);
    let b = fx(2.0);
    assert_eq!(
        d.trapezoid((a, b), (lo_bound, hi_bound), 8).raw_units(),
        -d.trapezoid((b, a), (lo_bound, hi_bound), 8).raw_units()
    );
    assert_eq!(
        d.simpson((a, b), (lo_bound, hi_bound), 8).raw_units(),
        -d.simpson((b, a), (lo_bound, hi_bound), 8).raw_units()
    );
    assert_eq!(
        d.gauss_legendre((a, b), (lo_bound, hi_bound), 6).raw_units(),
        -d.gauss_legendre((b, a), (lo_bound, hi_bound), 6).raw_units()
    );
    assert_eq!(
        d.chebyshev((a, b), (lo_bound, hi_bound), 6).raw_units(),
        -d.chebyshev((b, a), (lo_bound, hi_bound), 6).raw_units()
    );
    assert_eq!(
        d.def((a, b), (lo_bound, hi_bound), 8, fx(0.1)).raw_units(),
        -d.def((b, a), (lo_bound, hi_bound), 8, fx(0.1)).raw_units()
    );
}

#[test]
fn degenerate_inner_intervals_contribute_nothing() {
    // Equal inner bounds give a region of measure zero.
    let d = DIntegral::new(f_region);
    let same = |_x: Fx| fx(1.0);
    let t = fl(d.trapezoid((fx(0.0), fx(2.0)), (same, same), 8));
    assert!(t.abs() < 1e-12, "t {}", t);
}
