use numerical::fx::Fx;
use numerical::integral::Integral;

const SC: f64 = 1099511627776.0;

fn fx(v: f64) -> Fx {
    Fx::from_raw((v * SC).round() as i64)
}

fn fl(x: Fx) -> f64 {
    x.raw_units() as f64 / SC
}

#[test]
fn every_rule_is_zero_on_a_degenerate_interval() {
    let i = Integral::new(|x: Fx| x.mul(x));
    let a = fx(1.3);
    assert_eq!(i.trapezoid(a, a, 10).raw_units(), 0);
    assert_eq!(i.simpson(a, a, 10).raw_units(), 0);
    assert_eq!(i.gauss_legendre(a, a, 10).raw_units(), 0);
    assert_eq!(i.chebyshev(a, a, 10).raw_units(), 0);
    assert_eq!(i.def(a, a, 10, fx(0.1)).raw_units(), 0);
}

#[test]
fn every_rule_negates_exactly_when_bounds_swap() {
    let i = Integral::new(|x: Fx| fx(fl(x).exp()));
    let a = fx(0.25);
    let b = fx(2.0);
    assert_eq!(
        i.trapezoid(a, b, 12).raw_units(),
        -i.trapezoid(b, a, 12).raw_units()
    );
    assert_eq!(
        i.simpson(a, b, 12).raw_units(),
        -i.simpson(b, a, 12).raw_units()
    );
    assert_eq!(
        i.gauss_legendre(a, b, 6).raw_units(),
        -i.gauss_legendre(b, a, 6).raw_units()
    );
    assert_eq!(
        i.chebyshev(a, b, 8).raw_units(),
        -i.chebyshev(b, a, 8).raw_units()
    );
    assert_eq!(
        i.def(a, b, 12, fx(0.1)).raw_units(),
        -i.def(b, a, 12, fx(0.1)).raw_units()
    );
}

#[test]
fn trapezoid_has_its_textbook_value_on_a_parabola() {
    // Two panels on x squared over [0, 1]: h (f0/2 + f1 + f2/2) = 0.375.
    let i = Integral::new(|x: Fx| x.mul(x));
    let got = fl(i.trapezoid(fx(0.0), fx(1.0), 2));
    assert!((got - 0.375).abs() < 1e-10, "got {}", got);
}

#[test]
fn simpson_is_exact_on_a_parabola() {
    let i = Integral::new(|x: Fx| x.mul(x));
    let got = fl(i.simpson(fx(0.0), fx(1.0), 2));
    assert!((got - 1.0 / 3.0).abs() < 1e-10, "got {}", got);
}

#[test]
fn gauss_legendre_two_nodes_integrates_cubics() {
    // Exactness to degree three: a two-node rule handles x cubed on any
    // interval up to the node tolerance.
    let i = Integral::new(|x: Fx| x.mul(x).mul(x));
    let cases: [(f64, f64); 3] = [(0.0, 1.0), (-1.0, 2.0), (0.5, 3.0)];
    for &(a, b) in cases.iter() {
        let got = fl(i.gauss_legendre(fx(a), fx(b), 2));
        let want = (b.powi(4) - a.powi(4)) / 4.0;
        assert!((got - want).abs() < 1e-5, "[{},{}]: got {} want {}", a, b, got, want);
    }
}

#[test]
fn chebyshev_rule_integrates_a_constant() {
    let i = Integral::new(|_x: Fx| Fx::one());
    let got = fl(i.chebyshev(fx(0.0), fx(2.0), 10));
    assert!((got - 2.0).abs() < 1e-9, "got {}", got);
}

#[test]
fn chebyshev_rule_is_sharp_on_a_smooth_integrand() {
    let i = Integral::new(|x: Fx| fx(fl(x).exp()));
    let got = fl(i.chebyshev(fx(0.0), fx(1.0), 10));
    assert!((got - (1.0f64.exp() - 1.0)).abs() < 1e-9, "got {}", got);
}

#[test]
fn double_exponential_rule_is_sharp_on_a_smooth_integrand() {
    let i = Integral::new(|x: Fx| fx(fl(x).exp()));
    let got = fl(i.def(fx(0.0), fx(1.0), 30, fx(0.1)));
    assert!((got - (1.0f64.exp() - 1.0)).abs() < 1e-8, "got {}", got);
}

#[test]
fn simpson_converges_faster_than_trapezoid() {
    // Doubling the resolution divides the trapezoid error by about four
    // and the Simpson error by about sixteen.
    let i = Integral::new(|x: Fx| fx(fl(x).exp()));
    let want = 1.0f64.exp() - 1.0;
    let t4 = (fl(i.trapezoid(fx(0.0), fx(1.0), 4)) - want).abs();
    let t8 = (fl(i.trapezoid(fx(0.0), fx(1.0), 8)) - want).abs();
    let s4 = (fl(i.simpson(fx(0.0), fx(1.0), 4)) - want).abs();
    let s8 = (fl(i.simpson(fx(0.0), fx(1.0), 8)) - want).abs();
    let trap_ratio = t4 / t8;
    let simp_ratio = s4 / s8;
    assert!(trap_ratio > 3.5 && trap_ratio < 4.5, "trap ratio {}", trap_ratio);
    assert!(simp_ratio > 10.0, "simp ratio {}", simp_ratio);
    assert!(simp_ratio > trap_ratio);
    assert!(s8 < t8);
}

#[test]
fn trapezoid_and_gauss_agree_on_a_decaying_integrand() {
    // f(x) = (1 - x) exp(-x) over [-1, 1]; the exact value is e + 1/e.
    let i = Integral::new(|x: Fx| {
        let v = fl(x);
        fx((1.0 - v) * (-v).exp())
    });
    let t30 = fl(i.trapezoid(fx(-1.0), fx(1.0), 30));
    let g10 = fl(i.gauss_legendre(fx(-1.0), fx(1.0), 10));
    let want = 1.0f64.exp() + (-1.0f64).exp();
    assert!((t30 - g10).abs() < 5e-3, "t30 {} g10 {}", t30, g10);
    assert!((g10 - want).abs() < 1e-6, "g10 {} want {}", g10, want);
}

#[test]
fn gauss_legendre_handles_the_quarter_circle() {
    // The area under sqrt(1 - x^2) over [0, 1] is pi over four; the
    // integrand's square-root endpoint slows the rule to about 1e-4.
    let i = Integral::new(|x: Fx| {
        let v = fl(x);
        let s = 1.0 - v * v;
        fx(if s > 0.0 { s.sqrt() } else { 0.0 })
    });
    let got = fl(i.gauss_legendre(fx(0.0), fx(1.0), 10));
    let want = std::f64::consts::PI / 4.0;
    assert!((got - want).abs() < 2e-4, "got {} want {}", got, want);
}
