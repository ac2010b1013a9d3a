use numerical::equation::{Equation, SolveError};
use numerical::fx::Fx;

const SC: f64 = 1099511627776.0;

fn fx(v: f64) -> Fx {
    Fx::from_raw((v * SC).round() as i64)
}

fn fl(x: Fx) -> f64 {
    x.raw_units() as f64 / SC
}

fn cubic(x: Fx) -> Fx {
    let v = fl(x);
    fx(v * v * v - 3.0 * v * v + 9.0 * v - 8.0)
}

#[test]
fn bisection_finds_the_cubic_root() {
    let eq = Equation::new(cubic, fx(1e-7));
    let root = eq.bisection(fx(1.0), fx(2.0)).unwrap();
    assert!((fl(root) - 1.1659055841222126).abs() < 1e-6, "root {}", fl(root));
}

#[test]
fn newton_finds_the_cubic_root() {
    let eq = Equation::new(cubic, fx(1e-7));
    let root = eq.newton(fx(1.0)).unwrap();
    assert!((fl(root) - 1.1659055841222126).abs() < 1e-6, "root {}", fl(root));
}

#[test]
fn bisection_rejects_an_inverted_bracket() {
    let eq = Equation::new(cubic, fx(1e-7));
    assert_eq!(eq.bisection(fx(2.0), fx(1.0)), Err(SolveError::InvalidBounds));
}

#[test]
fn bisection_reports_a_missing_sign_change() {
    let eq = Equation::new(|x: Fx| fx(fl(x) * fl(x) + 1.0), fx(1e-7));
    assert_eq!(eq.bisection(fx(-1.0), fx(1.0)), Err(SolveError::NoBracket));
}

#[test]
fn bisection_returns_an_endpoint_already_within_tolerance() {
    let eq = Equation::new(|x: Fx| x, fx(1e-3));
    let root = eq.bisection(fx(0.0), fx(5.0)).unwrap();
    assert_eq!(root.raw_units(), 0);
}

#[test]
fn bisection_finds_the_cosine_fixed_point() {
    let eq = Equation::new(|x: Fx| fx(fl(x).cos() - fl(x)), fx(1e-7));
    let root = eq.bisection(fx(0.0), fx(1.0)).unwrap();
    assert!((fl(root) - 0.7390851332151607).abs() < 1e-6, "root {}", fl(root));
}

#[test]
fn newton_reports_divergence_on_a_flat_function() {
    // The finite-difference slope of a constant is zero, so the step
    // saturates and then grows past its predecessor.
    let eq = Equation::new(|_x: Fx| Fx::one(), fx(1e-7));
    assert_eq!(eq.newton(fx(0.0)), Err(SolveError::Diverged));
}

#[test]
fn calc_evaluates_the_function() {
    let eq = Equation::new(cubic, fx(1e-7));
    assert!((fl(eq.calc(fx(1.0))) - (-1.0)).abs() < 1e-9);
}
