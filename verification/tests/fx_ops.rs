use numerical::fx::{Fx, MAX_RAW, SCALE};
use numerical::elementary::{cos_fx, cosh_fx, exp_fx, sech_fx, sinh_fx, tanh_fx};

const SC: f64 = 1099511627776.0;

fn fx(v: f64) -> Fx {
    Fx::from_raw((v * SC).round() as i64)
}

fn fl(x: Fx) -> f64 {
    x.raw_units() as f64 / SC
}

#[test]
fn scale_is_two_to_the_fortieth() {
    assert_eq!(SCALE, 1i64 << 40);
    assert_eq!(MAX_RAW, 1i64 << 62);
}

#[test]
fn add_sub_neg_are_exact() {
    let a = fx(1.5);
    let b = fx(2.25);
    assert_eq!(a.add(b).raw_units(), fx(3.75).raw_units());
    assert_eq!(b.sub(a).raw_units(), fx(0.75).raw_units());
    assert_eq!(a.neg().neg().raw_units(), a.raw_units());
}

#[test]
fn mul_and_div_match_reals_closely() {
    let a = fx(3.25);
    let b = fx(-1.2);
    assert!((fl(a.mul(b)) - (3.25 * -1.2)).abs() < 1e-11);
    assert!((fl(a.div(b)) - (3.25 / -1.2)).abs() < 1e-11);
    assert_eq!(a.divn(4).raw_units(), fx(0.8125).raw_units());
}

#[test]
fn division_by_zero_saturates_by_sign() {
    let z = Fx::zero();
    assert_eq!(Fx::one().div(z).raw_units(), MAX_RAW);
    assert_eq!(Fx::one().neg().div(z).raw_units(), -MAX_RAW);
    assert_eq!(z.div(z).raw_units(), 0);
}

#[test]
fn saturation_is_symmetric() {
    let big = Fx::from_raw(MAX_RAW);
    assert_eq!(big.add(big).raw_units(), MAX_RAW);
    assert_eq!(big.neg().sub(big).raw_units(), -MAX_RAW);
    assert_eq!(Fx::from_raw(i64::MAX).raw_units(), MAX_RAW);
    assert_eq!(Fx::from_raw(i64::MIN).raw_units(), -MAX_RAW);
}

#[test]
fn midpoint_lies_between() {
    let a = fx(1.0);
    let b = fx(2.0);
    let m = a.mid(b);
    assert!((fl(m) - 1.5).abs() < 1e-12);
}

#[test]
fn from_int_and_abs() {
    assert_eq!(Fx::from_int(7).raw_units(), 7 * SCALE);
    assert_eq!(Fx::from_int(-3).abs().raw_units(), 3 * SCALE);
    assert_eq!(Fx::from_usize(5).raw_units(), 5 * SCALE);
}

#[test]
fn cosine_matches_f64() {
    let pts: [f64; 8] = [0.0, 0.5, 1.0, 1.5707963, 3.1415926, 4.5, -2.2, 10.0];
    for &p in pts.iter() {
        assert!((fl(cos_fx(fx(p))) - p.cos()).abs() < 5e-12, "cos at {}", p);
    }
    assert_eq!(cos_fx(Fx::zero()).raw_units(), SCALE);
}

#[test]
fn exponential_matches_f64() {
    let pts: [f64; 7] = [0.0, 0.3, 1.0, 2.5, 5.0, -1.0, -8.0];
    for &p in pts.iter() {
        let rel = (fl(exp_fx(fx(p))) - p.exp()).abs() / p.exp().max(1.0);
        assert!(rel < 5e-12, "exp at {}", p);
    }
}

#[test]
fn hyperbolics_match_f64() {
    let pts: [f64; 6] = [0.0, 0.4, 1.0, 2.0, 5.0, -1.5];
    for &p in pts.iter() {
        let tol = 1e-11 * (1.0 + p.cosh());
        assert!((fl(sinh_fx(fx(p))) - p.sinh()).abs() < tol, "sinh at {}", p);
        assert!((fl(cosh_fx(fx(p))) - p.cosh()).abs() < tol, "cosh at {}", p);
        assert!((fl(tanh_fx(fx(p))) - p.tanh()).abs() < 5e-12, "tanh at {}", p);
        assert!((fl(sech_fx(fx(p))) - 1.0 / p.cosh()).abs() < 5e-12, "sech at {}", p);
    }
    assert_eq!(tanh_fx(fx(20.0)).raw_units(), SCALE);
    assert_eq!(tanh_fx(fx(-20.0)).raw_units(), -SCALE);
}
