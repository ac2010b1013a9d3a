use numerical::fx::Fx;
use numerical::interpolation::{Itp, LagrangeItp};

const SC: f64 = 1099511627776.0;

fn fx(v: f64) -> Fx {
    Fx::from_raw((v * SC).round() as i64)
}

fn fl(x: Fx) -> f64 {
    x.raw_units() as f64 / SC
}

fn table(xs: &[f64], ys: &[f64]) -> LagrangeItp {
    let xv: Vec<Fx> = xs.iter().map(|v| fx(*v)).collect();
    let yv: Vec<Fx> = ys.iter().map(|v| fx(*v)).collect();
    LagrangeItp::new(&xv, &yv)
}

#[test]
fn lagrange_reproduces_its_own_nodes() {
    let t = table(&[0.0, 1.0, 2.0], &[1.0, 3.0, 7.0]);
    assert!((fl(t.calc(fx(0.0))) - 1.0).abs() < 1e-9);
    assert!((fl(t.calc(fx(1.0))) - 3.0).abs() < 1e-9);
    assert!((fl(t.calc(fx(2.0))) - 7.0).abs() < 1e-9);
}

#[test]
fn lagrange_interpolates_a_parabola_exactly() {
    // Three nodes determine x^2 + x + 1; between the nodes the
    // interpolant is that parabola.
    let t = table(&[0.0, 1.0, 2.0], &[1.0, 3.0, 7.0]);
    let p = 0.6f64;
    let want = p * p + p + 1.0;
    assert!((fl(t.calc(fx(p))) - want).abs() < 1e-9);
}

#[test]
fn pushed_pairs_join_the_table() {
    let mut t = table(&[0.0, 1.0], &[0.0, 1.0]);
    t.push(fx(2.0), fx(4.0));
    t.push_vec(&vec![fx(3.0)], &vec![fx(9.0)]);
    // Four nodes of x^2 make the cubic-free interpolant exact on it.
    let p = 1.4f64;
    assert!((fl(t.calc(fx(p))) - p * p).abs() < 1e-8);
}
