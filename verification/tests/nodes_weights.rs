use numerical::fx::{Fx, SCALE};
use numerical::integral::{calc_weights, solve_pnx};
use numerical::polynomial::{pnx, zeta_vec};

const SC: f64 = 1099511627776.0;

fn fx(v: f64) -> Fx {
    Fx::from_raw((v * SC).round() as i64)
}

fn fl(x: Fx) -> f64 {
    x.raw_units() as f64 / SC
}

#[test]
fn all_roots_are_found_for_moderate_orders() {
    for n in 2..21usize {
        let nodes = solve_pnx(n);
        assert_eq!(nodes.len(), n, "order {}", n);
    }
}

#[test]
fn node_symmetry_is_exact_for_orders_two_to_twenty() {
    for n in 2..21usize {
        let nodes = solve_pnx(n);
        for i in 0..nodes.len() {
            let m = nodes[i].raw_units();
            let mirrored = nodes.iter().any(|o| o.raw_units() == -m);
            assert!(mirrored, "order {} node {}", n, fl(nodes[i]));
        }
    }
}

#[test]
fn nodes_are_sorted_and_inside_the_open_interval() {
    for n in 2..16usize {
        let nodes = solve_pnx(n);
        for i in 0..nodes.len() {
            assert!(nodes[i].raw_units().abs() < SCALE);
            if i > 0 {
                assert!(nodes[i - 1].raw_units() <= nodes[i].raw_units());
            }
        }
    }
}

#[test]
fn odd_orders_carry_the_root_at_zero() {
    for n in [3usize, 5, 7, 9, 11].iter().copied() {
        let nodes = solve_pnx(n);
        assert!(nodes.iter().any(|o| o.raw_units() == 0), "order {}", n);
    }
}

#[test]
fn nodes_are_near_zeros_of_the_evaluator() {
    for n in [4usize, 7, 10].iter().copied() {
        let nodes = solve_pnx(n);
        for i in 0..nodes.len() {
            let v = fl(pnx(n, nodes[i]));
            assert!(v.abs() < 1e-4, "order {} node {} value {}", n, fl(nodes[i]), v);
        }
    }
}

#[test]
fn two_node_rule_matches_the_textbook_values() {
    let nodes = solve_pnx(2);
    let w = calc_weights(&nodes);
    let r = 1.0 / 3.0f64.sqrt();
    assert!((fl(nodes[0]) + r).abs() < 1e-6);
    assert!((fl(nodes[1]) - r).abs() < 1e-6);
    assert!((fl(w[0]) - 1.0).abs() < 1e-6);
    assert!((fl(w[1]) - 1.0).abs() < 1e-6);
}

#[test]
fn four_node_rule_matches_the_textbook_values() {
    let nodes = solve_pnx(4);
    let w = calc_weights(&nodes);
    let want_nodes: [f64; 4] = [-0.8611363116, -0.3399810436, 0.3399810436, 0.8611363116];
    let want_w: [f64; 4] = [0.3478548451, 0.6521451549, 0.6521451549, 0.3478548451];
    for i in 0..4 {
        assert!((fl(nodes[i]) - want_nodes[i]).abs() < 1e-6, "node {}", i);
        assert!((fl(w[i]) - want_w[i]).abs() < 1e-6, "weight {}", i);
    }
}

#[test]
fn weights_sum_to_two_for_even_orders() {
    for n in [2usize, 4, 6, 8, 10, 12].iter().copied() {
        let nodes = solve_pnx(n);
        let w = calc_weights(&nodes);
        let sum: f64 = w.iter().map(|x| fl(*x)).sum();
        assert!((sum - 2.0).abs() < 1e-9, "order {} sum {}", n, sum);
    }
}

#[test]
fn weights_are_symmetric_and_nonnegative() {
    for n in 2..13usize {
        let nodes = solve_pnx(n);
        let w = calc_weights(&nodes);
        for i in 0..w.len() {
            assert_eq!(w[i].raw_units(), w[w.len() - 1 - i].raw_units(), "order {}", n);
            assert!(w[i].raw_units() >= 0);
        }
    }
}

#[test]
fn legendre_evaluator_matches_known_values() {
    // P2(x) = (3 x^2 - 1) / 2 and P3(x) = (5 x^3 - 3 x) / 2.
    let pts: [f64; 4] = [-0.9, -0.2, 0.4, 0.75];
    for &p in pts.iter() {
        let want2 = (3.0 * p * p - 1.0) / 2.0;
        let want3 = (5.0 * p * p * p - 3.0 * p) / 2.0;
        assert!((fl(pnx(2, fx(p))) - want2).abs() < 1e-10);
        assert!((fl(pnx(3, fx(p))) - want3).abs() < 1e-10);
    }
    assert_eq!(pnx(0, fx(0.3)).raw_units(), SCALE);
    assert_eq!(pnx(1, fx(0.3)).raw_units(), fx(0.3).raw_units());
}

#[test]
fn chebyshev_zero_nodes_are_the_cosines() {
    let n: usize = 6;
    let z = zeta_vec(n);
    assert_eq!(z.len(), n + 1);
    for k in 0..n + 1 {
        let want = ((2 * k + 1) as f64 * std::f64::consts::PI / (2.0 * (n as f64 + 1.0))).cos();
        assert!((fl(z[k]) - want).abs() < 1e-10, "node {}", k);
    }
}

#[test]
fn equal_orders_give_identical_node_vectors() {
    for n in [2usize, 5, 9, 14].iter().copied() {
        let first = solve_pnx(n);
        let second = solve_pnx(n);
        assert_eq!(first.len(), second.len(), "order {}", n);
        for i in 0..first.len() {
            assert_eq!(first[i].raw_units(), second[i].raw_units(), "order {}", n);
        }
    }
}
