//! The two-dimensional quadrature engine: each 1-D rule composed with
//! itself over a region whose inner bounds are functions of the outer
//! variable.
//!
//! There is no separate 2-D formula: the outer rule walks its own sample
//! points, evaluates the two bound functions there, runs the same 1-D rule
//! over that inner interval, and folds the inner estimates exactly as the
//! 1-D rule folds plain samples. Contracts therefore reuse the 1-D fold
//! specs: the result is the 1-D fold over the sequence of inner fold
//! values, and the orientation laws of the 1-D folds cover both axes.

use vstd::prelude::*;
use crate::fx::{
    Fx, fadd, fsub, fmul, fdivn, fof, fx_of, raws, seq_fsum, observed_at, observed_at2,
};
use crate::elementary::HALF_PI_RAW;
use crate::integral::{
    lo_of, hi_of, trap_h, trap_node, trap_core, trap_value, simp_h, simp_node, simp_even,
    simp_odd, simp_core, simp_value, hnk, affine_map, cq_node, cq_s, cq_core, cq_value, de_phi,
    de_phip, de_t, de_node, de_sum, de_core, de_value, gl_node_set, gl_weights, gl_s, gl_core,
    gl_value, solve_pnx, solve_pnx_nodes, calc_weights,
};
use crate::polynomial::{zeta_spec, zeta_vec};
use crate::elementary::{sinh_fx, cosh_fx, tanh_fx, sech_fx, cos_fx};

verus! {

/// One observed output of the two-place function at each trapezoid sample
/// point of the inner interval, at outer abscissa `x`; a degenerate inner
/// interval takes no samples.
pub open spec fn trap_samples2<F: Fn(Fx, Fx) -> Fx>(
    rhs: F,
    x: Fx,
    a: int,
    b: int,
    n: int,
    ivs: Seq<int>,
) -> bool {
    if a == b {
        ivs == Seq::<int>::empty()
    } else {
        ivs.len() == n + 1 && forall|k: int|
            0 <= k <= n ==> #[trigger] observed_at2(
                rhs,
                x,
                fx_of(trap_node(lo_of(a, b), hi_of(a, b), n, k)),
                ivs[k],
            )
    }
}

/// The inner trapezoid rule at outer abscissa `x`, handing back the inner
/// estimate together with the run of samples it folded.
fn trap_inner<F: Fn(Fx, Fx) -> Fx>(rhs: &F, x: Fx, a2: Fx, b2: Fx, n: usize) -> (res: (
    Fx,
    Ghost<Seq<int>>,
))
    requires
        forall|u: Fx, v: Fx| call_requires(*rhs, (u, v)),
        1 <= n < 0x40000000,
    ensures
        trap_samples2(*rhs, x, a2.m(), b2.m(), n as int, res.1@),
        res.0.m() == trap_value(res.1@, a2.m(), b2.m(), n as int),
{
    if a2.raw == b2.raw {
        return (Fx::zero(), Ghost(Seq::empty()));
    }
    let reverse: bool = a2.raw > b2.raw;
    let (lo, hi) = if reverse {
        (b2, a2)
    } else {
        (a2, b2)
    };
    let ghost gl = lo.m();
    let ghost gh = hi.m();
    let dh = hi.sub(lo).div(Fx::from_usize(n));
    let v0 = (rhs)(x, lo);
    let vn = (rhs)(x, hi);
    let s1 = v0.add(vn).divn(2);
    let mut s2 = Fx::zero();
    let ghost mut vs: Seq<int> = seq![v0.m()];
    let mut i: usize = 1;
    while i < n
        invariant
            forall|u: Fx, v: Fx| call_requires(*rhs, (u, v)),
            1 <= i <= n,
            n < 0x40000000,
            gl == lo.m(),
            gh == hi.m(),
            dh.m() == trap_h(gl, gh, n as int),
            vs.len() == i,
            vs[0] == v0.m(),
            observed_at2(*rhs, x, fx_of(trap_node(gl, gh, n as int, 0)), vs[0]),
            forall|j: int|
                1 <= j < i ==> #[trigger] observed_at2(
                    *rhs,
                    x,
                    fx_of(trap_node(gl, gh, n as int, j)),
                    vs[j],
                ),
            s2.m() == seq_fsum(vs.subrange(1, i as int)),
        decreases n - i,
    {
        let xi = lo.add(Fx::from_usize(i).mul(dh));
        let yi = (rhs)(x, xi);
        proof {
            assert(xi == fx_of(trap_node(gl, gh, n as int, i as int)));
            assert(observed_at2(*rhs, x, fx_of(trap_node(gl, gh, n as int, i as int)), yi.m()));
        }
        s2 = s2.add(yi);
        proof {
            let prev = vs;
            vs = vs.push(yi.m());
            assert(vs.subrange(1, i as int) =~= prev.subrange(1, i as int));
            assert(vs.subrange(1, i + 1).drop_last() =~= vs.subrange(1, i as int));
            assert(vs.subrange(1, i + 1).last() == vs[i as int]);
        }
        i = i + 1;
    }
    let ghost vsold = vs;
    proof {
        vs = vs.push(vn.m());
        assert(vs.subrange(1, n as int) =~= vsold.subrange(1, n as int));
        assert(hi == fx_of(trap_node(gl, gh, n as int, n as int)));
        assert(observed_at2(*rhs, x, fx_of(trap_node(gl, gh, n as int, n as int)), vn.m()));
    }
    let core = s1.add(s2).mul(dh);
    proof {
        assert(vs[0] == v0.m());
        assert(vs[n as int] == vn.m());
        assert(core.m() == trap_core(vs, gl, gh, n as int));
        assert(trap_samples2(*rhs, x, a2.m(), b2.m(), n as int, vs));
    }
    if reverse {
        (core.neg(), Ghost(vs))
    } else {
        (core, Ghost(vs))
    }
}

/// Observed bound values and inner trapezoid sample runs at every outer
/// trapezoid sample point.
pub open spec fn dtrap_samples<
    F: Fn(Fx, Fx) -> Fx,
    G1: Fn(Fx) -> Fx,
    G2: Fn(Fx) -> Fx,
>(
    rhs: F,
    g1: G1,
    g2: G2,
    a: int,
    b: int,
    n: int,
    ga: Seq<int>,
    gb: Seq<int>,
    vss: Seq<Seq<int>>,
) -> bool {
    &&& ga.len() == n + 1
    &&& gb.len() == n + 1
    &&& vss.len() == n + 1
    &&& forall|i: int|
        0 <= i <= n ==> #[trigger] observed_at(
            g1,
            fx_of(trap_node(lo_of(a, b), hi_of(a, b), n, i)),
            ga[i],
        )
    &&& forall|i: int|
        0 <= i <= n ==> #[trigger] observed_at(
            g2,
            fx_of(trap_node(lo_of(a, b), hi_of(a, b), n, i)),
            gb[i],
        )
    &&& forall|i: int|
        0 <= i <= n ==> #[trigger] trap_samples2(
            rhs,
            fx_of(trap_node(lo_of(a, b), hi_of(a, b), n, i)),
            ga[i],
            gb[i],
            n,
            vss[i],
        )
}

/// The inner trapezoid estimates at every outer sample point.
pub open spec fn dtrap_inner_values(vss: Seq<Seq<int>>, ga: Seq<int>, gb: Seq<int>, n: int) -> Seq<
    int,
> {
    Seq::new((n + 1) as nat, |i: int| trap_value(vss[i], ga[i], gb[i], n))
}

/// The 2-D trapezoid estimate: the 1-D trapezoid fold over the inner
/// trapezoid estimates.
pub open spec fn dtrap_value(
    vss: Seq<Seq<int>>,
    ga: Seq<int>,
    gb: Seq<int>,
    a: int,
    b: int,
    n: int,
) -> int {
    trap_value(dtrap_inner_values(vss, ga, gb, n), a, b, n)
}

/// One observed output of the two-place function at each Simpson sample
/// point of the inner interval, at outer abscissa `x`.
pub open spec fn simp_samples2<F: Fn(Fx, Fx) -> Fx>(
    rhs: F,
    x: Fx,
    a: int,
    b: int,
    n: int,
    ivs: Seq<int>,
) -> bool {
    if a == b {
        ivs == Seq::<int>::empty()
    } else {
        ivs.len() == 2 * n + 1 && forall|k: int|
            0 <= k <= 2 * n ==> #[trigger] observed_at2(
                rhs,
                x,
                fx_of(simp_node(lo_of(a, b), hi_of(a, b), n, k)),
                ivs[k],
            )
    }
}

/// The inner Simpson rule at outer abscissa `x`.
fn simp_inner<F: Fn(Fx, Fx) -> Fx>(rhs: &F, x: Fx, a2: Fx, b2: Fx, n: usize) -> (res: (
    Fx,
    Ghost<Seq<int>>,
))
    requires
        forall|u: Fx, v: Fx| call_requires(*rhs, (u, v)),
        1 <= n < 0x20000000,
    ensures
        simp_samples2(*rhs, x, a2.m(), b2.m(), n as int, res.1@),
        res.0.m() == simp_value(res.1@, a2.m(), b2.m(), n as int),
{
    if a2.raw == b2.raw {
        return (Fx::zero(), Ghost(Seq::empty()));
    }
    let reverse: bool = a2.raw > b2.raw;
    let (lo, hi) = if reverse {
        (b2, a2)
    } else {
        (a2, b2)
    };
    let ghost gl = lo.m();
    let ghost gh = hi.m();
    let n2 = n + n;
    let dh = hi.sub(lo).div(Fx::from_usize(n2));
    let mut fv: Vec<Fx> = Vec::new();
    let ghost mut vs: Seq<int> = Seq::empty();
    let mut i: usize = 0;
    while i < n2 + 1
        invariant
            forall|u: Fx, v: Fx| call_requires(*rhs, (u, v)),
            0 <= i <= n2 + 1,
            n2 == 2 * n,
            1 <= n < 0x20000000,
            gl == lo.m(),
            gh == hi.m(),
            dh.m() == simp_h(gl, gh, n as int),
            fv.len() == i,
            vs.len() == i,
            forall|j: int| 0 <= j < i ==> #[trigger] vs[j] == fv[j].m(),
            forall|j: int|
                0 <= j < i ==> #[trigger] observed_at2(
                    *rhs,
                    x,
                    fx_of(simp_node(gl, gh, n as int, j)),
                    vs[j],
                ),
        decreases n2 + 1 - i,
    {
        let xi = lo.add(Fx::from_usize(i).mul(dh));
        let yi = (rhs)(x, xi);
        proof {
            assert(xi == fx_of(simp_node(gl, gh, n as int, i as int)));
            assert(observed_at2(*rhs, x, fx_of(simp_node(gl, gh, n as int, i as int)), yi.m()));
        }
        fv.push(yi);
        proof {
            vs = vs.push(yi.m());
        }
        i = i + 1;
    }
    let two = Fx::from_int(2);
    let four = Fx::from_int(4);
    let s1 = fv[0].add(fv[n2]);
    let mut s2 = Fx::zero();
    let mut k: usize = 1;
    while k < n
        invariant
            1 <= k <= n,
            n2 == 2 * n,
            1 <= n < 0x20000000,
            fv.len() == n2 + 1,
            vs.len() == n2 + 1,
            forall|j: int| 0 <= j <= n2 ==> #[trigger] vs[j] == fv[j].m(),
            two.m() == fof(2),
            s2.m() == simp_even(vs, (k - 1) as nat),
        decreases n - k,
    {
        s2 = s2.add(fv[2 * k].mul(two));
        k = k + 1;
    }
    let mut s4 = Fx::zero();
    let mut k2: usize = 0;
    while k2 < n
        invariant
            0 <= k2 <= n,
            n2 == 2 * n,
            1 <= n < 0x20000000,
            fv.len() == n2 + 1,
            vs.len() == n2 + 1,
            forall|j: int| 0 <= j <= n2 ==> #[trigger] vs[j] == fv[j].m(),
            four.m() == fof(4),
            s4.m() == simp_odd(vs, k2 as nat),
        decreases n - k2,
    {
        s4 = s4.add(fv[2 * k2 + 1].mul(four));
        k2 = k2 + 1;
    }
    let core = s1.add(s2).add(s4).mul(dh).divn(3);
    proof {
        assert(core.m() == simp_core(vs, gl, gh, n as int));
        assert(simp_samples2(*rhs, x, a2.m(), b2.m(), n as int, vs));
    }
    if reverse {
        (core.neg(), Ghost(vs))
    } else {
        (core, Ghost(vs))
    }
}

/// Observed bound values and inner Simpson sample runs at every outer
/// Simpson sample point.
pub open spec fn dsimp_samples<
    F: Fn(Fx, Fx) -> Fx,
    G1: Fn(Fx) -> Fx,
    G2: Fn(Fx) -> Fx,
>(
    rhs: F,
    g1: G1,
    g2: G2,
    a: int,
    b: int,
    n: int,
    ga: Seq<int>,
    gb: Seq<int>,
    vss: Seq<Seq<int>>,
) -> bool {
    &&& ga.len() == 2 * n + 1
    &&& gb.len() == 2 * n + 1
    &&& vss.len() == 2 * n + 1
    &&& forall|i: int|
        0 <= i <= 2 * n ==> #[trigger] observed_at(
            g1,
            fx_of(simp_node(lo_of(a, b), hi_of(a, b), n, i)),
            ga[i],
        )
    &&& forall|i: int|
        0 <= i <= 2 * n ==> #[trigger] observed_at(
            g2,
            fx_of(simp_node(lo_of(a, b), hi_of(a, b), n, i)),
            gb[i],
        )
    &&& forall|i: int|
        0 <= i <= 2 * n ==> #[trigger] simp_samples2(
            rhs,
            fx_of(simp_node(lo_of(a, b), hi_of(a, b), n, i)),
            ga[i],
            gb[i],
            n,
            vss[i],
        )
}

/// The inner Simpson estimates at every outer sample point.
pub open spec fn dsimp_inner_values(vss: Seq<Seq<int>>, ga: Seq<int>, gb: Seq<int>, n: int) -> Seq<
    int,
> {
    Seq::new((2 * n + 1) as nat, |i: int| simp_value(vss[i], ga[i], gb[i], n))
}

/// The 2-D Simpson estimate: the 1-D Simpson fold over the inner Simpson
/// estimates.
pub open spec fn dsimp_value(
    vss: Seq<Seq<int>>,
    ga: Seq<int>,
    gb: Seq<int>,
    a: int,
    b: int,
    n: int,
) -> int {
    simp_value(dsimp_inner_values(vss, ga, gb, n), a, b, n)
}

/// One observed output of the two-place function at each mapped node of
/// the inner interval, at outer abscissa `x`.
pub open spec fn gl_samples2<F: Fn(Fx, Fx) -> Fx>(
    rhs: F,
    x: Fx,
    a: int,
    b: int,
    alpha: Seq<int>,
    ivs: Seq<int>,
) -> bool {
    if a == b {
        ivs == Seq::<int>::empty()
    } else {
        ivs.len() == alpha.len() && forall|k: int|
            0 <= k < alpha.len() ==> #[trigger] observed_at2(
                rhs,
                x,
                fx_of(affine_map(lo_of(a, b), hi_of(a, b), alpha[k])),
                ivs[k],
            )
    }
}

/// The inner Gauss-Legendre rule at outer abscissa `x`, on the nodes and
/// weights that the caller already derived.
fn gl_inner<F: Fn(Fx, Fx) -> Fx>(
    rhs: &F,
    x: Fx,
    a2: Fx,
    b2: Fx,
    alpha: &Vec<Fx>,
    w: &Vec<Fx>,
) -> (res: (Fx, Ghost<Seq<int>>))
    requires
        forall|u: Fx, v: Fx| call_requires(*rhs, (u, v)),
        w.len() == alpha.len(),
        raws(w@) == gl_weights(raws(alpha@)),
    ensures
        gl_samples2(*rhs, x, a2.m(), b2.m(), raws(alpha@), res.1@),
        res.0.m() == gl_value(res.1@, raws(alpha@), a2.m(), b2.m()),
{
    if a2.raw == b2.raw {
        return (Fx::zero(), Ghost(Seq::empty()));
    }
    let reverse: bool = a2.raw > b2.raw;
    let (lo, hi) = if reverse {
        (b2, a2)
    } else {
        (a2, b2)
    };
    let ghost gl = lo.m();
    let ghost gh = hi.m();
    let bma2 = hi.sub(lo).divn(2);
    let bpa2 = hi.add(lo).divn(2);
    let mut s = Fx::zero();
    let ghost mut vs: Seq<int> = Seq::empty();
    let mut i: usize = 0;
    while i < alpha.len()
        invariant
            forall|u: Fx, v: Fx| call_requires(*rhs, (u, v)),
            0 <= i <= alpha.len(),
            w.len() == alpha.len(),
            raws(w@) == gl_weights(raws(alpha@)),
            gl == lo.m(),
            gh == hi.m(),
            bma2.m() == fdivn(fsub(gh, gl), 2),
            bpa2.m() == fdivn(fadd(gh, gl), 2),
            vs.len() == i,
            forall|j: int|
                0 <= j < i ==> #[trigger] observed_at2(
                    *rhs,
                    x,
                    fx_of(affine_map(gl, gh, raws(alpha@)[j])),
                    vs[j],
                ),
            s.m() == gl_s(vs, gl_weights(raws(alpha@)), i as nat),
        decreases alpha.len() - i,
    {
        let xi = bma2.mul(alpha[i]).add(bpa2);
        let yi = (rhs)(x, xi);
        proof {
            assert(xi == fx_of(affine_map(gl, gh, raws(alpha@)[i as int])));
            assert(observed_at2(
                *rhs,
                x,
                fx_of(affine_map(gl, gh, raws(alpha@)[i as int])),
                yi.m(),
            ));
        }
        s = s.add(w[i].mul(yi));
        proof {
            let prev = vs;
            vs = vs.push(yi.m());
            assert(raws(w@)[i as int] == gl_weights(raws(alpha@))[i as int]);
            crate::integral::lemma_gl_s_prefix(prev, vs, gl_weights(raws(alpha@)), i as nat);
        }
        i = i + 1;
    }
    let core = bma2.mul(s);
    proof {
        assert(core.m() == gl_core(vs, raws(alpha@), gl, gh));
        assert(gl_samples2(*rhs, x, a2.m(), b2.m(), raws(alpha@), vs));
    }
    if reverse {
        (core.neg(), Ghost(vs))
    } else {
        (core, Ghost(vs))
    }
}

/// Observed bound values and inner sample runs at every outer mapped node.
pub open spec fn dgl_samples<
    F: Fn(Fx, Fx) -> Fx,
    G1: Fn(Fx) -> Fx,
    G2: Fn(Fx) -> Fx,
>(
    rhs: F,
    g1: G1,
    g2: G2,
    a: int,
    b: int,
    alpha: Seq<int>,
    ga: Seq<int>,
    gb: Seq<int>,
    vss: Seq<Seq<int>>,
) -> bool {
    &&& ga.len() == alpha.len()
    &&& gb.len() == alpha.len()
    &&& vss.len() == alpha.len()
    &&& forall|i: int|
        0 <= i < alpha.len() ==> #[trigger] observed_at(
            g1,
            fx_of(affine_map(lo_of(a, b), hi_of(a, b), alpha[i])),
            ga[i],
        )
    &&& forall|i: int|
        0 <= i < alpha.len() ==> #[trigger] observed_at(
            g2,
            fx_of(affine_map(lo_of(a, b), hi_of(a, b), alpha[i])),
            gb[i],
        )
    &&& forall|i: int|
        0 <= i < alpha.len() ==> #[trigger] gl_samples2(
            rhs,
            fx_of(affine_map(lo_of(a, b), hi_of(a, b), alpha[i])),
            ga[i],
            gb[i],
            alpha,
            vss[i],
        )
}

/// The inner Gauss-Legendre estimates at every outer node.
pub open spec fn dgl_inner_values(
    vss: Seq<Seq<int>>,
    ga: Seq<int>,
    gb: Seq<int>,
    alpha: Seq<int>,
) -> Seq<int> {
    Seq::new(alpha.len(), |i: int| gl_value(vss[i], alpha, ga[i], gb[i]))
}

/// The 2-D Gauss-Legendre estimate: the 1-D Gauss-Legendre fold over the
/// inner estimates, on one shared node set.
pub open spec fn dgl_value(
    vss: Seq<Seq<int>>,
    ga: Seq<int>,
    gb: Seq<int>,
    alpha: Seq<int>,
    a: int,
    b: int,
) -> int {
    gl_value(dgl_inner_values(vss, ga, gb, alpha), alpha, a, b)
}

/// One observed output of the two-place function at each Chebyshev sample
/// point of the inner interval, at outer abscissa `x`.
pub open spec fn cq_samples2<F: Fn(Fx, Fx) -> Fx>(
    rhs: F,
    x: Fx,
    a: int,
    b: int,
    n: int,
    ivs: Seq<int>,
) -> bool {
    if a == b {
        ivs == Seq::<int>::empty()
    } else {
        ivs.len() == n + 1 && forall|k: int|
            0 <= k <= n ==> #[trigger] observed_at2(
                rhs,
                x,
                fx_of(cq_node(lo_of(a, b), hi_of(a, b), n, k)),
                ivs[k],
            )
    }
}

/// The inner Chebyshev-Horinouchi rule at outer abscissa `x`.
fn cq_inner<F: Fn(Fx, Fx) -> Fx>(rhs: &F, x: Fx, a2: Fx, b2: Fx, n: usize) -> (res: (
    Fx,
    Ghost<Seq<int>>,
))
    requires
        forall|u: Fx, v: Fx| call_requires(*rhs, (u, v)),
        n < 0x20000000,
    ensures
        cq_samples2(*rhs, x, a2.m(), b2.m(), n as int, res.1@),
        res.0.m() == cq_value(res.1@, a2.m(), b2.m(), n as int),
{
    if a2.raw == b2.raw {
        return (Fx::zero(), Ghost(Seq::empty()));
    }
    let reverse: bool = a2.raw > b2.raw;
    let (lo, hi) = if reverse {
        (b2, a2)
    } else {
        (a2, b2)
    };
    let ghost gl = lo.m();
    let ghost gh = hi.m();
    let zeta = zeta_vec(n);
    let bma2 = hi.sub(lo).divn(2);
    let bpa2 = hi.add(lo).divn(2);
    let mut fv: Vec<Fx> = Vec::new();
    let ghost mut vs: Seq<int> = Seq::empty();
    let mut k: usize = 0;
    while k < n + 1
        invariant
            forall|u: Fx, v: Fx| call_requires(*rhs, (u, v)),
            0 <= k <= n + 1,
            n < 0x20000000,
            gl == lo.m(),
            gh == hi.m(),
            zeta.len() == n + 1,
            forall|j: int| 0 <= j <= n ==> #[trigger] zeta[j].m() == zeta_spec(n as int, j),
            bma2.m() == fdivn(fsub(gh, gl), 2),
            bpa2.m() == fdivn(fadd(gh, gl), 2),
            fv.len() == k,
            vs.len() == k,
            forall|j: int| 0 <= j < k ==> #[trigger] vs[j] == fv[j].m(),
            forall|j: int|
                0 <= j < k ==> #[trigger] observed_at2(
                    *rhs,
                    x,
                    fx_of(cq_node(gl, gh, n as int, j)),
                    vs[j],
                ),
        decreases n + 1 - k,
    {
        let xk = bma2.mul(zeta[k]).add(bpa2);
        let yk = (rhs)(x, xk);
        proof {
            assert(zeta[k as int].m() == zeta_spec(n as int, k as int));
            assert(xk == fx_of(cq_node(gl, gh, n as int, k as int)));
            assert(observed_at2(*rhs, x, fx_of(cq_node(gl, gh, n as int, k as int)), yk.m()));
        }
        fv.push(yk);
        proof {
            vs = vs.push(yk.m());
        }
        k = k + 1;
    }
    let s = cq_weighted_sum(&fv, Ghost(vs), n);
    let core = hi.sub(lo).div(Fx::from_usize(n + 1)).mul(s);
    proof {
        assert(core.m() == cq_core(vs, gl, gh, n as int));
        assert(cq_samples2(*rhs, x, a2.m(), b2.m(), n as int, vs));
    }
    if reverse {
        (core.neg(), Ghost(vs))
    } else {
        (core, Ghost(vs))
    }
}

/// Folds samples against the Chebyshev-Horinouchi rule coefficients,
/// recomputing each coefficient from its cosine series.
fn cq_weighted_sum(fv: &Vec<Fx>, vs: Ghost<Seq<int>>, n: usize) -> (s: Fx)
    requires
        n < 0x20000000,
        fv.len() == n + 1,
        vs@.len() == n + 1,
        forall|j: int| 0 <= j <= n ==> #[trigger] vs@[j] == fv[j].m(),
    ensures
        s.m() == cq_s(vs@, n as int, (n + 1) as nat),
{
    let theta_den = Fx::from_usize(2 * n + 2);
    let pi = Fx { raw: crate::elementary::PI_RAW };
    let two = Fx::from_int(2);
    let n2 = n / 2;
    let mut s = Fx::zero();
    let mut kk: usize = 0;
    while kk < n + 1
        invariant
            0 <= kk <= n + 1,
            n < 0x20000000,
            n2 == n / 2,
            fv.len() == n + 1,
            vs@.len() == n + 1,
            forall|j: int| 0 <= j <= n ==> #[trigger] vs@[j] == fv[j].m(),
            theta_den.m() == fof(2 * n + 2),
            pi.m() == crate::elementary::PI_RAW as int,
            two.m() == fof(2),
            s.m() == cq_s(vs@, n as int, kk as nat),
        decreases n + 1 - kk,
    {
        let theta_k = Fx::from_usize(2 * kk + 1).div(theta_den).mul(pi);
        proof {
            assert(theta_k.m() == crate::polynomial::theta_spec(n as int, kk as int));
        }
        let mut hs = Fx::zero();
        let mut j: usize = 1;
        while j < n2 + 1
            invariant
                1 <= j <= n2 + 1,
                n < 0x20000000,
                n2 == n / 2,
                kk <= n,
                theta_k.m() == crate::polynomial::theta_spec(n as int, kk as int),
                hs.m() == crate::integral::hnk_sum(n as int, kk as int, (j - 1) as nat),
            decreases n2 + 1 - j,
        {
            let cj = cos_fx(Fx::from_usize(2 * j).mul(theta_k));
            let jj = j as i64;
            proof {
                assert(1 <= 4 * jj * jj - 1 <= 0x4000000000000000) by (nonlinear_arith)
                    requires
                        1 <= jj <= 0x10000000,
                ;
                assert((4 * jj * jj - 1) as int == 4 * (j as int) * (j as int) - 1);
            }
            let den: i64 = 4 * jj * jj - 1;
            hs = hs.add(cj.divn(den));
            j = j + 1;
        }
        let hk = Fx::one().sub(two.mul(hs));
        proof {
            assert(hk.m() == hnk(n as int, kk as int));
        }
        s = s.add(hk.mul(fv[kk]));
        kk = kk + 1;
    }
    s
}

/// Observed bound values and inner Chebyshev sample runs at every outer
/// Chebyshev sample point.
pub open spec fn dcq_samples<
    F: Fn(Fx, Fx) -> Fx,
    G1: Fn(Fx) -> Fx,
    G2: Fn(Fx) -> Fx,
>(
    rhs: F,
    g1: G1,
    g2: G2,
    a: int,
    b: int,
    n: int,
    ga: Seq<int>,
    gb: Seq<int>,
    vss: Seq<Seq<int>>,
) -> bool {
    &&& ga.len() == n + 1
    &&& gb.len() == n + 1
    &&& vss.len() == n + 1
    &&& forall|i: int|
        0 <= i <= n ==> #[trigger] observed_at(
            g1,
            fx_of(cq_node(lo_of(a, b), hi_of(a, b), n, i)),
            ga[i],
        )
    &&& forall|i: int|
        0 <= i <= n ==> #[trigger] observed_at(
            g2,
            fx_of(cq_node(lo_of(a, b), hi_of(a, b), n, i)),
            gb[i],
        )
    &&& forall|i: int|
        0 <= i <= n ==> #[trigger] cq_samples2(
            rhs,
            fx_of(cq_node(lo_of(a, b), hi_of(a, b), n, i)),
            ga[i],
            gb[i],
            n,
            vss[i],
        )
}

/// The inner Chebyshev estimates at every outer sample point.
pub open spec fn dcq_inner_values(vss: Seq<Seq<int>>, ga: Seq<int>, gb: Seq<int>, n: int) -> Seq<
    int,
> {
    Seq::new((n + 1) as nat, |i: int| cq_value(vss[i], ga[i], gb[i], n))
}

/// The 2-D Chebyshev-Horinouchi estimate: the 1-D fold over the inner
/// estimates.
pub open spec fn dcq_value(
    vss: Seq<Seq<int>>,
    ga: Seq<int>,
    gb: Seq<int>,
    a: int,
    b: int,
    n: int,
) -> int {
    cq_value(dcq_inner_values(vss, ga, gb, n), a, b, n)
}

/// One observed output of the two-place function at each double-exponential
/// sample point of the inner interval, at outer abscissa `x`.
pub open spec fn de_samples2<F: Fn(Fx, Fx) -> Fx>(
    rhs: F,
    x: Fx,
    a: int,
    b: int,
    n: int,
    h: int,
    ivs: Seq<int>,
) -> bool {
    if a == b {
        ivs == Seq::<int>::empty()
    } else {
        ivs.len() == 2 * n + 1 && forall|k: int|
            0 <= k <= 2 * n ==> #[trigger] observed_at2(
                rhs,
                x,
                fx_of(de_node(lo_of(a, b), hi_of(a, b), h, n, k)),
                ivs[k],
            )
    }
}

/// The inner double-exponential rule at outer abscissa `x`.
fn de_inner<F: Fn(Fx, Fx) -> Fx>(rhs: &F, x: Fx, a2: Fx, b2: Fx, n: usize, h: Fx) -> (res: (
    Fx,
    Ghost<Seq<int>>,
))
    requires
        forall|u: Fx, v: Fx| call_requires(*rhs, (u, v)),
        1 <= n < 0x20000000,
    ensures
        de_samples2(*rhs, x, a2.m(), b2.m(), n as int, h.m(), res.1@),
        res.0.m() == de_value(res.1@, a2.m(), b2.m(), n as int, h.m()),
{
    if a2.raw == b2.raw {
        return (Fx::zero(), Ghost(Seq::empty()));
    }
    let reverse: bool = a2.raw > b2.raw;
    let (lo, hi) = if reverse {
        (b2, a2)
    } else {
        (a2, b2)
    };
    let ghost gl = lo.m();
    let ghost gh = hi.m();
    let n2 = n + n;
    let bma2 = hi.sub(lo).divn(2);
    let bpa2 = hi.add(lo).divn(2);
    let nf = Fx::from_usize(n);
    let tn = h.mul(nf);
    let t0 = tn.neg();
    let hpi = Fx { raw: HALF_PI_RAW };
    let mut fv: Vec<Fx> = Vec::new();
    let mut pv: Vec<Fx> = Vec::new();
    let ghost mut vs: Seq<int> = Seq::empty();
    let mut i: usize = 0;
    while i < n2 + 1
        invariant
            forall|u: Fx, v: Fx| call_requires(*rhs, (u, v)),
            0 <= i <= n2 + 1,
            n2 == 2 * n,
            1 <= n < 0x20000000,
            gl == lo.m(),
            gh == hi.m(),
            bma2.m() == fdivn(fsub(gh, gl), 2),
            bpa2.m() == fdivn(fadd(gh, gl), 2),
            nf.m() == fof(n as int),
            tn.m() == fmul(h.m(), fof(n as int)),
            t0.m() == crate::fx::fneg(fmul(h.m(), fof(n as int))),
            hpi.m() == HALF_PI_RAW as int,
            fv.len() == i,
            pv.len() == i,
            vs.len() == i,
            forall|j: int| 0 <= j < i ==> #[trigger] vs[j] == fv[j].m(),
            forall|j: int| 0 <= j < i ==> #[trigger] pv[j].m() == de_phip(de_t(h.m(), n as int, j)),
            forall|j: int|
                0 <= j < i ==> #[trigger] observed_at2(
                    *rhs,
                    x,
                    fx_of(de_node(gl, gh, h.m(), n as int, j)),
                    vs[j],
                ),
        decreases n2 + 1 - i,
    {
        let ti = if i == 0 {
            t0
        } else if i == n2 {
            tn
        } else {
            Fx::from_usize(i).sub(nf).mul(h)
        };
        proof {
            assert(ti.m() == de_t(h.m(), n as int, i as int));
        }
        let sh = sinh_fx(ti);
        let w = hpi.mul(sh);
        let phi_i = tanh_fx(w);
        let se = sech_fx(w);
        let phip_i = hpi.mul(cosh_fx(ti)).mul(se.mul(se));
        proof {
            assert(phi_i.m() == de_phi(ti.m()));
            assert(phip_i.m() == de_phip(ti.m()));
        }
        let xi = bma2.mul(phi_i).add(bpa2);
        let yi = (rhs)(x, xi);
        proof {
            assert(xi == fx_of(de_node(gl, gh, h.m(), n as int, i as int)));
            assert(observed_at2(
                *rhs,
                x,
                fx_of(de_node(gl, gh, h.m(), n as int, i as int)),
                yi.m(),
            ));
        }
        fv.push(yi);
        pv.push(phip_i);
        proof {
            vs = vs.push(yi.m());
        }
        i = i + 1;
    }
    let send = fv[0].mul(pv[0]).add(fv[n2].mul(pv[n2])).divn(2);
    let mut s = send;
    let mut m: usize = 1;
    while m < n2
        invariant
            1 <= m <= n2,
            n2 == 2 * n,
            1 <= n < 0x20000000,
            fv.len() == n2 + 1,
            pv.len() == n2 + 1,
            vs.len() == n2 + 1,
            forall|j: int| 0 <= j <= n2 ==> #[trigger] vs[j] == fv[j].m(),
            forall|j: int|
                0 <= j <= n2 ==> #[trigger] pv[j].m() == de_phip(de_t(h.m(), n as int, j)),
            s.m() == de_sum(vs, h.m(), n as int, (m - 1) as nat),
        decreases n2 - m,
    {
        s = s.add(fv[m].mul(pv[m]));
        m = m + 1;
    }
    let core = s.mul(h).mul(hi.sub(lo)).divn(2);
    proof {
        assert(core.m() == de_core(vs, gl, gh, n as int, h.m()));
        assert(de_samples2(*rhs, x, a2.m(), b2.m(), n as int, h.m(), vs));
    }
    if reverse {
        (core.neg(), Ghost(vs))
    } else {
        (core, Ghost(vs))
    }
}

/// Observed bound values and inner double-exponential sample runs at every
/// outer double-exponential sample point.
pub open spec fn dde_samples<
    F: Fn(Fx, Fx) -> Fx,
    G1: Fn(Fx) -> Fx,
    G2: Fn(Fx) -> Fx,
>(
    rhs: F,
    g1: G1,
    g2: G2,
    a: int,
    b: int,
    n: int,
    h: int,
    ga: Seq<int>,
    gb: Seq<int>,
    vss: Seq<Seq<int>>,
) -> bool {
    &&& ga.len() == 2 * n + 1
    &&& gb.len() == 2 * n + 1
    &&& vss.len() == 2 * n + 1
    &&& forall|i: int|
        0 <= i <= 2 * n ==> #[trigger] observed_at(
            g1,
            fx_of(de_node(lo_of(a, b), hi_of(a, b), h, n, i)),
            ga[i],
        )
    &&& forall|i: int|
        0 <= i <= 2 * n ==> #[trigger] observed_at(
            g2,
            fx_of(de_node(lo_of(a, b), hi_of(a, b), h, n, i)),
            gb[i],
        )
    &&& forall|i: int|
        0 <= i <= 2 * n ==> #[trigger] de_samples2(
            rhs,
            fx_of(de_node(lo_of(a, b), hi_of(a, b), h, n, i)),
            ga[i],
            gb[i],
            n,
            h,
            vss[i],
        )
}

/// The inner double-exponential estimates at every outer sample point.
pub open spec fn dde_inner_values(
    vss: Seq<Seq<int>>,
    ga: Seq<int>,
    gb: Seq<int>,
    n: int,
    h: int,
) -> Seq<int> {
    Seq::new((2 * n + 1) as nat, |i: int| de_value(vss[i], ga[i], gb[i], n, h))
}

/// The 2-D double-exponential estimate: the 1-D fold over the inner
/// estimates.
pub open spec fn dde_value(
    vss: Seq<Seq<int>>,
    ga: Seq<int>,
    gb: Seq<int>,
    a: int,
    b: int,
    n: int,
    h: int,
) -> int {
    de_value(dde_inner_values(vss, ga, gb, n, h), a, b, n, h)
}

/// Orientation antisymmetry of the 2-D trapezoid rule in its outer bounds,
/// with a degenerate outer interval giving zero: the inner estimates feed
/// the same 1-D fold, so the 1-D law carries over unchanged.
pub proof fn lemma_dtrapezoid_antisymmetric(
    vss: Seq<Seq<int>>,
    ga: Seq<int>,
    gb: Seq<int>,
    a: int,
    b: int,
    n: int,
)
    ensures
        dtrap_value(vss, ga, gb, a, b, n) == crate::fx::fneg(dtrap_value(vss, ga, gb, b, a, n)),
        dtrap_value(vss, ga, gb, a, a, n) == 0,
{
    crate::integral::lemma_oriented_antisymmetric(
        a,
        b,
        trap_core(dtrap_inner_values(vss, ga, gb, n), lo_of(a, b), hi_of(a, b), n),
    );
}

/// Orientation antisymmetry of the 2-D Simpson rule in its outer bounds,
/// with a degenerate outer interval giving zero.
pub proof fn lemma_dsimpson_antisymmetric(
    vss: Seq<Seq<int>>,
    ga: Seq<int>,
    gb: Seq<int>,
    a: int,
    b: int,
    n: int,
)
    ensures
        dsimp_value(vss, ga, gb, a, b, n) == crate::fx::fneg(dsimp_value(vss, ga, gb, b, a, n)),
        dsimp_value(vss, ga, gb, a, a, n) == 0,
{
    crate::integral::lemma_oriented_antisymmetric(
        a,
        b,
        simp_core(dsimp_inner_values(vss, ga, gb, n), lo_of(a, b), hi_of(a, b), n),
    );
}

/// Orientation antisymmetry of the 2-D Gauss-Legendre rule in its outer
/// bounds, with a degenerate outer interval giving zero.
pub proof fn lemma_dgauss_legendre_antisymmetric(
    vss: Seq<Seq<int>>,
    ga: Seq<int>,
    gb: Seq<int>,
    alpha: Seq<int>,
    a: int,
    b: int,
)
    ensures
        dgl_value(vss, ga, gb, alpha, a, b) == crate::fx::fneg(
            dgl_value(vss, ga, gb, alpha, b, a),
        ),
        dgl_value(vss, ga, gb, alpha, a, a) == 0,
{
    crate::integral::lemma_oriented_antisymmetric(
        a,
        b,
        gl_core(dgl_inner_values(vss, ga, gb, alpha), alpha, lo_of(a, b), hi_of(a, b)),
    );
}

/// Orientation antisymmetry of the 2-D Chebyshev-Horinouchi rule in its
/// outer bounds, with a degenerate outer interval giving zero.
pub proof fn lemma_dchebyshev_antisymmetric(
    vss: Seq<Seq<int>>,
    ga: Seq<int>,
    gb: Seq<int>,
    a: int,
    b: int,
    n: int,
)
    ensures
        dcq_value(vss, ga, gb, a, b, n) == crate::fx::fneg(dcq_value(vss, ga, gb, b, a, n)),
        dcq_value(vss, ga, gb, a, a, n) == 0,
{
    crate::integral::lemma_oriented_antisymmetric(
        a,
        b,
        cq_core(dcq_inner_values(vss, ga, gb, n), lo_of(a, b), hi_of(a, b), n),
    );
}

/// Orientation antisymmetry of the 2-D double-exponential rule in its
/// outer bounds, with a degenerate outer interval giving zero.
pub proof fn lemma_ddef_antisymmetric(
    vss: Seq<Seq<int>>,
    ga: Seq<int>,
    gb: Seq<int>,
    a: int,
    b: int,
    n: int,
    h: int,
)
    ensures
        dde_value(vss, ga, gb, a, b, n, h) == crate::fx::fneg(dde_value(vss, ga, gb, b, a, n, h)),
        dde_value(vss, ga, gb, a, a, n, h) == 0,
{
    crate::integral::lemma_oriented_antisymmetric(
        a,
        b,
        de_core(dde_inner_values(vss, ga, gb, n, h), lo_of(a, b), hi_of(a, b), n, h),
    );
}

/// A two-dimensional integral of the two-place function `rhs`.
pub struct DIntegral<F> {
    pub rhs: F,
}

impl<F: Fn(Fx, Fx) -> Fx> DIntegral<F> {
    /// Wraps the integrand.
    pub fn new(rhs: F) -> (r: DIntegral<F>)
        ensures
            r.rhs == rhs,
    {
        DIntegral { rhs }
    }

    /// The composite trapezoid rule in both directions: `n` outer panels,
    /// and at each outer sample an inner trapezoid run of `n` panels over
    /// the interval the two bound functions give there.
    pub fn trapezoid<G1: Fn(Fx) -> Fx, G2: Fn(Fx) -> Fx>(
        &self,
        ab1: (Fx, Fx),
        ab2: (G1, G2),
        n: usize,
    ) -> (r: Fx)
        requires
            forall|u: Fx, v: Fx| call_requires(self.rhs, (u, v)),
            forall|x: Fx| call_requires(ab2.0, (x,)),
            forall|x: Fx| call_requires(ab2.1, (x,)),
            1 <= n < 0x40000000,
        ensures
            ab1.0.m() == ab1.1.m() ==> r.m() == 0,
            ab1.0.m() != ab1.1.m() ==> exists|ga: Seq<int>, gb: Seq<int>, vss: Seq<Seq<int>>|
                #[trigger] dtrap_samples(
                    self.rhs,
                    ab2.0,
                    ab2.1,
                    ab1.0.m(),
                    ab1.1.m(),
                    n as int,
                    ga,
                    gb,
                    vss,
                ) && r.m() == dtrap_value(vss, ga, gb, ab1.0.m(), ab1.1.m(), n as int),
    {
        let a1 = ab1.0;
        let b1 = ab1.1;
        if a1.raw == b1.raw {
            return Fx::zero();
        }
        let reverse: bool = a1.raw > b1.raw;
        let (lo, hi) = if reverse {
            (b1, a1)
        } else {
            (a1, b1)
        };
        let ghost gol = lo.m();
        let ghost goh = hi.m();
        let dh = hi.sub(lo).div(Fx::from_usize(n));
        let mut iv: Vec<Fx> = Vec::new();
        let ghost mut ga: Seq<int> = Seq::empty();
        let ghost mut gb: Seq<int> = Seq::empty();
        let ghost mut vss: Seq<Seq<int>> = Seq::empty();
        let mut i: usize = 0;
        while i < n + 1
            invariant
                forall|u: Fx, v: Fx| call_requires(self.rhs, (u, v)),
                forall|x: Fx| call_requires(ab2.0, (x,)),
                forall|x: Fx| call_requires(ab2.1, (x,)),
                0 <= i <= n + 1,
                1 <= n < 0x40000000,
                gol == lo.m(),
                goh == hi.m(),
                dh.m() == trap_h(gol, goh, n as int),
                iv.len() == i,
                ga.len() == i,
                gb.len() == i,
                vss.len() == i,
                forall|j: int|
                    0 <= j < i ==> #[trigger] observed_at(
                        ab2.0,
                        fx_of(trap_node(gol, goh, n as int, j)),
                        ga[j],
                    ),
                forall|j: int|
                    0 <= j < i ==> #[trigger] observed_at(
                        ab2.1,
                        fx_of(trap_node(gol, goh, n as int, j)),
                        gb[j],
                    ),
                forall|j: int|
                    0 <= j < i ==> #[trigger] trap_samples2(
                        self.rhs,
                        fx_of(trap_node(gol, goh, n as int, j)),
                        ga[j],
                        gb[j],
                        n as int,
                        vss[j],
                    ),
                forall|j: int|
                    0 <= j < i ==> #[trigger] iv[j].m() == trap_value(
                        vss[j],
                        ga[j],
                        gb[j],
                        n as int,
                    ),
            decreases n + 1 - i,
        {
            let xi = if i == 0 {
                lo
            } else if i == n {
                hi
            } else {
                lo.add(Fx::from_usize(i).mul(dh))
            };
            proof {
                assert(xi == fx_of(trap_node(gol, goh, n as int, i as int)));
            }
            let gai = (ab2.0)(xi);
            let gbi = (ab2.1)(xi);
            proof {
                assert(observed_at(ab2.0, fx_of(trap_node(gol, goh, n as int, i as int)), gai.m()));
                assert(observed_at(ab2.1, fx_of(trap_node(gol, goh, n as int, i as int)), gbi.m()));
            }
            let (ri, ivsi) = trap_inner(&self.rhs, xi, gai, gbi, n);
            iv.push(ri);
            proof {
                ga = ga.push(gai.m());
                gb = gb.push(gbi.m());
                vss = vss.push(ivsi@);
            }
            i = i + 1;
        }
        let s1 = iv[0].add(iv[n]).divn(2);
        let ghost ivals = dtrap_inner_values(vss, ga, gb, n as int);
        proof {
            assert forall|j: int| 0 <= j <= n implies #[trigger] ivals[j] == iv[j].m() by {}
        }
        let mut s2 = Fx::zero();
        let mut k: usize = 1;
        while k < n
            invariant
                1 <= k <= n,
                iv.len() == n + 1,
                ivals.len() == n + 1,
                forall|j: int| 0 <= j <= n ==> #[trigger] ivals[j] == iv[j].m(),
                s2.m() == seq_fsum(ivals.subrange(1, k as int)),
            decreases n - k,
        {
            s2 = s2.add(iv[k]);
            proof {
                assert(ivals.subrange(1, k + 1).drop_last() =~= ivals.subrange(1, k as int));
                assert(ivals.subrange(1, k + 1).last() == ivals[k as int]);
            }
            k = k + 1;
        }
        let core = s1.add(s2).mul(dh);
        proof {
            assert(ivals[0] == iv[0].m());
            assert(ivals[n as int] == iv[n as int].m());
            assert(core.m() == trap_core(ivals, gol, goh, n as int));
            assert(dtrap_samples(
                self.rhs,
                ab2.0,
                ab2.1,
                ab1.0.m(),
                ab1.1.m(),
                n as int,
                ga,
                gb,
                vss,
            ));
        }
        if reverse {
            core.neg()
        } else {
            core
        }
    }

    /// The composite Simpson rule in both directions: `2 n` outer panels,
    /// and at each outer sample an inner Simpson run of `2 n` panels over
    /// the interval the two bound functions give there.
    pub fn simpson<G1: Fn(Fx) -> Fx, G2: Fn(Fx) -> Fx>(
        &self,
        ab1: (Fx, Fx),
        ab2: (G1, G2),
        n: usize,
    ) -> (r: Fx)
        requires
            forall|u: Fx, v: Fx| call_requires(self.rhs, (u, v)),
            forall|x: Fx| call_requires(ab2.0, (x,)),
            forall|x: Fx| call_requires(ab2.1, (x,)),
            1 <= n < 0x20000000,
        ensures
            ab1.0.m() == ab1.1.m() ==> r.m() == 0,
            ab1.0.m() != ab1.1.m() ==> exists|ga: Seq<int>, gb: Seq<int>, vss: Seq<Seq<int>>|
                #[trigger] dsimp_samples(
                    self.rhs,
                    ab2.0,
                    ab2.1,
                    ab1.0.m(),
                    ab1.1.m(),
                    n as int,
                    ga,
                    gb,
                    vss,
                ) && r.m() == dsimp_value(vss, ga, gb, ab1.0.m(), ab1.1.m(), n as int),
    {
        let a1 = ab1.0;
        let b1 = ab1.1;
        if a1.raw == b1.raw {
            return Fx::zero();
        }
        let reverse: bool = a1.raw > b1.raw;
        let (lo, hi) = if reverse {
            (b1, a1)
        } else {
            (a1, b1)
        };
        let ghost gol = lo.m();
        let ghost goh = hi.m();
        let n2 = n + n;
        let dh = hi.sub(lo).div(Fx::from_usize(n2));
        let mut iv: Vec<Fx> = Vec::new();
        let ghost mut ga: Seq<int> = Seq::empty();
        let ghost mut gb: Seq<int> = Seq::empty();
        let ghost mut vss: Seq<Seq<int>> = Seq::empty();
        let mut i: usize = 0;
        while i < n2 + 1
            invariant
                forall|u: Fx, v: Fx| call_requires(self.rhs, (u, v)),
                forall|x: Fx| call_requires(ab2.0, (x,)),
                forall|x: Fx| call_requires(ab2.1, (x,)),
                0 <= i <= n2 + 1,
                n2 == 2 * n,
                1 <= n < 0x20000000,
                gol == lo.m(),
                goh == hi.m(),
                dh.m() == simp_h(gol, goh, n as int),
                iv.len() == i,
                ga.len() == i,
                gb.len() == i,
                vss.len() == i,
                forall|j: int|
                    0 <= j < i ==> #[trigger] observed_at(
                        ab2.0,
                        fx_of(simp_node(gol, goh, n as int, j)),
                        ga[j],
                    ),
                forall|j: int|
                    0 <= j < i ==> #[trigger] observed_at(
                        ab2.1,
                        fx_of(simp_node(gol, goh, n as int, j)),
                        gb[j],
                    ),
                forall|j: int|
                    0 <= j < i ==> #[trigger] simp_samples2(
                        self.rhs,
                        fx_of(simp_node(gol, goh, n as int, j)),
                        ga[j],
                        gb[j],
                        n as int,
                        vss[j],
                    ),
                forall|j: int|
                    0 <= j < i ==> #[trigger] iv[j].m() == simp_value(
                        vss[j],
                        ga[j],
                        gb[j],
                        n as int,
                    ),
            decreases n2 + 1 - i,
        {
            let xi = lo.add(Fx::from_usize(i).mul(dh));
            proof {
                assert(xi == fx_of(simp_node(gol, goh, n as int, i as int)));
            }
            let gai = (ab2.0)(xi);
            let gbi = (ab2.1)(xi);
            proof {
                assert(observed_at(ab2.0, fx_of(simp_node(gol, goh, n as int, i as int)), gai.m()));
                assert(observed_at(ab2.1, fx_of(simp_node(gol, goh, n as int, i as int)), gbi.m()));
            }
            let (ri, ivsi) = simp_inner(&self.rhs, xi, gai, gbi, n);
            iv.push(ri);
            proof {
                ga = ga.push(gai.m());
                gb = gb.push(gbi.m());
                vss = vss.push(ivsi@);
            }
            i = i + 1;
        }
        let ghost ivals = dsimp_inner_values(vss, ga, gb, n as int);
        proof {
            assert forall|j: int| 0 <= j <= n2 implies #[trigger] ivals[j] == iv[j].m() by {}
        }
        let two = Fx::from_int(2);
        let four = Fx::from_int(4);
        let s1 = iv[0].add(iv[n2]);
        let mut s2 = Fx::zero();
        let mut k: usize = 1;
        while k < n
            invariant
                1 <= k <= n,
                n2 == 2 * n,
                1 <= n < 0x20000000,
                iv.len() == n2 + 1,
                ivals.len() == n2 + 1,
                forall|j: int| 0 <= j <= n2 ==> #[trigger] ivals[j] == iv[j].m(),
                two.m() == fof(2),
                s2.m() == simp_even(ivals, (k - 1) as nat),
            decreases n - k,
        {
            s2 = s2.add(iv[2 * k].mul(two));
            k = k + 1;
        }
        let mut s4 = Fx::zero();
        let mut k2: usize = 0;
        while k2 < n
            invariant
                0 <= k2 <= n,
                n2 == 2 * n,
                1 <= n < 0x20000000,
                iv.len() == n2 + 1,
                ivals.len() == n2 + 1,
                forall|j: int| 0 <= j <= n2 ==> #[trigger] ivals[j] == iv[j].m(),
                four.m() == fof(4),
                s4.m() == simp_odd(ivals, k2 as nat),
            decreases n - k2,
        {
            s4 = s4.add(iv[2 * k2 + 1].mul(four));
            k2 = k2 + 1;
        }
        let core = s1.add(s2).add(s4).mul(dh).divn(3);
        proof {
            assert(core.m() == simp_core(ivals, gol, goh, n as int));
            assert(dsimp_samples(
                self.rhs,
                ab2.0,
                ab2.1,
                ab1.0.m(),
                ab1.1.m(),
                n as int,
                ga,
                gb,
                vss,
            ));
        }
        if reverse {
            core.neg()
        } else {
            core
        }
    }

    /// The Gauss-Legendre rule in both directions: one node set and weight
    /// table of order `n` serves both the outer fold and, remapped onto
    /// the interval the bound functions give at each outer node, the inner
    /// fold.
    #[verifier::rlimit(100)]
    pub fn gauss_legendre<G1: Fn(Fx) -> Fx, G2: Fn(Fx) -> Fx>(
        &self,
        ab1: (Fx, Fx),
        ab2: (G1, G2),
        n: usize,
    ) -> (r: Fx)
        requires
            forall|u: Fx, v: Fx| call_requires(self.rhs, (u, v)),
            forall|x: Fx| call_requires(ab2.0, (x,)),
            forall|x: Fx| call_requires(ab2.1, (x,)),
            n < 0x40000000,
        ensures
            ab1.0.m() == ab1.1.m() ==> r.m() == 0,
            ab1.0.m() != ab1.1.m() ==> gl_node_set(n as nat, solve_pnx_nodes(n as nat)),
            ab1.0.m() != ab1.1.m() ==> exists|ga: Seq<int>, gb: Seq<int>, vss: Seq<Seq<int>>|
                #[trigger] dgl_samples(
                    self.rhs,
                    ab2.0,
                    ab2.1,
                    ab1.0.m(),
                    ab1.1.m(),
                    solve_pnx_nodes(n as nat),
                    ga,
                    gb,
                    vss,
                ) && r.m() == dgl_value(
                    vss,
                    ga,
                    gb,
                    solve_pnx_nodes(n as nat),
                    ab1.0.m(),
                    ab1.1.m(),
                ),
    {
        let a1 = ab1.0;
        let b1 = ab1.1;
        if a1.raw == b1.raw {
            return Fx::zero();
        }
        let reverse: bool = a1.raw > b1.raw;
        let (lo, hi) = if reverse {
            (b1, a1)
        } else {
            (a1, b1)
        };
        let ghost gol = lo.m();
        let ghost goh = hi.m();
        let alpha = solve_pnx(n);
        let w = calc_weights(&alpha);
        proof {
            assert(raws(alpha@) == solve_pnx_nodes(n as nat));
            assert(gl_node_set(n as nat, raws(alpha@)));
            assert(raws(w@) =~= gl_weights(raws(alpha@)));
        }
        let bma2 = hi.sub(lo).divn(2);
        let bpa2 = hi.add(lo).divn(2);
        let mut s = Fx::zero();
        let ghost mut ga: Seq<int> = Seq::empty();
        let ghost mut gb: Seq<int> = Seq::empty();
        let ghost mut vss: Seq<Seq<int>> = Seq::empty();
        let ghost mut ivals: Seq<int> = Seq::empty();
        let mut i: usize = 0;
        while i < alpha.len()
            invariant
                forall|u: Fx, v: Fx| call_requires(self.rhs, (u, v)),
                forall|x: Fx| call_requires(ab2.0, (x,)),
                forall|x: Fx| call_requires(ab2.1, (x,)),
                0 <= i <= alpha.len(),
                w.len() == alpha.len(),
                raws(w@) == gl_weights(raws(alpha@)),
                gol == lo.m(),
                goh == hi.m(),
                bma2.m() == fdivn(fsub(goh, gol), 2),
                bpa2.m() == fdivn(fadd(goh, gol), 2),
                ga.len() == i,
                gb.len() == i,
                vss.len() == i,
                ivals.len() == i,
                forall|j: int|
                    0 <= j < i ==> #[trigger] observed_at(
                        ab2.0,
                        fx_of(affine_map(gol, goh, raws(alpha@)[j])),
                        ga[j],
                    ),
                forall|j: int|
                    0 <= j < i ==> #[trigger] observed_at(
                        ab2.1,
                        fx_of(affine_map(gol, goh, raws(alpha@)[j])),
                        gb[j],
                    ),
                forall|j: int|
                    0 <= j < i ==> #[trigger] gl_samples2(
                        self.rhs,
                        fx_of(affine_map(gol, goh, raws(alpha@)[j])),
                        ga[j],
                        gb[j],
                        raws(alpha@),
                        vss[j],
                    ),
                forall|j: int|
                    0 <= j < i ==> #[trigger] ivals[j] == gl_value(
                        vss[j],
                        raws(alpha@),
                        ga[j],
                        gb[j],
                    ),
                s.m() == gl_s(ivals, gl_weights(raws(alpha@)), i as nat),
            decreases alpha.len() - i,
        {
            let xi = bma2.mul(alpha[i]).add(bpa2);
            proof {
                assert(xi == fx_of(affine_map(gol, goh, raws(alpha@)[i as int])));
            }
            let gai = (ab2.0)(xi);
            let gbi = (ab2.1)(xi);
            proof {
                assert(observed_at(
                    ab2.0,
                    fx_of(affine_map(gol, goh, raws(alpha@)[i as int])),
                    gai.m(),
                ));
                assert(observed_at(
                    ab2.1,
                    fx_of(affine_map(gol, goh, raws(alpha@)[i as int])),
                    gbi.m(),
                ));
            }
            let (ri, ivsi) = gl_inner(&self.rhs, xi, gai, gbi, &alpha, &w);
            s = s.add(w[i].mul(ri));
            proof {
                ga = ga.push(gai.m());
                gb = gb.push(gbi.m());
                vss = vss.push(ivsi@);
                let prev = ivals;
                ivals = ivals.push(ri.m());
                assert(raws(w@)[i as int] == gl_weights(raws(alpha@))[i as int]);
                crate::integral::lemma_gl_s_prefix(prev, ivals, gl_weights(raws(alpha@)), i as nat);
            }
            i = i + 1;
        }
        let core = bma2.mul(s);
        proof {
            assert(ivals =~= dgl_inner_values(vss, ga, gb, raws(alpha@)));
            assert(core.m() == gl_core(ivals, raws(alpha@), gol, goh));
            assert(dgl_samples(
                self.rhs,
                ab2.0,
                ab2.1,
                ab1.0.m(),
                ab1.1.m(),
                raws(alpha@),
                ga,
                gb,
                vss,
            ));
        }
        if reverse {
            core.neg()
        } else {
            core
        }
    }

    /// The Chebyshev-Horinouchi rule in both directions: the `n + 1`
    /// Chebyshev zero nodes serve the outer fold, and at each outer node
    /// an inner Chebyshev run covers the interval the bound functions give
    /// there.
    pub fn chebyshev<G1: Fn(Fx) -> Fx, G2: Fn(Fx) -> Fx>(
        &self,
        ab1: (Fx, Fx),
        ab2: (G1, G2),
        n: usize,
    ) -> (r: Fx)
        requires
            forall|u: Fx, v: Fx| call_requires(self.rhs, (u, v)),
            forall|x: Fx| call_requires(ab2.0, (x,)),
            forall|x: Fx| call_requires(ab2.1, (x,)),
            n < 0x20000000,
        ensures
            ab1.0.m() == ab1.1.m() ==> r.m() == 0,
            ab1.0.m() != ab1.1.m() ==> exists|ga: Seq<int>, gb: Seq<int>, vss: Seq<Seq<int>>|
                #[trigger] dcq_samples(
                    self.rhs,
                    ab2.0,
                    ab2.1,
                    ab1.0.m(),
                    ab1.1.m(),
                    n as int,
                    ga,
                    gb,
                    vss,
                ) && r.m() == dcq_value(vss, ga, gb, ab1.0.m(), ab1.1.m(), n as int),
    {
        let a1 = ab1.0;
        let b1 = ab1.1;
        if a1.raw == b1.raw {
            return Fx::zero();
        }
        let reverse: bool = a1.raw > b1.raw;
        let (lo, hi) = if reverse {
            (b1, a1)
        } else {
            (a1, b1)
        };
        let ghost gol = lo.m();
        let ghost goh = hi.m();
        let zeta = zeta_vec(n);
        let bma2 = hi.sub(lo).divn(2);
        let bpa2 = hi.add(lo).divn(2);
        let mut iv: Vec<Fx> = Vec::new();
        let ghost mut ga: Seq<int> = Seq::empty();
        let ghost mut gb: Seq<int> = Seq::empty();
        let ghost mut vss: Seq<Seq<int>> = Seq::empty();
        let mut i: usize = 0;
        while i < n + 1
            invariant
                forall|u: Fx, v: Fx| call_requires(self.rhs, (u, v)),
                forall|x: Fx| call_requires(ab2.0, (x,)),
                forall|x: Fx| call_requires(ab2.1, (x,)),
                0 <= i <= n + 1,
                n < 0x20000000,
                gol == lo.m(),
                goh == hi.m(),
                zeta.len() == n + 1,
                forall|j: int| 0 <= j <= n ==> #[trigger] zeta[j].m() == zeta_spec(n as int, j),
                bma2.m() == fdivn(fsub(goh, gol), 2),
                bpa2.m() == fdivn(fadd(goh, gol), 2),
                iv.len() == i,
                ga.len() == i,
                gb.len() == i,
                vss.len() == i,
                forall|j: int|
                    0 <= j < i ==> #[trigger] observed_at(
                        ab2.0,
                        fx_of(cq_node(gol, goh, n as int, j)),
                        ga[j],
                    ),
                forall|j: int|
                    0 <= j < i ==> #[trigger] observed_at(
                        ab2.1,
                        fx_of(cq_node(gol, goh, n as int, j)),
                        gb[j],
                    ),
                forall|j: int|
                    0 <= j < i ==> #[trigger] cq_samples2(
                        self.rhs,
                        fx_of(cq_node(gol, goh, n as int, j)),
                        ga[j],
                        gb[j],
                        n as int,
                        vss[j],
                    ),
                forall|j: int|
                    0 <= j < i ==> #[trigger] iv[j].m() == cq_value(
                        vss[j],
                        ga[j],
                        gb[j],
                        n as int,
                    ),
            decreases n + 1 - i,
        {
            let xi = bma2.mul(zeta[i]).add(bpa2);
            proof {
                assert(zeta[i as int].m() == zeta_spec(n as int, i as int));
                assert(xi == fx_of(cq_node(gol, goh, n as int, i as int)));
            }
            let gai = (ab2.0)(xi);
            let gbi = (ab2.1)(xi);
            proof {
                assert(observed_at(ab2.0, fx_of(cq_node(gol, goh, n as int, i as int)), gai.m()));
                assert(observed_at(ab2.1, fx_of(cq_node(gol, goh, n as int, i as int)), gbi.m()));
            }
            let (ri, ivsi) = cq_inner(&self.rhs, xi, gai, gbi, n);
            iv.push(ri);
            proof {
                ga = ga.push(gai.m());
                gb = gb.push(gbi.m());
                vss = vss.push(ivsi@);
            }
            i = i + 1;
        }
        let ghost ivals = dcq_inner_values(vss, ga, gb, n as int);
        proof {
            assert forall|j: int| 0 <= j <= n implies #[trigger] ivals[j] == iv[j].m() by {}
        }
        let s = cq_weighted_sum(&iv, Ghost(ivals), n);
        let core = hi.sub(lo).div(Fx::from_usize(n + 1)).mul(s);
        proof {
            assert(core.m() == cq_core(ivals, gol, goh, n as int));
            assert(dcq_samples(
                self.rhs,
                ab2.0,
                ab2.1,
                ab1.0.m(),
                ab1.1.m(),
                n as int,
                ga,
                gb,
                vss,
            ));
        }
        if reverse {
            core.neg()
        } else {
            core
        }
    }

    /// The double-exponential rule in both directions: `2 n + 1` transform
    /// samples of width `h` on each axis, the inner run covering the
    /// interval the bound functions give at each outer sample point.
    #[verifier::rlimit(100)]
    pub fn def<G1: Fn(Fx) -> Fx, G2: Fn(Fx) -> Fx>(
        &self,
        ab1: (Fx, Fx),
        ab2: (G1, G2),
        n: usize,
        h: Fx,
    ) -> (r: Fx)
        requires
            forall|u: Fx, v: Fx| call_requires(self.rhs, (u, v)),
            forall|x: Fx| call_requires(ab2.0, (x,)),
            forall|x: Fx| call_requires(ab2.1, (x,)),
            1 <= n < 0x20000000,
        ensures
            ab1.0.m() == ab1.1.m() ==> r.m() == 0,
            ab1.0.m() != ab1.1.m() ==> exists|ga: Seq<int>, gb: Seq<int>, vss: Seq<Seq<int>>|
                #[trigger] dde_samples(
                    self.rhs,
                    ab2.0,
                    ab2.1,
                    ab1.0.m(),
                    ab1.1.m(),
                    n as int,
                    h.m(),
                    ga,
                    gb,
                    vss,
                ) && r.m() == dde_value(vss, ga, gb, ab1.0.m(), ab1.1.m(), n as int, h.m()),
    {
        let a1 = ab1.0;
        let b1 = ab1.1;
        if a1.raw == b1.raw {
            return Fx::zero();
        }
        let reverse: bool = a1.raw > b1.raw;
        let (lo, hi) = if reverse {
            (b1, a1)
        } else {
            (a1, b1)
        };
        let ghost gol = lo.m();
        let ghost goh = hi.m();
        let n2 = n + n;
        let bma2 = hi.sub(lo).divn(2);
        let bpa2 = hi.add(lo).divn(2);
        let nf = Fx::from_usize(n);
        let tn = h.mul(nf);
        let t0 = tn.neg();
        let hpi = Fx { raw: HALF_PI_RAW };
        let mut iv: Vec<Fx> = Vec::new();
        let mut pv: Vec<Fx> = Vec::new();
        let ghost mut ga: Seq<int> = Seq::empty();
        let ghost mut gb: Seq<int> = Seq::empty();
        let ghost mut vss: Seq<Seq<int>> = Seq::empty();
        let mut i: usize = 0;
        while i < n2 + 1
            invariant
                forall|u: Fx, v: Fx| call_requires(self.rhs, (u, v)),
                forall|x: Fx| call_requires(ab2.0, (x,)),
                forall|x: Fx| call_requires(ab2.1, (x,)),
                0 <= i <= n2 + 1,
                n2 == 2 * n,
                1 <= n < 0x20000000,
                gol == lo.m(),
                goh == hi.m(),
                bma2.m() == fdivn(fsub(goh, gol), 2),
                bpa2.m() == fdivn(fadd(goh, gol), 2),
                nf.m() == fof(n as int),
                tn.m() == fmul(h.m(), fof(n as int)),
                t0.m() == crate::fx::fneg(fmul(h.m(), fof(n as int))),
                hpi.m() == HALF_PI_RAW as int,
                iv.len() == i,
                pv.len() == i,
                ga.len() == i,
                gb.len() == i,
                vss.len() == i,
                forall|j: int|
                    0 <= j < i ==> #[trigger] pv[j].m() == de_phip(de_t(h.m(), n as int, j)),
                forall|j: int|
                    0 <= j < i ==> #[trigger] observed_at(
                        ab2.0,
                        fx_of(de_node(gol, goh, h.m(), n as int, j)),
                        ga[j],
                    ),
                forall|j: int|
                    0 <= j < i ==> #[trigger] observed_at(
                        ab2.1,
                        fx_of(de_node(gol, goh, h.m(), n as int, j)),
                        gb[j],
                    ),
                forall|j: int|
                    0 <= j < i ==> #[trigger] de_samples2(
                        self.rhs,
                        fx_of(de_node(gol, goh, h.m(), n as int, j)),
                        ga[j],
                        gb[j],
                        n as int,
                        h.m(),
                        vss[j],
                    ),
                forall|j: int|
                    0 <= j < i ==> #[trigger] iv[j].m() == de_value(
                        vss[j],
                        ga[j],
                        gb[j],
                        n as int,
                        h.m(),
                    ),
            decreases n2 + 1 - i,
        {
            let ti = if i == 0 {
                t0
            } else if i == n2 {
                tn
            } else {
                Fx::from_usize(i).sub(nf).mul(h)
            };
            proof {
                assert(ti.m() == de_t(h.m(), n as int, i as int));
            }
            let sh = sinh_fx(ti);
            let w = hpi.mul(sh);
            let phi_i = tanh_fx(w);
            let se = sech_fx(w);
            let phip_i = hpi.mul(cosh_fx(ti)).mul(se.mul(se));
            proof {
                assert(phi_i.m() == de_phi(ti.m()));
                assert(phip_i.m() == de_phip(ti.m()));
            }
            let xi = bma2.mul(phi_i).add(bpa2);
            proof {
                assert(xi == fx_of(de_node(gol, goh, h.m(), n as int, i as int)));
            }
            let gai = (ab2.0)(xi);
            let gbi = (ab2.1)(xi);
            proof {
                assert(observed_at(
                    ab2.0,
                    fx_of(de_node(gol, goh, h.m(), n as int, i as int)),
                    gai.m(),
                ));
                assert(observed_at(
                    ab2.1,
                    fx_of(de_node(gol, goh, h.m(), n as int, i as int)),
                    gbi.m(),
                ));
            }
            let (ri, ivsi) = de_inner(&self.rhs, xi, gai, gbi, n, h);
            iv.push(ri);
            pv.push(phip_i);
            proof {
                ga = ga.push(gai.m());
                gb = gb.push(gbi.m());
                vss = vss.push(ivsi@);
            }
            i = i + 1;
        }
        let ghost ivals = dde_inner_values(vss, ga, gb, n as int, h.m());
        proof {
            assert forall|j: int| 0 <= j <= n2 implies #[trigger] ivals[j] == iv[j].m() by {}
        }
        let send = iv[0].mul(pv[0]).add(iv[n2].mul(pv[n2])).divn(2);
        let mut s = send;
        let mut m: usize = 1;
        while m < n2
            invariant
                1 <= m <= n2,
                n2 == 2 * n,
                1 <= n < 0x20000000,
                iv.len() == n2 + 1,
                pv.len() == n2 + 1,
                ivals.len() == n2 + 1,
                forall|j: int| 0 <= j <= n2 ==> #[trigger] ivals[j] == iv[j].m(),
                forall|j: int|
                    0 <= j <= n2 ==> #[trigger] pv[j].m() == de_phip(de_t(h.m(), n as int, j)),
                s.m() == de_sum(ivals, h.m(), n as int, (m - 1) as nat),
            decreases n2 - m,
        {
            s = s.add(iv[m].mul(pv[m]));
            m = m + 1;
        }
        let core = s.mul(h).mul(hi.sub(lo)).divn(2);
        proof {
            assert(core.m() == de_core(ivals, gol, goh, n as int, h.m()));
            assert(dde_samples(
                self.rhs,
                ab2.0,
                ab2.1,
                ab1.0.m(),
                ab1.1.m(),
                n as int,
                h.m(),
                ga,
                gb,
                vss,
            ));
        }
        if reverse {
            core.neg()
        } else {
            core
        }
    }
}

} // verus!
