//! The one-dimensional quadrature engine: composite trapezoid and Simpson
//! rules, Gauss-Legendre and Chebyshev-Horinouchi rules, and the
//! double-exponential transform, all over a user function.
//!
//! Every rule returns zero on a degenerate interval and integrates over the
//! sorted bounds, negating the result when the bounds arrive reversed. Each
//! rule's contract produces a run of observed samples of the function and
//! pins the result to a spec-level fold over exactly those samples, so the
//! orientation laws are theorems about the folds.

use vstd::prelude::*;
use crate::fx::{
    Fx, SCALE, in_range, tdiv, fadd, fsub, fneg, fabs, fmul, fdiv, fdivn, fof, fx_of, raws,
    seq_fsum, observed_at, deterministic, lemma_fmid_between,
};
use crate::elementary::{HALF_PI_RAW, sinh_spec, cosh_spec, tanh_spec, sech_spec, sinh_fx, cosh_fx, tanh_fx, sech_fx};
use crate::polynomial::pnx_spec;
use crate::polynomial::pnx;
use crate::polynomial::zeta_spec;
use crate::polynomial::zeta_vec;
use std::collections::VecDeque;

verus! {

/// The lower of the two bounds.
pub open spec fn lo_of(a: int, b: int) -> int {
    if a <= b {
        a
    } else {
        b
    }
}

/// The higher of the two bounds.
pub open spec fn hi_of(a: int, b: int) -> int {
    if a <= b {
        b
    } else {
        a
    }
}

/// Applies the orientation rule: zero on a degenerate interval, the core
/// value over sorted bounds, negated when the bounds arrive reversed.
pub open spec fn oriented(a: int, b: int, core: int) -> int {
    if a == b {
        0
    } else if a > b {
        fneg(core)
    } else {
        core
    }
}

/// The panel width of the composite trapezoid rule.
pub open spec fn trap_h(lo: int, hi: int, n: int) -> int {
    fdiv(fsub(hi, lo), fof(n))
}

/// The `i`-th trapezoid sample point: the ends exactly, the interior on
/// the uniform grid.
pub open spec fn trap_node(lo: int, hi: int, n: int, i: int) -> int {
    if i == 0 {
        lo
    } else if i == n {
        hi
    } else {
        fadd(lo, fmul(fof(i), trap_h(lo, hi, n)))
    }
}

/// The trapezoid fold over samples `vs` on the sorted interval: half the
/// end samples plus the interior samples, scaled by the panel width.
pub open spec fn trap_core(vs: Seq<int>, lo: int, hi: int, n: int) -> int {
    fmul(fadd(fdivn(fadd(vs[0], vs[n]), 2), seq_fsum(vs.subrange(1, n))), trap_h(lo, hi, n))
}

/// The trapezoid estimate with orientation handling.
pub open spec fn trap_value(vs: Seq<int>, a: int, b: int, n: int) -> int {
    oriented(a, b, trap_core(vs, lo_of(a, b), hi_of(a, b), n))
}

/// One observed output of `rhs` at each trapezoid sample point.
pub open spec fn trap_samples<F: Fn(Fx) -> Fx>(
    rhs: F,
    a: int,
    b: int,
    n: int,
    vs: Seq<int>,
) -> bool {
    vs.len() == n + 1 && forall|i: int|
        0 <= i <= n ==> #[trigger] observed_at(rhs, fx_of(trap_node(lo_of(a, b), hi_of(a, b), n, i)), vs[i])
}

/// Any fold of samples over a degenerate interval is zero: the orientation
/// rule short-circuits before a sample is weighed.
pub proof fn lemma_oriented_degenerate(a: int, core: int)
    ensures
        oriented(a, a, core) == 0,
{
}

/// Swapping the bounds negates the estimate exactly: the core fold sees
/// the sorted bounds either way, and saturating negation undoes itself on
/// the core's in-range value.
pub proof fn lemma_oriented_antisymmetric(a: int, b: int, core: int)
    requires
        in_range(core),
    ensures
        oriented(a, b, core) == fneg(oriented(b, a, core)),
{
}

/// Orientation antisymmetry of the trapezoid rule: for the same samples,
/// the estimates over `(a, b)` and `(b, a)` are exact negatives, and the
/// samples are taken at the same points either way.
pub proof fn lemma_trapezoid_antisymmetric<F: Fn(Fx) -> Fx>(
    rhs: F,
    vs: Seq<int>,
    a: int,
    b: int,
    n: int,
)
    ensures
        trap_value(vs, a, b, n) == fneg(trap_value(vs, b, a, n)),
        trap_samples(rhs, a, b, n, vs) == trap_samples(rhs, b, a, n, vs),
        trap_value(vs, a, a, n) == 0,
{
    lemma_oriented_antisymmetric(a, b, trap_core(vs, lo_of(a, b), hi_of(a, b), n));
}

/// The half-panel width of the composite Simpson rule, which uses `2 n`
/// panels.
pub open spec fn simp_h(lo: int, hi: int, n: int) -> int {
    fdiv(fsub(hi, lo), fof(2 * n))
}

/// The `i`-th Simpson sample point on the uniform grid.
pub open spec fn simp_node(lo: int, hi: int, n: int, i: int) -> int {
    fadd(lo, fmul(fof(i), simp_h(lo, hi, n)))
}

/// The first `m` even-index Simpson samples, each doubled, folded left to
/// right.
pub open spec fn simp_even(vs: Seq<int>, m: nat) -> int
    decreases m,
{
    if m == 0 {
        0
    } else {
        fadd(simp_even(vs, (m - 1) as nat), fmul(vs[2 * (m as int)], fof(2)))
    }
}

/// The first `m` odd-index Simpson samples, each quadrupled, folded left
/// to right.
pub open spec fn simp_odd(vs: Seq<int>, m: nat) -> int
    decreases m,
{
    if m == 0 {
        0
    } else {
        fadd(simp_odd(vs, (m - 1) as nat), fmul(vs[2 * (m as int) - 1], fof(4)))
    }
}

/// The Simpson fold over samples `vs` on the sorted interval: the
/// 1, 4, 2, ..., 4, 1 pattern scaled by a third of the half-panel width.
pub open spec fn simp_core(vs: Seq<int>, lo: int, hi: int, n: int) -> int {
    fdivn(
        fmul(
            fadd(fadd(fadd(vs[0], vs[2 * n]), simp_even(vs, (n - 1) as nat)), simp_odd(vs, n as nat)),
            simp_h(lo, hi, n),
        ),
        3,
    )
}

/// The Simpson estimate with orientation handling.
pub open spec fn simp_value(vs: Seq<int>, a: int, b: int, n: int) -> int {
    oriented(a, b, simp_core(vs, lo_of(a, b), hi_of(a, b), n))
}

/// One observed output of `rhs` at each Simpson sample point.
pub open spec fn simp_samples<F: Fn(Fx) -> Fx>(
    rhs: F,
    a: int,
    b: int,
    n: int,
    vs: Seq<int>,
) -> bool {
    vs.len() == 2 * n + 1 && forall|i: int|
        0 <= i <= 2 * n ==> #[trigger] observed_at(
            rhs,
            fx_of(simp_node(lo_of(a, b), hi_of(a, b), n, i)),
            vs[i],
        )
}

/// Orientation antisymmetry of the Simpson rule, with degenerate intervals
/// giving zero; the samples are taken at the same points either way.
pub proof fn lemma_simpson_antisymmetric<F: Fn(Fx) -> Fx>(
    rhs: F,
    vs: Seq<int>,
    a: int,
    b: int,
    n: int,
)
    ensures
        simp_value(vs, a, b, n) == fneg(simp_value(vs, b, a, n)),
        simp_samples(rhs, a, b, n, vs) == simp_samples(rhs, b, a, n, vs),
        simp_value(vs, a, a, n) == 0,
{
    lemma_oriented_antisymmetric(a, b, simp_core(vs, lo_of(a, b), hi_of(a, b), n));
}

/// The rule coefficient of the Chebyshev-Horinouchi rule at node `k`,
/// summed over the first `m` cosine terms.
pub open spec fn hnk_sum(n: int, k: int, m: nat) -> int
    decreases m,
{
    if m == 0 {
        0
    } else {
        fadd(
            hnk_sum(n, k, (m - 1) as nat),
            fdivn(
                crate::elementary::cos_spec(fmul(fof(2 * (m as int)), crate::polynomial::theta_spec(n, k))),
                4 * (m as int) * (m as int) - 1,
            ),
        )
    }
}

/// The full rule coefficient of the Chebyshev-Horinouchi rule at node `k`,
/// scaled by `n + 1`.
pub open spec fn hnk(n: int, k: int) -> int {
    fsub(SCALE as int, fmul(fof(2), hnk_sum(n, k, (n / 2) as nat)))
}

/// The affine map from `[-1, 1]` onto the sorted interval, at `t`.
pub open spec fn affine_map(lo: int, hi: int, t: int) -> int {
    fadd(fmul(fdivn(fsub(hi, lo), 2), t), fdivn(fadd(hi, lo), 2))
}

/// The `k`-th Chebyshev-Horinouchi sample point: the `k`-th Chebyshev zero
/// node mapped onto the sorted interval.
pub open spec fn cq_node(lo: int, hi: int, n: int, k: int) -> int {
    affine_map(lo, hi, zeta_spec(n, k))
}

/// The first `m` samples weighed by their rule coefficients, folded left
/// to right.
pub open spec fn cq_s(vs: Seq<int>, n: int, m: nat) -> int
    decreases m,
{
    if m == 0 {
        0
    } else {
        fadd(cq_s(vs, n, (m - 1) as nat), fmul(hnk(n, m - 1), vs[m - 1]))
    }
}

/// The Chebyshev-Horinouchi fold over samples `vs` on the sorted interval.
pub open spec fn cq_core(vs: Seq<int>, lo: int, hi: int, n: int) -> int {
    fmul(fdiv(fsub(hi, lo), fof(n + 1)), cq_s(vs, n, (n + 1) as nat))
}

/// The Chebyshev-Horinouchi estimate with orientation handling.
pub open spec fn cq_value(vs: Seq<int>, a: int, b: int, n: int) -> int {
    oriented(a, b, cq_core(vs, lo_of(a, b), hi_of(a, b), n))
}

/// One observed output of `rhs` at each Chebyshev-Horinouchi sample point.
pub open spec fn cq_samples<F: Fn(Fx) -> Fx>(
    rhs: F,
    a: int,
    b: int,
    n: int,
    vs: Seq<int>,
) -> bool {
    vs.len() == n + 1 && forall|k: int|
        0 <= k <= n ==> #[trigger] observed_at(
            rhs,
            fx_of(cq_node(lo_of(a, b), hi_of(a, b), n, k)),
            vs[k],
        )
}

/// Orientation antisymmetry of the Chebyshev-Horinouchi rule, with
/// degenerate intervals giving zero.
pub proof fn lemma_chebyshev_antisymmetric<F: Fn(Fx) -> Fx>(
    rhs: F,
    vs: Seq<int>,
    a: int,
    b: int,
    n: int,
)
    ensures
        cq_value(vs, a, b, n) == fneg(cq_value(vs, b, a, n)),
        cq_samples(rhs, a, b, n, vs) == cq_samples(rhs, b, a, n, vs),
        cq_value(vs, a, a, n) == 0,
{
    lemma_oriented_antisymmetric(a, b, cq_core(vs, lo_of(a, b), hi_of(a, b), n));
}

/// The double-exponential substitution at `t`.
pub open spec fn de_phi(t: int) -> int {
    tanh_spec(fmul(HALF_PI_RAW as int, sinh_spec(t)))
}

/// The derivative weight of the double-exponential substitution at `t`,
/// evaluated through the hyperbolic secant so that the far tail underflows
/// to zero instead of saturating.
pub open spec fn de_phip(t: int) -> int {
    fmul(
        fmul(HALF_PI_RAW as int, cosh_spec(t)),
        fmul(sech_spec(fmul(HALF_PI_RAW as int, sinh_spec(t))), sech_spec(fmul(HALF_PI_RAW as int, sinh_spec(t)))),
    )
}

/// The `i`-th sample abscissa in transform space: `2 n + 1` uniform steps
/// of width `h` centered on zero.
pub open spec fn de_t(h: int, n: int, i: int) -> int {
    if i == 0 {
        fneg(fmul(h, fof(n)))
    } else if i == 2 * n {
        fmul(h, fof(n))
    } else {
        fmul(fsub(fof(i), fof(n)), h)
    }
}

/// The `i`-th double-exponential sample point on the sorted interval.
pub open spec fn de_node(lo: int, hi: int, h: int, n: int, i: int) -> int {
    affine_map(lo, hi, de_phi(de_t(h, n, i)))
}

/// The trapezoid fold in transform space: the end samples halved, then the
/// interior samples added left to right, each weighed by the derivative.
pub open spec fn de_sum(vs: Seq<int>, h: int, n: int, m: nat) -> int
    decreases m,
{
    if m == 0 {
        fdivn(
            fadd(
                fmul(vs[0], de_phip(de_t(h, n, 0))),
                fmul(vs[2 * n], de_phip(de_t(h, n, 2 * n))),
            ),
            2,
        )
    } else {
        fadd(de_sum(vs, h, n, (m - 1) as nat), fmul(vs[m as int], de_phip(de_t(h, n, m as int))))
    }
}

/// The double-exponential fold over samples `vs` on the sorted interval.
pub open spec fn de_core(vs: Seq<int>, lo: int, hi: int, n: int, h: int) -> int {
    fdivn(fmul(fmul(de_sum(vs, h, n, (2 * n - 1) as nat), h), fsub(hi, lo)), 2)
}

/// The double-exponential estimate with orientation handling.
pub open spec fn de_value(vs: Seq<int>, a: int, b: int, n: int, h: int) -> int {
    oriented(a, b, de_core(vs, lo_of(a, b), hi_of(a, b), n, h))
}

/// One observed output of `rhs` at each double-exponential sample point.
pub open spec fn de_samples<F: Fn(Fx) -> Fx>(
    rhs: F,
    a: int,
    b: int,
    n: int,
    h: int,
    vs: Seq<int>,
) -> bool {
    vs.len() == 2 * n + 1 && forall|i: int|
        0 <= i <= 2 * n ==> #[trigger] observed_at(
            rhs,
            fx_of(de_node(lo_of(a, b), hi_of(a, b), h, n, i)),
            vs[i],
        )
}

/// Orientation antisymmetry of the double-exponential rule, with
/// degenerate intervals giving zero.
pub proof fn lemma_def_antisymmetric<F: Fn(Fx) -> Fx>(
    rhs: F,
    vs: Seq<int>,
    a: int,
    b: int,
    n: int,
    h: int,
)
    ensures
        de_value(vs, a, b, n, h) == fneg(de_value(vs, b, a, n, h)),
        de_samples(rhs, a, b, n, h, vs) == de_samples(rhs, b, a, n, h, vs),
        de_value(vs, a, a, n, h) == 0,
{
    lemma_oriented_antisymmetric(a, b, de_core(vs, lo_of(a, b), hi_of(a, b), n, h));
}

/// The root-isolation and bisection tolerance, about `1e-7`.
pub const DH_RAW: i64 = 109951;

/// There is a bracket narrower than the tolerance around `x` across which
/// the fixed-point Legendre evaluator of degree `n` changes sign.
pub open spec fn root_bracketed(n: nat, x: int) -> bool {
    exists|lox: int, hix: int|
        lox <= x <= hix && hix - lox < DH_RAW && ((#[trigger] pnx_spec(n, lox)) <= 0
            <= (#[trigger] pnx_spec(n, hix)) || pnx_spec(n, hix) <= 0 <= pnx_spec(n, lox))
}

/// The sequence also holds the negative of `v`.
pub open spec fn has_mirror(s: Seq<int>, v: int) -> bool {
    exists|j: int| 0 <= j < s.len() && s[j] == -v
}

/// Every value of a node vector is a legitimate node of degree `n`: zero,
/// or within the search range with a sign-change bracket around its
/// magnitude.
pub open spec fn node_ok(n: nat, m: int) -> bool {
    ||| m == 0
    ||| (DH_RAW <= m <= SCALE - DH_RAW && root_bracketed(n, m))
    ||| (DH_RAW <= -m <= SCALE - DH_RAW && root_bracketed(n, -m))
}

/// The bisection refinement of a bracket under the given orientation,
/// running while the bracket is at least the tolerance wide, on bounded
/// fuel; the width itself is enough fuel, as every step shrinks it.
pub open spec fn refine_fuel(n: nat, inf: int, sup: int, rev: bool, fuel: nat) -> (int, int)
    decreases fuel,
{
    if fuel == 0 || sup - inf < DH_RAW {
        (inf, sup)
    } else {
        let mid = tdiv(inf + sup, 2);
        if pnx_spec(n, mid) < 0 {
            if rev {
                refine_fuel(n, inf, mid, rev, (fuel - 1) as nat)
            } else {
                refine_fuel(n, mid, sup, rev, (fuel - 1) as nat)
            }
        } else {
            if rev {
                refine_fuel(n, mid, sup, rev, (fuel - 1) as nat)
            } else {
                refine_fuel(n, inf, mid, rev, (fuel - 1) as nat)
            }
        }
    }
}

/// The bracket the bisection loop leaves behind.
pub open spec fn refine_spec(n: nat, inf: int, sup: int, rev: bool) -> (int, int) {
    refine_fuel(
        n,
        inf,
        sup,
        rev,
        if sup - inf >= 0 {
            (sup - inf) as nat
        } else {
            0
        },
    )
}

/// The root-isolation search, one popped bracket per step: an inverted
/// bracket is dropped, a bracket without a weak sign change is split at
/// its midpoint, and a sign-changing bracket is refined, its root and
/// mirror recorded, and its outer remainders re-queued while nodes are
/// still missing.
pub open spec fn search_spec(n: nat, ans: Seq<int>, que: Seq<(int, int)>, budget: nat) -> Seq<int>
    decreases budget,
{
    if ans.len() >= n || que.len() == 0 || budget == 0 {
        ans
    } else {
        let r_inf = que[0].0;
        let r_sup = que[0].1;
        let rest = que.drop_first();
        if r_inf > r_sup {
            search_spec(n, ans, rest, (budget - 1) as nat)
        } else {
            let fi = pnx_spec(n, r_inf);
            let fs = pnx_spec(n, r_sup);
            let fwd = fi <= 0 && fs >= 0;
            let rev = fi >= 0 && fs <= 0;
            if !fwd && !rev {
                let mid = tdiv(r_inf + r_sup, 2);
                search_spec(
                    n,
                    ans,
                    rest.push((r_inf, mid)).push((mid, r_sup)),
                    (budget - 1) as nat,
                )
            } else {
                let fin = refine_spec(n, r_inf, r_sup, rev);
                let ans2 = ans.push(fin.0).push(-fin.0);
                let que2 = if ans2.len() < n {
                    rest.push((r_inf, fin.0 - DH_RAW)).push((fin.1 + DH_RAW, r_sup))
                } else {
                    rest
                };
                search_spec(n, ans2, que2, (budget - 1) as nat)
            }
        }
    }
}

/// The position straight insertion gives `x` in the sorted prefix: scan
/// from the end past every strictly larger entry.
pub open spec fn find_pos(s: Seq<int>, x: int, j: nat) -> int
    decreases j,
{
    if j == 0 {
        0
    } else if s[j - 1] <= x {
        j as int
    } else {
        find_pos(s, x, (j - 1) as nat)
    }
}

/// The first `i` entries placed by straight insertion.
pub open spec fn sort_upto(s: Seq<int>, i: nat) -> Seq<int>
    decreases i,
{
    if i == 0 {
        Seq::empty()
    } else {
        let prev = sort_upto(s, (i - 1) as nat);
        prev.insert(find_pos(prev, s[i - 1], prev.len()), s[i - 1])
    }
}

/// The sequence sorted by straight insertion.
pub open spec fn sort_raws(s: Seq<int>) -> Seq<int> {
    sort_upto(s, s.len())
}

/// The node the search seeds before any bracket is popped: the exact root
/// at zero for odd degree, nothing for even degree.
pub open spec fn seed_nodes(n: nat) -> Seq<int> {
    if n % 2 == 1 {
        seq![0int]
    } else {
        Seq::empty()
    }
}

/// The single bracket the search starts from.
pub open spec fn init_brackets() -> Seq<(int, int)> {
    seq![(DH_RAW as int, (SCALE - DH_RAW) as int)]
}

/// The step budget the search runs under.
pub open spec fn search_budget(n: nat) -> nat {
    65536 + 1024 * n
}

/// The exact node vector the search produces for degree `n`: the seeded
/// and recorded roots, sorted. This pins `solve_pnx` to one deterministic
/// result per degree.
pub open spec fn solve_pnx_nodes(n: nat) -> Seq<int> {
    sort_raws(search_spec(n, seed_nodes(n), init_brackets(), search_budget(n)))
}

/// The integer pairs a bracket queue holds.
pub open spec fn qpairs(s: Seq<(i64, i64)>) -> Seq<(int, int)> {
    Seq::new(s.len(), |i: int| (s[i].0 as int, s[i].1 as int))
}

/// Raw values commute with insertion into a sequence.
proof fn lemma_raws_insert(s: Seq<Fx>, j: int, x: Fx)
    requires
        0 <= j <= s.len(),
    ensures
        raws(s.insert(j, x)) =~= raws(s).insert(j, x.m()),
{
    s.insert_ensures(j, x);
    raws(s).insert_ensures(j, x.m());
}

/// Sorts nodes by value with straight insertion; every value of the output
/// comes from the input and every input value appears in the output.
/// Inserting `x` at its found position keeps the output sorted and keeps
/// its values exactly those seen so far.
proof fn lemma_insert_keeps(oldout: Seq<Fx>, out: Seq<Fx>, v: Seq<Fx>, i: int, j: int)
    requires
        0 <= i < v.len(),
        0 <= j <= oldout.len(),
        out == oldout.insert(j, v[i]),
        forall|p: int, q: int| 0 <= p < q < oldout.len() ==> oldout[p].m() <= oldout[q].m(),
        forall|y: Fx| #[trigger] oldout.contains(y) ==> v.contains(y),
        forall|k: int| 0 <= k < i ==> oldout.contains(#[trigger] v[k]),
        forall|k: int| j <= k < oldout.len() ==> oldout[k].m() > v[i].m(),
        j > 0 ==> oldout[j - 1].m() <= v[i].m(),
    ensures
        forall|p: int, q: int| 0 <= p < q < out.len() ==> out[p].m() <= out[q].m(),
        forall|y: Fx| #[trigger] out.contains(y) ==> v.contains(y),
        forall|k: int| 0 <= k < i + 1 ==> out.contains(#[trigger] v[k]),
{
    let x = v[i];
    oldout.insert_ensures(j, x);
    assert forall|p: int, q: int| 0 <= p < q < out.len() implies out[p].m() <= out[q].m() by {
        if q < j {
        } else if p < j && q == j {
            assert(out[p] == oldout[p]);
            assert(oldout[p].m() <= oldout[j - 1].m());
        } else if p < j && q > j {
            assert(out[p] == oldout[p]);
            assert(out[q] == oldout[q - 1]);
            if q - 1 > p {
                assert(oldout[p].m() <= oldout[q - 1].m());
            }
        } else if p == j {
            assert(out[q] == oldout[q - 1]);
            assert(oldout[q - 1].m() > x.m());
        } else {
            assert(out[p] == oldout[p - 1]);
            assert(out[q] == oldout[q - 1]);
        }
    }
    assert forall|y: Fx| #[trigger] out.contains(y) implies v.contains(y) by {
        let k = choose|k: int| 0 <= k < out.len() && out[k] == y;
        if k < j {
            assert(oldout[k] == y);
            assert(oldout.contains(y));
        } else if k == j {
            assert(v[i] == y);
        } else {
            assert(oldout[k - 1] == y);
            assert(oldout.contains(y));
        }
    }
    assert forall|k: int| 0 <= k < i + 1 implies out.contains(#[trigger] v[k]) by {
        if k < i {
            assert(oldout.contains(v[k]));
            let p = choose|p: int| 0 <= p < oldout.len() && oldout[p] == v[k];
            if p < j {
                assert(out[p] == v[k]);
            } else {
                assert(out[p + 1] == v[k]);
            }
        } else {
            assert(out[j] == v[k]);
        }
    }
}

fn sort_nodes(v: &Vec<Fx>) -> (r: Vec<Fx>)
    ensures
        r.len() == v.len(),
        raws(r@) == sort_raws(raws(v@)),
        forall|i: int, j: int| 0 <= i < j < r.len() ==> r@[i].m() <= r@[j].m(),
        forall|y: Fx| #[trigger] r@.contains(y) ==> v@.contains(y),
        forall|k: int| 0 <= k < v.len() ==> r@.contains(#[trigger] v@[k]),
{
    let mut out: Vec<Fx> = Vec::new();
    let mut i: usize = 0;
    while i < v.len()
        invariant
            0 <= i <= v.len(),
            out.len() == i,
            raws(out@) == sort_upto(raws(v@), i as nat),
            forall|p: int, q: int| 0 <= p < q < out.len() ==> out@[p].m() <= out@[q].m(),
            forall|y: Fx| #[trigger] out@.contains(y) ==> v@.contains(y),
            forall|k: int| 0 <= k < i ==> out@.contains(#[trigger] v@[k]),
        decreases v.len() - i,
    {
        let x = v[i];
        let mut j: usize = out.len();
        while j > 0 && out[j - 1].raw > x.raw
            invariant
                0 <= j <= out.len(),
                forall|p: int, q: int| 0 <= p < q < out.len() ==> out@[p].m() <= out@[q].m(),
                forall|k: int| j <= k < out.len() ==> out@[k].m() > x.m(),
                find_pos(raws(out@), x.m(), out@.len() as nat) == find_pos(
                    raws(out@),
                    x.m(),
                    j as nat,
                ),
            decreases j,
        {
            j = j - 1;
        }
        proof {
            assert(find_pos(raws(out@), x.m(), out@.len() as nat) == j as int);
        }
        let ghost oldout = out@;
        out.insert(j, x);
        proof {
            lemma_insert_keeps(oldout, out@, v@, i as int, j as int);
            lemma_raws_insert(oldout, j as int, x);
            assert(raws(v@)[i as int] == x.m());
            assert(raws(out@) == sort_upto(raws(v@), (i + 1) as nat));
        }
        i = i + 1;
    }
    proof {
        assert(raws(out@) == sort_raws(raws(v@)));
    }
    out
}

/// Finds the real roots of the Legendre polynomial of degree `n` inside
/// `(-1, 1)` by bracket splitting and bisection.
///
/// Positive roots are located to the tolerance and recorded together with
/// their mirror images; for odd degree the root at zero is seeded directly.
/// The result is sorted, holds at most `n` nodes, each strictly inside
/// `(-1, 1)`, the negative of every node is also a node, and around the
/// magnitude of every nonzero node the evaluator changes sign within the
/// tolerance. The search walks a work queue under a step budget, so fewer
/// than `n` nodes can come back for degrees whose roots defeat the
/// splitting; for moderate degrees all are found. The whole search is
/// mirrored by `solve_pnx_nodes`, so equal degrees give one pinned,
/// identical node vector.
#[verifier::rlimit(100)]
pub fn solve_pnx(n: usize) -> (r: Vec<Fx>)
    requires
        n < 0x40000000,
    ensures
        raws(r@) == solve_pnx_nodes(n as nat),
        r.len() <= n,
        forall|i: int, j: int| 0 <= i < j < r.len() ==> r@[i].m() <= r@[j].m(),
        forall|i: int| 0 <= i < r.len() ==> -(SCALE as int) < #[trigger] r@[i].m() < SCALE as int,
        forall|i: int| 0 <= i < r.len() ==> node_ok(n as nat, #[trigger] r@[i].m()),
        forall|i: int| 0 <= i < r.len() ==> has_mirror(raws(r@), #[trigger] raws(r@)[i]),
        n % 2 == 1 ==> r.len() >= 1 && raws(r@).contains(0),
{
    let mut ans: Vec<Fx> = Vec::new();
    if n % 2 == 1 {
        ans.push(Fx::zero());
        proof {
            assert(raws(ans@)[0] == 0);
            assert(raws(ans@).contains(0));
        }
    }
    proof {
        assert(raws(ans@) =~= seed_nodes(n as nat));
    }
    let mut que: VecDeque<(i64, i64)> = VecDeque::new();
    que.push_back((DH_RAW, SCALE - DH_RAW));
    let mut budget: u64 = 65536 + 1024 * (n as u64);
    proof {
        assert(qpairs(que@) =~= init_brackets());
        assert(budget as nat == search_budget(n as nat));
    }
    while ans.len() < n && que.len() > 0 && budget > 0
        invariant
            n < 0x40000000,
            ans.len() <= n,
            ans.len() % 2 == n % 2,
            search_spec(n as nat, raws(ans@), qpairs(que@), budget as nat) == search_spec(
                n as nat,
                seed_nodes(n as nat),
                init_brackets(),
                search_budget(n as nat),
            ),
            forall|q: int|
                0 <= q < que@.len() ==> DH_RAW <= (#[trigger] que@[q]).0 && que@[q].1 <= SCALE
                    - DH_RAW,
            forall|i: int| 0 <= i < ans.len() ==> node_ok(n as nat, #[trigger] ans@[i].m()),
            forall|i: int|
                0 <= i < ans.len() ==> has_mirror(raws(ans@), #[trigger] raws(ans@)[i]),
            n % 2 == 1 ==> ans.len() >= 1 && raws(ans@).contains(0),
        decreases budget,
    {
        let ghost bud0: nat = budget as nat;
        let ghost que0: Seq<(int, int)> = qpairs(que@);
        let ghost ans0: Seq<int> = raws(ans@);
        budget = budget - 1;
        let bracket = que.pop_front().unwrap();
        let (r_inf, r_sup) = bracket;
        proof {
            assert(qpairs(que@) =~= que0.drop_first());
            assert((r_inf as int, r_sup as int) == que0[0]);
        }
        let mut inf = r_inf;
        let mut sup = r_sup;
        if inf > sup {
            proof {
                assert(search_spec(n as nat, ans0, que0, bud0) == search_spec(
                    n as nat,
                    raws(ans@),
                    qpairs(que@),
                    budget as nat,
                ));
            }
            continue ;
        }
        let f_inf = pnx(n, Fx { raw: inf });
        let f_sup = pnx(n, Fx { raw: sup });
        let fwd: bool = f_inf.raw <= 0 && f_sup.raw >= 0;
        let rev: bool = f_inf.raw >= 0 && f_sup.raw <= 0;
        if !fwd && !rev {
            let mid = crate::fx::tdiv64(inf + sup, 2);
            proof {
                vstd::arithmetic::div_mod::lemma_fundamental_div_mod(inf + sup, 2);
            }
            let ghost quedrop = qpairs(que@);
            que.push_back((inf, mid));
            que.push_back((mid, sup));
            proof {
                assert(qpairs(que@) =~= quedrop.push((inf as int, mid as int)).push(
                    (mid as int, sup as int),
                ));
                assert(search_spec(n as nat, ans0, que0, bud0) == search_spec(
                    n as nat,
                    raws(ans@),
                    qpairs(que@),
                    budget as nat,
                ));
            }
            continue ;
        }
        let ghost mut rfuel: nat = (sup - inf) as nat;
        proof {
            assert(refine_fuel(n as nat, inf as int, sup as int, rev, rfuel) == refine_spec(
                n as nat,
                r_inf as int,
                r_sup as int,
                rev,
            ));
        }
        while sup - inf >= DH_RAW
            invariant
                n < 0x40000000,
                DH_RAW <= inf <= sup <= SCALE - DH_RAW,
                !rev ==> pnx_spec(n as nat, inf as int) <= 0 && pnx_spec(n as nat, sup as int)
                    >= 0,
                rev ==> pnx_spec(n as nat, inf as int) >= 0 && pnx_spec(n as nat, sup as int)
                    <= 0,
                rfuel >= sup - inf,
                refine_fuel(n as nat, inf as int, sup as int, rev, rfuel) == refine_spec(
                    n as nat,
                    r_inf as int,
                    r_sup as int,
                    rev,
                ),
            decreases sup - inf,
        {
            proof {
                lemma_fmid_between(inf as int, sup as int);
                vstd::arithmetic::div_mod::lemma_fundamental_div_mod(inf + sup, 2);
            }
            let mid = crate::fx::tdiv64(inf + sup, 2);
            let f_mid = pnx(n, Fx { raw: mid });
            let ghost oinf = inf as int;
            let ghost osup = sup as int;
            if f_mid.raw < 0 {
                if rev {
                    sup = mid;
                } else {
                    inf = mid;
                }
            } else {
                if rev {
                    inf = mid;
                } else {
                    sup = mid;
                }
            }
            proof {
                assert(refine_fuel(n as nat, oinf, osup, rev, rfuel) == refine_fuel(
                    n as nat,
                    inf as int,
                    sup as int,
                    rev,
                    (rfuel - 1) as nat,
                ));
                rfuel = (rfuel - 1) as nat;
            }
        }
        proof {
            assert((inf as int, sup as int) == refine_spec(n as nat, r_inf as int, r_sup as int, rev));
        }
        proof {
            assert(root_bracketed(n as nat, inf as int)) by {
                assert((sup as int) - (inf as int) < DH_RAW);
                assert((pnx_spec(n as nat, inf as int) <= 0 <= pnx_spec(n as nat, sup as int))
                    || (pnx_spec(n as nat, sup as int) <= 0 <= pnx_spec(n as nat, inf as int)));
            }
        }
        let ghost anspre = ans@;
        ans.push(Fx { raw: inf });
        ans.push(Fx { raw: -inf });
        proof {
            assert(node_ok(n as nat, inf as int));
            assert(node_ok(n as nat, -inf as int));
            assert forall|i: int| 0 <= i < ans@.len() implies has_mirror(
                raws(ans@),
                #[trigger] raws(ans@)[i],
            ) by {
                if i < anspre.len() {
                    assert(raws(ans@)[i] == raws(anspre)[i]);
                    let j = choose|j: int|
                        0 <= j < anspre.len() && raws(anspre)[j] == -raws(anspre)[i];
                    assert(raws(ans@)[j] == -raws(ans@)[i]);
                } else if i == anspre.len() {
                    assert(raws(ans@)[i + 1] == -raws(ans@)[i]);
                } else {
                    assert(raws(ans@)[i - 1] == -raws(ans@)[i]);
                }
            }
            if n % 2 == 1 {
                let z = choose|j: int| 0 <= j < anspre.len() && raws(anspre)[j] == 0;
                assert(raws(ans@)[z] == 0);
            }
        }
        let ghost quedrop = qpairs(que@);
        if ans.len() < n {
            que.push_back((r_inf, inf - DH_RAW));
            que.push_back((sup + DH_RAW, r_sup));
            proof {
                assert(qpairs(que@) =~= quedrop.push(
                    (r_inf as int, inf as int - DH_RAW),
                ).push((sup as int + DH_RAW, r_sup as int)));
            }
        }
        proof {
            assert(raws(ans@) =~= ans0.push(inf as int).push(-(inf as int)));
            assert(search_spec(n as nat, ans0, que0, bud0) == search_spec(
                n as nat,
                raws(ans@),
                qpairs(que@),
                budget as nat,
            ));
        }
    }
    proof {
        assert(search_spec(n as nat, raws(ans@), qpairs(que@), budget as nat) == raws(ans@));
    }
    let sorted = sort_nodes(&ans);
    proof {
        assert forall|i: int| 0 <= i < sorted@.len() implies node_ok(
            n as nat,
            #[trigger] sorted@[i].m(),
        ) && -(SCALE as int) < sorted@[i].m() < SCALE as int by {
            assert(sorted@.contains(sorted@[i]));
            assert(ans@.contains(sorted@[i]));
            let k = choose|k: int| 0 <= k < ans@.len() && ans@[k] == sorted@[i];
            assert(node_ok(n as nat, ans@[k].m()));
        }
        assert forall|i: int| 0 <= i < sorted@.len() implies has_mirror(
            raws(sorted@),
            #[trigger] raws(sorted@)[i],
        ) by {
            assert(sorted@.contains(sorted@[i]));
            assert(ans@.contains(sorted@[i]));
            let k = choose|k: int| 0 <= k < ans@.len() && ans@[k] == sorted@[i];
            assert(raws(ans@)[k] == raws(sorted@)[i]);
            let j = choose|j: int| 0 <= j < ans@.len() && raws(ans@)[j] == -raws(ans@)[k];
            assert(sorted@.contains(ans@[j]));
            let j2 = choose|j2: int| 0 <= j2 < sorted@.len() && sorted@[j2] == ans@[j];
            assert(raws(sorted@)[j2] == -raws(sorted@)[i]);
        }
        if n % 2 == 1 {
            let z = choose|j: int| 0 <= j < ans@.len() && raws(ans@)[j] == 0;
            assert(sorted@.contains(ans@[z]));
            let z2 = choose|z2: int| 0 <= z2 < sorted@.len() && sorted@[z2] == ans@[z];
            assert(raws(sorted@)[z2] == 0);
        }
        assert(raws(sorted@) == solve_pnx_nodes(n as nat));
    }
    sorted
}

/// The running product of the differences `ai - ar[j]` over the first `m`
/// entries of `ar`.
pub open spec fn denom_prod(ar: Seq<int>, ai: int, m: nat) -> int
    decreases m,
{
    if m == 0 {
        SCALE as int
    } else {
        fmul(denom_prod(ar, ai, (m - 1) as nat), fsub(ai, ar[m - 1]))
    }
}

/// The saturating sum of the last `t` entries of `ar`, which has length
/// `nar`, accumulated from the end inward.
pub open spec fn tail_sum(ar: Seq<int>, nar: int, t: nat) -> int
    decreases t,
{
    if t == 0 {
        0
    } else {
        fadd(tail_sum(ar, nar, (t - 1) as nat), ar[nar - (t as int)])
    }
}

/// The table of tail sums handed to the subset recursion: entry `q` holds
/// the sum of the last `ll - q` entries.
pub open spec fn ps_seq(ar: Seq<int>, nar: int, ll: int) -> Seq<int> {
    Seq::new(ll as nat, |q: int| tail_sum(ar, nar, (ll - q) as nat))
}

/// The subset recursion behind the Gauss-Legendre weights: at the deepest
/// level it reads the tail-sum table, above it it sums recursive values
/// over the remaining indices, scaling by the node of the current level.
pub open spec fn rec_sum_spec(
    j: int,
    nar: int,
    dep: int,
    now: int,
    ar: Seq<int>,
    ps: Seq<int>,
) -> int
    decreases dep - now, nar + 2,
{
    if now + 1 == dep {
        if dep == 1 {
            ps[0]
        } else {
            fmul(ar[j], ps[j + 2 - dep])
        }
    } else if now + 1 < dep && 0 <= j < nar {
        let start = if now == 0 {
            j
        } else {
            j + 1
        };
        let s = rec_loop(nar, start, nar, dep, now, ar, ps);
        if now == 0 {
            s
        } else {
            fmul(s, ar[j])
        }
    } else {
        0
    }
}

/// The left-to-right fold of the subset recursion over indices in
/// `[start, m)`, skipping indices the depth no longer admits.
pub open spec fn rec_loop(
    m: int,
    start: int,
    nar: int,
    dep: int,
    now: int,
    ar: Seq<int>,
    ps: Seq<int>,
) -> int
    decreases dep - now, m - start,
{
    if m <= start || now + 1 >= dep || start < 0 {
        0
    } else {
        fadd(
            rec_loop(m - 1, start, nar, dep, now, ar, ps),
            if nar + now >= dep + (m - 1) {
                rec_sum_spec(m - 1, nar, dep, now + 1, ar, ps)
            } else {
                0
            },
        )
    }
}

/// The numerator of a Gauss-Legendre weight, folded over its first `m`
/// even-degree terms, each divided by its odd integer.
pub open spec fn numer_upto(ar: Seq<int>, nar: int, m: nat) -> int
    decreases m,
{
    if m == 0 {
        0
    } else {
        let k = (m - 1) as int;
        let dep = nar - 2 * k;
        let term = if dep == 0 {
            SCALE as int
        } else {
            fdivn(rec_sum_spec(0, nar, dep, 0, ar, ps_seq(ar, nar, nar + 1 - dep)), 2 * k + 1)
        };
        fadd(numer_upto(ar, nar, (m - 1) as nat), term)
    }
}

/// The Gauss-Legendre weight of node `i`: twice the magnitude of the
/// numerator over the product of node differences.
pub open spec fn weight_of(av: Seq<int>, n: int, i: int) -> int {
    let ar = av.remove(i);
    let nar = n - 1;
    let nw = (n + 1) / 2;
    fmul(fabs(fdiv(numer_upto(ar, nar, nw as nat), denom_prod(ar, av[i], nar as nat))), fof(2))
}

/// The weight at position `idx`: computed for the first half, taken from
/// the symmetric partner for the second.
pub open spec fn weight_at(av: Seq<int>, n: int, idx: int) -> int {
    if idx < (n + 1) / 2 {
        weight_of(av, n, idx)
    } else {
        weight_of(av, n, n - 1 - idx)
    }
}

/// Symmetric nodes share equal weight: the weight table reads the same
/// from either end.
pub proof fn lemma_weights_symmetric(av: Seq<int>, n: int)
    ensures
        forall|i: int| 0 <= i < n ==> #[trigger] weight_at(av, n, i) == weight_at(av, n, n - 1 - i),
{
}

/// The subset recursion, exactly as its spec mirror computes it.
fn rec_sum(j: usize, nar: usize, dep: usize, now: usize, ar: &Vec<Fx>, ps: &Vec<Fx>) -> (r: Fx)
    requires
        ar.len() == nar,
        ps.len() == nar + 1 - dep,
        1 <= dep <= nar,
        now < dep,
        nar < 0x40000000,
        now == 0 ==> j == 0,
        now >= 1 ==> j + 1 >= now && dep + j + 1 <= nar + now,
    ensures
        r.m() == rec_sum_spec(j as int, nar as int, dep as int, now as int, raws(ar@), raws(ps@)),
    decreases dep - now,
{
    if now + 1 == dep {
        if dep == 1 {
            ps[0]
        } else {
            ar[j].mul(ps[j + 2 - dep])
        }
    } else {
        let start = if now == 0 {
            j
        } else {
            j + 1
        };
        let mut s = Fx::zero();
        let mut k = start;
        while k < nar
            invariant
                ar.len() == nar,
                ps.len() == nar + 1 - dep,
                1 <= dep <= nar,
                now + 1 < dep,
                nar < 0x40000000,
                now == 0 ==> j == 0,
                now >= 1 ==> j + 1 >= now && dep + j + 1 <= nar + now,
                start == if now == 0 {
                    j as int
                } else {
                    j + 1
                },
                start <= k <= nar,
                s.m() == rec_loop(
                    k as int,
                    start as int,
                    nar as int,
                    dep as int,
                    now as int,
                    raws(ar@),
                    raws(ps@),
                ),
            decreases nar - k,
        {
            if nar + now >= dep + k {
                let t = rec_sum(k, nar, dep, now + 1, ar, ps);
                s = s.add(t);
            } else {
                s = s.add(Fx::zero());
            }
            k = k + 1;
        }
        if now == 0 {
            s
        } else {
            s.mul(ar[j])
        }
    }
}

/// Computes the Gauss-Legendre quadrature weights for the node vector by
/// the combinatorial closed form.
///
/// Each of the first half of the weights is computed from the elementary
/// symmetric sums of the other nodes; the second half mirrors the first,
/// so symmetric nodes share equal weight. True Gauss-Legendre weights are
/// strictly positive, but that is an analytic fact about Legendre roots,
/// and truncation can round a small enough weight to zero, so the contract
/// deliberately promises only nonnegativity, which the magnitude-times-two
/// form gives by construction.
pub fn calc_weights(a: &Vec<Fx>) -> (r: Vec<Fx>)
    requires
        a.len() < 0x40000000,
    ensures
        r.len() == a.len(),
        forall|i: int|
            0 <= i < r.len() ==> #[trigger] r@[i].m() == weight_at(raws(a@), a.len() as int, i),
        forall|i: int| 0 <= i < r.len() ==> #[trigger] r@[i].m() == r@[a.len() - 1 - i].m(),
        forall|i: int| 0 <= i < r.len() ==> 0 <= #[trigger] r@[i].m(),
{
    let n = a.len();
    let nw = (n + 1) / 2;
    let two = Fx::from_int(2);
    let mut half: Vec<Fx> = Vec::new();
    let mut i: usize = 0;
    while i < nw
        invariant
            n == a.len(),
            nw == (n + 1) / 2,
            n < 0x40000000,
            two.m() == fof(2),
            half.len() == i,
            0 <= i <= nw,
            forall|k: int|
                0 <= k < i ==> #[trigger] half@[k].m() == weight_of(raws(a@), n as int, k),
        decreases nw - i,
    {
        let mut ar: Vec<Fx> = Vec::new();
        let mut j: usize = 0;
        while j < n
            invariant
                n == a.len(),
                i < nw,
                nw == (n + 1) / 2,
                0 <= j <= n,
                j <= i ==> ar@ == a@.subrange(0, j as int),
                j > i ==> ar@ == a@.subrange(0, i as int) + a@.subrange(i + 1, j as int),
            decreases n - j,
        {
            if j != i {
                ar.push(a[j]);
                proof {
                    if j < i {
                        assert(ar@ =~= a@.subrange(0, j + 1));
                    } else {
                        assert(ar@ =~= a@.subrange(0, i as int) + a@.subrange(i + 1, j + 1));
                    }
                }
            } else {
                proof {
                    assert(ar@ =~= a@.subrange(0, i as int) + a@.subrange(i + 1, i + 1));
                }
            }
            j = j + 1;
        }
        proof {
            assert(ar@ =~= a@.remove(i as int));
            assert(raws(ar@) =~= raws(a@).remove(i as int));
        }
        let ai = a[i];
        let nar = n - 1;
        let mut denom = Fx::one();
        let mut j2: usize = 0;
        while j2 < nar
            invariant
                ar.len() == nar,
                ai.m() == raws(a@)[i as int],
                0 <= j2 <= nar,
                denom.m() == denom_prod(raws(ar@), ai.m(), j2 as nat),
            decreases nar - j2,
        {
            denom = denom.mul(ai.sub(ar[j2]));
            j2 = j2 + 1;
        }
        let mut numer = Fx::zero();
        let mut k: usize = 0;
        while k < nw
            invariant
                n == a.len(),
                ar.len() == nar,
                nar == n - 1,
                i < nw,
                nw == (n + 1) / 2,
                n < 0x40000000,
                0 <= k <= nw,
                numer.m() == numer_upto(raws(ar@), nar as int, k as nat),
            decreases nw - k,
        {
            let dep = nar - 2 * k;
            let term: Fx = if dep == 0 {
                Fx::one()
            } else {
                let ll = nar + 1 - dep;
                let mut rev_ps: Vec<Fx> = Vec::new();
                let mut s = Fx::zero();
                let mut l: usize = 0;
                while l < ll
                    invariant
                        ar.len() == nar,
                        1 <= dep <= nar,
                        ll == nar + 1 - dep,
                        0 <= l <= ll,
                        rev_ps.len() == l,
                        s.m() == tail_sum(raws(ar@), nar as int, l as nat),
                        forall|q: int|
                            0 <= q < l ==> #[trigger] rev_ps@[q].m() == tail_sum(
                                raws(ar@),
                                nar as int,
                                (q + 1) as nat,
                            ),
                    decreases ll - l,
                {
                    s = s.add(ar[nar - 1 - l]);
                    rev_ps.push(s);
                    l = l + 1;
                }
                let mut ps: Vec<Fx> = Vec::new();
                let mut q: usize = 0;
                while q < ll
                    invariant
                        rev_ps.len() == ll,
                        ll == nar + 1 - dep,
                        1 <= dep <= nar,
                        ar.len() == nar,
                        0 <= q <= ll,
                        ps.len() == q,
                        forall|p: int|
                            0 <= p < ll ==> #[trigger] rev_ps@[p].m() == tail_sum(
                                raws(ar@),
                                nar as int,
                                (p + 1) as nat,
                            ),
                        forall|p: int|
                            0 <= p < q ==> #[trigger] ps@[p].m() == tail_sum(
                                raws(ar@),
                                nar as int,
                                (ll - p) as nat,
                            ),
                    decreases ll - q,
                {
                    ps.push(rev_ps[ll - 1 - q]);
                    q = q + 1;
                }
                proof {
                    assert(raws(ps@) =~= ps_seq(raws(ar@), nar as int, ll as int));
                }
                let rs = rec_sum(0, nar, dep, 0, &ar, &ps);
                rs.divn((2 * k + 1) as i64)
            };
            numer = numer.add(term);
            k = k + 1;
        }
        let w = numer.div(denom).abs().mul(two);
        proof {
            assert(w.m() == weight_of(raws(a@), n as int, i as int));
        }
        half.push(w);
        i = i + 1;
    }
    let mut out: Vec<Fx> = Vec::new();
    let mut idx: usize = 0;
    while idx < n
        invariant
            n == a.len(),
            nw == (n + 1) / 2,
            half.len() == nw,
            forall|k: int|
                0 <= k < nw ==> #[trigger] half@[k].m() == weight_of(raws(a@), n as int, k),
            0 <= idx <= n,
            out.len() == idx,
            forall|p: int|
                0 <= p < idx ==> #[trigger] out@[p].m() == weight_at(raws(a@), n as int, p),
        decreases n - idx,
    {
        if idx < nw {
            out.push(half[idx]);
        } else {
            out.push(half[n - 1 - idx]);
        }
        idx = idx + 1;
    }
    proof {
        lemma_weights_symmetric(raws(a@), n as int);
        assert forall|i2: int| 0 <= i2 < out@.len() implies 0 <= #[trigger] out@[i2].m() by {
            lemma_weight_at_nonneg(raws(a@), n as int, i2);
        }
    }
    out
}

/// Every weight the closed form yields is nonnegative: it is a magnitude
/// scaled by two.
proof fn lemma_weight_at_nonneg(av: Seq<int>, n: int, idx: int)
    ensures
        0 <= weight_at(av, n, idx),
{
    let i = if idx < (n + 1) / 2 {
        idx
    } else {
        n - 1 - idx
    };
    let ar = av.remove(i);
    let q = fabs(fdiv(numer_upto(ar, n - 1, ((n + 1) / 2) as nat), denom_prod(ar, av[i], (n - 1) as nat)));
    assert(0 <= q);
    assert(weight_at(av, n, idx) == fmul(q, fof(2)));
    assert(0 <= tdiv(q * (SCALE as int), SCALE as int)) by {
        vstd::arithmetic::mul::lemma_mul_nonnegative(q, SCALE as int);
    }
}

/// The weighted fold reads only the first `m` samples, so extending the
/// sample run does not change it.
pub proof fn lemma_gl_s_prefix(a: Seq<int>, b: Seq<int>, w: Seq<int>, m: nat)
    requires
        m <= a.len(),
        m <= b.len(),
        forall|i: int| 0 <= i < m ==> a[i] == b[i],
    ensures
        gl_s(a, w, m) == gl_s(b, w, m),
    decreases m,
{
    if m > 0 {
        lemma_gl_s_prefix(a, b, w, (m - 1) as nat);
    }
}

/// A legitimate Gauss-Legendre node set for degree `n`: sorted, strictly
/// inside `(-1, 1)`, closed under negation, each value zero or bracketing
/// a sign change of the evaluator, with the zero node present for odd
/// degree, and no more than `n` of them.
pub open spec fn gl_node_set(n: nat, alpha: Seq<int>) -> bool {
    &&& alpha.len() <= n
    &&& forall|i: int, j: int| 0 <= i < j < alpha.len() ==> alpha[i] <= alpha[j]
    &&& forall|i: int| 0 <= i < alpha.len() ==> -(SCALE as int) < #[trigger] alpha[i] < SCALE as int
    &&& forall|i: int| 0 <= i < alpha.len() ==> node_ok(n, #[trigger] alpha[i])
    &&& forall|i: int| 0 <= i < alpha.len() ==> has_mirror(alpha, #[trigger] alpha[i])
    &&& (n % 2 == 1 ==> alpha.len() >= 1 && alpha.contains(0))
}

/// The weight table that the closed form assigns to a node vector.
pub open spec fn gl_weights(alpha: Seq<int>) -> Seq<int> {
    Seq::new(alpha.len(), |i: int| weight_at(alpha, alpha.len() as int, i))
}

/// The first `m` samples weighed by the Gauss-Legendre weights, folded
/// left to right.
pub open spec fn gl_s(vs: Seq<int>, w: Seq<int>, m: nat) -> int
    decreases m,
{
    if m == 0 {
        0
    } else {
        fadd(gl_s(vs, w, (m - 1) as nat), fmul(w[m - 1], vs[m - 1]))
    }
}

/// The Gauss-Legendre fold over samples `vs` on the sorted interval.
pub open spec fn gl_core(vs: Seq<int>, alpha: Seq<int>, lo: int, hi: int) -> int {
    fmul(fdivn(fsub(hi, lo), 2), gl_s(vs, gl_weights(alpha), alpha.len()))
}

/// The Gauss-Legendre estimate with orientation handling.
pub open spec fn gl_value(vs: Seq<int>, alpha: Seq<int>, a: int, b: int) -> int {
    oriented(a, b, gl_core(vs, alpha, lo_of(a, b), hi_of(a, b)))
}

/// One observed output of `rhs` at each node mapped onto the sorted
/// interval.
pub open spec fn gl_samples<F: Fn(Fx) -> Fx>(
    rhs: F,
    a: int,
    b: int,
    alpha: Seq<int>,
    vs: Seq<int>,
) -> bool {
    vs.len() == alpha.len() && forall|i: int|
        0 <= i < alpha.len() ==> #[trigger] observed_at(
            rhs,
            fx_of(affine_map(lo_of(a, b), hi_of(a, b), alpha[i])),
            vs[i],
        )
}

/// Orientation antisymmetry of the Gauss-Legendre rule, with degenerate
/// intervals giving zero.
pub proof fn lemma_gauss_legendre_antisymmetric<F: Fn(Fx) -> Fx>(
    rhs: F,
    vs: Seq<int>,
    alpha: Seq<int>,
    a: int,
    b: int,
)
    ensures
        gl_value(vs, alpha, a, b) == fneg(gl_value(vs, alpha, b, a)),
        gl_samples(rhs, a, b, alpha, vs) == gl_samples(rhs, b, a, alpha, vs),
        gl_value(vs, alpha, a, a) == 0,
{
    lemma_oriented_antisymmetric(a, b, gl_core(vs, alpha, lo_of(a, b), hi_of(a, b)));
}


/// The orientation law at the level of calls, for the trapezoid rule: an
/// integrand whose contract pins one output per input yields the same
/// sample run over the same bounds in either order, so the two estimates
/// are exact negatives.
pub proof fn lemma_trapezoid_deterministic<F: Fn(Fx) -> Fx>(
    rhs: F,
    vs1: Seq<int>,
    vs2: Seq<int>,
    a: int,
    b: int,
    n: int,
)
    requires
        deterministic(rhs),
        trap_samples(rhs, a, b, n, vs1),
        trap_samples(rhs, b, a, n, vs2),
    ensures
        vs1 == vs2,
        trap_value(vs1, a, b, n) == fneg(trap_value(vs2, b, a, n)),
{
    assert forall|i: int| 0 <= i < vs1.len() implies vs1[i] == vs2[i] by {
        let node = fx_of(trap_node(lo_of(a, b), hi_of(a, b), n, i));
        assert(observed_at(rhs, node, vs1[i]));
        assert(observed_at(rhs, fx_of(trap_node(lo_of(b, a), hi_of(b, a), n, i)), vs2[i]));
        let y1 = choose|y: Fx| call_ensures(rhs, (node,), y) && vs1[i] == y.m();
        let y2 = choose|y: Fx| call_ensures(rhs, (node,), y) && vs2[i] == y.m();
        assert(y1 == y2);
    }
    assert(vs1 =~= vs2);
    lemma_trapezoid_antisymmetric(rhs, vs1, a, b, n);
}

/// The orientation law at the level of calls, for the Simpson rule.
pub proof fn lemma_simpson_deterministic<F: Fn(Fx) -> Fx>(
    rhs: F,
    vs1: Seq<int>,
    vs2: Seq<int>,
    a: int,
    b: int,
    n: int,
)
    requires
        deterministic(rhs),
        simp_samples(rhs, a, b, n, vs1),
        simp_samples(rhs, b, a, n, vs2),
    ensures
        vs1 == vs2,
        simp_value(vs1, a, b, n) == fneg(simp_value(vs2, b, a, n)),
{
    assert forall|i: int| 0 <= i < vs1.len() implies vs1[i] == vs2[i] by {
        let node = fx_of(simp_node(lo_of(a, b), hi_of(a, b), n, i));
        assert(observed_at(rhs, node, vs1[i]));
        assert(observed_at(rhs, fx_of(simp_node(lo_of(b, a), hi_of(b, a), n, i)), vs2[i]));
        let y1 = choose|y: Fx| call_ensures(rhs, (node,), y) && vs1[i] == y.m();
        let y2 = choose|y: Fx| call_ensures(rhs, (node,), y) && vs2[i] == y.m();
        assert(y1 == y2);
    }
    assert(vs1 =~= vs2);
    lemma_simpson_antisymmetric(rhs, vs1, a, b, n);
}

/// The orientation law at the level of calls, for the Chebyshev-Horinouchi
/// rule.
pub proof fn lemma_chebyshev_deterministic<F: Fn(Fx) -> Fx>(
    rhs: F,
    vs1: Seq<int>,
    vs2: Seq<int>,
    a: int,
    b: int,
    n: int,
)
    requires
        deterministic(rhs),
        cq_samples(rhs, a, b, n, vs1),
        cq_samples(rhs, b, a, n, vs2),
    ensures
        vs1 == vs2,
        cq_value(vs1, a, b, n) == fneg(cq_value(vs2, b, a, n)),
{
    assert forall|i: int| 0 <= i < vs1.len() implies vs1[i] == vs2[i] by {
        let node = fx_of(cq_node(lo_of(a, b), hi_of(a, b), n, i));
        assert(observed_at(rhs, node, vs1[i]));
        assert(observed_at(rhs, fx_of(cq_node(lo_of(b, a), hi_of(b, a), n, i)), vs2[i]));
        let y1 = choose|y: Fx| call_ensures(rhs, (node,), y) && vs1[i] == y.m();
        let y2 = choose|y: Fx| call_ensures(rhs, (node,), y) && vs2[i] == y.m();
        assert(y1 == y2);
    }
    assert(vs1 =~= vs2);
    lemma_chebyshev_antisymmetric(rhs, vs1, a, b, n);
}

/// The orientation law at the level of calls, for the double-exponential
/// rule.
pub proof fn lemma_def_deterministic<F: Fn(Fx) -> Fx>(
    rhs: F,
    vs1: Seq<int>,
    vs2: Seq<int>,
    a: int,
    b: int,
    n: int,
    h: int,
)
    requires
        deterministic(rhs),
        de_samples(rhs, a, b, n, h, vs1),
        de_samples(rhs, b, a, n, h, vs2),
    ensures
        vs1 == vs2,
        de_value(vs1, a, b, n, h) == fneg(de_value(vs2, b, a, n, h)),
{
    assert forall|i: int| 0 <= i < vs1.len() implies vs1[i] == vs2[i] by {
        let node = fx_of(de_node(lo_of(a, b), hi_of(a, b), h, n, i));
        assert(observed_at(rhs, node, vs1[i]));
        assert(observed_at(rhs, fx_of(de_node(lo_of(b, a), hi_of(b, a), h, n, i)), vs2[i]));
        let y1 = choose|y: Fx| call_ensures(rhs, (node,), y) && vs1[i] == y.m();
        let y2 = choose|y: Fx| call_ensures(rhs, (node,), y) && vs2[i] == y.m();
        assert(y1 == y2);
    }
    assert(vs1 =~= vs2);
    lemma_def_antisymmetric(rhs, vs1, a, b, n, h);
}

/// The orientation law at the level of calls, for the Gauss-Legendre rule
/// on any one node set.
pub proof fn lemma_gauss_legendre_deterministic<F: Fn(Fx) -> Fx>(
    rhs: F,
    vs1: Seq<int>,
    vs2: Seq<int>,
    alpha: Seq<int>,
    a: int,
    b: int,
)
    requires
        deterministic(rhs),
        gl_samples(rhs, a, b, alpha, vs1),
        gl_samples(rhs, b, a, alpha, vs2),
    ensures
        vs1 == vs2,
        gl_value(vs1, alpha, a, b) == fneg(gl_value(vs2, alpha, b, a)),
{
    assert forall|i: int| 0 <= i < vs1.len() implies vs1[i] == vs2[i] by {
        let node = fx_of(affine_map(lo_of(a, b), hi_of(a, b), alpha[i]));
        assert(observed_at(rhs, node, vs1[i]));
        assert(observed_at(rhs, fx_of(affine_map(lo_of(b, a), hi_of(b, a), alpha[i])), vs2[i]));
        let y1 = choose|y: Fx| call_ensures(rhs, (node,), y) && vs1[i] == y.m();
        let y2 = choose|y: Fx| call_ensures(rhs, (node,), y) && vs2[i] == y.m();
        assert(y1 == y2);
    }
    assert(vs1 =~= vs2);
    lemma_gauss_legendre_antisymmetric(rhs, vs1, alpha, a, b);
}

/// A one-dimensional integral of the function `rhs`.
pub struct Integral<F> {
    pub rhs: F,
}

impl<F: Fn(Fx) -> Fx> Integral<F> {
    /// Wraps the integrand.
    pub fn new(rhs: F) -> (r: Integral<F>)
        ensures
            r.rhs == rhs,
    {
        Integral { rhs }
    }

    /// The composite trapezoid rule with `n` equal panels.
    pub fn trapezoid(&self, a: Fx, b: Fx, n: usize) -> (r: Fx)
        requires
            forall|x: Fx| call_requires(self.rhs, (x,)),
            1 <= n < 0x40000000,
        ensures
            a.m() == b.m() ==> r.m() == 0,
            a.m() != b.m() ==> exists|vs: Seq<int>|
                #[trigger] trap_samples(self.rhs, a.m(), b.m(), n as int, vs) && r.m()
                    == trap_value(vs, a.m(), b.m(), n as int),
    {
        if a.raw == b.raw {
            return Fx::zero();
        }
        let reverse: bool = a.raw > b.raw;
        let (lo, hi) = if reverse {
            (b, a)
        } else {
            (a, b)
        };
        let dh = hi.sub(lo).div(Fx::from_usize(n));
        let v0 = (self.rhs)(lo);
        let vn = (self.rhs)(hi);
        let s1 = v0.add(vn).divn(2);
        let mut s2 = Fx::zero();
        let ghost gl = lo.m();
        let ghost gh = hi.m();
        let ghost mut vs: Seq<int> = seq![v0.m()];
        let mut i: usize = 1;
        while i < n
            invariant
                forall|x: Fx| call_requires(self.rhs, (x,)),
                1 <= i <= n,
                n < 0x40000000,
                gl == lo.m(),
                gh == hi.m(),
                dh.m() == trap_h(gl, gh, n as int),
                vs.len() == i,
                vs[0] == v0.m(),
                observed_at(self.rhs, fx_of(trap_node(gl, gh, n as int, 0)), vs[0]),
                forall|j: int|
                    1 <= j < i ==> #[trigger] observed_at(
                        self.rhs,
                        fx_of(trap_node(gl, gh, n as int, j)),
                        vs[j],
                    ),
                s2.m() == seq_fsum(vs.subrange(1, i as int)),
            decreases n - i,
        {
            let xi = lo.add(Fx::from_usize(i).mul(dh));
            let yi = (self.rhs)(xi);
            proof {
                assert(xi == fx_of(trap_node(gl, gh, n as int, i as int)));
                assert(observed_at(self.rhs, fx_of(trap_node(gl, gh, n as int, i as int)), yi.m()));
            }
            s2 = s2.add(yi);
            proof {
                let prev = vs;
                vs = vs.push(yi.m());
                assert(vs.subrange(1, i as int) =~= prev.subrange(1, i as int));
                assert(vs.subrange(1, i + 1).drop_last() =~= vs.subrange(1, i as int));
                assert(vs.subrange(1, i + 1).last() == vs[i as int]);
            }
            i = i + 1;
        }
        let ghost vsold = vs;
        proof {
            vs = vs.push(vn.m());
            assert(vs.subrange(1, n as int) =~= vsold.subrange(1, n as int));
            assert(hi == fx_of(trap_node(gl, gh, n as int, n as int)));
            assert(observed_at(self.rhs, fx_of(trap_node(gl, gh, n as int, n as int)), vn.m()));
        }
        let core = s1.add(s2).mul(dh);
        proof {
            assert(vs[0] == v0.m());
            assert(vs[n as int] == vn.m());
            assert(s2.m() == seq_fsum(vs.subrange(1, n as int)));
            assert(core.m() == trap_core(vs, gl, gh, n as int));
            assert(trap_samples(self.rhs, a.m(), b.m(), n as int, vs));
        }
        if reverse {
            core.neg()
        } else {
            core
        }
    }

    /// The Gauss-Legendre rule of order `n`: the Legendre roots are found,
    /// their weights computed, and the weighted samples at the mapped
    /// nodes summed and scaled by the half-width.
    ///
    /// Nodes and weights are derived afresh on every call; nothing is
    /// cached across calls.
    #[verifier::rlimit(100)]
    pub fn gauss_legendre(&self, a: Fx, b: Fx, n: usize) -> (r: Fx)
        requires
            forall|x: Fx| call_requires(self.rhs, (x,)),
            n < 0x40000000,
        ensures
            a.m() == b.m() ==> r.m() == 0,
            a.m() != b.m() ==> gl_node_set(n as nat, solve_pnx_nodes(n as nat)),
            a.m() != b.m() ==> exists|vs: Seq<int>|
                #[trigger] gl_samples(self.rhs, a.m(), b.m(), solve_pnx_nodes(n as nat), vs)
                    && r.m() == gl_value(vs, solve_pnx_nodes(n as nat), a.m(), b.m()),
    {
        if a.raw == b.raw {
            return Fx::zero();
        }
        let reverse: bool = a.raw > b.raw;
        let (lo, hi) = if reverse {
            (b, a)
        } else {
            (a, b)
        };
        let ghost gl = lo.m();
        let ghost gh = hi.m();
        let alpha = solve_pnx(n);
        let w = calc_weights(&alpha);
        proof {
            assert(raws(alpha@) == solve_pnx_nodes(n as nat));
            assert(gl_node_set(n as nat, raws(alpha@)));
            assert(raws(w@) =~= gl_weights(raws(alpha@)));
        }
        let bma2 = hi.sub(lo).divn(2);
        let bpa2 = hi.add(lo).divn(2);
        let mut s = Fx::zero();
        let ghost mut vs: Seq<int> = Seq::empty();
        let mut i: usize = 0;
        while i < alpha.len()
            invariant
                forall|x: Fx| call_requires(self.rhs, (x,)),
                0 <= i <= alpha.len(),
                w.len() == alpha.len(),
                gl == lo.m(),
                gh == hi.m(),
                bma2.m() == fdivn(fsub(gh, gl), 2),
                bpa2.m() == fdivn(fadd(gh, gl), 2),
                raws(w@) == gl_weights(raws(alpha@)),
                vs.len() == i,
                forall|j: int|
                    0 <= j < i ==> #[trigger] observed_at(
                        self.rhs,
                        fx_of(affine_map(gl, gh, raws(alpha@)[j])),
                        vs[j],
                    ),
                s.m() == gl_s(vs, gl_weights(raws(alpha@)), i as nat),
            decreases alpha.len() - i,
        {
            let xi = bma2.mul(alpha[i]).add(bpa2);
            let yi = (self.rhs)(xi);
            proof {
                assert(xi == fx_of(affine_map(gl, gh, raws(alpha@)[i as int])));
                assert(observed_at(
                    self.rhs,
                    fx_of(affine_map(gl, gh, raws(alpha@)[i as int])),
                    yi.m(),
                ));
            }
            s = s.add(w[i].mul(yi));
            proof {
                let prev = vs;
                vs = vs.push(yi.m());
                assert(raws(w@)[i as int] == gl_weights(raws(alpha@))[i as int]);
                assert(gl_s(vs, gl_weights(raws(alpha@)), (i + 1) as nat) == fadd(
                    gl_s(vs, gl_weights(raws(alpha@)), i as nat),
                    fmul(gl_weights(raws(alpha@))[i as int], vs[i as int]),
                ));
                assert(gl_s(prev, gl_weights(raws(alpha@)), i as nat) == gl_s(
                    vs,
                    gl_weights(raws(alpha@)),
                    i as nat,
                )) by {
                    lemma_gl_s_prefix(prev, vs, gl_weights(raws(alpha@)), i as nat);
                }
            }
            i = i + 1;
        }
        let core = bma2.mul(s);
        proof {
            assert(core.m() == gl_core(vs, raws(alpha@), gl, gh));
            assert(gl_samples(self.rhs, a.m(), b.m(), raws(alpha@), vs));
        }
        if reverse {
            core.neg()
        } else {
            core
        }
    }

    /// The composite Simpson rule with `2 n` panels and the
    /// 1, 4, 2, ..., 4, 1 weight pattern.
    pub fn simpson(&self, a: Fx, b: Fx, n: usize) -> (r: Fx)
        requires
            forall|x: Fx| call_requires(self.rhs, (x,)),
            1 <= n < 0x20000000,
        ensures
            a.m() == b.m() ==> r.m() == 0,
            a.m() != b.m() ==> exists|vs: Seq<int>|
                #[trigger] simp_samples(self.rhs, a.m(), b.m(), n as int, vs) && r.m()
                    == simp_value(vs, a.m(), b.m(), n as int),
    {
        if a.raw == b.raw {
            return Fx::zero();
        }
        let reverse: bool = a.raw > b.raw;
        let (lo, hi) = if reverse {
            (b, a)
        } else {
            (a, b)
        };
        let ghost gl = lo.m();
        let ghost gh = hi.m();
        let n2 = n + n;
        let dh = hi.sub(lo).div(Fx::from_usize(n2));
        let mut fv: Vec<Fx> = Vec::new();
        let ghost mut vs: Seq<int> = Seq::empty();
        let mut i: usize = 0;
        while i < n2 + 1
            invariant
                forall|x: Fx| call_requires(self.rhs, (x,)),
                0 <= i <= n2 + 1,
                n2 == 2 * n,
                1 <= n < 0x20000000,
                gl == lo.m(),
                gh == hi.m(),
                dh.m() == simp_h(gl, gh, n as int),
                fv.len() == i,
                vs.len() == i,
                forall|j: int| 0 <= j < i ==> #[trigger] vs[j] == fv[j].m(),
                forall|j: int|
                    0 <= j < i ==> #[trigger] observed_at(
                        self.rhs,
                        fx_of(simp_node(gl, gh, n as int, j)),
                        vs[j],
                    ),
            decreases n2 + 1 - i,
        {
            let xi = lo.add(Fx::from_usize(i).mul(dh));
            let yi = (self.rhs)(xi);
            proof {
                assert(xi == fx_of(simp_node(gl, gh, n as int, i as int)));
                assert(observed_at(self.rhs, fx_of(simp_node(gl, gh, n as int, i as int)), yi.m()));
            }
            fv.push(yi);
            proof {
                vs = vs.push(yi.m());
            }
            i = i + 1;
        }
        let two = Fx::from_int(2);
        let four = Fx::from_int(4);
        let s1 = fv[0].add(fv[n2]);
        let mut s2 = Fx::zero();
        let mut k: usize = 1;
        while k < n
            invariant
                1 <= k <= n,
                n2 == 2 * n,
                1 <= n < 0x20000000,
                fv.len() == n2 + 1,
                vs.len() == n2 + 1,
                forall|j: int| 0 <= j <= n2 ==> #[trigger] vs[j] == fv[j].m(),
                two.m() == fof(2),
                s2.m() == simp_even(vs, (k - 1) as nat),
            decreases n - k,
        {
            s2 = s2.add(fv[2 * k].mul(two));
            k = k + 1;
        }
        let mut s4 = Fx::zero();
        let mut k2: usize = 0;
        while k2 < n
            invariant
                0 <= k2 <= n,
                n2 == 2 * n,
                1 <= n < 0x20000000,
                fv.len() == n2 + 1,
                vs.len() == n2 + 1,
                forall|j: int| 0 <= j <= n2 ==> #[trigger] vs[j] == fv[j].m(),
                four.m() == fof(4),
                s4.m() == simp_odd(vs, k2 as nat),
            decreases n - k2,
        {
            s4 = s4.add(fv[2 * k2 + 1].mul(four));
            k2 = k2 + 1;
        }
        let core = s1.add(s2).add(s4).mul(dh).divn(3);
        proof {
            assert(core.m() == simp_core(vs, gl, gh, n as int));
            assert(simp_samples(self.rhs, a.m(), b.m(), n as int, vs));
        }
        if reverse {
            core.neg()
        } else {
            core
        }
    }

    /// The Chebyshev-Horinouchi rule on the `n + 1` Chebyshev zero nodes,
    /// with discrete-cosine rule coefficients.
    pub fn chebyshev(&self, a: Fx, b: Fx, n: usize) -> (r: Fx)
        requires
            forall|x: Fx| call_requires(self.rhs, (x,)),
            n < 0x20000000,
        ensures
            a.m() == b.m() ==> r.m() == 0,
            a.m() != b.m() ==> exists|vs: Seq<int>|
                #[trigger] cq_samples(self.rhs, a.m(), b.m(), n as int, vs) && r.m()
                    == cq_value(vs, a.m(), b.m(), n as int),
    {
        if a.raw == b.raw {
            return Fx::zero();
        }
        let reverse: bool = a.raw > b.raw;
        let (lo, hi) = if reverse {
            (b, a)
        } else {
            (a, b)
        };
        let ghost gl = lo.m();
        let ghost gh = hi.m();
        let zeta = zeta_vec(n);
        let bma2 = hi.sub(lo).divn(2);
        let bpa2 = hi.add(lo).divn(2);
        let mut fv: Vec<Fx> = Vec::new();
        let ghost mut vs: Seq<int> = Seq::empty();
        let mut k: usize = 0;
        while k < n + 1
            invariant
                forall|x: Fx| call_requires(self.rhs, (x,)),
                0 <= k <= n + 1,
                n < 0x20000000,
                gl == lo.m(),
                gh == hi.m(),
                zeta.len() == n + 1,
                forall|j: int| 0 <= j <= n ==> #[trigger] zeta[j].m() == zeta_spec(n as int, j),
                bma2.m() == fdivn(fsub(gh, gl), 2),
                bpa2.m() == fdivn(fadd(gh, gl), 2),
                fv.len() == k,
                vs.len() == k,
                forall|j: int| 0 <= j < k ==> #[trigger] vs[j] == fv[j].m(),
                forall|j: int|
                    0 <= j < k ==> #[trigger] observed_at(
                        self.rhs,
                        fx_of(cq_node(gl, gh, n as int, j)),
                        vs[j],
                    ),
            decreases n + 1 - k,
        {
            let xk = bma2.mul(zeta[k]).add(bpa2);
            let yk = (self.rhs)(xk);
            proof {
                assert(zeta[k as int].m() == zeta_spec(n as int, k as int));
                assert(xk == fx_of(cq_node(gl, gh, n as int, k as int)));
                assert(observed_at(self.rhs, fx_of(cq_node(gl, gh, n as int, k as int)), yk.m()));
            }
            fv.push(yk);
            proof {
                vs = vs.push(yk.m());
            }
            k = k + 1;
        }
        let theta_den = Fx::from_usize(2 * n + 2);
        let pi = Fx { raw: crate::elementary::PI_RAW };
        let two = Fx::from_int(2);
        let n2 = n / 2;
        let mut s = Fx::zero();
        let mut kk: usize = 0;
        while kk < n + 1
            invariant
                0 <= kk <= n + 1,
                n < 0x20000000,
                n2 == n / 2,
                fv.len() == n + 1,
                vs.len() == n + 1,
                forall|j: int| 0 <= j <= n ==> #[trigger] vs[j] == fv[j].m(),
                theta_den.m() == fof(2 * n + 2),
                pi.m() == crate::elementary::PI_RAW as int,
                two.m() == fof(2),
                s.m() == cq_s(vs, n as int, kk as nat),
            decreases n + 1 - kk,
        {
            let theta_k = Fx::from_usize(2 * kk + 1).div(theta_den).mul(pi);
            proof {
                assert(theta_k.m() == crate::polynomial::theta_spec(n as int, kk as int));
            }
            let mut hs = Fx::zero();
            let mut j: usize = 1;
            while j < n2 + 1
                invariant
                    1 <= j <= n2 + 1,
                    n < 0x20000000,
                    n2 == n / 2,
                    kk <= n,
                    theta_k.m() == crate::polynomial::theta_spec(n as int, kk as int),
                    hs.m() == hnk_sum(n as int, kk as int, (j - 1) as nat),
                decreases n2 + 1 - j,
            {
                let cj = crate::elementary::cos_fx(Fx::from_usize(2 * j).mul(theta_k));
                let jj = j as i64;
                proof {
                    assert(1 <= 4 * jj * jj - 1 <= 0x4000000000000000) by (nonlinear_arith)
                        requires
                            1 <= jj <= 0x10000000,
                    ;
                    assert((4 * jj * jj - 1) as int == 4 * (j as int) * (j as int) - 1);
                }
                let den: i64 = 4 * jj * jj - 1;
                hs = hs.add(cj.divn(den));
                j = j + 1;
            }
            let hk = Fx::one().sub(two.mul(hs));
            proof {
                assert(hk.m() == hnk(n as int, kk as int));
            }
            s = s.add(hk.mul(fv[kk]));
            kk = kk + 1;
        }
        let core = hi.sub(lo).div(Fx::from_usize(n + 1)).mul(s);
        proof {
            assert(core.m() == cq_core(vs, gl, gh, n as int));
            assert(cq_samples(self.rhs, a.m(), b.m(), n as int, vs));
        }
        if reverse {
            core.neg()
        } else {
            core
        }
    }

    /// The double-exponential rule: a trapezoid fold over `2 n + 1` samples
    /// of width `h` in transform space, each weighed by the derivative of
    /// the substitution.
    pub fn def(&self, a: Fx, b: Fx, n: usize, h: Fx) -> (r: Fx)
        requires
            forall|x: Fx| call_requires(self.rhs, (x,)),
            1 <= n < 0x20000000,
        ensures
            a.m() == b.m() ==> r.m() == 0,
            a.m() != b.m() ==> exists|vs: Seq<int>|
                #[trigger] de_samples(self.rhs, a.m(), b.m(), n as int, h.m(), vs) && r.m()
                    == de_value(vs, a.m(), b.m(), n as int, h.m()),
    {
        if a.raw == b.raw {
            return Fx::zero();
        }
        let reverse: bool = a.raw > b.raw;
        let (lo, hi) = if reverse {
            (b, a)
        } else {
            (a, b)
        };
        let ghost gl = lo.m();
        let ghost gh = hi.m();
        let n2 = n + n;
        let bma2 = hi.sub(lo).divn(2);
        let bpa2 = hi.add(lo).divn(2);
        let nf = Fx::from_usize(n);
        let tn = h.mul(nf);
        let t0 = tn.neg();
        let hpi = Fx { raw: HALF_PI_RAW };
        let mut fv: Vec<Fx> = Vec::new();
        let mut pv: Vec<Fx> = Vec::new();
        let ghost mut vs: Seq<int> = Seq::empty();
        let mut i: usize = 0;
        while i < n2 + 1
            invariant
                forall|x: Fx| call_requires(self.rhs, (x,)),
                0 <= i <= n2 + 1,
                n2 == 2 * n,
                1 <= n < 0x20000000,
                gl == lo.m(),
                gh == hi.m(),
                bma2.m() == fdivn(fsub(gh, gl), 2),
                bpa2.m() == fdivn(fadd(gh, gl), 2),
                nf.m() == fof(n as int),
                tn.m() == fmul(h.m(), fof(n as int)),
                t0.m() == fneg(fmul(h.m(), fof(n as int))),
                hpi.m() == HALF_PI_RAW as int,
                fv.len() == i,
                pv.len() == i,
                vs.len() == i,
                forall|j: int| 0 <= j < i ==> #[trigger] vs[j] == fv[j].m(),
                forall|j: int|
                    0 <= j < i ==> #[trigger] pv[j].m() == de_phip(de_t(h.m(), n as int, j)),
                forall|j: int|
                    0 <= j < i ==> #[trigger] observed_at(
                        self.rhs,
                        fx_of(de_node(gl, gh, h.m(), n as int, j)),
                        vs[j],
                    ),
            decreases n2 + 1 - i,
        {
            let ti = if i == 0 {
                t0
            } else if i == n2 {
                tn
            } else {
                Fx::from_usize(i).sub(nf).mul(h)
            };
            proof {
                assert(ti.m() == de_t(h.m(), n as int, i as int));
            }
            let sh = sinh_fx(ti);
            let w = hpi.mul(sh);
            let phi_i = tanh_fx(w);
            let se = sech_fx(w);
            let phip_i = hpi.mul(cosh_fx(ti)).mul(se.mul(se));
            proof {
                assert(phi_i.m() == de_phi(ti.m()));
                assert(phip_i.m() == de_phip(ti.m()));
            }
            let xi = bma2.mul(phi_i).add(bpa2);
            let yi = (self.rhs)(xi);
            proof {
                assert(xi == fx_of(de_node(gl, gh, h.m(), n as int, i as int)));
                assert(observed_at(
                    self.rhs,
                    fx_of(de_node(gl, gh, h.m(), n as int, i as int)),
                    yi.m(),
                ));
            }
            fv.push(yi);
            pv.push(phip_i);
            proof {
                vs = vs.push(yi.m());
            }
            i = i + 1;
        }
        let send = fv[0].mul(pv[0]).add(fv[n2].mul(pv[n2])).divn(2);
        let mut s = send;
        let mut m: usize = 1;
        while m < n2
            invariant
                1 <= m <= n2,
                n2 == 2 * n,
                1 <= n < 0x20000000,
                fv.len() == n2 + 1,
                pv.len() == n2 + 1,
                vs.len() == n2 + 1,
                forall|j: int| 0 <= j <= n2 ==> #[trigger] vs[j] == fv[j].m(),
                forall|j: int|
                    0 <= j <= n2 ==> #[trigger] pv[j].m() == de_phip(de_t(h.m(), n as int, j)),
                s.m() == de_sum(vs, h.m(), n as int, (m - 1) as nat),
            decreases n2 - m,
        {
            s = s.add(fv[m].mul(pv[m]));
            m = m + 1;
        }
        let core = s.mul(h).mul(hi.sub(lo)).divn(2);
        proof {
            assert(core.m() == de_core(vs, gl, gh, n as int, h.m()));
            assert(de_samples(self.rhs, a.m(), b.m(), n as int, h.m(), vs));
        }
        if reverse {
            core.neg()
        } else {
            core
        }
    }
}

} // verus!
