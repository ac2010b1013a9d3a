//! Orthogonal-polynomial evaluators: the Legendre three-term recurrence,
//! Chebyshev polynomial tables and zero nodes, and a Chebyshev series
//! approximation of a user function.

use vstd::prelude::*;
use crate::fx::{
    Fx, SCALE, fabs, fadd, fsub, fmul, fdiv, fdivn, fof, fx_of, raws, seq_fsum, observed_at,
};
use crate::elementary::{PI_RAW, cos_spec, cos_fx};

verus! {

/// Why a Chebyshev evaluation can fail.
#[derive(Clone, Copy, PartialEq, Eq, Structural, Debug)]
pub enum CalcError {
    /// The point lies outside `[-1, 1]`, where the series says nothing.
    OutOfDomain,
}

/// The Legendre polynomial of degree `n` at `x`, by the three-term
/// recurrence in fixed-point arithmetic.
pub open spec fn pnx_spec(n: nat, x: int) -> int
    decreases n,
{
    if n == 0 {
        SCALE as int
    } else if n == 1 {
        x
    } else {
        fdivn(
            fsub(
                fmul(fmul(fof(2 * (n - 1) + 1), x), pnx_spec((n - 1) as nat, x)),
                fmul(fof((n - 1) as int), pnx_spec((n - 2) as nat, x)),
            ),
            n as int,
        )
    }
}

/// The Chebyshev polynomial of degree `n` at `x`, by its recurrence.
pub open spec fn tnx_spec(n: nat, x: int) -> int
    decreases n,
{
    if n == 0 {
        SCALE as int
    } else if n == 1 {
        x
    } else {
        fsub(
            fmul(fmul(fof(2), x), tnx_spec((n - 1) as nat, x)),
            tnx_spec((n - 2) as nat, x),
        )
    }
}

/// The angle of the `k`-th Chebyshev zero for order `n`.
pub open spec fn theta_spec(n: int, k: int) -> int {
    fmul(fdiv(fof(2 * k + 1), fof(2 * n + 2)), PI_RAW as int)
}

/// The `k`-th Chebyshev zero node for order `n`: the cosine of its angle.
pub open spec fn zeta_spec(n: int, k: int) -> int {
    cos_spec(theta_spec(n, k))
}

/// Evaluates the Legendre polynomial of degree `n` at `x`.
pub fn pnx(n: usize, x: Fx) -> (r: Fx)
    requires
        n < 0x40000000,
    ensures
        r.m() == pnx_spec(n as nat, x.m()),
{
    if n == 0 {
        Fx::one()
    } else if n == 1 {
        x
    } else {
        let mut p_old = Fx::one();
        let mut p_now = x;
        let mut i: usize = 1;
        while i < n
            invariant
                1 <= i <= n,
                n < 0x40000000,
                p_now.m() == pnx_spec(i as nat, x.m()),
                p_old.m() == pnx_spec((i - 1) as nat, x.m()),
            decreases n - i,
        {
            let c1 = Fx::from_usize(2 * i + 1);
            let c2 = Fx::from_usize(i);
            let p_new = c1.mul(x).mul(p_now).sub(c2.mul(p_old)).divn((i + 1) as i64);
            p_old = p_now;
            p_now = p_new;
            i = i + 1;
        }
        p_now
    }
}

/// Builds the table `[T_0(x), T_1(x), ...]` of Chebyshev polynomial values.
/// For orders past one, the table runs one entry beyond `n`, as the series
/// construction walks it index-for-index with a table of the same shape.
pub fn tnx_vec(n: usize, x: Fx) -> (r: Vec<Fx>)
    requires
        n < 0x40000000,
    ensures
        r.len() == if n <= 1 {
            n + 1
        } else {
            n + 2
        },
        forall|k: int| 0 <= k < r.len() ==> #[trigger] r[k].m() == tnx_spec(k as nat, x.m()),
{
    if n == 0 {
        let mut ret: Vec<Fx> = Vec::new();
        ret.push(Fx::one());
        ret
    } else if n == 1 {
        let mut ret: Vec<Fx> = Vec::new();
        ret.push(Fx::one());
        ret.push(x);
        ret
    } else {
        let mut ret: Vec<Fx> = Vec::new();
        ret.push(Fx::one());
        ret.push(x);
        let two = Fx::from_int(2);
        let mut i: usize = 1;
        while i < n + 1
            invariant
                1 <= i <= n + 1,
                n < 0x40000000,
                ret.len() == i + 1,
                two.m() == fof(2),
                forall|k: int|
                    0 <= k < ret.len() ==> #[trigger] ret[k].m() == tnx_spec(k as nat, x.m()),
            decreases n + 1 - i,
        {
            let t = two.mul(x).mul(ret[i]).sub(ret[i - 1]);
            ret.push(t);
            i = i + 1;
        }
        ret
    }
}

/// Builds the Chebyshev zero nodes for order `n`: the `n + 1` cosines of
/// the odd half-angles, each inside `[-1, 1]`.
pub fn zeta_vec(n: usize) -> (r: Vec<Fx>)
    requires
        n < 0x40000000,
    ensures
        r.len() == n + 1,
        forall|k: int| 0 <= k < r.len() ==> #[trigger] r[k].m() == zeta_spec(n as int, k),
        forall|k: int|
            0 <= k < r.len() ==> -(SCALE as int) <= #[trigger] r[k].m() <= SCALE as int,
{
    let mut ret: Vec<Fx> = Vec::new();
    let denom = Fx::from_usize(2 * n + 2);
    let mut k: usize = 0;
    while k < n + 1
        invariant
            0 <= k <= n + 1,
            n < 0x40000000,
            denom.m() == fof(2 * n + 2),
            ret.len() == k,
            forall|j: int| 0 <= j < k ==> #[trigger] ret[j].m() == zeta_spec(n as int, j),
            forall|j: int|
                0 <= j < k ==> -(SCALE as int) <= #[trigger] ret[j].m() <= SCALE as int,
        decreases n + 1 - k,
    {
        let num = Fx::from_usize(2 * k + 1);
        let theta = num.div(denom).mul(Fx { raw: PI_RAW });
        let z = cos_fx(theta);
        ret.push(z);
        k = k + 1;
    }
    ret
}

/// One sample of `rhs` at each Chebyshev zero node of order `n`.
pub open spec fn cheb_samples<F: Fn(Fx) -> Fx>(rhs: F, n: int, vs: Seq<int>) -> bool {
    vs.len() == n + 1 && forall|k: int|
        0 <= k <= n ==> #[trigger] observed_at(rhs, fx_of(zeta_spec(n, k)), vs[k])
}

/// The first `m` samples dotted with the Chebyshev values of degree `i`
/// at the nodes, folded left to right.
pub open spec fn cheb_dot(vs: Seq<int>, n: int, i: int, m: nat) -> int
    decreases m,
{
    if m == 0 {
        0
    } else {
        fadd(
            cheb_dot(vs, n, i, (m - 1) as nat),
            fmul(vs[m - 1], tnx_spec(i as nat, zeta_spec(n, m - 1))),
        )
    }
}

/// The `i`-th coefficient of the series fitted to the samples: the mean
/// for degree zero, twice the node average of the dotted samples above.
pub open spec fn cheb_coef(vs: Seq<int>, n: int, i: int) -> int {
    if i == 0 {
        fdivn(seq_fsum(vs), n + 1)
    } else {
        fdivn(fmul(fof(2), cheb_dot(vs, n, i, (n + 1) as nat)), n + 1)
    }
}

/// The series with coefficients `c` evaluated at `x`, over the first `m`
/// coefficients.
pub open spec fn cheb_eval(c: Seq<int>, x: int, m: nat) -> int
    decreases m,
{
    if m == 0 {
        0
    } else {
        fadd(cheb_eval(c, x, (m - 1) as nat), fmul(c[m - 1], tnx_spec((m - 1) as nat, x)))
    }
}

/// A Chebyshev series fitted to a function on `[-1, 1]`.
pub struct Chebyshev<F> {
    pub rhs: F,
    pub c: Vec<Fx>,
}

/// The series of `che` holds, for some run of samples of its function at
/// the order-`n` Chebyshev nodes, exactly the fitted coefficients.
pub open spec fn cheb_fitted<F: Fn(Fx) -> Fx>(che: Chebyshev<F>, n: int) -> bool {
    exists|vs: Seq<int>|
        #[trigger] cheb_samples(che.rhs, n, vs) && che.c.len() == n + 1 && (forall|i: int|
            0 <= i <= n ==> raws(che.c@)[i] == cheb_coef(vs, n, i))
}

impl<F: Fn(Fx) -> Fx> Chebyshev<F> {
    /// The coefficient table is nonempty and of evaluable size.
    pub open spec fn wf(self) -> bool {
        1 <= self.c.len() <= 0x40000000
    }

    /// Samples the function at the Chebyshev zero nodes of order `n` and
    /// fits the `n + 1` series coefficients to those samples.
    pub fn new(rhs: F, n: usize) -> (r: Chebyshev<F>)
        requires
            forall|x: Fx| call_requires(rhs, (x,)),
            n < 0x40000000,
        ensures
            r.rhs == rhs,
            r.wf(),
            r.c.len() == n + 1,
            cheb_fitted(r, n as int),
    {
        let zeta = zeta_vec(n);
        let mut fvec: Vec<Fx> = Vec::new();
        let ghost mut vs: Seq<int> = Seq::empty();
        let mut k: usize = 0;
        while k < n + 1
            invariant
                forall|x: Fx| call_requires(rhs, (x,)),
                n < 0x40000000,
                0 <= k <= n + 1,
                zeta.len() == n + 1,
                forall|j: int| 0 <= j <= n ==> #[trigger] zeta[j].m() == zeta_spec(n as int, j),
                fvec.len() == k,
                vs.len() == k,
                forall|j: int| 0 <= j < k ==> #[trigger] vs[j] == fvec[j].m(),
                forall|j: int|
                    0 <= j < k ==> #[trigger] observed_at(
                        rhs,
                        fx_of(zeta_spec(n as int, j)),
                        vs[j],
                    ),
            decreases n + 1 - k,
        {
            let y = rhs(zeta[k]);
            proof {
                assert(zeta[k as int].m() == zeta_spec(n as int, k as int));
                assert(zeta[k as int] == fx_of(zeta_spec(n as int, k as int)));
                assert(observed_at(rhs, fx_of(zeta_spec(n as int, k as int)), y.m()));
            }
            fvec.push(y);
            proof {
                vs = vs.push(y.m());
            }
            k = k + 1;
        }
        let mut sum = Fx::zero();
        let mut k2: usize = 0;
        while k2 < n + 1
            invariant
                0 <= k2 <= n + 1,
                fvec.len() == n + 1,
                vs.len() == n + 1,
                forall|j: int| 0 <= j <= n ==> #[trigger] vs[j] == fvec[j].m(),
                sum.m() == seq_fsum(vs.take(k2 as int)),
            decreases n + 1 - k2,
        {
            sum = sum.add(fvec[k2]);
            proof {
                assert(vs.take(k2 + 1).drop_last() =~= vs.take(k2 as int));
                assert(vs.take(k2 + 1).last() == vs[k2 as int]);
            }
            k2 = k2 + 1;
        }
        proof {
            assert(vs.take(n + 1) =~= vs);
        }
        let mut c: Vec<Fx> = Vec::new();
        c.push(sum.divn((n + 1) as i64));
        let mut tnx: Vec<Vec<Fx>> = Vec::new();
        let mut j: usize = 0;
        while j < n + 1
            invariant
                0 <= j <= n + 1,
                n < 0x40000000,
                zeta.len() == n + 1,
                forall|jj: int| 0 <= jj <= n ==> #[trigger] zeta[jj].m() == zeta_spec(n as int, jj),
                tnx.len() == j,
                forall|jj: int|
                    0 <= jj < j ==> #[trigger] tnx[jj].len() == if n <= 1 {
                        n + 1
                    } else {
                        n + 2
                    },
                forall|jj: int, i: int|
                    0 <= jj < j && 0 <= i < tnx[jj].len() ==> #[trigger] tnx[jj][i].m()
                        == tnx_spec(i as nat, zeta_spec(n as int, jj)),
            decreases n + 1 - j,
        {
            let row = tnx_vec(n, zeta[j]);
            tnx.push(row);
            j = j + 1;
        }
        let two = Fx::from_int(2);
        let mut i: usize = 1;
        while i < n + 1
            invariant
                1 <= i <= n + 1,
                n < 0x40000000,
                vs.len() == n + 1,
                fvec.len() == n + 1,
                forall|jj: int| 0 <= jj <= n ==> #[trigger] vs[jj] == fvec[jj].m(),
                tnx.len() == n + 1,
                forall|jj: int|
                    0 <= jj <= n ==> #[trigger] tnx[jj].len() == if n <= 1 {
                        n + 1
                    } else {
                        n + 2
                    },
                forall|jj: int, ii: int|
                    0 <= jj <= n && 0 <= ii < tnx[jj].len() ==> #[trigger] tnx[jj][ii].m()
                        == tnx_spec(ii as nat, zeta_spec(n as int, jj)),
                two.m() == fof(2),
                c.len() == i,
                forall|ii: int|
                    0 <= ii < i ==> #[trigger] raws(c@)[ii] == cheb_coef(vs, n as int, ii),
            decreases n + 1 - i,
        {
            let mut s = Fx::zero();
            let mut jj: usize = 0;
            while jj < n + 1
                invariant
                    0 <= jj <= n + 1,
                    1 <= i <= n,
                    n < 0x40000000,
                    vs.len() == n + 1,
                    fvec.len() == n + 1,
                    forall|q: int| 0 <= q <= n ==> #[trigger] vs[q] == fvec[q].m(),
                    tnx.len() == n + 1,
                    forall|q: int|
                        0 <= q <= n ==> #[trigger] tnx[q].len() == if n <= 1 {
                            n + 1
                        } else {
                            n + 2
                        },
                    forall|q: int, ii: int|
                        0 <= q <= n && 0 <= ii < tnx[q].len() ==> #[trigger] tnx[q][ii].m()
                            == tnx_spec(ii as nat, zeta_spec(n as int, q)),
                    s.m() == cheb_dot(vs, n as int, i as int, jj as nat),
                decreases n + 1 - jj,
            {
                proof {
                    assert(tnx[jj as int].len() == if n <= 1 {
                        n + 1
                    } else {
                        n + 2
                    });
                    assert(i < tnx[jj as int].len());
                }
                s = s.add(fvec[jj].mul(tnx[jj][i]));
                jj = jj + 1;
            }
            let ghost cprev = c@;
            c.push(two.mul(s).divn((n + 1) as i64));
            proof {
                assert forall|ii: int| 0 <= ii < i + 1 implies #[trigger] raws(c@)[ii]
                    == cheb_coef(vs, n as int, ii) by {
                    if ii < i {
                        assert(c@[ii] == cprev[ii]);
                        assert(raws(cprev)[ii] == cheb_coef(vs, n as int, ii));
                    } else {
                        assert(c@[ii].m() == cheb_coef(vs, n as int, ii));
                    }
                }
            }
            i = i + 1;
        }
        proof {
            let ghost gr = Chebyshev { rhs, c };
            assert(cheb_samples(gr.rhs, n as int, vs));
            assert(forall|ii: int|
                0 <= ii <= n ==> #[trigger] raws(gr.c@)[ii] == cheb_coef(vs, n as int, ii));
            assert(cheb_fitted(gr, n as int));
        }
        Chebyshev { rhs, c }
    }

    /// Evaluates the fitted series at `x`.
    ///
    /// Points outside `[-1, 1]` are refused rather than extrapolated;
    /// inside, the result is exactly the series folded over the stored
    /// coefficients.
    pub fn calc(&self, x: Fx) -> (r: Result<Fx, CalcError>)
        requires
            self.wf(),
        ensures
            r is Err <==> fabs(x.m()) > SCALE as int,
            r is Ok ==> r->Ok_0.m() == cheb_eval(raws(self.c@), x.m(), self.c.len() as nat),
    {
        if x.abs().raw > SCALE {
            return Err(CalcError::OutOfDomain);
        }
        let tnx = tnx_vec(self.c.len() - 1, x);
        let mut s = Fx::zero();
        let mut i: usize = 0;
        while i < self.c.len()
            invariant
                self.wf(),
                0 <= i <= self.c.len(),
                tnx.len() >= self.c.len(),
                forall|k: int|
                    0 <= k < tnx.len() ==> #[trigger] tnx[k].m() == tnx_spec(k as nat, x.m()),
                s.m() == cheb_eval(raws(self.c@), x.m(), i as nat),
            decreases self.c.len() - i,
        {
            s = s.add(self.c[i].mul(tnx[i]));
            i = i + 1;
        }
        proof {
            let ghost rr: Result<Fx, CalcError> = Ok(s);
            assert(rr->Ok_0.m() == cheb_eval(raws(self.c@), x.m(), self.c.len() as nat));
        }
        Ok(s)
    }
}

} // verus!
