//! Pointwise interpolation over a table of nodes and values, and the
//! Lagrange interpolating polynomial.

use vstd::prelude::*;
use crate::fx::{Fx, fadd, fsub, fmul, fdiv, raws};

verus! {

/// An interpolation table: nodes paired with values, evaluable anywhere.
pub trait Itp: Sized {
    /// Builds the table from paired node and value vectors.
    fn new(x: &Vec<Fx>, y: &Vec<Fx>) -> Self
        requires
            x@.len() == y@.len(),
    ;

    /// Appends one node-value pair.
    fn push(&mut self, x: Fx, y: Fx);

    /// Appends paired node and value vectors.
    fn push_vec(&mut self, x: &Vec<Fx>, y: &Vec<Fx>)
        requires
            x@.len() == y@.len(),
    ;

    /// Evaluates the interpolant at `z`.
    fn calc(&self, z: Fx) -> Fx;
}

/// The Lagrange basis factor of node `i` at `z`, folded over the first `m`
/// nodes: the running product of `(z - x_j) / (x_i - x_j)` over `j != i`.
pub open spec fn lag_basis(xs: Seq<int>, i: int, z: int, m: nat) -> int
    decreases m,
{
    if m == 0 {
        crate::fx::SCALE as int
    } else if m - 1 == i {
        lag_basis(xs, i, z, (m - 1) as nat)
    } else {
        fdiv(
            fmul(lag_basis(xs, i, z, (m - 1) as nat), fsub(z, xs[m - 1])),
            fsub(xs[i], xs[m - 1]),
        )
    }
}

/// The Lagrange interpolant at `z`, folded over the first `m` nodes: each
/// value weighed by its full basis factor.
pub open spec fn lag_eval(xs: Seq<int>, ys: Seq<int>, z: int, m: nat) -> int
    decreases m,
{
    if m == 0 {
        0
    } else {
        fadd(
            lag_eval(xs, ys, z, (m - 1) as nat),
            fmul(lag_basis(xs, (m - 1) as int, z, xs.len()), ys[m - 1]),
        )
    }
}

/// A Lagrange interpolation table.
pub struct LagrangeItp {
    pub x: Vec<Fx>,
    pub y: Vec<Fx>,
}

impl Itp for LagrangeItp {
    /// Copies the paired vectors into the table.
    fn new(x: &Vec<Fx>, y: &Vec<Fx>) -> (r: Self)
        ensures
            r.x@ == x@,
            r.y@ == y@,
    {
        let mut xc: Vec<Fx> = Vec::new();
        let mut yc: Vec<Fx> = Vec::new();
        let mut i: usize = 0;
        while i < x.len()
            invariant
                x@.len() == y@.len(),
                0 <= i <= x.len(),
                xc@ == x@.subrange(0, i as int),
                yc@ == y@.subrange(0, i as int),
            decreases x.len() - i,
        {
            xc.push(x[i]);
            yc.push(y[i]);
            proof {
                assert(xc@ =~= x@.subrange(0, i + 1));
                assert(yc@ =~= y@.subrange(0, i + 1));
            }
            i = i + 1;
        }
        proof {
            assert(xc@ =~= x@);
            assert(yc@ =~= y@);
        }
        LagrangeItp { x: xc, y: yc }
    }

    /// Appends one pair.
    fn push(&mut self, x: Fx, y: Fx)
        ensures
            final (self).x@ == old(self).x@.push(x),
            final (self).y@ == old(self).y@.push(y),
    {
        self.x.push(x);
        self.y.push(y);
    }

    /// Appends every pair of the vectors in order.
    fn push_vec(&mut self, x: &Vec<Fx>, y: &Vec<Fx>)
        ensures
            final (self).x@ == old(self).x@ + x@,
            final (self).y@ == old(self).y@ + y@,
    {
        let mut i: usize = 0;
        while i < x.len()
            invariant
                x@.len() == y@.len(),
                0 <= i <= x.len(),
                self.x@ == old(self).x@ + x@.subrange(0, i as int),
                self.y@ == old(self).y@ + y@.subrange(0, i as int),
            decreases x.len() - i,
        {
            self.x.push(x[i]);
            self.y.push(y[i]);
            proof {
                assert(self.x@ =~= old(self).x@ + x@.subrange(0, i + 1));
                assert(self.y@ =~= old(self).y@ + y@.subrange(0, i + 1));
            }
            i = i + 1;
        }
        proof {
            assert(self.x@ =~= old(self).x@ + x@);
            assert(self.y@ =~= old(self).y@ + y@);
        }
    }

    /// Evaluates the Lagrange interpolant: the fold of values against
    /// their basis factors over the shorter of the two vectors.
    fn calc(&self, z: Fx) -> (r: Fx)
        ensures
            self.x@.len() == self.y@.len() ==> r.m() == lag_eval(
                raws(self.x@),
                raws(self.y@),
                z.m(),
                self.x@.len(),
            ),
    {
        let m = if self.x.len() <= self.y.len() {
            self.x.len()
        } else {
            self.y.len()
        };
        let mut ans = Fx::zero();
        let mut i: usize = 0;
        while i < m
            invariant
                m == if self.x@.len() <= self.y@.len() {
                    self.x@.len() as int
                } else {
                    self.y@.len() as int
                },
                0 <= i <= m,
                ans.m() == lag_eval(raws(self.x@), raws(self.y@), z.m(), i as nat),
            decreases m - i,
        {
            let mut l = Fx::one();
            let mut j: usize = 0;
            while j < self.x.len()
                invariant
                    i < m,
                    m <= self.x@.len(),
                    0 <= j <= self.x@.len(),
                    l.m() == lag_basis(raws(self.x@), i as int, z.m(), j as nat),
                decreases self.x@.len() - j,
            {
                if i != j {
                    l = l.mul(z.sub(self.x[j])).div(self.x[i].sub(self.x[j]));
                }
                j = j + 1;
            }
            ans = ans.add(l.mul(self.y[i]));
            i = i + 1;
        }
        ans
    }
}

} // verus!
