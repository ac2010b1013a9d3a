//! Scalar root finding on a user-supplied function: classic bisection and
//! Newton's method with a finite-difference slope.
//!
//! The function handle is any `Fn(Fx) -> Fx` closure. Contracts speak of its
//! observed outputs through `call_ensures`, so they hold whatever the closure
//! computes; when the closure's own contract pins its values, callers can
//! conclude exact facts about the returned root.

use vstd::prelude::*;
use crate::fx::{Fx, fabs, fmid, in_range, lemma_fmid_between};

verus! {

/// How the root solver can fail.
#[derive(Clone, Copy, PartialEq, Eq, Structural, Debug)]
pub enum SolveError {
    /// The bracket was handed over inverted.
    InvalidBounds,
    /// The function has the same sign at both bracket ends.
    NoBracket,
    /// Newton steps grew instead of shrinking, or never settled.
    Diverged,
}

/// Newton iterations allowed before the search is abandoned.
pub const NEWTON_CAP: u64 = 10000;

/// An output of `rhs` observed at `root` whose magnitude is within the
/// tolerance `dh`.
pub open spec fn small_at<F: Fn(Fx) -> Fx>(rhs: F, dh: Fx, root: Fx, y: Fx) -> bool {
    call_ensures(rhs, (root,), y) && fabs(y.m()) < dh.m()
}

/// Every output `rhs` can return at `x` is within the tolerance `dh`.
pub open spec fn always_within<F: Fn(Fx) -> Fx>(rhs: F, dh: Fx, x: Fx) -> bool {
    forall|y: Fx| #[trigger] call_ensures(rhs, (x,), y) ==> fabs(y.m()) < dh.m()
}

/// Every output `rhs` can return at `x` is out of the tolerance `dh`.
pub open spec fn always_beyond<F: Fn(Fx) -> Fx>(rhs: F, dh: Fx, x: Fx) -> bool {
    forall|y: Fx| #[trigger] call_ensures(rhs, (x,), y) ==> fabs(y.m()) >= dh.m()
}

/// Every output `rhs` can return at `x` is strictly positive.
pub open spec fn always_positive<F: Fn(Fx) -> Fx>(rhs: F, x: Fx) -> bool {
    forall|y: Fx| #[trigger] call_ensures(rhs, (x,), y) ==> y.m() > 0
}

/// Every output `rhs` can return at `x` is strictly negative.
pub open spec fn always_negative<F: Fn(Fx) -> Fx>(rhs: F, x: Fx) -> bool {
    forall|y: Fx| #[trigger] call_ensures(rhs, (x,), y) ==> y.m() < 0
}

/// Outputs of `rhs` observed at `root` and at `hi`, at most `dh` apart,
/// with a sign change between them.
pub open spec fn sign_change_near<F: Fn(Fx) -> Fx>(
    rhs: F,
    dh: Fx,
    root: Fx,
    sup: Fx,
    hi: Fx,
    ylo: Fx,
    yhi: Fx,
) -> bool {
    &&& root.m() <= hi.m() <= sup.m()
    &&& hi.m() - root.m() < dh.m()
    &&& call_ensures(rhs, (root,), ylo)
    &&& call_ensures(rhs, (hi,), yhi)
    &&& ((ylo.m() < 0 && yhi.m() >= 0) || (ylo.m() >= 0 && yhi.m() < 0))
}

/// Outputs of `rhs` observed at both bracket ends, out of tolerance and
/// strictly of the same sign.
pub open spec fn same_sign_ends<F: Fn(Fx) -> Fx>(
    rhs: F,
    dh: Fx,
    inf: Fx,
    sup: Fx,
    ya: Fx,
    yb: Fx,
) -> bool {
    &&& call_ensures(rhs, (inf,), ya)
    &&& call_ensures(rhs, (sup,), yb)
    &&& fabs(ya.m()) >= dh.m()
    &&& fabs(yb.m()) >= dh.m()
    &&& ((ya.m() > 0 && yb.m() > 0) || (ya.m() < 0 && yb.m() < 0))
}

/// A scalar equation `rhs(x) = 0` together with the tolerance `dh`.
pub struct Equation<F> {
    pub rhs: F,
    pub dh: Fx,
}

impl<F: Fn(Fx) -> Fx> Equation<F> {
    /// Packs the function with its tolerance.
    pub fn new(rhs: F, dh: Fx) -> (r: Equation<F>)
        ensures
            r.dh == dh,
            r.rhs == rhs,
    {
        Equation { rhs, dh }
    }

    /// Evaluates the function once.
    pub fn calc(&self, x: Fx) -> (r: Fx)
        requires
            call_requires(self.rhs, (x,)),
        ensures
            call_ensures(self.rhs, (x,), r),
    {
        (self.rhs)(x)
    }

    /// Classic bisection on `[inf, sup]`.
    ///
    /// An endpoint whose value is already within tolerance is returned at
    /// once. Otherwise the ends must show a sign change, and the bracket is
    /// halved until it is narrower than `dh`; the lower end of the final
    /// bracket comes back. Every `Ok` root lies in the given bracket and
    /// is witnessed either by a small observed value or by an observed
    /// sign change within `dh` above it.
    pub fn bisection(&self, inf: Fx, sup: Fx) -> (r: Result<Fx, SolveError>)
        requires
            forall|x: Fx| call_requires(self.rhs, (x,)),
            in_range(inf.m()),
            in_range(sup.m()),
            self.dh.m() >= 2,
        ensures
            r == Err::<Fx, SolveError>(SolveError::InvalidBounds) <==> inf.m() > sup.m(),
            r != Err::<Fx, SolveError>(SolveError::Diverged),
            r matches Err(e) && e == SolveError::NoBracket ==> exists|ya: Fx, yb: Fx|
                same_sign_ends(self.rhs, self.dh, inf, sup, ya, yb),
            r matches Ok(root) ==> inf.m() <= root.m() <= sup.m(),
            r matches Ok(root) ==> (exists|y: Fx| small_at(self.rhs, self.dh, root, y)) || (exists|
                hi: Fx,
                ylo: Fx,
                yhi: Fx,
            | sign_change_near(self.rhs, self.dh, root, sup, hi, ylo, yhi)),
            inf.m() <= sup.m() && always_within(self.rhs, self.dh, inf) ==> r == Ok::<
                Fx,
                SolveError,
            >(inf),
            inf.m() <= sup.m() && always_beyond(self.rhs, self.dh, inf) && always_within(
                self.rhs,
                self.dh,
                sup,
            ) ==> r == Ok::<Fx, SolveError>(sup),
            inf.m() <= sup.m() && always_beyond(self.rhs, self.dh, inf) && always_beyond(
                self.rhs,
                self.dh,
                sup,
            ) && always_positive(self.rhs, inf) && always_positive(self.rhs, sup) ==> r == Err::<
                Fx,
                SolveError,
            >(SolveError::NoBracket),
            inf.m() <= sup.m() && always_beyond(self.rhs, self.dh, inf) && always_beyond(
                self.rhs,
                self.dh,
                sup,
            ) && always_negative(self.rhs, inf) && always_negative(self.rhs, sup) ==> r == Err::<
                Fx,
                SolveError,
            >(SolveError::NoBracket),
    {
        if inf.raw > sup.raw {
            return Err(SolveError::InvalidBounds);
        }
        let f_inf = self.calc(inf);
        let f_sup = self.calc(sup);
        if f_inf.abs().raw < self.dh.raw {
            proof {
                let ghost rr: Result<Fx, SolveError> = Ok(inf);
                assert(small_at(self.rhs, self.dh, rr->Ok_0, f_inf));
                assert(exists|y: Fx| small_at(self.rhs, self.dh, rr->Ok_0, y));
            }
            return Ok(inf);
        }
        if f_sup.abs().raw < self.dh.raw {
            proof {
                let ghost rr: Result<Fx, SolveError> = Ok(sup);
                assert(small_at(self.rhs, self.dh, rr->Ok_0, f_sup));
                assert(exists|y: Fx| small_at(self.rhs, self.dh, rr->Ok_0, y));
            }
            return Ok(sup);
        }
        if (f_inf.raw > 0 && f_sup.raw > 0) || (f_inf.raw < 0 && f_sup.raw < 0) {
            proof {
                assert(same_sign_ends(self.rhs, self.dh, inf, sup, f_inf, f_sup));
            }
            return Err(SolveError::NoBracket);
        }
        let rev: bool = f_inf.raw >= 0;
        let mut lo = inf;
        let mut hi = sup;
        let ghost mut vlo = f_inf;
        let ghost mut vhi = f_sup;
        while (hi.raw as i128) - (lo.raw as i128) >= self.dh.raw as i128
            invariant
                forall|x: Fx| call_requires(self.rhs, (x,)),
                self.dh.m() >= 2,
                in_range(lo.m()),
                in_range(hi.m()),
                inf.m() <= lo.m() <= hi.m() <= sup.m(),
                call_ensures(self.rhs, (lo,), vlo),
                call_ensures(self.rhs, (hi,), vhi),
                !rev ==> vlo.m() < 0 && vhi.m() >= 0,
                rev ==> vlo.m() >= 0 && vhi.m() < 0,
            decreases hi.m() - lo.m(),
        {
            proof {
                lemma_fmid_between(lo.m(), hi.m());
            }
            let mid = lo.mid(hi);
            let f_mid = self.calc(mid);
            if f_mid.raw < 0 {
                if rev {
                    hi = mid;
                    proof {
                        vhi = f_mid;
                    }
                } else {
                    lo = mid;
                    proof {
                        vlo = f_mid;
                    }
                }
            } else {
                if rev {
                    lo = mid;
                    proof {
                        vlo = f_mid;
                    }
                } else {
                    hi = mid;
                    proof {
                        vhi = f_mid;
                    }
                }
            }
        }
        proof {
            let ghost rr: Result<Fx, SolveError> = Ok(lo);
            assert(sign_change_near(self.rhs, self.dh, rr->Ok_0, sup, hi, vlo, vhi));
            assert(exists|hi2: Fx, ylo: Fx, yhi: Fx|
                sign_change_near(self.rhs, self.dh, rr->Ok_0, sup, hi2, ylo, yhi));
        }
        Ok(lo)
    }

    /// Newton's method from `x0`, with the slope approximated by a forward
    /// difference of step `dh`.
    ///
    /// The iteration stops as soon as an observed value at the iterate is
    /// within tolerance. It is abandoned with `Diverged` when a step grows
    /// past the one before it, or when the iteration budget runs out; both
    /// failure paths surface as the same error. The contract forces
    /// immediate success at an `x0` whose every possible value is already
    /// within tolerance and ties every `Ok` to a small observed value; it
    /// deliberately does not pin which later iterate comes back, since
    /// each step turns on two fresh observations of the callable.
    pub fn newton(&self, x0: Fx) -> (r: Result<Fx, SolveError>)
        requires
            forall|x: Fx| call_requires(self.rhs, (x,)),
        ensures
            r is Ok ==> exists|y: Fx| small_at(self.rhs, self.dh, r->Ok_0, y),
            r is Err ==> r->Err_0 == SolveError::Diverged,
            always_within(self.rhs, self.dh, x0) ==> r == Ok::<Fx, SolveError>(x0),
    {
        let mut x = x0;
        let mut dx: i64 = i64::MAX;
        let mut it: u64 = 0;
        while it < NEWTON_CAP
            invariant
                forall|x: Fx| call_requires(self.rhs, (x,)),
                0 <= it <= NEWTON_CAP,
                it == 0 ==> x == x0,
                it >= 1 ==> exists|y: Fx|
                    #[trigger] call_ensures(self.rhs, (x0,), y) && fabs(y.m()) >= self.dh.m(),
            decreases NEWTON_CAP - it,
        {
            let f_x = self.calc(x);
            if f_x.abs().raw < self.dh.raw {
                proof {
                    let ghost rr: Result<Fx, SolveError> = Ok(x);
                    assert(small_at(self.rhs, self.dh, rr->Ok_0, f_x));
                    assert(exists|y: Fx| small_at(self.rhs, self.dh, rr->Ok_0, y));
                }
                return Ok(x);
            }
            proof {
                if it == 0 {
                    assert(call_ensures(self.rhs, (x0,), f_x) && fabs(f_x.m()) >= self.dh.m());
                }
            }
            let grad = self.calc(x.add(self.dh)).sub(f_x).div(self.dh);
            let next_x = x.sub(f_x.div(grad));
            let step = next_x.sub(x).abs();
            if step.raw > dx {
                return Err(SolveError::Diverged);
            }
            dx = step.raw;
            x = next_x;
            it = it + 1;
        }
        Err(SolveError::Diverged)
    }
}

} // verus!
