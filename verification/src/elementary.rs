//! Elementary functions on the fixed-point scalar: cosine, exponential,
//! hyperbolic sine, tangent and secant.
//!
//! Each is computed by argument reduction and a truncated Taylor series in
//! Horner form, and each executable function returns exactly the value of its
//! spec mirror, so callers reason about a single well-defined number.

use vstd::prelude::*;
use crate::fx::{
    Fx, SCALE, MAX_RAW, sat, iabs, tdiv, fadd, fsub, fneg, fmul, fdiv, fdivn, lemma_tdiv_bound,
};

verus! {

/// Pi in raw units.
pub const PI_RAW: i64 = 3454217652358;

/// Pi halved in raw units; twice this is exactly `PI_RAW`.
pub const HALF_PI_RAW: i64 = 1727108826179;

/// The natural logarithm of two in raw units.
pub const LN2_RAW: i64 = 762123384786;

/// Inputs at or above this saturate the exponential.
pub const EXP_HI_RAW: i64 = 17592186044416;

/// Inputs at or below this round the exponential down to zero.
pub const EXP_LO_RAW: i64 = -35184372088832;

/// Divisor of the cosine Horner step that yields depth `j`.
pub open spec fn cos_den(j: int) -> int {
    (2 * (11 - j)) * (2 * (11 - j) - 1)
}

/// The cosine Horner recurrence after `j` steps on `u`, the squared
/// reduced argument.
pub open spec fn cos_horner(u: int, j: nat) -> int
    decreases j,
{
    if j == 0 {
        SCALE as int
    } else {
        fsub(SCALE as int, fdivn(fmul(u, cos_horner(u, (j - 1) as nat)), cos_den(j as int)))
    }
}

/// The cosine of a raw value: reduce modulo pi around zero, evaluate the
/// series on the remainder, clamp into `[-1, 1]`, and restore the sign
/// from the parity of the removed half-turns.
pub open spec fn cos_spec(x: int) -> int {
    let ax = iabs(sat(x));
    let k = tdiv(ax + HALF_PI_RAW, PI_RAW as int);
    let y = ax - k * (PI_RAW as int);
    let c = cos_horner(fmul(y, y), 10);
    let cc = if c > SCALE {
        SCALE as int
    } else if c < -(SCALE as int) {
        -(SCALE as int)
    } else {
        c
    };
    if k % 2 == 0 {
        cc
    } else {
        -cc
    }
}

/// Divisor of the exponential Horner step that yields depth `j`.
pub open spec fn exp_den(j: int) -> int {
    14 - j
}

/// The exponential Horner recurrence after `j` steps on the reduced
/// argument `r`.
pub open spec fn exp_horner(r: int, j: nat) -> int
    decreases j,
{
    if j == 0 {
        SCALE as int
    } else {
        fadd(SCALE as int, fdivn(fmul(r, exp_horner(r, (j - 1) as nat)), exp_den(j as int)))
    }
}

/// `t` doubled `m` times with saturation.
pub open spec fn dbl_n(t: int, m: nat) -> int
    decreases m,
{
    if m == 0 {
        t
    } else {
        fadd(dbl_n(t, (m - 1) as nat), dbl_n(t, (m - 1) as nat))
    }
}

/// `t` halved `m` times, truncating toward zero.
pub open spec fn hlv_n(t: int, m: nat) -> int
    decreases m,
{
    if m == 0 {
        t
    } else {
        fdivn(hlv_n(t, (m - 1) as nat), 2)
    }
}

/// The exponential of a raw value: split off a power of two, evaluate the
/// series on the remainder, and shift the power back in. Large arguments
/// saturate; very negative ones give zero.
pub open spec fn exp_spec(x: int) -> int {
    let xs = sat(x);
    if xs >= EXP_HI_RAW {
        MAX_RAW as int
    } else if xs <= EXP_LO_RAW {
        0
    } else {
        let k = tdiv(xs, LN2_RAW as int);
        let r = xs - k * (LN2_RAW as int);
        let t = exp_horner(r, 13);
        if k >= 0 {
            dbl_n(t, k as nat)
        } else {
            hlv_n(t, (-k) as nat)
        }
    }
}

/// The hyperbolic sine, from the two exponentials.
pub open spec fn sinh_spec(x: int) -> int {
    fdivn(fsub(exp_spec(x), exp_spec(fneg(x))), 2)
}

/// The hyperbolic cosine, from the two exponentials.
pub open spec fn cosh_spec(x: int) -> int {
    fdivn(fadd(exp_spec(x), exp_spec(fneg(x))), 2)
}

/// The hyperbolic tangent through decaying exponentials only, clamped
/// into `[-1, 1]`: with `d` for `exp(-2|x|)`, the magnitude is
/// `(1 - d) / (1 + d)`.
pub open spec fn tanh_spec(x: int) -> int {
    let xs = sat(x);
    let ax = iabs(xs);
    let d = exp_spec(-fadd(ax, ax));
    let q = fdiv(fsub(SCALE as int, d), fadd(SCALE as int, d));
    let qc = if q > SCALE {
        SCALE as int
    } else if q < 0 {
        0
    } else {
        q
    };
    if xs < 0 {
        -qc
    } else {
        qc
    }
}

/// The hyperbolic secant through decaying exponentials only, clamped into
/// `[0, 1]`: with `e` for `exp(-|x|)`, the value is `2e / (1 + e * e)`.
pub open spec fn sech_spec(x: int) -> int {
    let xs = sat(x);
    let ax = iabs(xs);
    let e = exp_spec(-ax);
    let s = fdiv(fadd(e, e), fadd(SCALE as int, fmul(e, e)));
    if s > SCALE {
        SCALE as int
    } else if s < 0 {
        0
    } else {
        s
    }
}

/// The cosine.
pub fn cos_fx(x: Fx) -> (r: Fx)
    ensures
        r.m() == cos_spec(x.m()),
        -(SCALE as int) <= r.m() <= SCALE as int,
{
    let xs = Fx::from_raw(x.raw_units());
    let ax: i64 = if xs.raw < 0 {
        -xs.raw
    } else {
        xs.raw
    };
    let num: i64 = ax + HALF_PI_RAW;
    let k: u64 = (num as u64) / (PI_RAW as u64);
    proof {
        vstd::arithmetic::div_mod::lemma_fundamental_div_mod(num as int, PI_RAW as int);
        assert(k as int == tdiv(ax as int + HALF_PI_RAW, PI_RAW as int));
    }
    let rem: i64 = num - (k as i64) * PI_RAW;
    let y: i64 = rem - HALF_PI_RAW;
    let yf = Fx { raw: y };
    let u = yf.mul(yf);
    let mut t = Fx::one();
    let mut j: u64 = 0;
    while j < 10
        invariant
            0 <= j <= 10,
            u.m() == fmul(y as int, y as int),
            t.m() == cos_horner(u.m(), j as nat),
        decreases 10 - j,
    {
        let mm: i64 = 10 - (j as i64);
        let a2: i64 = 2 * mm;
        proof {
            assert(1 <= a2 * (a2 - 1) <= 380) by (nonlinear_arith)
                requires
                    2 <= a2 <= 20,
            ;
        }
        let den: i64 = a2 * (a2 - 1);
        t = Fx::one().sub(u.mul(t).divn(den));
        j = j + 1;
    }
    let cr: i64 = if t.raw > SCALE {
        SCALE
    } else if t.raw < -SCALE {
        -SCALE
    } else {
        t.raw
    };
    if k % 2 == 0 {
        Fx { raw: cr }
    } else {
        Fx { raw: -cr }
    }
}

/// The exponential.
pub fn exp_fx(x: Fx) -> (r: Fx)
    ensures
        r.m() == exp_spec(x.m()),
{
    let xs = Fx::from_raw(x.raw_units());
    if xs.raw >= EXP_HI_RAW {
        return Fx { raw: MAX_RAW };
    }
    if xs.raw <= EXP_LO_RAW {
        return Fx { raw: 0 };
    }
    let k: i64 = crate::fx::tdiv64(xs.raw, LN2_RAW);
    proof {
        lemma_tdiv_bound(xs.raw as int, LN2_RAW as int);
        let xv = xs.raw as int;
        let q = iabs(xv) / (LN2_RAW as int);
        vstd::arithmetic::div_mod::lemma_fundamental_div_mod(iabs(xv), LN2_RAW as int);
        assert((LN2_RAW as int) * q <= iabs(xv));
        vstd::arithmetic::mul::lemma_mul_is_commutative(LN2_RAW as int, q);
        if xv >= 0 {
            assert(k as int == q);
            assert((k as int) * (LN2_RAW as int) == q * (LN2_RAW as int));
        } else {
            assert(k as int == -q);
            assert((k as int) * (LN2_RAW as int) == -(q * (LN2_RAW as int)))
                by (nonlinear_arith)
                requires
                    k as int == -q,
            ;
        }
        assert(iabs((k as int) * (LN2_RAW as int)) <= iabs(xv));
    }
    let rr: i64 = xs.raw - k * LN2_RAW;
    let rf = Fx { raw: rr };
    let mut t = Fx::one();
    let mut j: u64 = 0;
    while j < 13
        invariant
            0 <= j <= 13,
            t.m() == exp_horner(rf.m(), j as nat),
        decreases 13 - j,
    {
        let den: i64 = 13 - (j as i64);
        t = Fx::one().add(rf.mul(t).divn(den));
        j = j + 1;
    }
    if k >= 0 {
        let mut m: i64 = 0;
        while m < k
            invariant
                0 <= m <= k,
                t.m() == dbl_n(exp_horner(rf.m(), 13), m as nat),
            decreases k - m,
        {
            t = t.add(t);
            m = m + 1;
        }
        t
    } else {
        let kk: i64 = -k;
        let mut m: i64 = 0;
        while m < kk
            invariant
                0 <= m <= kk,
                t.m() == hlv_n(exp_horner(rf.m(), 13), m as nat),
            decreases kk - m,
        {
            t = t.divn(2);
            m = m + 1;
        }
        t
    }
}

/// The hyperbolic sine.
pub fn sinh_fx(x: Fx) -> (r: Fx)
    ensures
        r.m() == sinh_spec(x.m()),
{
    exp_fx(x).sub(exp_fx(x.neg())).divn(2)
}

/// The hyperbolic cosine.
pub fn cosh_fx(x: Fx) -> (r: Fx)
    ensures
        r.m() == cosh_spec(x.m()),
{
    exp_fx(x).add(exp_fx(x.neg())).divn(2)
}

/// The hyperbolic tangent, clamped into `[-1, 1]`.
pub fn tanh_fx(x: Fx) -> (r: Fx)
    ensures
        r.m() == tanh_spec(x.m()),
        -(SCALE as int) <= r.m() <= SCALE as int,
{
    let xs = Fx::from_raw(x.raw_units());
    let ax: i64 = if xs.raw < 0 {
        -xs.raw
    } else {
        xs.raw
    };
    let axf = Fx { raw: ax };
    let d = exp_fx(axf.add(axf).neg());
    let q = Fx::one().sub(d).div(Fx::one().add(d));
    let qc: i64 = if q.raw > SCALE {
        SCALE
    } else if q.raw < 0 {
        0
    } else {
        q.raw
    };
    if xs.raw < 0 {
        Fx { raw: -qc }
    } else {
        Fx { raw: qc }
    }
}

/// The hyperbolic secant, clamped into `[0, 1]`.
pub fn sech_fx(x: Fx) -> (r: Fx)
    ensures
        r.m() == sech_spec(x.m()),
        0 <= r.m() <= SCALE as int,
{
    let xs = Fx::from_raw(x.raw_units());
    let ax: i64 = if xs.raw < 0 {
        -xs.raw
    } else {
        xs.raw
    };
    let e = exp_fx(Fx { raw: -ax });
    let s = e.add(e).div(Fx::one().add(e.mul(e)));
    let sc: i64 = if s.raw > SCALE {
        SCALE
    } else if s.raw < 0 {
        0
    } else {
        s.raw
    };
    Fx { raw: sc }
}

} // verus!
