//! The scalar type of the toolkit: a signed fixed-point number with `SCALE`
//! fractional resolution, stored in an `i64`.
//!
//! Every operation is total. Results are truncated toward zero and saturated
//! symmetrically into `[-MAX_RAW, MAX_RAW]`, so negation is always exact and
//! every operation mirrors a spec function on `int` exactly.

use vstd::prelude::*;

verus! {

/// Raw units per 1.0 (two to the fortieth power).
pub const SCALE: i64 = 1099511627776;

/// Largest raw magnitude a result may take (two to the sixty-second power).
pub const MAX_RAW: i64 = 4611686018427387904;

/// A fixed-point number; its value is `raw` divided by `SCALE`.
#[derive(Clone, Copy, PartialEq, Eq, Structural, Debug)]
pub struct Fx {
    pub raw: i64,
}

/// Raw values that saturation can produce.
pub open spec fn in_range(x: int) -> bool {
    -MAX_RAW <= x <= MAX_RAW
}

/// Symmetric saturation into `[-MAX_RAW, MAX_RAW]`.
pub open spec fn sat(x: int) -> int {
    if x > MAX_RAW as int {
        MAX_RAW as int
    } else if x < -(MAX_RAW as int) {
        -(MAX_RAW as int)
    } else {
        x
    }
}

/// Magnitude of a mathematical integer.
pub open spec fn iabs(x: int) -> int {
    if x < 0 {
        -x
    } else {
        x
    }
}

/// Division truncated toward zero, as the hardware divides.
pub open spec fn tdiv(a: int, b: int) -> int
    recommends
        b != 0,
{
    if (a >= 0) == (b > 0) {
        iabs(a) / iabs(b)
    } else {
        -(iabs(a) / iabs(b))
    }
}

/// Saturating fixed-point addition.
pub open spec fn fadd(a: int, b: int) -> int {
    sat(a + b)
}

/// Saturating fixed-point subtraction.
pub open spec fn fsub(a: int, b: int) -> int {
    sat(a - b)
}

/// Saturating fixed-point negation; exact on every in-range value.
pub open spec fn fneg(a: int) -> int {
    sat(-a)
}

/// Saturating fixed-point magnitude.
pub open spec fn fabs(a: int) -> int {
    sat(iabs(a))
}

/// Saturating fixed-point product: the wide product rescaled by `SCALE`.
pub open spec fn fmul(a: int, b: int) -> int {
    sat(tdiv(a * b, SCALE as int))
}

/// Saturating fixed-point quotient; a zero divisor saturates by the sign of
/// the dividend, the analogue of an infinite result.
pub open spec fn fdiv(a: int, b: int) -> int {
    if b == 0 {
        if a > 0 {
            MAX_RAW as int
        } else if a < 0 {
            -(MAX_RAW as int)
        } else {
            0
        }
    } else {
        sat(tdiv(a * (SCALE as int), b))
    }
}

/// Division of a fixed-point value by a plain positive integer.
pub open spec fn fdivn(a: int, k: int) -> int
    recommends
        k >= 1,
{
    sat(tdiv(a, k))
}

/// The fixed-point value of a plain integer.
pub open spec fn fof(v: int) -> int {
    sat(v * (SCALE as int))
}

/// The midpoint of two values, truncated toward zero.
pub open spec fn fmid(a: int, b: int) -> int {
    sat(tdiv(a + b, 2))
}

/// The fixed-point number with raw value `v`.
pub open spec fn fx_of(v: int) -> Fx {
    Fx { raw: v as i64 }
}

/// The raw values of a sequence of fixed-point numbers.
pub open spec fn raws(s: Seq<Fx>) -> Seq<int> {
    Seq::new(s.len(), |i: int| s[i].m())
}

/// `v` is an output that the function could return at `x`.
pub open spec fn observed_at<F: Fn(Fx) -> Fx>(rhs: F, x: Fx, v: int) -> bool {
    exists|y: Fx| #[trigger] call_ensures(rhs, (x,), y) && v == y.m()
}

/// The function's contract pins a single output for every input, as a
/// stateless callable's does.
pub open spec fn deterministic<F: Fn(Fx) -> Fx>(rhs: F) -> bool {
    forall|x: Fx, y1: Fx, y2: Fx|
        #[trigger] call_ensures(rhs, (x,), y1) && #[trigger] call_ensures(rhs, (x,), y2) ==> y1
            == y2
}

/// `v` is an output that the two-place function could return at `(x, y)`.
pub open spec fn observed_at2<F: Fn(Fx, Fx) -> Fx>(rhs: F, x: Fx, y: Fx, v: int) -> bool {
    exists|z: Fx| #[trigger] call_ensures(rhs, (x, y), z) && v == z.m()
}

/// The saturating sum of a sequence of raw values, folded left to right.
pub open spec fn seq_fsum(vs: Seq<int>) -> int
    decreases vs.len(),
{
    if vs.len() == 0 {
        0
    } else {
        fadd(seq_fsum(vs.drop_last()), vs.last())
    }
}

/// Bounds on an integer carry over to its product with `SCALE`.
proof fn lemma_mul_scale_bounds(lo: int, x: int, hi: int)
    requires
        lo <= x <= hi,
    ensures
        lo * (SCALE as int) <= x * (SCALE as int) <= hi * (SCALE as int),
{
    vstd::arithmetic::mul::lemma_mul_inequality(lo, x, SCALE as int);
    vstd::arithmetic::mul::lemma_mul_inequality(x, hi, SCALE as int);
}

/// The product of two `i64` values always fits a wide intermediate.
proof fn lemma_i64_prod_fits(x: int, y: int)
    requires
        -0x8000000000000000 <= x <= 0x7fffffffffffffff,
        -0x8000000000000000 <= y <= 0x7fffffffffffffff,
    ensures
        -0x40000000000000000000000000000000 <= x * y <= 0x40000000000000000000000000000000,
{
    assert(-0x40000000000000000000000000000000 <= x * y
        <= 0x40000000000000000000000000000000) by (nonlinear_arith)
        requires
            -0x8000000000000000 <= x <= 0x7fffffffffffffff,
            -0x8000000000000000 <= y <= 0x7fffffffffffffff,
    ;
}

/// The midpoint of two in-range values at least two apart lies strictly
/// between them.
pub proof fn lemma_fmid_between(a: int, b: int)
    requires
        in_range(a),
        in_range(b),
        a + 2 <= b,
    ensures
        a < fmid(a, b) < b,
{
    let n = a + b;
    if n >= 0 {
        vstd::arithmetic::div_mod::lemma_fundamental_div_mod(n, 2);
        assert(tdiv(n, 2) == n / 2);
    } else {
        vstd::arithmetic::div_mod::lemma_fundamental_div_mod(-n, 2);
        assert(tdiv(n, 2) == -((-n) / 2));
    }
}

/// A truncating quotient never outgrows the dividend's magnitude.
pub proof fn lemma_tdiv_bound(a: int, b: int)
    requires
        b != 0,
    ensures
        iabs(tdiv(a, b)) <= iabs(a),
{
    vstd::arithmetic::div_mod::lemma_div_nonincreasing(iabs(a), iabs(b));
}

/// Saturation leaves every in-range value unchanged.
pub proof fn lemma_sat_id(x: int)
    requires
        in_range(x),
    ensures
        sat(x) == x,
{
}

/// Whatever saturation returns is in range.
pub proof fn lemma_sat_in_range(x: int)
    ensures
        in_range(sat(x)),
{
}

/// Negation undoes itself on every in-range value, saturation included.
pub proof fn lemma_fneg_involutive(x: int)
    requires
        in_range(x),
    ensures
        fneg(fneg(x)) == x,
{
}

impl Fx {
    /// The mathematical raw value, for contracts.
    pub open spec fn m(self) -> int {
        self.raw as int
    }

    /// Zero.
    pub fn zero() -> (r: Fx)
        ensures
            r.m() == 0,
    {
        Fx { raw: 0 }
    }

    /// One, that is `SCALE` raw units.
    pub fn one() -> (r: Fx)
        ensures
            r.m() == SCALE as int,
    {
        Fx { raw: SCALE }
    }

    /// Builds a value from raw units, saturating it into range.
    pub fn from_raw(raw: i64) -> (r: Fx)
        ensures
            r.m() == sat(raw as int),
    {
        Fx { raw: sat_i64(raw) }
    }

    /// Reads the raw units back out.
    pub fn raw_units(self) -> (r: i64)
        ensures
            r as int == self.m(),
    {
        self.raw
    }

    /// The fixed-point image of a plain integer; magnitudes past the
    /// representable whole part saturate.
    pub fn from_int(v: i64) -> (r: Fx)
        ensures
            r.m() == fof(v as int),
    {
        let capped: i64 = if v > 4194304 {
            4194304
        } else if v < -4194304 {
            -4194304
        } else {
            v
        };
        proof {
            lemma_mul_scale_bounds(-4194304, capped as int, 4194304);
            if v > 4194304 {
                lemma_mul_scale_bounds(4194305, v as int, v as int);
            }
            if v < -4194304 {
                lemma_mul_scale_bounds(v as int, v as int, -4194305);
            }
        }
        let w: i128 = (capped as i128) * (SCALE as i128);
        Fx { raw: sat_i128(w) }
    }

    /// The fixed-point image of a count; counts past the representable
    /// whole part saturate.
    pub fn from_usize(v: usize) -> (r: Fx)
        ensures
            r.m() == fof(v as int),
    {
        let capped: i64 = if v > 4194304 {
            4194304
        } else {
            v as i64
        };
        proof {
            lemma_mul_scale_bounds(0, capped as int, 4194304);
            if v > 4194304 {
                lemma_mul_scale_bounds(4194305, v as int, v as int);
            }
        }
        let w: i128 = (capped as i128) * (SCALE as i128);
        Fx { raw: sat_i128(w) }
    }

    /// Saturating addition.
    pub fn add(self, o: Fx) -> (r: Fx)
        ensures
            r.m() == fadd(self.m(), o.m()),
    {
        let w: i128 = (self.raw as i128) + (o.raw as i128);
        Fx { raw: sat_i128(w) }
    }

    /// Saturating subtraction.
    pub fn sub(self, o: Fx) -> (r: Fx)
        ensures
            r.m() == fsub(self.m(), o.m()),
    {
        let w: i128 = (self.raw as i128) - (o.raw as i128);
        Fx { raw: sat_i128(w) }
    }

    /// Saturating negation.
    pub fn neg(self) -> (r: Fx)
        ensures
            r.m() == fneg(self.m()),
    {
        let w: i128 = -(self.raw as i128);
        Fx { raw: sat_i128(w) }
    }

    /// Saturating magnitude.
    pub fn abs(self) -> (r: Fx)
        ensures
            r.m() == fabs(self.m()),
    {
        let w: i128 = self.raw as i128;
        let aw: i128 = if w < 0 {
            -w
        } else {
            w
        };
        Fx { raw: sat_i128(aw) }
    }

    /// Saturating product.
    pub fn mul(self, o: Fx) -> (r: Fx)
        ensures
            r.m() == fmul(self.m(), o.m()),
    {
        proof {
            lemma_i64_prod_fits(self.raw as int, o.raw as int);
        }
        let w: i128 = (self.raw as i128) * (o.raw as i128);
        let q: i128 = tdiv_i128(w, SCALE as i128);
        Fx { raw: sat_i128(q) }
    }

    /// Saturating quotient.
    pub fn div(self, o: Fx) -> (r: Fx)
        ensures
            r.m() == fdiv(self.m(), o.m()),
    {
        if o.raw == 0 {
            if self.raw > 0 {
                Fx { raw: MAX_RAW }
            } else if self.raw < 0 {
                Fx { raw: -MAX_RAW }
            } else {
                Fx { raw: 0 }
            }
        } else {
            proof {
                lemma_i64_prod_fits(self.raw as int, SCALE as int);
            }
            let w: i128 = (self.raw as i128) * (SCALE as i128);
            let q: i128 = tdiv_i128(w, o.raw as i128);
            Fx { raw: sat_i128(q) }
        }
    }

    /// The midpoint between this value and another.
    pub fn mid(self, o: Fx) -> (r: Fx)
        ensures
            r.m() == fmid(self.m(), o.m()),
    {
        let s: i128 = (self.raw as i128) + (o.raw as i128);
        let q: i128 = tdiv_i128(s, 2);
        Fx { raw: sat_i128(q) }
    }

    /// Division by a plain positive integer.
    pub fn divn(self, k: i64) -> (r: Fx)
        requires
            k >= 1,
        ensures
            r.m() == fdivn(self.m(), k as int),
    {
        let q: i128 = tdiv_i128(self.raw as i128, k as i128);
        Fx { raw: sat_i128(q) }
    }
}

/// Truncating division on raw units, for the elementary functions.
pub(crate) fn tdiv64(a: i64, b: i64) -> (r: i64)
    requires
        b != 0,
        a != i64::MIN,
    ensures
        r as int == tdiv(a as int, b as int),
{
    proof {
        lemma_tdiv_bound(a as int, b as int);
    }
    let q: i128 = tdiv_i128(a as i128, b as i128);
    q as i64
}

/// Saturates an `i64` into the fixed-point range.
fn sat_i64(x: i64) -> (r: i64)
    ensures
        r as int == sat(x as int),
{
    if x > MAX_RAW {
        MAX_RAW
    } else if x < -MAX_RAW {
        -MAX_RAW
    } else {
        x
    }
}

/// Saturates a wide intermediate into the fixed-point range.
fn sat_i128(x: i128) -> (r: i64)
    ensures
        r as int == sat(x as int),
{
    if x > MAX_RAW as i128 {
        MAX_RAW
    } else if x < -(MAX_RAW as i128) {
        -MAX_RAW
    } else {
        x as i64
    }
}

/// Hardware-style truncating division on wide intermediates.
fn tdiv_i128(a: i128, b: i128) -> (r: i128)
    requires
        b != 0,
        a != i128::MIN,
        b != i128::MIN,
    ensures
        r as int == tdiv(a as int, b as int),
{
    let an: u128 = if a >= 0 {
        a as u128
    } else {
        (-a) as u128
    };
    let bn: u128 = if b >= 0 {
        b as u128
    } else {
        (-b) as u128
    };
    let q: u128 = an / bn;
    proof {
        assert(an as int == iabs(a as int));
        assert(bn as int == iabs(b as int));
        vstd::arithmetic::div_mod::lemma_div_nonincreasing(an as int, bn as int);
        assert(q as int <= an as int);
    }
    if (a >= 0) == (b > 0) {
        q as i128
    } else {
        -(q as i128)
    }
}

} // verus!
