//! Exact rational scalars.
//!
//! The engine stores every datum and gradient as a rational number with an
//! `i64` numerator and a positive `i64` denominator.  Arithmetic is exact:
//! each operation either returns the mathematically exact result or reports
//! that the result's components do not fit the representation.  At the
//! specification level a rational is a pair of unbounded integers, so the
//! contracts can speak about exact results independently of machine limits.

use vstd::prelude::*;

verus! {

/// A spec-level rational number: (numerator, denominator).
pub type Rat = (int, int);

/// An exact rational scalar with a positive denominator.
///
/// Derived equality on this type compares representations, not the values
/// they denote (`rat_eq` on the views is value equality: 2/4 equals 1/2 as a
/// value but not as a representation).
#[derive(Clone, Copy, PartialEq, Eq, Structural, Debug)]
pub struct Rat64 {
    pub num: i64,
    pub den: i64,
}

impl View for Rat64 {
    type V = Rat;

    open spec fn view(&self) -> Rat {
        (self.num as int, self.den as int)
    }
}

/// A rational is well formed when its denominator is positive.
pub open spec fn rat_wf(a: Rat) -> bool {
    a.1 > 0
}

pub open spec fn rat_zero() -> Rat {
    (0int, 1int)
}

pub open spec fn rat_one() -> Rat {
    (1int, 1int)
}

pub open spec fn rat_add(a: Rat, b: Rat) -> Rat {
    (a.0 * b.1 + b.0 * a.1, a.1 * b.1)
}

pub open spec fn rat_sub(a: Rat, b: Rat) -> Rat {
    (a.0 * b.1 - b.0 * a.1, a.1 * b.1)
}

pub open spec fn rat_mul(a: Rat, b: Rat) -> Rat {
    (a.0 * b.0, a.1 * b.1)
}

pub open spec fn rat_neg(a: Rat) -> Rat {
    (-a.0, a.1)
}

/// The exact quotient, with the sign moved into the numerator so that the
/// denominator stays positive.  Meaningful only for a nonzero divisor.
pub open spec fn rat_div(a: Rat, b: Rat) -> Rat {
    if b.0 > 0 {
        (a.0 * b.1, a.1 * b.0)
    } else {
        (-(a.0 * b.1), a.1 * -b.0)
    }
}

pub open spec fn rat_abs(a: Rat) -> Rat {
    (if a.0 < 0 { -a.0 } else { a.0 }, a.1)
}

/// Value equality of two rationals, by cross multiplication.
pub open spec fn rat_eq(a: Rat, b: Rat) -> bool {
    a.0 * b.1 == b.0 * a.1
}

/// Value ordering of two well-formed rationals, by cross multiplication.
pub open spec fn rat_le(a: Rat, b: Rat) -> bool {
    a.0 * b.1 <= b.0 * a.1
}

/// Whether a spec-level rational is representable as a `Rat64`.
pub open spec fn rat_in_i64(a: Rat) -> bool {
    &&& i64::MIN <= a.0 <= i64::MAX
    &&& 1 <= a.1 <= i64::MAX
}

/// Whether a well-formed rational lies in the closed interval [-1, 1].
pub open spec fn rat_in_unit(a: Rat) -> bool {
    &&& rat_le(rat_neg(rat_one()), a)
    &&& rat_le(a, rat_one())
}

pub proof fn lemma_mul_i64_full(x: int, y: int) by (nonlinear_arith)
    requires
        -0x8000_0000_0000_0000 <= x <= 0x8000_0000_0000_0000,
        -0x8000_0000_0000_0000 <= y <= 0x8000_0000_0000_0000,
    ensures
        -0x4000_0000_0000_0000_0000_0000_0000_0000 <= x * y
            <= 0x4000_0000_0000_0000_0000_0000_0000_0000,
        (0 < x && 0 < y) ==> 0 < x * y,
{
}

pub proof fn lemma_mul_den_bound(x: int, y: int) by (nonlinear_arith)
    requires
        -0x8000_0000_0000_0000 <= x <= 0x7fff_ffff_ffff_ffff,
        1 <= y <= 0x7fff_ffff_ffff_ffff,
    ensures
        -0x3fff_ffff_ffff_ffff_8000_0000_0000_0000 <= x * y
            <= 0x3fff_ffff_ffff_ffff_8000_0000_0000_0000,
{
}

pub fn rat64_zero() -> (r: Rat64)
    ensures
        r@ == rat_zero(),
        rat_wf(r@),
{
    Rat64 { num: 0, den: 1 }
}

pub fn rat64_one() -> (r: Rat64)
    ensures
        r@ == rat_one(),
        rat_wf(r@),
{
    Rat64 { num: 1, den: 1 }
}

/// Exact rational addition; `None` exactly when the exact result does not
/// fit the `i64` representation.
pub fn rat64_add(a: Rat64, b: Rat64) -> (r: Option<Rat64>)
    requires
        rat_wf(a@),
        rat_wf(b@),
    ensures
        match r {
            Some(v) => v@ == rat_add(a@, b@) && rat_wf(v@) && rat_in_i64(rat_add(a@, b@)),
            None => !rat_in_i64(rat_add(a@, b@)),
        },
{
    proof {
        lemma_mul_den_bound(a.num as int, b.den as int);
        lemma_mul_den_bound(b.num as int, a.den as int);
        lemma_mul_den_bound(a.den as int, b.den as int);
        lemma_mul_i64_full(a.den as int, b.den as int);
    }
    let n: i128 = (a.num as i128) * (b.den as i128) + (b.num as i128) * (a.den as i128);
    let d: i128 = (a.den as i128) * (b.den as i128);
    if n < i64::MIN as i128 || n > i64::MAX as i128 || d > i64::MAX as i128 {
        None
    } else {
        Some(Rat64 { num: n as i64, den: d as i64 })
    }
}

/// Exact rational subtraction; `None` exactly when the exact result does not
/// fit the `i64` representation.
pub fn rat64_sub(a: Rat64, b: Rat64) -> (r: Option<Rat64>)
    requires
        rat_wf(a@),
        rat_wf(b@),
    ensures
        match r {
            Some(v) => v@ == rat_sub(a@, b@) && rat_wf(v@) && rat_in_i64(rat_sub(a@, b@)),
            None => !rat_in_i64(rat_sub(a@, b@)),
        },
{
    proof {
        lemma_mul_den_bound(a.num as int, b.den as int);
        lemma_mul_den_bound(b.num as int, a.den as int);
        lemma_mul_den_bound(a.den as int, b.den as int);
        lemma_mul_i64_full(a.den as int, b.den as int);
    }
    let n: i128 = (a.num as i128) * (b.den as i128) - (b.num as i128) * (a.den as i128);
    let d: i128 = (a.den as i128) * (b.den as i128);
    if n < i64::MIN as i128 || n > i64::MAX as i128 || d > i64::MAX as i128 {
        None
    } else {
        Some(Rat64 { num: n as i64, den: d as i64 })
    }
}

/// Exact rational multiplication; `None` exactly when the exact result does
/// not fit the `i64` representation.
pub fn rat64_mul(a: Rat64, b: Rat64) -> (r: Option<Rat64>)
    requires
        rat_wf(a@),
        rat_wf(b@),
    ensures
        match r {
            Some(v) => v@ == rat_mul(a@, b@) && rat_wf(v@) && rat_in_i64(rat_mul(a@, b@)),
            None => !rat_in_i64(rat_mul(a@, b@)),
        },
{
    proof {
        lemma_mul_i64_full(a.num as int, b.num as int);
        lemma_mul_i64_full(a.den as int, b.den as int);
    }
    let n: i128 = (a.num as i128) * (b.num as i128);
    let d: i128 = (a.den as i128) * (b.den as i128);
    if n < i64::MIN as i128 || n > i64::MAX as i128 || d > i64::MAX as i128 {
        None
    } else {
        Some(Rat64 { num: n as i64, den: d as i64 })
    }
}

/// Exact rational negation; `None` exactly when the negated numerator does
/// not fit (only for numerator `i64::MIN`).
pub fn rat64_neg(a: Rat64) -> (r: Option<Rat64>)
    requires
        rat_wf(a@),
    ensures
        match r {
            Some(v) => v@ == rat_neg(a@) && rat_wf(v@) && rat_in_i64(rat_neg(a@)),
            None => !rat_in_i64(rat_neg(a@)),
        },
{
    if a.num == i64::MIN {
        None
    } else {
        Some(Rat64 { num: -a.num, den: a.den })
    }
}

/// Exact rational division by a nonzero divisor; `None` exactly when the
/// exact quotient does not fit the `i64` representation.
pub fn rat64_div(a: Rat64, b: Rat64) -> (r: Option<Rat64>)
    requires
        rat_wf(a@),
        rat_wf(b@),
        b@.0 != 0,
    ensures
        match r {
            Some(v) => v@ == rat_div(a@, b@) && rat_wf(v@) && rat_in_i64(rat_div(a@, b@)),
            None => !rat_in_i64(rat_div(a@, b@)),
        },
{
    proof {
        lemma_mul_den_bound(a.num as int, b.den as int);
        lemma_mul_i64_full(a.den as int, b.num as int);
        lemma_mul_i64_full(a.den as int, -(b.num as int));
    }
    let n0: i128 = (a.num as i128) * (b.den as i128);
    let n: i128;
    let d: i128;
    if b.num > 0 {
        n = n0;
        d = (a.den as i128) * (b.num as i128);
    } else {
        n = -n0;
        d = (a.den as i128) * (-(b.num as i128));
    }
    if n < i64::MIN as i128 || n > i64::MAX as i128 || d > i64::MAX as i128 {
        None
    } else {
        Some(Rat64 { num: n as i64, den: d as i64 })
    }
}

/// Largest magnitude of a numerator or denominator that `rat64_tanh` accepts
/// for its polynomial branch; keeps every intermediate product inside `i128`.
pub const TANH_DOMAIN_BOUND: i64 = 0x10_0000;

/// The hyperbolic tangent on rationals, approximated by the degree-(3,2)
/// Pade approximant `x * (27 + x^2) / (27 + 9 * x^2)`, clamped to 1 for
/// `x >= 3` and to -1 for `x <= -3` (the approximant meets the clamp exactly
/// at `x == 3`).  The result always lies in [-1, 1].
pub open spec fn rat_tanh(a: Rat) -> Rat {
    if a.0 >= 3 * a.1 {
        rat_one()
    } else if a.0 <= -3 * a.1 {
        rat_neg(rat_one())
    } else {
        (a.0 * (27 * a.1 * a.1 + a.0 * a.0), a.1 * (27 * a.1 * a.1 + 9 * a.0 * a.0))
    }
}

/// Whether `rat64_tanh` can represent the result: always on the clamped
/// branches, else when the input is small enough to evaluate and the result's
/// components fit.
pub open spec fn rat_tanh_fits(a: Rat) -> bool {
    ||| a.0 >= 3 * a.1
    ||| a.0 <= -3 * a.1
    ||| {
        &&& -TANH_DOMAIN_BOUND <= a.0 <= TANH_DOMAIN_BOUND
        &&& a.1 <= TANH_DOMAIN_BOUND
        &&& rat_in_i64(rat_tanh(a))
    }
}

/// The tanh approximant stays within [-1, 1]: on the polynomial branch the
/// slack against 1 is the cube `(3 d - n)^3 / (d (27 d^2 + 9 n^2))` and the
/// slack against -1 is `(3 d + n)^3` over the same denominator, both
/// nonnegative on that branch.
pub proof fn lemma_tanh_in_unit(a: Rat)
    requires
        rat_wf(a),
    ensures
        rat_wf(rat_tanh(a)),
        rat_le(rat_tanh(a), rat_one()),
        rat_le(rat_neg(rat_one()), rat_tanh(a)),
{
    let n = a.0;
    let d = a.1;
    if n >= 3 * d || n <= -3 * d {
    } else {
        let nn = n * (27 * d * d + n * n);
        let dd = d * (27 * d * d + 9 * n * n);
        assert(dd > 0) by (nonlinear_arith)
            requires
                d >= 1,
                dd == d * (27 * d * d + 9 * n * n),
        ;
        assert(dd - nn == (3 * d - n) * ((3 * d - n) * (3 * d - n))) by (nonlinear_arith)
            requires
                nn == n * (27 * d * d + n * n),
                dd == d * (27 * d * d + 9 * n * n),
        ;
        assert((3 * d - n) * ((3 * d - n) * (3 * d - n)) >= 0) by (nonlinear_arith)
            requires
                3 * d - n >= 0,
        ;
        assert(dd + nn == (3 * d + n) * ((3 * d + n) * (3 * d + n))) by (nonlinear_arith)
            requires
                nn == n * (27 * d * d + n * n),
                dd == d * (27 * d * d + 9 * n * n),
        ;
        assert((3 * d + n) * ((3 * d + n) * (3 * d + n)) >= 0) by (nonlinear_arith)
            requires
                3 * d + n >= 0,
        ;
        let t = rat_tanh(a);
        assert(t == (nn, dd));
        assert(t.0 * 1 <= 1 * t.1);
        assert((-1int) * t.1 <= t.0 * 1);
    }
}

/// Law: a backward contribution `up * (1 - y * y)` computed from a value `y`
/// in [-1, 1] never exceeds the upstream gradient `up` in magnitude, and lies
/// between zero and `up` whenever `up` is nonnegative, because the damping
/// factor `1 - y * y` lies in [0, 1].
pub proof fn lemma_damped_contribution_in_unit(y: Rat, up: Rat)
    requires
        rat_wf(y),
        rat_wf(up),
        rat_in_unit(y),
    ensures
        rat_wf(rat_mul(up, rat_sub(rat_one(), rat_mul(y, y)))),
        rat_le(
            rat_abs(rat_mul(up, rat_sub(rat_one(), rat_mul(y, y)))),
            rat_abs(up),
        ),
        rat_le(rat_zero(), up) ==> {
            &&& rat_le(rat_zero(), rat_mul(up, rat_sub(rat_one(), rat_mul(y, y))))
            &&& rat_le(rat_mul(up, rat_sub(rat_one(), rat_mul(y, y))), up)
        },
{
    let yn = y.0;
    let yd = y.1;
    let un = up.0;
    let ud = up.1;
    // rat_in_unit(y) gives -yd <= yn <= yd.
    assert((-1int) * yd <= yn * 1);
    assert(yn * 1 <= 1 * yd);
    assert(-yd <= yn);
    assert(yn <= yd);
    let s = yd * yd - yn * yn;
    let t = yd * yd;
    assert(0 <= s && s <= t && 1 <= t) by (nonlinear_arith)
        requires
            -yd <= yn,
            yn <= yd,
            yd >= 1,
            s == yd * yd - yn * yn,
            t == yd * yd,
    ;
    let c = rat_mul(up, rat_sub(rat_one(), rat_mul(y, y)));
    assert(c.0 == un * s && c.1 == ud * t) by (nonlinear_arith)
        requires
            c.0 == un * (1 * (yd * yd) - yn * yn * 1),
            c.1 == ud * (1 * (yd * yd)),
            s == yd * yd - yn * yn,
            t == yd * yd,
    ;
    assert(c.1 > 0) by (nonlinear_arith)
        requires
            c.1 == ud * t,
            ud >= 1,
            t >= 1,
    ;
    let acn = if c.0 < 0 { -c.0 } else { c.0 };
    let aun = if un < 0 { -un } else { un };
    assert(acn * ud <= aun * (ud * t)) by (nonlinear_arith)
        requires
            0 <= s,
            s <= t,
            1 <= ud,
            1 <= t,
            acn == (if un * s < 0 { -(un * s) } else { un * s }),
            aun == (if un < 0 { -un } else { un }),
    ;
    assert(rat_abs(c).0 * rat_abs(up).1 <= rat_abs(up).0 * rat_abs(c).1);
    if rat_le(rat_zero(), up) {
        assert(un >= 0);
        assert(0 * c.1 <= c.0 * 1 && c.0 * ud <= un * (ud * t)) by (nonlinear_arith)
            requires
                0 <= s,
                s <= t,
                1 <= ud,
                1 <= t,
                un >= 0,
                c.0 == un * s,
                c.1 == ud * t,
        ;
    }
}

/// The tanh approximant, evaluated exactly; `None` exactly when the input or
/// the result falls outside what `rat64_tanh` can evaluate and represent.
pub fn rat64_tanh(a: Rat64) -> (r: Option<Rat64>)
    requires
        rat_wf(a@),
    ensures
        match r {
            Some(v) => {
                &&& v@ == rat_tanh(a@)
                &&& rat_wf(v@)
                &&& rat_tanh_fits(a@)
                &&& rat_le(v@, rat_one())
                &&& rat_le(rat_neg(rat_one()), v@)
            },
            None => !rat_tanh_fits(a@),
        },
{
    let an: i128 = a.num as i128;
    let ad: i128 = a.den as i128;
    if an >= 3 * ad {
        proof { lemma_tanh_in_unit(a@); }
        return Some(Rat64 { num: 1, den: 1 });
    }
    if an <= -3 * ad {
        proof { lemma_tanh_in_unit(a@); }
        return Some(Rat64 { num: -1, den: 1 });
    }
    if a.num > TANH_DOMAIN_BOUND || a.num < -TANH_DOMAIN_BOUND || a.den > TANH_DOMAIN_BOUND {
        return None;
    }
    assert(0 <= an * an <= 0x100_0000_0000) by (nonlinear_arith)
        requires
            -0x10_0000 <= an <= 0x10_0000,
    ;
    assert(1 <= ad * ad <= 0x100_0000_0000) by (nonlinear_arith)
        requires
            1 <= ad <= 0x10_0000,
    ;
    let q: i128 = 27 * (ad * ad) + an * an;
    let qd: i128 = 27 * (ad * ad) + 9 * (an * an);
    assert(-0x10_0000 * (28 * 0x100_0000_0000) <= an * q <= 0x10_0000 * (28 * 0x100_0000_0000))
        by (nonlinear_arith)
        requires
            -0x10_0000 <= an <= 0x10_0000,
            0 < q <= 28 * 0x100_0000_0000,
    ;
    assert(0 < ad * qd <= 0x10_0000 * (36 * 0x100_0000_0000)) by (nonlinear_arith)
        requires
            1 <= ad <= 0x10_0000,
            0 < qd <= 36 * 0x100_0000_0000,
    ;
    let p: i128 = an * q;
    let dd: i128 = ad * qd;
    assert(p == a@.0 * (27 * a@.1 * a@.1 + a@.0 * a@.0)) by (nonlinear_arith)
        requires
            p == an * (27 * (ad * ad) + an * an),
            an == a@.0,
            ad == a@.1,
    ;
    assert(dd == a@.1 * (27 * a@.1 * a@.1 + 9 * a@.0 * a@.0)) by (nonlinear_arith)
        requires
            dd == ad * (27 * (ad * ad) + 9 * (an * an)),
            an == a@.0,
            ad == a@.1,
    ;
    if p < i64::MIN as i128 || p > i64::MAX as i128 || dd > i64::MAX as i128 {
        return None;
    }
    proof { lemma_tanh_in_unit(a@); }
    Some(Rat64 { num: p as i64, den: dd as i64 })
}

} // verus!
