//! Mathematical model of scalar bound values.
//!
//! A finite bound value is a dyadic rational `m * 2^e`; the extended model
//! `Xv` adds the two infinities and NaN. All contracts of the bound traits
//! and of the interval types are stated over this model.

use vstd::prelude::*;
use vstd::arithmetic::power2::{pow2, lemma_pow2_adds, lemma_pow2_pos};

verus! {

/// A dyadic rational: the value `m * 2^e`.
pub ghost struct Dy {
    /// Integer mantissa.
    pub m: int,
    /// Binary exponent.
    pub e: int,
}

/// An extended scalar value: NaN, an infinity, or a finite dyadic rational.
pub ghost enum Xv {
    /// Not a number; also the model of an empty interval's bounds.
    Nan,
    /// Negative infinity.
    NInf,
    /// A finite value.
    Fin(Dy),
    /// Positive infinity.
    PInf,
}

/// `2^k` as an `int`.
pub open spec fn p2(k: nat) -> int {
    pow2(k) as int
}

/// Mantissa of `a` rescaled to exponent `e` (meaningful when `e <= a.e`).
pub open spec fn sc(a: Dy, e: int) -> int
    recommends
        e <= a.e,
{
    a.m * p2((a.e - e) as nat)
}

/// Value ordering of dyadic rationals: `m_a * 2^(e_a) <= m_b * 2^(e_b)`.
pub open spec fn dy_le(a: Dy, b: Dy) -> bool {
    if a.e >= b.e {
        sc(a, b.e) <= b.m
    } else {
        a.m <= sc(b, a.e)
    }
}

/// Value equality of dyadic rationals.
pub open spec fn dy_eq(a: Dy, b: Dy) -> bool {
    dy_le(a, b) && dy_le(b, a)
}

/// Strict value ordering of dyadic rationals.
pub open spec fn dy_lt(a: Dy, b: Dy) -> bool {
    dy_le(a, b) && !dy_le(b, a)
}

/// Exact sum of two dyadic rationals.
pub open spec fn dy_add(a: Dy, b: Dy) -> Dy {
    if a.e >= b.e {
        Dy { m: sc(a, b.e) + b.m, e: b.e }
    } else {
        Dy { m: a.m + sc(b, a.e), e: a.e }
    }
}

/// Exact negation of a dyadic rational.
pub open spec fn dy_neg(a: Dy) -> Dy {
    Dy { m: -a.m, e: a.e }
}

/// Exact product of two dyadic rationals.
pub open spec fn dy_mul(a: Dy, b: Dy) -> Dy {
    Dy { m: a.m * b.m, e: a.e + b.e }
}

/// The dyadic rational zero.
pub open spec fn dy_zero() -> Dy {
    Dy { m: 0, e: 0 }
}

/// The dyadic rational one.
pub open spec fn dy_one() -> Dy {
    Dy { m: 1, e: 0 }
}

/// `p2` is positive.
pub broadcast proof fn lemma_p2_pos(k: nat)
    ensures
        #[trigger] p2(k) > 0,
{
    lemma_pow2_pos(k);
}

/// `p2` turns addition of exponents into multiplication.
pub proof fn lemma_p2_adds(k1: nat, k2: nat)
    ensures
        p2(k1 + k2) == p2(k1) * p2(k2),
{
    lemma_pow2_adds(k1, k2);
}

/// Rescaling to a lower exponent multiplies the mantissa by a power of two.
pub proof fn lemma_sc_split(a: Dy, e1: int, e2: int)
    requires
        e2 <= e1 <= a.e,
    ensures
        sc(a, e2) == sc(a, e1) * p2((e1 - e2) as nat),
{
    lemma_p2_adds((a.e - e1) as nat, (e1 - e2) as nat);
    assert(a.m * (p2((a.e - e1) as nat) * p2((e1 - e2) as nat)) == (a.m * p2(
        (a.e - e1) as nat,
    )) * p2((e1 - e2) as nat)) by (nonlinear_arith);
}

/// Comparison of dyadic rationals at any common exponent.
pub proof fn lemma_le_iff(a: Dy, b: Dy, e: int)
    requires
        e <= a.e,
        e <= b.e,
    ensures
        dy_le(a, b) <==> sc(a, e) <= sc(b, e),
{
    if a.e >= b.e {
        lemma_sc_split(a, b.e, e);
        lemma_p2_pos((b.e - e) as nat);
        assert(sc(a, b.e) <= b.m <==> sc(a, b.e) * p2((b.e - e) as nat) <= b.m * p2(
            (b.e - e) as nat,
        )) by (nonlinear_arith)
            requires
                p2((b.e - e) as nat) > 0,
        ;
    } else {
        lemma_sc_split(b, a.e, e);
        lemma_p2_pos((a.e - e) as nat);
        assert(a.m <= sc(b, a.e) <==> a.m * p2((a.e - e) as nat) <= sc(b, a.e) * p2(
            (a.e - e) as nat,
        )) by (nonlinear_arith)
            requires
                p2((a.e - e) as nat) > 0,
        ;
    }
}

/// Rescaling preserves exact sums.
pub proof fn lemma_sc_add(a: Dy, b: Dy, e: int)
    requires
        e <= a.e,
        e <= b.e,
    ensures
        e <= dy_add(a, b).e,
        sc(dy_add(a, b), e) == sc(a, e) + sc(b, e),
{
    let s = dy_add(a, b);
    if a.e >= b.e {
        lemma_sc_split(a, b.e, e);
        assert(sc(s, e) == (sc(a, b.e) + b.m) * p2((b.e - e) as nat));
        assert((sc(a, b.e) + b.m) * p2((b.e - e) as nat) == sc(a, b.e) * p2((b.e - e) as nat) + b.m
            * p2((b.e - e) as nat)) by (nonlinear_arith);
    } else {
        assert(sc(s, e) == (a.m + sc(b, a.e)) * p2((a.e - e) as nat));
        assert((a.m + sc(b, a.e)) * p2((a.e - e) as nat) == a.m * p2((a.e - e) as nat) + sc(b, a.e)
            * p2((a.e - e) as nat)) by (nonlinear_arith);
        lemma_sc_split(b, a.e, e);
    }
}

/// Rescaling commutes with negation.
pub proof fn lemma_sc_neg(a: Dy, e: int)
    requires
        e <= a.e,
    ensures
        sc(dy_neg(a), e) == -sc(a, e),
{
    assert((-a.m) * p2((a.e - e) as nat) == -(a.m * p2((a.e - e) as nat))) by (nonlinear_arith);
}

/// The rescaled mantissa of a product is the product of rescaled mantissas.
pub proof fn lemma_sc_mul(a: Dy, b: Dy, ea: int, eb: int)
    requires
        ea <= a.e,
        eb <= b.e,
    ensures
        ea + eb <= dy_mul(a, b).e,
        sc(dy_mul(a, b), ea + eb) == sc(a, ea) * sc(b, eb),
{
    lemma_p2_adds((a.e - ea) as nat, (b.e - eb) as nat);
    assert((a.m * b.m) * (p2((a.e - ea) as nat) * p2((b.e - eb) as nat)) == (a.m * p2(
        (a.e - ea) as nat,
    )) * (b.m * p2((b.e - eb) as nat))) by (nonlinear_arith);
}

/// Rescaling to a value's own exponent gives its mantissa back.
pub broadcast proof fn lemma_sc_self(a: Dy)
    ensures
        #[trigger] sc(a, a.e) == a.m,
{
    assert(p2(0) == 1) by {
        vstd::arithmetic::power2::lemma2_to64();
    }
}

/// Reflexivity of the value ordering.
pub broadcast proof fn lemma_dy_refl(a: Dy)
    ensures
        #[trigger] dy_le(a, a),
{
    lemma_sc_self(a);
}

/// Transitivity of the value ordering.
pub proof fn lemma_dy_trans(a: Dy, b: Dy, c: Dy)
    requires
        dy_le(a, b),
        dy_le(b, c),
    ensures
        dy_le(a, c),
{
    let e = if a.e <= b.e {
        if a.e <= c.e {
            a.e
        } else {
            c.e
        }
    } else {
        if b.e <= c.e {
            b.e
        } else {
            c.e
        }
    };
    lemma_le_iff(a, b, e);
    lemma_le_iff(b, c, e);
    lemma_le_iff(a, c, e);
}

/// Totality of the value ordering.
pub proof fn lemma_dy_total(a: Dy, b: Dy)
    ensures
        dy_le(a, b) || dy_le(b, a),
{
    let e = if a.e <= b.e {
        a.e
    } else {
        b.e
    };
    lemma_le_iff(a, b, e);
    lemma_le_iff(b, a, e);
}

/// The sign of a dyadic rational is the sign of its mantissa.
pub proof fn lemma_dy_sign(a: Dy)
    ensures
        a.m > 0 <==> dy_lt(dy_zero(), a),
        a.m < 0 <==> dy_lt(a, dy_zero()),
        a.m == 0 <==> dy_eq(a, dy_zero()),
{
    let e = if a.e <= 0 {
        a.e
    } else {
        0
    };
    lemma_le_iff(a, dy_zero(), e);
    lemma_le_iff(dy_zero(), a, e);
    lemma_p2_pos((a.e - e) as nat);
    assert(a.m > 0 <==> sc(a, e) > 0) by (nonlinear_arith)
        requires
            p2((a.e - e) as nat) > 0,
            sc(a, e) == a.m * p2((a.e - e) as nat),
    ;
    assert(a.m < 0 <==> sc(a, e) < 0) by (nonlinear_arith)
        requires
            p2((a.e - e) as nat) > 0,
            sc(a, e) == a.m * p2((a.e - e) as nat),
    ;
}

/// Monotonicity of exact addition.
pub proof fn lemma_dy_add_mono(a: Dy, b: Dy, c: Dy, d: Dy)
    requires
        dy_le(a, b),
        dy_le(c, d),
    ensures
        dy_le(dy_add(a, c), dy_add(b, d)),
{
    let e1 = if a.e <= b.e {
        a.e
    } else {
        b.e
    };
    let e2 = if c.e <= d.e {
        c.e
    } else {
        d.e
    };
    let e = if e1 <= e2 {
        e1
    } else {
        e2
    };
    lemma_le_iff(a, b, e);
    lemma_le_iff(c, d, e);
    lemma_sc_add(a, c, e);
    lemma_sc_add(b, d, e);
    lemma_le_iff(dy_add(a, c), dy_add(b, d), e);
}

/// Negation flips the value ordering.
pub proof fn lemma_dy_neg_flip(a: Dy, b: Dy)
    ensures
        dy_le(a, b) <==> dy_le(dy_neg(b), dy_neg(a)),
{
    let e = if a.e <= b.e {
        a.e
    } else {
        b.e
    };
    lemma_le_iff(a, b, e);
    lemma_le_iff(dy_neg(b), dy_neg(a), e);
    lemma_sc_neg(a, e);
    lemma_sc_neg(b, e);
}

/// Whether an extended value is NaN.
pub open spec fn x_is_nan(x: Xv) -> bool {
    x is Nan
}

/// Whether an extended value is exactly zero.
pub open spec fn x_is_zero(x: Xv) -> bool {
    match x {
        Xv::Fin(d) => d.m == 0,
        _ => false,
    }
}

/// Ordering of extended values; false whenever NaN is involved.
pub open spec fn x_le(a: Xv, b: Xv) -> bool {
    match (a, b) {
        (Xv::Nan, _) => false,
        (_, Xv::Nan) => false,
        (Xv::NInf, _) => true,
        (_, Xv::NInf) => false,
        (_, Xv::PInf) => true,
        (Xv::PInf, _) => false,
        (Xv::Fin(x), Xv::Fin(y)) => dy_le(x, y),
    }
}

/// Strict ordering of extended values; false whenever NaN is involved.
pub open spec fn x_lt(a: Xv, b: Xv) -> bool {
    x_le(a, b) && !x_le(b, a)
}

/// Value equality of extended values; NaN is not equal to anything.
pub open spec fn x_eq(a: Xv, b: Xv) -> bool {
    x_le(a, b) && x_le(b, a)
}

/// Sign of an extended value, with NaN counted as zero by convention.
pub open spec fn x_sign(x: Xv) -> int {
    match x {
        Xv::Nan => 0,
        Xv::NInf => -1,
        Xv::PInf => 1,
        Xv::Fin(d) => if d.m > 0 {
            1
        } else if d.m < 0 {
            -1
        } else {
            0
        },
    }
}

/// Exact sum of extended values, with `inf + (-inf) = NaN`.
pub open spec fn x_add(a: Xv, b: Xv) -> Xv {
    match (a, b) {
        (Xv::Nan, _) => Xv::Nan,
        (_, Xv::Nan) => Xv::Nan,
        (Xv::PInf, Xv::NInf) => Xv::Nan,
        (Xv::NInf, Xv::PInf) => Xv::Nan,
        (Xv::PInf, _) => Xv::PInf,
        (_, Xv::PInf) => Xv::PInf,
        (Xv::NInf, _) => Xv::NInf,
        (_, Xv::NInf) => Xv::NInf,
        (Xv::Fin(x), Xv::Fin(y)) => Xv::Fin(dy_add(x, y)),
    }
}

/// Exact negation of an extended value.
pub open spec fn x_neg(a: Xv) -> Xv {
    match a {
        Xv::Nan => Xv::Nan,
        Xv::NInf => Xv::PInf,
        Xv::PInf => Xv::NInf,
        Xv::Fin(d) => Xv::Fin(dy_neg(d)),
    }
}

/// Exact difference of extended values.
pub open spec fn x_sub(a: Xv, b: Xv) -> Xv {
    x_add(a, x_neg(b))
}

/// Exact product of extended values, with `0 * inf = NaN`.
pub open spec fn x_mul(a: Xv, b: Xv) -> Xv {
    match (a, b) {
        (Xv::Nan, _) => Xv::Nan,
        (_, Xv::Nan) => Xv::Nan,
        (Xv::Fin(x), Xv::Fin(y)) => Xv::Fin(dy_mul(x, y)),
        _ => {
            if x_sign(a) == 0 || x_sign(b) == 0 {
                Xv::Nan
            } else if x_sign(a) == x_sign(b) {
                Xv::PInf
            } else {
                Xv::NInf
            }
        },
    }
}

/// Finite zero as an extended value.
pub open spec fn x_zero() -> Xv {
    Xv::Fin(dy_zero())
}

/// Finite one as an extended value.
pub open spec fn x_one() -> Xv {
    Xv::Fin(dy_one())
}

/// Exact absolute value of an extended value.
pub open spec fn x_abs(a: Xv) -> Xv {
    match a {
        Xv::Nan => Xv::Nan,
        Xv::NInf => Xv::PInf,
        Xv::PInf => Xv::PInf,
        Xv::Fin(d) => if d.m < 0 {
            Xv::Fin(dy_neg(d))
        } else {
            Xv::Fin(d)
        },
    }
}

/// Whether an extended value is a finite integer.
pub open spec fn x_is_intval(x: Xv) -> bool {
    match x {
        Xv::Fin(d) => exists|w: Dy| dy_eq(w, d) && w.e >= 0,
        _ => false,
    }
}

/// `w` lies at or below the exact quotient `a / b` (for `b` nonzero).
pub open spec fn le_quot(w: Dy, a: Dy, b: Dy) -> bool
    recommends
        b.m != 0,
{
    if b.m > 0 {
        dy_le(dy_mul(w, b), a)
    } else {
        dy_le(a, dy_mul(w, b))
    }
}

/// `w` lies at or above the exact quotient `a / b` (for `b` nonzero).
pub open spec fn ge_quot(w: Dy, a: Dy, b: Dy) -> bool
    recommends
        b.m != 0,
{
    if b.m > 0 {
        dy_le(a, dy_mul(w, b))
    } else {
        dy_le(dy_mul(w, b), a)
    }
}

/// `v` is the largest `p`-bit representable value not above `a / b`.
pub open spec fn is_qdn(v: Dy, a: Dy, b: Dy, p: nat) -> bool {
    repr(v, p) && le_quot(v, a, b) && (forall|w: Dy| repr(w, p) && le_quot(w, a, b) ==> dy_le(w, v))
}

/// `v` is the smallest `p`-bit representable value not below `a / b`.
pub open spec fn is_qup(v: Dy, a: Dy, b: Dy, p: nat) -> bool {
    repr(v, p) && ge_quot(v, a, b) && (forall|w: Dy| repr(w, p) && ge_quot(w, a, b) ==> dy_le(v, w))
}

/// `r` is the exact quotient `x / y` rounded toward negative infinity.
pub open spec fn x_qdn(r: Xv, x: Xv, y: Xv, p: nat) -> bool {
    match (x, y) {
        (Xv::Nan, _) => r is Nan,
        (_, Xv::Nan) => r is Nan,
        (Xv::Fin(a), Xv::Fin(b)) => if b.m == 0 {
            true  // division by an exact zero is never relied upon
        } else {
            r matches Xv::Fin(v) && is_qdn(v, a, b, p)
        },
        (Xv::Fin(_), _) => r == x_zero(),  // finite over infinite
        (_, Xv::Fin(b)) => if b.m == 0 {
            true
        } else if x_sign(x) * x_sign(y) == 1 {
            r is PInf
        } else {
            r is NInf
        },
        _ => r is Nan,  // infinite over infinite
    }
}

/// `r` is the exact quotient `x / y` rounded toward positive infinity.
pub open spec fn x_qup(r: Xv, x: Xv, y: Xv, p: nat) -> bool {
    match (x, y) {
        (Xv::Nan, _) => r is Nan,
        (_, Xv::Nan) => r is Nan,
        (Xv::Fin(a), Xv::Fin(b)) => if b.m == 0 {
            true
        } else {
            r matches Xv::Fin(v) && is_qup(v, a, b, p)
        },
        (Xv::Fin(_), _) => r == x_zero(),
        (_, Xv::Fin(b)) => if b.m == 0 {
            true
        } else if x_sign(x) * x_sign(y) == 1 {
            r is PInf
        } else {
            r is NInf
        },
        _ => r is Nan,
    }
}

/// NaN-avoiding minimum: if exactly one operand is NaN the other is taken.
pub open spec fn x_min(a: Xv, b: Xv) -> Xv {
    if x_is_nan(a) {
        b
    } else if x_is_nan(b) {
        a
    } else if x_le(a, b) {
        a
    } else {
        b
    }
}

/// NaN-avoiding maximum: if exactly one operand is NaN the other is taken.
pub open spec fn x_max(a: Xv, b: Xv) -> Xv {
    if x_is_nan(a) {
        b
    } else if x_is_nan(b) {
        a
    } else if x_le(a, b) {
        b
    } else {
        a
    }
}

/// Whether a value is representable with a `p`-bit mantissa.
pub open spec fn repr(d: Dy, p: nat) -> bool {
    exists|w: Dy| dy_eq(w, d) && -p2(p) < w.m < p2(p)
}

/// `v` is the largest `p`-bit representable value not above `x`.
pub open spec fn is_rdn(v: Dy, x: Dy, p: nat) -> bool {
    repr(v, p) && dy_le(v, x) && (forall|w: Dy| repr(w, p) && dy_le(w, x) ==> dy_le(w, v))
}

/// `v` is the smallest `p`-bit representable value not below `x`.
pub open spec fn is_rup(v: Dy, x: Dy, p: nat) -> bool {
    repr(v, p) && dy_le(x, v) && (forall|w: Dy| repr(w, p) && dy_le(x, w) ==> dy_le(v, w))
}

/// `r` is `x` rounded toward negative infinity at precision `p`.
pub open spec fn x_rdn(r: Xv, x: Xv, p: nat) -> bool {
    match x {
        Xv::Nan => r is Nan,
        Xv::NInf => r is NInf,
        Xv::PInf => r is PInf,
        Xv::Fin(d) => r matches Xv::Fin(v) && is_rdn(v, d, p),
    }
}

/// `r` is `x` rounded toward positive infinity at precision `p`.
pub open spec fn x_rup(r: Xv, x: Xv, p: nat) -> bool {
    match x {
        Xv::Nan => r is Nan,
        Xv::NInf => r is NInf,
        Xv::PInf => r is PInf,
        Xv::Fin(d) => r matches Xv::Fin(v) && is_rup(v, d, p),
    }
}

/// Reflexivity of the extended ordering away from NaN.
pub proof fn lemma_x_refl(x: Xv)
    ensures
        !x_is_nan(x) ==> x_le(x, x),
{
    if x is Fin {
        lemma_dy_refl(x->Fin_0);
    }
}

/// Transitivity of the extended ordering.
pub proof fn lemma_x_trans(a: Xv, b: Xv, c: Xv)
    requires
        x_le(a, b),
        x_le(b, c),
    ensures
        x_le(a, c),
{
    if a is Fin && b is Fin && c is Fin {
        lemma_dy_trans(a->Fin_0, b->Fin_0, c->Fin_0);
    }
}

/// Totality of the extended ordering away from NaN.
pub proof fn lemma_x_total(a: Xv, b: Xv)
    requires
        !x_is_nan(a),
        !x_is_nan(b),
    ensures
        x_le(a, b) || x_le(b, a),
{
    if a is Fin && b is Fin {
        lemma_dy_total(a->Fin_0, b->Fin_0);
    }
}

/// Extended multiplication is commutative.
pub proof fn lemma_x_mul_comm(a: Xv, b: Xv)
    ensures
        x_mul(a, b) == x_mul(b, a),
{
    if a is Fin && b is Fin {
        assert(a->Fin_0.m * b->Fin_0.m == b->Fin_0.m * a->Fin_0.m) by (nonlinear_arith);
    }
}

/// Multiplying both sides of an inequality by a nonnegative dyadic value.
pub proof fn lemma_dy_mul_mono_r(x: Dy, y: Dy, c: Dy)
    requires
        dy_le(x, y),
        c.m >= 0,
    ensures
        dy_le(dy_mul(x, c), dy_mul(y, c)),
{
    let e = if x.e <= y.e {
        x.e
    } else {
        y.e
    };
    lemma_le_iff(x, y, e);
    lemma_sc_mul(x, c, e, c.e);
    lemma_sc_mul(y, c, e, c.e);
    lemma_sc_self(c);
    assert(sc(x, e) * c.m <= sc(y, e) * c.m) by (nonlinear_arith)
        requires
            sc(x, e) <= sc(y, e),
            c.m >= 0,
    ;
    lemma_le_iff(dy_mul(x, c), dy_mul(y, c), e + c.e);
}

/// The sign of a value is monotone in the value.
pub proof fn lemma_x_sign_mono(x: Xv, y: Xv)
    requires
        x_le(x, y),
    ensures
        x_sign(x) <= x_sign(y),
{
    if x is Fin && y is Fin {
        let a = x->Fin_0;
        let b = y->Fin_0;
        lemma_dy_sign(a);
        lemma_dy_sign(b);
        if a.m > 0 && b.m <= 0 {
            lemma_dy_trans(a, b, dy_zero());
            assert(false);
        }
        if a.m == 0 && b.m < 0 {
            lemma_dy_trans(dy_zero(), a, b);
            assert(false);
        }
    }
}

/// Values on opposite sides of zero are ordered.
pub proof fn lemma_x_sign_squeeze(x: Xv, y: Xv)
    requires
        !x_is_nan(x),
        !x_is_nan(y),
        x_sign(x) <= 0,
        x_sign(y) >= 0,
    ensures
        x_le(x, y),
{
    if x is Fin && y is Fin {
        let a = x->Fin_0;
        let b = y->Fin_0;
        lemma_dy_sign(a);
        lemma_dy_sign(b);
        lemma_dy_trans(a, dy_zero(), b);
    }
}

/// The sign of an exact product follows the signs of its factors.
pub proof fn lemma_x_mul_sign(a: Xv, b: Xv)
    requires
        !x_is_nan(x_mul(a, b)),
    ensures
        x_sign(x_mul(a, b)) == 0 <==> (x_sign(a) == 0 || x_sign(b) == 0),
        x_sign(x_mul(a, b)) > 0 <==> (x_sign(a) == x_sign(b) && x_sign(a) != 0),
        x_sign(x_mul(a, b)) < 0 <==> (x_sign(a) != x_sign(b) && x_sign(a) != 0 && x_sign(b) != 0),
{
    if a is Fin && b is Fin {
        let x = a->Fin_0;
        let y = b->Fin_0;
        assert((x.m > 0 && y.m > 0 ==> x.m * y.m > 0) && (x.m < 0 && y.m < 0 ==> x.m * y.m > 0) && (
        x.m > 0 && y.m < 0 ==> x.m * y.m < 0) && (x.m < 0 && y.m > 0 ==> x.m * y.m < 0) && (x.m == 0
            || y.m == 0 ==> x.m * y.m == 0)) by (nonlinear_arith);
    }
}

/// Multiplying both sides of an inequality by a nonnegative value.
pub proof fn lemma_x_mul_mono_r(x: Xv, y: Xv, c: Xv)
    requires
        x_le(x, y),
        !x_is_nan(c),
        x_sign(c) >= 0,
        !x_is_nan(x_mul(x, c)),
        !x_is_nan(x_mul(y, c)),
    ensures
        x_le(x_mul(x, c), x_mul(y, c)),
{
    lemma_x_sign_mono(x, y);
    if x is Fin && y is Fin && c is Fin {
        lemma_dy_mul_mono_r(x->Fin_0, y->Fin_0, c->Fin_0);
    } else {
        lemma_x_mul_sign(x, c);
        lemma_x_mul_sign(y, c);
        if x_mul(x, c) is Fin && x_mul(y, c) is Fin {
            lemma_x_sign_squeeze(x_mul(x, c), x_mul(y, c));
        } else if !(x_mul(x, c) is NInf) && !(x_mul(y, c) is PInf) {
            lemma_x_sign_squeeze(x_mul(x, c), x_mul(y, c));
        }
    }
}

/// Multiplying both sides of an inequality by a nonpositive value reverses
/// it.
pub proof fn lemma_x_mul_anti_r(x: Xv, y: Xv, c: Xv)
    requires
        x_le(x, y),
        !x_is_nan(c),
        x_sign(c) <= 0,
        !x_is_nan(x_mul(x, c)),
        !x_is_nan(x_mul(y, c)),
    ensures
        x_le(x_mul(y, c), x_mul(x, c)),
{
    lemma_x_sign_mono(x, y);
    if x is Fin && y is Fin && c is Fin {
        let a = x->Fin_0;
        let b = y->Fin_0;
        let d = c->Fin_0;
        lemma_dy_mul_mono_r(a, b, dy_neg(d));
        lemma_dy_neg_flip(dy_mul(a, dy_neg(d)), dy_mul(b, dy_neg(d)));
        assert(a.m * -d.m == -(a.m * d.m)) by (nonlinear_arith);
        assert(b.m * -d.m == -(b.m * d.m)) by (nonlinear_arith);
        assert(dy_neg(dy_mul(a, dy_neg(d))) == dy_mul(a, d));
        assert(dy_neg(dy_mul(b, dy_neg(d))) == dy_mul(b, d));
    } else {
        lemma_x_mul_sign(x, c);
        lemma_x_mul_sign(y, c);
        if !(x_mul(y, c) is NInf) && !(x_mul(x, c) is PInf) {
            lemma_x_sign_squeeze(x_mul(y, c), x_mul(x, c));
        }
    }
}

/// Sign against zero, as strict comparisons with the zero value.
pub proof fn lemma_x_zero_sign(x: Xv)
    ensures
        !x_is_nan(x) ==> (x_sign(x) > 0 <==> x_lt(x_zero(), x)),
        !x_is_nan(x) ==> (x_sign(x) < 0 <==> x_lt(x, x_zero())),
        !x_is_nan(x) ==> (x_sign(x) == 0 <==> x_eq(x, x_zero())),
{
    if x is Fin {
        lemma_dy_sign(x->Fin_0);
    }
}

/// The NaN-avoiding minimum and maximum bracket their operands.
pub proof fn lemma_x_min_max(a: Xv, b: Xv)
    requires
        !x_is_nan(a),
        !x_is_nan(b),
    ensures
        x_le(x_min(a, b), a),
        x_le(x_min(a, b), b),
        x_le(a, x_max(a, b)),
        x_le(b, x_max(a, b)),
{
    lemma_x_total(a, b);
    lemma_x_refl(a);
    lemma_x_refl(b);
}


/// A corner product lies at or below the product of points reached by
/// moving each coordinate in a direction the signs make monotone.
pub proof fn lemma_mul_corner_le(cx: Xv, cy: Xv, a: Xv, b: Xv)
    requires
        !x_is_nan(cx) && !x_is_nan(cy),
        a is Fin && b is Fin,
        x_sign(a) != 0 && x_sign(b) != 0,
        !x_is_nan(x_mul(cx, cy)),
        (x_le(cy, b) && x_sign(cx) >= 0) || (x_le(b, cy) && x_sign(cx) <= 0),
        (x_le(cx, a) && x_sign(b) >= 0) || (x_le(a, cx) && x_sign(b) <= 0),
    ensures
        x_le(x_mul(cx, cy), x_mul(a, b)),
{
    lemma_x_mul_comm(cx, cy);
    lemma_x_mul_comm(cx, b);
    lemma_x_mul_comm(cx, a);
    if x_le(cy, b) && x_sign(cx) >= 0 {
        lemma_x_mul_mono_r(cy, b, cx);
    } else {
        lemma_x_mul_anti_r(b, cy, cx);
    }
    if x_le(cx, a) && x_sign(b) >= 0 {
        lemma_x_mul_mono_r(cx, a, b);
    } else {
        lemma_x_mul_anti_r(a, cx, b);
    }
    lemma_x_trans(x_mul(cx, cy), x_mul(cx, b), x_mul(a, b));
}

/// A corner product lies at or above the product of points reached by
/// moving each coordinate in a direction the signs make monotone.
pub proof fn lemma_mul_corner_ge(cx: Xv, cy: Xv, a: Xv, b: Xv)
    requires
        !x_is_nan(cx) && !x_is_nan(cy),
        a is Fin && b is Fin,
        x_sign(a) != 0 && x_sign(b) != 0,
        !x_is_nan(x_mul(cx, cy)),
        (x_le(b, cy) && x_sign(cx) >= 0) || (x_le(cy, b) && x_sign(cx) <= 0),
        (x_le(a, cx) && x_sign(b) >= 0) || (x_le(cx, a) && x_sign(b) <= 0),
    ensures
        x_le(x_mul(a, b), x_mul(cx, cy)),
{
    lemma_x_mul_comm(cx, cy);
    lemma_x_mul_comm(cx, b);
    lemma_x_mul_comm(cx, a);
    if x_le(b, cy) && x_sign(cx) >= 0 {
        lemma_x_mul_mono_r(b, cy, cx);
    } else {
        lemma_x_mul_anti_r(cy, b, cx);
    }
    if x_le(a, cx) && x_sign(b) >= 0 {
        lemma_x_mul_mono_r(a, cx, b);
    } else {
        lemma_x_mul_anti_r(cx, a, b);
    }
    lemma_x_trans(x_mul(a, b), x_mul(cx, b), x_mul(cx, cy));
}

/// The value zero is representable at every precision.
pub proof fn lemma_zero_repr(p: nat)
    ensures
        repr(dy_zero(), p),
{
    lemma_p2_pos(p);
    lemma_dy_refl(dy_zero());
    assert(dy_eq(dy_zero(), dy_zero()) && -p2(p) < dy_zero().m < p2(p));
}

/// Exact dyadic multiplication is commutative.
pub proof fn lemma_dy_mul_comm(a: Dy, b: Dy)
    ensures
        dy_mul(a, b) == dy_mul(b, a),
{
    assert(a.m * b.m == b.m * a.m) by (nonlinear_arith);
}

/// Multiplying both sides of an inequality by a nonpositive dyadic value
/// reverses it.
pub proof fn lemma_dy_mul_anti_r(x: Dy, y: Dy, c: Dy)
    requires
        dy_le(x, y),
        c.m <= 0,
    ensures
        dy_le(dy_mul(y, c), dy_mul(x, c)),
{
    lemma_dy_mul_mono_r(x, y, dy_neg(c));
    lemma_dy_neg_flip(dy_mul(x, dy_neg(c)), dy_mul(y, dy_neg(c)));
    assert(x.m * -c.m == -(x.m * c.m)) by (nonlinear_arith);
    assert(y.m * -c.m == -(y.m * c.m)) by (nonlinear_arith);
    assert(dy_neg(dy_mul(x, dy_neg(c))) == dy_mul(x, c));
    assert(dy_neg(dy_mul(y, dy_neg(c))) == dy_mul(y, c));
}

/// A rounded corner quotient stays below every point quotient reached by
/// moving the divisor corner toward the point in the direction its sign
/// makes monotone: from `v * y <= x <= a` follows `v * b <= a`.
pub proof fn lemma_qcorner_le(v: Dy, x: Dy, y: Dy, a: Dy, b: Dy)
    requires
        dy_le(dy_mul(v, y), x),
        dy_le(x, a),
        (v.m >= 0 && dy_le(b, y)) || (v.m <= 0 && dy_le(y, b)),
    ensures
        dy_le(dy_mul(v, b), a),
{
    lemma_dy_mul_comm(v, b);
    lemma_dy_mul_comm(v, y);
    if v.m >= 0 && dy_le(b, y) {
        lemma_dy_mul_mono_r(b, y, v);
    } else {
        lemma_dy_mul_anti_r(y, b, v);
    }
    lemma_dy_trans(dy_mul(v, b), dy_mul(v, y), x);
    lemma_dy_trans(dy_mul(v, b), x, a);
}

/// The mirror of `lemma_qcorner_le`: from `a <= x <= v * y` follows
/// `a <= v * b`.
pub proof fn lemma_qcorner_ge(v: Dy, x: Dy, y: Dy, a: Dy, b: Dy)
    requires
        dy_le(x, dy_mul(v, y)),
        dy_le(a, x),
        (v.m >= 0 && dy_le(y, b)) || (v.m <= 0 && dy_le(b, y)),
    ensures
        dy_le(a, dy_mul(v, b)),
{
    lemma_dy_mul_comm(v, b);
    lemma_dy_mul_comm(v, y);
    if v.m >= 0 && dy_le(y, b) {
        lemma_dy_mul_mono_r(y, b, v);
    } else {
        lemma_dy_mul_anti_r(b, y, v);
    }
    lemma_dy_trans(a, x, dy_mul(v, y));
    lemma_dy_trans(a, dy_mul(v, y), dy_mul(v, b));
}

/// The sign of an exact dyadic product follows the signs of its factors.
pub proof fn lemma_dy_mul_sign(a: Dy, b: Dy)
    ensures
        dy_mul(a, b).m > 0 <==> (a.m > 0 && b.m > 0) || (a.m < 0 && b.m < 0),
        dy_mul(a, b).m < 0 <==> (a.m > 0 && b.m < 0) || (a.m < 0 && b.m > 0),
        dy_mul(a, b).m == 0 <==> a.m == 0 || b.m == 0,
{
    assert(((a.m > 0 && b.m > 0 ==> a.m * b.m > 0) && (a.m < 0 && b.m < 0 ==> a.m * b.m > 0) && (
    a.m > 0 && b.m < 0 ==> a.m * b.m < 0) && (a.m < 0 && b.m > 0 ==> a.m * b.m < 0) && (a.m == 0
        || b.m == 0 ==> a.m * b.m == 0))) by (nonlinear_arith);
}

/// Comparison against zero matches the sign of the mantissa.
pub proof fn lemma_dy_zero_cmp(d: Dy)
    ensures
        dy_le(dy_zero(), d) <==> d.m >= 0,
        dy_le(d, dy_zero()) <==> d.m <= 0,
{
    lemma_dy_sign(d);
    lemma_dy_refl(d);
}

/// A value whose product with a nonzero factor sits strictly below zero, or
/// strictly above it, has the sign the factor forces.
pub proof fn lemma_sign_prod_below(v: Dy, y: Dy, x: Dy)
    requires
        dy_le(dy_mul(v, y), x),
        x.m < 0,
    ensures
        y.m > 0 ==> v.m < 0,
        y.m < 0 ==> v.m > 0,
{
    lemma_dy_mul_sign(v, y);
    lemma_dy_zero_cmp(dy_mul(v, y));
    lemma_dy_zero_cmp(x);
    if dy_mul(v, y).m >= 0 {
        lemma_dy_trans(dy_zero(), dy_mul(v, y), x);
        lemma_dy_zero_cmp(x);
        assert(false);
    }
}

/// The mirror of `lemma_sign_prod_below` for a product above a strictly
/// positive value.
pub proof fn lemma_sign_prod_above(v: Dy, y: Dy, x: Dy)
    requires
        dy_le(x, dy_mul(v, y)),
        x.m > 0,
    ensures
        y.m > 0 ==> v.m > 0,
        y.m < 0 ==> v.m < 0,
{
    lemma_dy_mul_sign(v, y);
    lemma_dy_zero_cmp(dy_mul(v, y));
    lemma_dy_zero_cmp(x);
    if dy_mul(v, y).m <= 0 {
        lemma_dy_trans(x, dy_mul(v, y), dy_zero());
        lemma_dy_zero_cmp(x);
        assert(false);
    }
}

/// A rounded-down quotient of values on the nonnegative side of its sign
/// pattern is itself nonnegative, because zero is representable and lies
/// below the exact quotient.
pub proof fn lemma_qdn_nonneg(v: Dy, x: Dy, y: Dy, p: nat)
    requires
        is_qdn(v, x, y, p),
        y.m != 0,
        (y.m > 0 && x.m >= 0) || (y.m < 0 && x.m <= 0),
    ensures
        v.m >= 0,
{
    lemma_zero_repr(p);
    let prod0 = dy_mul(dy_zero(), y);
    assert(prod0.m == 0);
    lemma_dy_sign(prod0);
    lemma_dy_zero_cmp(x);
    if y.m > 0 {
        lemma_dy_trans(prod0, dy_zero(), x);
        assert(le_quot(dy_zero(), x, y));
    } else {
        lemma_dy_trans(x, dy_zero(), prod0);
        assert(le_quot(dy_zero(), x, y));
    }
    assert(dy_le(dy_zero(), v));
    lemma_dy_zero_cmp(v);
}

/// Cancelling a common nonzero factor out of an inequality of products.
pub proof fn lemma_dy_mul_cancel_r(u: Dy, w: Dy, c: Dy)
    requires
        c.m != 0,
        (c.m > 0 && dy_le(dy_mul(u, c), dy_mul(w, c))) || (c.m < 0 && dy_le(
            dy_mul(w, c),
            dy_mul(u, c),
        )),
    ensures
        dy_le(u, w),
{
    let e = if u.e <= w.e {
        u.e
    } else {
        w.e
    };
    lemma_sc_mul(u, c, e, c.e);
    lemma_sc_mul(w, c, e, c.e);
    lemma_sc_self(c);
    lemma_le_iff(dy_mul(u, c), dy_mul(w, c), e + c.e);
    lemma_le_iff(dy_mul(w, c), dy_mul(u, c), e + c.e);
    assert(sc(dy_mul(u, c), e + c.e) == sc(u, e) * c.m);
    assert(sc(dy_mul(w, c), e + c.e) == sc(w, e) * c.m);
    let su = sc(u, e);
    let sw = sc(w, e);
    assert(su <= sw) by (nonlinear_arith)
        requires
            c.m != 0,
            (c.m > 0 && su * c.m <= sw * c.m) || (c.m < 0 && sw * c.m <= su * c.m),
    ;
    lemma_le_iff(u, w, e);
}

/// Exact integer power of an extended value.
pub open spec fn x_powi(x: Xv, n: nat) -> Xv
    decreases n,
{
    if n == 0 {
        x_one()
    } else {
        x_mul(x, x_powi(x, (n - 1) as nat))
    }
}

/// Whether `y` holds exactly the integer value `n`.
pub open spec fn x_has_nat(y: Xv, n: nat) -> bool {
    y matches Xv::Fin(d) && dy_eq(d, Dy { m: n as int, e: 0 })
}

/// Rounding an exactly representable value gives that value back.
pub proof fn lemma_rdn_exact(r: Xv, x: Dy, p: nat)
    requires
        x_rdn(r, Xv::Fin(x), p),
        repr(x, p),
    ensures
        r matches Xv::Fin(v) && dy_eq(v, x),
{
    lemma_dy_refl(x);
}

/// The mirror of `lemma_rdn_exact` for rounding up.
pub proof fn lemma_rup_exact(r: Xv, x: Dy, p: nat)
    requires
        x_rup(r, Xv::Fin(x), p),
        repr(x, p),
    ensures
        r matches Xv::Fin(v) && dy_eq(v, x),
{
    lemma_dy_refl(x);
}

/// Rounding down never goes up, and rounding up never goes down.
pub proof fn lemma_rdn_le(r: Xv, x: Xv, p: nat)
    requires
        x_rdn(r, x, p),
        !x_is_nan(x),
    ensures
        x_le(r, x),
{
}

/// Rounding up never goes down.
pub proof fn lemma_rup_ge(r: Xv, x: Xv, p: nat)
    requires
        x_rup(r, x, p),
        !x_is_nan(x),
    ensures
        x_le(x, r),
{
}


/// Monotonicity of exact extended addition, away from NaN results.
pub proof fn lemma_x_add_mono(a: Xv, b: Xv, c: Xv, d: Xv)
    requires
        x_le(a, b),
        x_le(c, d),
        !x_is_nan(x_add(a, c)),
        !x_is_nan(x_add(b, d)),
    ensures
        x_le(x_add(a, c), x_add(b, d)),
{
    if a is Fin && b is Fin && c is Fin && d is Fin {
        lemma_dy_add_mono(a->Fin_0, b->Fin_0, c->Fin_0, d->Fin_0);
    }
}

/// Negation reverses the extended ordering.
pub proof fn lemma_x_neg_flip(a: Xv, b: Xv)
    ensures
        x_le(a, b) <==> x_le(x_neg(b), x_neg(a)),
{
    if a is Fin && b is Fin {
        lemma_dy_neg_flip(a->Fin_0, b->Fin_0);
    }
}

} // verus!
