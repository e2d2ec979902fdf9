//! Finite precision scalar bounds.
//!
//! This module defines the contract that a directed-rounding scalar type must
//! provide so that intervals built over it are sound. A bound value carries a
//! precision and models an extended value (`model::Xv`); every arithmetic
//! operation exists in a round-down (`_lo`) and a round-up (`_hi`) variant,
//! and each variant promises that its result brackets the exact one from the
//! correct side. Backends (an arbitrary-precision float, a machine double)
//! live outside this crate and implement these traits.

use vstd::prelude::*;

use crate::model::{
    x_abs, x_add, x_has_nat, x_is_intval, x_is_nan, x_is_zero, x_le, x_lt, x_max, x_min,
    x_eq, x_mul, x_neg, x_one, x_powi, x_qdn, x_qup, x_rdn, x_rup, x_sign, x_sub, x_zero, Xv,
};

verus! {

/// Represents the sign of a scalar value.
#[derive(Clone, Copy, Debug, PartialEq, Eq, Structural)]
pub enum Sign {
    /// Sign of numbers that are strictly less than zero.
    Negative,
    /// Sign of zero (including negative zero), and of NaN by convention.
    Zero,
    /// Sign of numbers that are strictly greater than zero.
    Positive,
}

impl Sign {
    /// The sign as the integer `-1`, `0` or `1`.
    pub open spec fn as_int(self) -> int {
        match self {
            Sign::Negative => -1,
            Sign::Zero => 0,
            Sign::Positive => 1,
        }
    }
}

/// A scalar value with a precision and a mathematical model.
///
/// The model functions carry default bodies so that a backend outside the
/// verifier can implement the trait without writing specification code; the
/// defaults themselves are placeholders that nothing in this crate relies
/// on, since all reasoning goes through the contracts stated over them.
pub trait Bnd: Sized {
    /// Mathematical value of this scalar.
    open spec fn m(&self) -> Xv {
        Xv::Nan
    }

    /// Precision, in bits of mantissa.
    open spec fn p(&self) -> usize {
        0
    }
}

/// Characters that can never occur in a bound's textual form, so that the
/// interval grammar's delimiters stay unambiguous.
pub open spec fn is_delim_char(c: char) -> bool {
    c == '<' || c == '>' || c == ',' || c == ';' || c == '{' || c == '}' || c == ' ' || c == '\t'
        || c == '\n' || c == '\r'
}

/// A string free of grammar delimiters and whitespace.
pub open spec fn is_plain_str(s: Seq<char>) -> bool {
    forall|i: int| 0 <= i < s.len() ==> !is_delim_char(#[trigger] s[i])
}

/// Finite precision version of the `std::str::FromStr` trait, with directed
/// rounding of the parsed value.
pub trait FromStr: Bnd {
    /// Whether the backend's own numeric syntax accepts `s`.
    open spec fn str_parses(s: Seq<char>) -> bool {
        false
    }

    /// Value of `s` rounded toward negative infinity at precision `p`.
    open spec fn str_lo(s: Seq<char>, p: usize) -> Xv {
        Xv::Nan
    }

    /// Value of `s` rounded toward positive infinity at precision `p`.
    open spec fn str_hi(s: Seq<char>, p: usize) -> Xv {
        Xv::Nan
    }

    /// Parses `s` and rounds down inexact representations.
    fn from_str_lo(s: &str, precision: usize) -> (r: Option<Self>)
        requires
            precision >= 1,
        ensures
            r is Some <==> Self::str_parses(s@),
            forall|t: Seq<char>| #[trigger] Self::str_parses(t) ==> is_plain_str(t),
            r matches Some(b) ==> b.m() == Self::str_lo(s@, precision) && b.p() == precision,
            x_is_nan(Self::str_lo(s@, precision)) == x_is_nan(Self::str_hi(s@, precision)),
            !x_is_nan(Self::str_lo(s@, precision)) ==> x_le(
                Self::str_lo(s@, precision),
                Self::str_hi(s@, precision),
            ),
    ;

    /// Parses `s` and rounds up inexact representations.
    fn from_str_hi(s: &str, precision: usize) -> (r: Option<Self>)
        requires
            precision >= 1,
        ensures
            r is Some <==> Self::str_parses(s@),
            forall|t: Seq<char>| #[trigger] Self::str_parses(t) ==> is_plain_str(t),
            r matches Some(b) ==> b.m() == Self::str_hi(s@, precision) && b.p() == precision,
            x_is_nan(Self::str_lo(s@, precision)) == x_is_nan(Self::str_hi(s@, precision)),
            !x_is_nan(Self::str_lo(s@, precision)) ==> x_le(
                Self::str_lo(s@, precision),
                Self::str_hi(s@, precision),
            ),
    ;
}

/// Trait for binary `min` and `max` operations.
pub trait MinMax: Bnd {
    /// Returns the smaller operand; if exactly one operand is NaN, the other.
    fn min(self, rhs: Self) -> (r: Self)
        requires
            self.p() == rhs.p(),
        ensures
            r.p() == self.p(),
            r.m() == x_min(self.m(), rhs.m()),
    ;

    /// Returns the larger operand; if exactly one operand is NaN, the other.
    fn max(self, rhs: Self) -> (r: Self)
        requires
            self.p() == rhs.p(),
        ensures
            r.p() == self.p(),
            r.m() == x_max(self.m(), rhs.m()),
    ;
}

/// Trait for the exact `abs` operation.
pub trait Abs: Bnd {
    /// Returns `self` if `self >= 0`; returns `-self` otherwise.
    fn abs(self) -> (r: Self)
        ensures
            r.p() == self.p(),
            r.m() == x_abs(self.m()),
    ;
}

/// Finite precision addition with directed rounding.
pub trait Add: Bnd {
    /// Adds `self` to `rhs` and rounds down the result.
    fn add_lo(self, rhs: Self) -> (r: Self)
        requires
            self.p() == rhs.p(),
            self.p() >= 1,
        ensures
            r.p() == self.p(),
            x_rdn(r.m(), x_add(self.m(), rhs.m()), self.p() as nat),
    ;

    /// Adds `self` to `rhs` and rounds up the result.
    fn add_hi(self, rhs: Self) -> (r: Self)
        requires
            self.p() == rhs.p(),
            self.p() >= 1,
        ensures
            r.p() == self.p(),
            x_rup(r.m(), x_add(self.m(), rhs.m()), self.p() as nat),
    ;
}

/// Finite precision subtraction with directed rounding.
pub trait Sub: Bnd {
    /// Subtracts `rhs` from `self` and rounds down the result.
    fn sub_lo(self, rhs: Self) -> (r: Self)
        requires
            self.p() == rhs.p(),
            self.p() >= 1,
        ensures
            r.p() == self.p(),
            x_rdn(r.m(), x_sub(self.m(), rhs.m()), self.p() as nat),
    ;

    /// Subtracts `rhs` from `self` and rounds up the result.
    fn sub_hi(self, rhs: Self) -> (r: Self)
        requires
            self.p() == rhs.p(),
            self.p() >= 1,
        ensures
            r.p() == self.p(),
            x_rup(r.m(), x_sub(self.m(), rhs.m()), self.p() as nat),
    ;
}

/// Finite precision multiplication with directed rounding.
pub trait Mul: Bnd {
    /// Multiplies `self` by `rhs` and rounds down the result.
    fn mul_lo(self, rhs: Self) -> (r: Self)
        requires
            self.p() == rhs.p(),
            self.p() >= 1,
        ensures
            r.p() == self.p(),
            x_rdn(r.m(), x_mul(self.m(), rhs.m()), self.p() as nat),
    ;

    /// Multiplies `self` by `rhs` and rounds up the result.
    fn mul_hi(self, rhs: Self) -> (r: Self)
        requires
            self.p() == rhs.p(),
            self.p() >= 1,
        ensures
            r.p() == self.p(),
            x_rup(r.m(), x_mul(self.m(), rhs.m()), self.p() as nat),
    ;
}

/// Finite precision division with directed rounding. Division by an exact
/// zero is excluded; interval code never divides by a zero bound.
pub trait Div: Bnd {
    /// Divides `self` by `rhs` and rounds down the result.
    fn div_lo(self, rhs: Self) -> (r: Self)
        requires
            self.p() == rhs.p(),
            self.p() >= 1,
            !x_is_zero(rhs.m()),
        ensures
            r.p() == self.p(),
            x_qdn(r.m(), self.m(), rhs.m(), self.p() as nat),
    ;

    /// Divides `self` by `rhs` and rounds up the result.
    fn div_hi(self, rhs: Self) -> (r: Self)
        requires
            self.p() == rhs.p(),
            self.p() >= 1,
            !x_is_zero(rhs.m()),
        ensures
            r.p() == self.p(),
            x_qup(r.m(), self.m(), rhs.m(), self.p() as nat),
    ;
}

/// Finite precision transcendental functions with directed rounding.
///
/// The exact values of `log`, `exp` and `x^y` are not dyadic rationals, so
/// the rounded results are named by abstract functions (`log_dn` and the
/// rest), and the contracts state the domain, sign, monotonicity and
/// bracketing facts that interval arithmetic rests on; each is a fact of a
/// real logarithm, exponential or power computed with directed rounding.
pub trait Transc: Bnd {
    /// Natural logarithm rounded toward negative infinity.
    open spec fn log_dn(x: Xv, p: usize) -> Xv {
        Xv::Nan
    }

    /// Natural logarithm rounded toward positive infinity.
    open spec fn log_up(x: Xv, p: usize) -> Xv {
        Xv::Nan
    }

    /// Natural exponential rounded toward negative infinity.
    open spec fn exp_dn(x: Xv, p: usize) -> Xv {
        Xv::Nan
    }

    /// Natural exponential rounded toward positive infinity.
    open spec fn exp_up(x: Xv, p: usize) -> Xv {
        Xv::Nan
    }

    /// Power `x^y` rounded toward negative infinity.
    open spec fn pow_dn(x: Xv, y: Xv, p: usize) -> Xv {
        Xv::Nan
    }

    /// Power `x^y` rounded toward positive infinity.
    open spec fn pow_up(x: Xv, y: Xv, p: usize) -> Xv {
        Xv::Nan
    }

    /// Computes the natural logarithm of `self` and rounds down the result.
    fn log_lo(self) -> (r: Self)
        requires
            self.p() >= 1,
        ensures
            r.p() == self.p(),
            r.m() == Self::log_dn(self.m(), self.p()),
            (x_is_nan(self.m()) || x_sign(self.m()) < 0) ==> x_is_nan(r.m()),
            x_is_zero(self.m()) ==> r.m() is NInf,
            self.m() is PInf ==> r.m() is PInf,
            (self.m() is Fin && x_sign(self.m()) > 0) ==> r.m() is Fin,
            forall|y: Xv|
                x_sign(self.m()) >= 0 && !x_is_nan(self.m()) && !x_is_nan(y) && #[trigger] x_le(
                    self.m(),
                    y,
                ) ==> x_le(Self::log_dn(self.m(), self.p()), Self::log_up(y, self.p())),
            (self.m() is Fin && x_sign(self.m()) > 0) ==> x_le(
                Self::exp_dn(Self::log_dn(self.m(), self.p()), self.p()),
                self.m(),
            ),
    ;

    /// Computes the natural logarithm of `self` and rounds up the result.
    fn log_hi(self) -> (r: Self)
        requires
            self.p() >= 1,
        ensures
            r.p() == self.p(),
            r.m() == Self::log_up(self.m(), self.p()),
            (x_is_nan(self.m()) || x_sign(self.m()) < 0) ==> x_is_nan(r.m()),
            x_is_zero(self.m()) ==> r.m() is NInf,
            self.m() is PInf ==> r.m() is PInf,
            (self.m() is Fin && x_sign(self.m()) > 0) ==> r.m() is Fin,
            forall|y: Xv|
                x_sign(y) >= 0 && !x_is_nan(self.m()) && !x_is_nan(y) && #[trigger] x_le(
                    y,
                    self.m(),
                ) ==> x_le(Self::log_dn(y, self.p()), Self::log_up(self.m(), self.p())),
            (self.m() is Fin && x_sign(self.m()) > 0) ==> x_le(
                self.m(),
                Self::exp_up(Self::log_up(self.m(), self.p()), self.p()),
            ),
    ;

    /// Computes the natural exponential of `self` and rounds down the result.
    fn exp_lo(self) -> (r: Self)
        requires
            self.p() >= 1,
        ensures
            r.p() == self.p(),
            r.m() == Self::exp_dn(self.m(), self.p()),
            x_is_nan(self.m()) ==> x_is_nan(r.m()),
            self.m() is NInf ==> r.m() == x_zero(),
            self.m() is PInf ==> r.m() is PInf,
            self.m() is Fin ==> r.m() is Fin && x_sign(r.m()) >= 0,
            forall|y: Xv|
                !x_is_nan(self.m()) && !x_is_nan(y) && #[trigger] x_le(self.m(), y) ==> x_le(
                    Self::exp_dn(self.m(), self.p()),
                    Self::exp_up(y, self.p()),
                ),
    ;

    /// Computes the natural exponential of `self` and rounds up the result.
    fn exp_hi(self) -> (r: Self)
        requires
            self.p() >= 1,
        ensures
            r.p() == self.p(),
            r.m() == Self::exp_up(self.m(), self.p()),
            x_is_nan(self.m()) ==> x_is_nan(r.m()),
            self.m() is NInf ==> r.m() == x_zero(),
            self.m() is PInf ==> r.m() is PInf,
            self.m() is Fin ==> !(r.m() is NInf) && !x_is_nan(r.m()) && x_sign(r.m()) > 0,
            forall|y: Xv|
                !x_is_nan(self.m()) && !x_is_nan(y) && #[trigger] x_le(y, self.m()) ==> x_le(
                    Self::exp_dn(y, self.p()),
                    Self::exp_up(self.m(), self.p()),
                ),
    ;

    /// Computes `self` raised to the power `rhs` and rounds down the result.
    fn pow_lo(self, rhs: Self) -> (r: Self)
        requires
            self.p() == rhs.p(),
            self.p() >= 1,
        ensures
            r.p() == self.p(),
            r.m() == Self::pow_dn(self.m(), rhs.m(), self.p()),
            forall|n: nat|
                self.m() is Fin && #[trigger] x_has_nat(rhs.m(), n) && n >= 1 ==> x_rdn(
                    Self::pow_dn(self.m(), rhs.m(), self.p()),
                    x_powi(self.m(), n),
                    self.p() as nat,
                ),
            x_is_nan(Self::pow_dn(self.m(), rhs.m(), self.p())) == x_is_nan(
                Self::pow_up(self.m(), rhs.m(), self.p()),
            ),
            !x_is_nan(Self::pow_dn(self.m(), rhs.m(), self.p())) ==> x_le(
                Self::pow_dn(self.m(), rhs.m(), self.p()),
                Self::pow_up(self.m(), rhs.m(), self.p()),
            ),
            (rhs.m() is Fin && x_sign(rhs.m()) == 0) ==> Self::pow_dn(self.m(), rhs.m(), self.p())
                == x_one() && Self::pow_up(self.m(), rhs.m(), self.p()) == x_one(),
            (!(rhs.m() is Fin && x_sign(rhs.m()) == 0) && !x_eq(self.m(), x_one()) && (x_is_nan(
                self.m(),
            ) || x_is_nan(rhs.m()))) ==> x_is_nan(Self::pow_dn(self.m(), rhs.m(), self.p())),
            x_eq(self.m(), x_one()) ==> x_eq(Self::pow_dn(self.m(), rhs.m(), self.p()), x_one())
                && x_eq(Self::pow_up(self.m(), rhs.m(), self.p()), x_one()),
            (x_is_zero(self.m()) && !x_is_nan(rhs.m()) && x_sign(rhs.m()) > 0) ==> Self::pow_dn(
                self.m(),
                rhs.m(),
                self.p(),
            ) == x_zero() && Self::pow_up(self.m(), rhs.m(), self.p()) == x_zero(),
            (self.m() is Fin && x_sign(self.m()) < 0 && rhs.m() is Fin && !x_is_intval(rhs.m()))
                ==> x_is_nan(Self::pow_dn(self.m(), rhs.m(), self.p())),
            (!x_is_nan(self.m()) && x_sign(self.m()) >= 0 && !x_is_nan(rhs.m())) ==> !x_is_nan(
                Self::pow_dn(self.m(), rhs.m(), self.p()),
            ) && x_sign(Self::pow_dn(self.m(), rhs.m(), self.p())) >= 0 && x_sign(
                Self::pow_up(self.m(), rhs.m(), self.p()),
            ) >= 0,
            (self.m() is Fin && rhs.m() is Fin && !(x_is_zero(self.m()) && x_sign(rhs.m()) < 0))
                ==> !(Self::pow_dn(self.m(), rhs.m(), self.p()) is PInf),
            (self.m() is PInf && rhs.m() is Fin && x_sign(rhs.m()) > 0) ==> Self::pow_dn(
                self.m(),
                rhs.m(),
                self.p(),
            ) is PInf && Self::pow_up(self.m(), rhs.m(), self.p()) is PInf,
            forall|x2: Xv, y2: Xv|
                !x_is_nan(x2) && !x_is_nan(y2) && !x_is_nan(self.m()) && !x_is_nan(rhs.m())
                    && x_le(x_one(), self.m()) && #[trigger] x_le(self.m(), x2) && x_sign(rhs.m())
                    >= 0 && #[trigger] x_le(rhs.m(), y2) ==> x_le(
                    Self::pow_dn(self.m(), rhs.m(), self.p()),
                    Self::pow_up(x2, y2, self.p()),
                ),
            forall|x2: Xv, y2: Xv|
                !x_is_nan(x2) && !x_is_nan(y2) && !x_is_nan(self.m()) && !x_is_nan(rhs.m())
                    && x_sign(self.m()) >= 0 && #[trigger] x_le(self.m(), x2) && x_le(x2, x_one())
                    && x_sign(y2) >= 0 && #[trigger] x_le(y2, rhs.m()) ==> x_le(
                    Self::pow_dn(self.m(), rhs.m(), self.p()),
                    Self::pow_up(x2, y2, self.p()),
                ),
    ;

    /// Computes `self` raised to the power `rhs` and rounds up the result.
    fn pow_hi(self, rhs: Self) -> (r: Self)
        requires
            self.p() == rhs.p(),
            self.p() >= 1,
        ensures
            r.p() == self.p(),
            r.m() == Self::pow_up(self.m(), rhs.m(), self.p()),
            forall|n: nat|
                self.m() is Fin && #[trigger] x_has_nat(rhs.m(), n) && n >= 1 ==> x_rup(
                    Self::pow_up(self.m(), rhs.m(), self.p()),
                    x_powi(self.m(), n),
                    self.p() as nat,
                ),
            x_is_nan(Self::pow_dn(self.m(), rhs.m(), self.p())) == x_is_nan(
                Self::pow_up(self.m(), rhs.m(), self.p()),
            ),
            !x_is_nan(Self::pow_dn(self.m(), rhs.m(), self.p())) ==> x_le(
                Self::pow_dn(self.m(), rhs.m(), self.p()),
                Self::pow_up(self.m(), rhs.m(), self.p()),
            ),
            (rhs.m() is Fin && x_sign(rhs.m()) == 0) ==> Self::pow_dn(self.m(), rhs.m(), self.p())
                == x_one() && Self::pow_up(self.m(), rhs.m(), self.p()) == x_one(),
            (!(rhs.m() is Fin && x_sign(rhs.m()) == 0) && !x_eq(self.m(), x_one()) && (x_is_nan(
                self.m(),
            ) || x_is_nan(rhs.m()))) ==> x_is_nan(Self::pow_dn(self.m(), rhs.m(), self.p())),
            x_eq(self.m(), x_one()) ==> x_eq(Self::pow_dn(self.m(), rhs.m(), self.p()), x_one())
                && x_eq(Self::pow_up(self.m(), rhs.m(), self.p()), x_one()),
            (x_is_zero(self.m()) && !x_is_nan(rhs.m()) && x_sign(rhs.m()) > 0) ==> Self::pow_dn(
                self.m(),
                rhs.m(),
                self.p(),
            ) == x_zero() && Self::pow_up(self.m(), rhs.m(), self.p()) == x_zero(),
            (self.m() is Fin && x_sign(self.m()) < 0 && rhs.m() is Fin && !x_is_intval(rhs.m()))
                ==> x_is_nan(Self::pow_dn(self.m(), rhs.m(), self.p())),
            (!x_is_nan(self.m()) && x_sign(self.m()) >= 0 && !x_is_nan(rhs.m())) ==> !x_is_nan(
                Self::pow_dn(self.m(), rhs.m(), self.p()),
            ) && x_sign(Self::pow_dn(self.m(), rhs.m(), self.p())) >= 0 && x_sign(
                Self::pow_up(self.m(), rhs.m(), self.p()),
            ) >= 0,
            (self.m() is Fin && rhs.m() is Fin && !(x_is_zero(self.m()) && x_sign(rhs.m()) < 0))
                ==> !(Self::pow_dn(self.m(), rhs.m(), self.p()) is PInf),
            (self.m() is PInf && rhs.m() is Fin && x_sign(rhs.m()) > 0) ==> Self::pow_dn(
                self.m(),
                rhs.m(),
                self.p(),
            ) is PInf && Self::pow_up(self.m(), rhs.m(), self.p()) is PInf,
            forall|x2: Xv, y2: Xv|
                !x_is_nan(x2) && !x_is_nan(y2) && !x_is_nan(self.m()) && !x_is_nan(rhs.m())
                    && x_le(x_one(), self.m()) && #[trigger] x_le(self.m(), x2) && x_sign(rhs.m())
                    >= 0 && #[trigger] x_le(rhs.m(), y2) ==> x_le(
                    Self::pow_dn(self.m(), rhs.m(), self.p()),
                    Self::pow_up(x2, y2, self.p()),
                ),
            forall|x2: Xv, y2: Xv|
                !x_is_nan(x2) && !x_is_nan(y2) && !x_is_nan(self.m()) && !x_is_nan(rhs.m())
                    && x_sign(self.m()) >= 0 && #[trigger] x_le(self.m(), x2) && x_le(x2, x_one())
                    && x_sign(y2) >= 0 && #[trigger] x_le(y2, rhs.m()) ==> x_le(
                    Self::pow_dn(self.m(), rhs.m(), self.p()),
                    Self::pow_up(x2, y2, self.p()),
                ),
    ;
}

/// All-encapsulating trait for finite precision scalars usable as interval
/// bounds.
pub trait Float: Bnd + FromStr + MinMax + Abs + Add + Sub + Mul + Div + Transc {
    /// Constructs a float representing zero.
    fn zero(precision: usize) -> (r: Self)
        requires
            precision >= 1,
        ensures
            r.p() == precision,
            r.m() == x_zero(),
    ;

    /// Constructs a float representing negative zero.
    fn neg_zero(precision: usize) -> (r: Self)
        requires
            precision >= 1,
        ensures
            r.p() == precision,
            r.m() == x_zero(),
    ;

    /// Constructs a float representing one.
    fn one(precision: usize) -> (r: Self)
        requires
            precision >= 1,
        ensures
            r.p() == precision,
            r.m() == x_one(),
    ;

    /// Constructs a float representing positive infinity.
    fn infinity(precision: usize) -> (r: Self)
        requires
            precision >= 1,
        ensures
            r.p() == precision,
            r.m() == Xv::PInf,
    ;

    /// Constructs a float representing negative infinity.
    fn neg_infinity(precision: usize) -> (r: Self)
        requires
            precision >= 1,
        ensures
            r.p() == precision,
            r.m() == Xv::NInf,
    ;

    /// Constructs a float representing NaN.
    fn nan(precision: usize) -> (r: Self)
        requires
            precision >= 1,
        ensures
            r.p() == precision,
            r.m() == Xv::Nan,
    ;

    /// Returns the sign of `self`, with NaN counted as zero.
    fn sign(&self) -> (r: Sign)
        ensures
            r.as_int() == x_sign(self.m()),
    ;

    /// Returns the precision of `self`.
    fn precision(&self) -> (r: usize)
        ensures
            r == self.p(),
    ;

    /// Whether `self` is a regular number (non-infinity and non-NaN).
    fn is_finite(&self) -> (r: bool)
        ensures
            r == (self.m() is Fin),
    ;

    /// Whether `self` is either positive infinity or negative infinity.
    fn is_infinite(&self) -> (r: bool)
        ensures
            r == (self.m() is PInf || self.m() is NInf),
    ;

    /// Whether `self` is zero (or negative zero).
    fn is_zero(&self) -> (r: bool)
        ensures
            r == x_is_zero(self.m()),
    ;

    /// Whether `self` is positive infinity.
    fn is_infinity(&self) -> (r: bool)
        ensures
            r == (self.m() is PInf),
    ;

    /// Whether `self` is negative infinity.
    fn is_neg_infinity(&self) -> (r: bool)
        ensures
            r == (self.m() is NInf),
    ;

    /// Whether `self` is NaN.
    fn is_nan(&self) -> (r: bool)
        ensures
            r == x_is_nan(self.m()),
    ;

    /// Whether `self` is less than or equal to `rhs`; false when either side
    /// is NaN.
    fn le(&self, rhs: &Self) -> (r: bool)
        ensures
            r == x_le(self.m(), rhs.m()),
    ;

    /// Whether `self` is strictly less than `rhs`; false when either side is
    /// NaN.
    fn lt(&self, rhs: &Self) -> (r: bool)
        ensures
            r == x_lt(self.m(), rhs.m()),
    ;

    /// Whether `self` and `rhs` hold the same value; false when either side
    /// is NaN.
    fn eq_val(&self, rhs: &Self) -> (r: bool)
        ensures
            r == (x_le(self.m(), rhs.m()) && x_le(rhs.m(), self.m())),
    ;

    /// Returns the exact negation of `self`.
    fn neg(self) -> (r: Self)
        ensures
            r.p() == self.p(),
            r.m() == x_neg(self.m()),
    ;

    /// Returns a copy of `self` with the same value and precision.
    fn dup(&self) -> (r: Self)
        ensures
            r.p() == self.p(),
            r.m() == self.m(),
    ;

    /// The textual form of `self`, free of the interval grammar's delimiter
    /// characters and whitespace, and never empty. Display is the inverse
    /// of parsing: the printed text parses back, in either rounding
    /// direction, to exactly this value.
    fn to_str(&self) -> (r: String)
        requires
            self.p() >= 1,
        ensures
            r@.len() > 0,
            crate::fp::is_plain_str(r@),
            Self::str_parses(r@),
            Self::str_lo(r@, self.p()) == self.m(),
            Self::str_hi(r@, self.p()) == self.m(),
    ;
}

} // verus!
