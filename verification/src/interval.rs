//! Closed scalar intervals over a directed-rounding bound type.

use vstd::prelude::*;
use vstd::string::{StrSliceExecFns, StringExecFns};

use crate::fp::{Float, Sign};
use crate::model::{
    lemma_rdn_le, lemma_rup_ge, lemma_x_min_max, lemma_x_mul_anti_r, lemma_x_mul_comm,
    lemma_x_mul_mono_r, lemma_x_mul_sign, lemma_x_refl, lemma_x_sign_squeeze, lemma_x_total,
    lemma_x_trans, x_add, x_eq, x_is_nan, x_is_zero, x_le, x_lt, x_max, x_min, x_mul, x_neg, x_one,
    x_qdn, x_qup, x_rdn, x_rup, x_sign, x_sub, x_zero, Xv,
};

verus! {

/// Interval parsing error enum.
#[derive(Clone, Copy, Debug, PartialEq, Eq, Structural)]
pub enum ParseIntervalError {
    /// The first character of the string is anything other than `'<'`.
    MissingOpeningBracket,
    /// The last character of the string is anything other than `'>'`.
    MissingClosingBracket,
    /// There are zero, one or more than two bounds between brackets.
    InvalidNumberOfBounds,
    /// There was an error while parsing a bound.
    BoundsParseError,
    /// Bounds do not satisfy interval criteria. See `Interval::new` for
    /// details.
    InvalidBounds,
}

/// Represents the sign class of an interval.
#[derive(Clone, Copy, Debug, PartialEq, Eq, Structural)]
pub enum SignClass {
    /// Contains both negative and positive numbers.
    Mixed,
    /// Contains only zero.
    Zero,
    /// Contains only positive numbers and maybe zero.
    Positive(bool),
    /// Contains only negative numbers and maybe zero.
    Negative(bool),
}

impl SignClass {
    /// Whether `self` is `SignClass::Positive(_)`.
    pub fn is_positive(&self) -> (r: bool)
        ensures
            r == (self is Positive),
    {
        match *self {
            SignClass::Positive(_) => true,
            _ => false,
        }
    }

    /// Whether `self` is `SignClass::Negative(_)`.
    pub fn is_negative(&self) -> (r: bool)
        ensures
            r == (self is Negative),
    {
        match *self {
            SignClass::Negative(_) => true,
            _ => false,
        }
    }

    /// Short code for this sign class: `m`, `z`, `p0`/`p1` or `n0`/`n1`.
    pub fn display_string(&self) -> (r: String)
        ensures
            *self is Mixed ==> r@ =~= "m"@,
            *self is Zero ==> r@ =~= "z"@,
            self matches SignClass::Positive(z) ==> r@ =~= (if *z {
                "p0"@
            } else {
                "p1"@
            }),
            self matches SignClass::Negative(z) ==> r@ =~= (if *z {
                "n0"@
            } else {
                "n1"@
            }),
    {
        match *self {
            SignClass::Mixed => "m".to_owned(),
            SignClass::Zero => "z".to_owned(),
            SignClass::Positive(has_zero) => if has_zero {
                "p0".to_owned()
            } else {
                "p1".to_owned()
            },
            SignClass::Negative(has_zero) => if has_zero {
                "n0".to_owned()
            } else {
                "n1".to_owned()
            },
        }
    }
}

/// The sign class determined by the models of an interval's two bounds.
pub open spec fn sign_class_of(lo: Xv, hi: Xv) -> SignClass {
    if x_sign(lo) < 0 {
        if x_sign(hi) < 0 {
            SignClass::Negative(false)
        } else if x_sign(hi) == 0 {
            SignClass::Negative(true)
        } else {
            SignClass::Mixed
        }
    } else if x_sign(lo) == 0 {
        if x_sign(hi) > 0 {
            SignClass::Positive(true)
        } else {
            SignClass::Zero
        }
    } else {
        SignClass::Positive(false)
    }
}

/// Well-formedness of a pair of bound models as a closed interval: NaN
/// appears on both sides or neither, otherwise the bounds are ordered, and
/// neither side pins the interval to a single infinity.
pub open spec fn wf_pair(lo: Xv, hi: Xv) -> bool {
    &&& x_is_nan(lo) <==> x_is_nan(hi)
    &&& !x_is_nan(lo) ==> x_le(lo, hi)
    &&& !(lo is PInf && hi is PInf)
    &&& !(lo is NInf && hi is NInf)
}

/// Interval struct.
///
/// Represents a set where each element `x` satisfies `lo <= x && x <= hi`.
#[derive(Debug)]
pub struct Interval<BOUND: Float> {
    lo: BOUND,
    hi: BOUND,
}

impl<BOUND: Float> Clone for Interval<BOUND> {
    /// Clones the interval; the copy carries the same bound values and
    /// precision.
    fn clone(&self) -> (r: Self)
        ensures
            r.lo_m() == self.lo_m(),
            r.hi_m() == self.hi_m(),
            r.prec() == self.prec(),
    {
        proof {
            use_type_invariant(self);
        }
        Interval { lo: self.lo.dup(), hi: self.hi.dup() }
    }
}

impl<BOUND: Float> Interval<BOUND> {
    /// Model of the inclusive lower bound.
    pub closed spec fn lo_m(&self) -> Xv {
        self.lo.m()
    }

    /// Model of the inclusive upper bound.
    pub closed spec fn hi_m(&self) -> Xv {
        self.hi.m()
    }

    /// Precision of both bounds.
    pub closed spec fn prec(&self) -> usize {
        self.lo.p()
    }

    /// Both bounds carry one precision.
    pub closed spec fn prec_eq(&self) -> bool {
        self.lo.p() == self.hi.p()
    }

    /// Class invariant: both bounds share one precision and form a
    /// well-formed pair.
    #[verifier::type_invariant]
    pub open spec fn inv(&self) -> bool {
        &&& self.prec_eq()
        &&& self.prec() >= 1
        &&& wf_pair(self.lo_m(), self.hi_m())
    }

    /// Constructs a new interval from given bounds.
    ///
    /// The lower bound must be less than or equal to the upper bound, at the
    /// same precision. The only exception is when they are both NaNs, in
    /// which case a NaN (empty) interval is created. Pairs in which exactly
    /// one side is NaN, or where both bounds are the same infinity (an empty
    /// set, written `Interval::nan` instead), are contract violations.
    pub fn new(lo: BOUND, hi: BOUND) -> (r: Self)
        requires
            lo.p() == hi.p(),
            lo.p() >= 1,
            x_is_nan(lo.m()) <==> x_is_nan(hi.m()),
            !x_is_nan(lo.m()) ==> x_le(lo.m(), hi.m()),
            !(lo.m() is PInf && hi.m() is PInf),
            !(lo.m() is NInf && hi.m() is NInf),
        ensures
            r.lo_m() == lo.m(),
            r.hi_m() == hi.m(),
            r.prec() == lo.p(),
    {
        Interval { lo, hi }
    }

    /// Constructs a singleton interval (an interval with only one element).
    pub fn singleton(val: BOUND) -> (r: Self)
        requires
            val.p() >= 1,
            !(val.m() is PInf),
            !(val.m() is NInf),
        ensures
            r.lo_m() == val.m(),
            r.hi_m() == val.m(),
            r.prec() == val.p(),
    {
        proof {
            crate::model::lemma_x_refl(val.m());
        }
        let lo = val.dup();
        Self::new(lo, val)
    }

    /// Constructs an interval that contains only zero.
    pub fn zero(precision: usize) -> (r: Self)
        requires
            precision >= 1,
        ensures
            r.lo_m() == x_zero(),
            r.hi_m() == x_zero(),
            r.prec() == precision,
    {
        proof {
            crate::model::lemma_x_refl(x_zero());
        }
        Self::new(BOUND::zero(precision), BOUND::zero(precision))
    }

    /// Constructs an interval that contains only one.
    pub fn one(precision: usize) -> (r: Self)
        requires
            precision >= 1,
        ensures
            r.lo_m() == x_one(),
            r.hi_m() == x_one(),
            r.prec() == precision,
    {
        proof {
            crate::model::lemma_x_refl(x_one());
        }
        Self::new(BOUND::one(precision), BOUND::one(precision))
    }

    /// Constructs a NaN (empty) interval.
    pub fn nan(precision: usize) -> (r: Self)
        requires
            precision >= 1,
        ensures
            r.lo_m() == Xv::Nan,
            r.hi_m() == Xv::Nan,
            r.prec() == precision,
    {
        Self::new(BOUND::nan(precision), BOUND::nan(precision))
    }

    /// Constructs an interval that contains all numbers.
    pub fn whole(precision: usize) -> (r: Self)
        requires
            precision >= 1,
        ensures
            r.lo_m() == Xv::NInf,
            r.hi_m() == Xv::PInf,
            r.prec() == precision,
    {
        Self::new(BOUND::neg_infinity(precision), BOUND::infinity(precision))
    }

    /// Returns the sign class of `self`.
    pub fn sign_class(&self) -> (r: SignClass)
        ensures
            r == sign_class_of(self.lo_m(), self.hi_m()),
    {
        match self.lo.sign() {
            Sign::Negative => match self.hi.sign() {
                Sign::Negative => SignClass::Negative(false),
                Sign::Zero => SignClass::Negative(true),
                Sign::Positive => SignClass::Mixed,
            },
            Sign::Zero => match self.hi.sign() {
                Sign::Positive => SignClass::Positive(true),
                _ => SignClass::Zero,
            },
            Sign::Positive => SignClass::Positive(false),
        }
    }

    /// Returns the precision of `self`; always at least one bit.
    pub fn precision(&self) -> (r: usize)
        ensures
            r == self.prec(),
            r >= 1,
    {
        proof {
            use_type_invariant(self);
        }
        self.lo.precision()
    }

    /// Whether `self` is a singleton interval (an interval containing only
    /// one element).
    pub fn is_singleton(&self) -> (r: bool)
        ensures
            r == (x_le(self.lo_m(), self.hi_m()) && x_le(self.hi_m(), self.lo_m())),
    {
        self.lo.eq_val(&self.hi)
    }

    /// Whether `self` contains only zero.
    pub fn is_zero(&self) -> (r: bool)
        ensures
            r == (x_is_zero(self.lo_m()) && x_is_zero(self.hi_m())),
    {
        let r = self.lo.sign() == Sign::Zero && self.hi.sign() == Sign::Zero && !self.is_nan();
        proof {
            use_type_invariant(self);
        }
        r
    }

    /// Whether `self` is NaN (empty).
    pub fn is_nan(&self) -> (r: bool)
        ensures
            r == x_is_nan(self.lo_m()),
            r == x_is_nan(self.hi_m()),
    {
        proof {
            use_type_invariant(self);
        }
        self.lo.is_nan()
    }

    /// Whether `self` contains all numbers.
    pub fn is_whole(&self) -> (r: bool)
        ensures
            r == (self.lo_m() is NInf && self.hi_m() is PInf),
    {
        self.lo.is_neg_infinity() && self.hi.is_infinity()
    }

    /// Whether `self` contains zero.
    pub fn has_zero(&self) -> (r: bool)
        ensures
            r == (x_sign(self.lo_m()) <= 0 && x_sign(self.hi_m()) >= 0),
    {
        self.lo.sign() != Sign::Positive && self.hi.sign() != Sign::Negative
    }

    /// The inclusive lower bound.
    pub fn lo(&self) -> (r: &BOUND)
        ensures
            r.m() == self.lo_m(),
            r.p() == self.prec(),
            r.p() >= 1,
    {
        proof {
            use_type_invariant(self);
        }
        &self.lo
    }

    /// The inclusive upper bound.
    pub fn hi(&self) -> (r: &BOUND)
        ensures
            r.m() == self.hi_m(),
            r.p() == self.prec(),
            r.p() >= 1,
    {
        proof {
            use_type_invariant(self);
        }
        &self.hi
    }

    /// The two bounds of `self`, lower first.
    pub fn into_pair(self) -> (r: (BOUND, BOUND))
        ensures
            r.0.m() == self.lo_m(),
            r.1.m() == self.hi_m(),
            r.0.p() == self.prec(),
            r.1.p() == self.prec(),
            self.prec() >= 1,
    {
        proof {
            use_type_invariant(&self);
        }
        let Interval { lo, hi } = self;
        (lo, hi)
    }
}

/// The published facts of a well-formed non-empty pair: ordered bounds, a
/// lower bound that is not `+inf`, and an upper bound that is not `-inf`.
pub proof fn lemma_wf_ends(lo: Xv, hi: Xv)
    requires
        wf_pair(lo, hi),
        !x_is_nan(lo),
    ensures
        x_le(lo, hi),
        !(lo is PInf),
        !(hi is NInf),
{
}

/// Whether the point `a` lies in the closed interval with bound models
/// `lo` and `hi`. Only finite points are considered; an empty (NaN)
/// interval contains no point, since NaN compares false.
pub open spec fn in_pair(a: Xv, lo: Xv, hi: Xv) -> bool {
    a is Fin && x_le(lo, a) && x_le(a, hi)
}

impl<BOUND: Float> Interval<BOUND> {
    /// Exact negation: `-[lo, hi] = [-hi, -lo]`.
    ///
    /// For every point `a` of `self`, `-a` lies in the result.
    pub fn neg(self) -> (r: Self)
        ensures
            r.prec() == self.prec(),
            r.lo_m() == x_neg(self.hi_m()),
            r.hi_m() == x_neg(self.lo_m()),
            forall|a: Xv|
                in_pair(a, self.lo_m(), self.hi_m()) ==> in_pair(
                    #[trigger] x_neg(a),
                    r.lo_m(),
                    r.hi_m(),
                ),
    {
        proof {
            use_type_invariant(&self);
        }
        let Interval { lo, hi } = self;
        proof {
            crate::model::lemma_x_neg_flip(lo.m(), hi.m());
            assert forall|a: Xv| in_pair(a, lo.m(), hi.m()) implies in_pair(
                #[trigger] x_neg(a),
                x_neg(hi.m()),
                x_neg(lo.m()),
            ) by {
                crate::model::lemma_x_neg_flip(lo.m(), a);
                crate::model::lemma_x_neg_flip(a, hi.m());
            }
        }
        Self::new(hi.neg(), lo.neg())
    }

    /// Correctly rounded addition: the lower bound is rounded down, the
    /// upper bound up.
    ///
    /// For all points `a` of `self` and `b` of `rhs`, `a + b` lies in the
    /// result.
    pub fn add(self, rhs: Self) -> (r: Self)
        requires
            self.prec() == rhs.prec(),
        ensures
            r.prec() == self.prec(),
            x_rdn(r.lo_m(), x_add(self.lo_m(), rhs.lo_m()), self.prec() as nat),
            x_rup(r.hi_m(), x_add(self.hi_m(), rhs.hi_m()), self.prec() as nat),
            forall|a: Xv, b: Xv|
                in_pair(a, self.lo_m(), self.hi_m()) && in_pair(b, rhs.lo_m(), rhs.hi_m())
                    ==> in_pair(#[trigger] x_add(a, b), r.lo_m(), r.hi_m()),
    {
        proof {
            use_type_invariant(&self);
            use_type_invariant(&rhs);
        }
        let ghost p = self.prec() as nat;
        let Interval { lo: l1, hi: h1 } = self;
        let Interval { lo: l2, hi: h2 } = rhs;
        let lo = l1.add_lo(l2);
        let hi = h1.add_hi(h2);
        proof {
            let ls = x_add(l1.m(), l2.m());
            let hs = x_add(h1.m(), h2.m());
            if !x_is_nan(ls) {
                crate::model::lemma_rdn_le(lo.m(), ls, p);
                crate::model::lemma_rup_ge(hi.m(), hs, p);
                crate::model::lemma_x_add_mono(l1.m(), h1.m(), l2.m(), h2.m());
                crate::model::lemma_x_trans(lo.m(), ls, hs);
                crate::model::lemma_x_trans(lo.m(), hs, hi.m());
            }
            assert forall|a: Xv, b: Xv|
                in_pair(a, l1.m(), h1.m()) && in_pair(b, l2.m(), h2.m()) implies in_pair(
                #[trigger] x_add(a, b),
                lo.m(),
                hi.m(),
            ) by {
                crate::model::lemma_x_add_mono(l1.m(), a, l2.m(), b);
                crate::model::lemma_x_add_mono(a, h1.m(), b, h2.m());
                crate::model::lemma_rdn_le(lo.m(), ls, p);
                crate::model::lemma_rup_ge(hi.m(), hs, p);
                crate::model::lemma_x_trans(lo.m(), ls, x_add(a, b));
                crate::model::lemma_x_trans(x_add(a, b), hs, hi.m());
            }
        }
        Self::new(lo, hi)
    }

    /// Correctly rounded subtraction: `a - b = [lo_a - hi_b, hi_a - lo_b]`
    /// with directed rounding.
    ///
    /// For all points `a` of `self` and `b` of `rhs`, `a - b` lies in the
    /// result.
    pub fn sub(self, rhs: Self) -> (r: Self)
        requires
            self.prec() == rhs.prec(),
        ensures
            r.prec() == self.prec(),
            x_rdn(r.lo_m(), x_sub(self.lo_m(), rhs.hi_m()), self.prec() as nat),
            x_rup(r.hi_m(), x_sub(self.hi_m(), rhs.lo_m()), self.prec() as nat),
            forall|a: Xv, b: Xv|
                in_pair(a, self.lo_m(), self.hi_m()) && in_pair(b, rhs.lo_m(), rhs.hi_m())
                    ==> in_pair(#[trigger] x_sub(a, b), r.lo_m(), r.hi_m()),
    {
        proof {
            use_type_invariant(&self);
            use_type_invariant(&rhs);
        }
        let ghost p = self.prec() as nat;
        let Interval { lo: l1, hi: h1 } = self;
        let Interval { lo: l2, hi: h2 } = rhs;
        let lo = l1.sub_lo(h2);
        let hi = h1.sub_hi(l2);
        proof {
            let ls = x_sub(l1.m(), h2.m());
            let hs = x_sub(h1.m(), l2.m());
            crate::model::lemma_x_neg_flip(l2.m(), h2.m());
            if !x_is_nan(ls) {
                crate::model::lemma_rdn_le(lo.m(), ls, p);
                crate::model::lemma_rup_ge(hi.m(), hs, p);
                crate::model::lemma_x_add_mono(l1.m(), h1.m(), x_neg(h2.m()), x_neg(l2.m()));
                crate::model::lemma_x_trans(lo.m(), ls, hs);
                crate::model::lemma_x_trans(lo.m(), hs, hi.m());
            }
            assert forall|a: Xv, b: Xv|
                in_pair(a, l1.m(), h1.m()) && in_pair(b, l2.m(), h2.m()) implies in_pair(
                #[trigger] x_sub(a, b),
                lo.m(),
                hi.m(),
            ) by {
                crate::model::lemma_x_neg_flip(b, h2.m());
                crate::model::lemma_x_neg_flip(l2.m(), b);
                crate::model::lemma_x_add_mono(l1.m(), a, x_neg(h2.m()), x_neg(b));
                crate::model::lemma_x_add_mono(a, h1.m(), x_neg(b), x_neg(l2.m()));
                crate::model::lemma_rdn_le(lo.m(), ls, p);
                crate::model::lemma_rup_ge(hi.m(), hs, p);
                crate::model::lemma_x_trans(lo.m(), ls, x_sub(a, b));
                crate::model::lemma_x_trans(x_sub(a, b), hs, hi.m());
            }
        }
        Self::new(lo, hi)
    }

    /// Returns the difference between the upper bound and the lower bound of
    /// `self`, as an interval bracketing the exact width. The width of the
    /// whole line is undefined and gives the NaN interval. Intervals with
    /// exactly one infinite bound have no representable width and are left
    /// out by contract.
    pub fn size(&self) -> (r: Self)
        requires
            x_is_nan(self.lo_m()) || (self.lo_m() is NInf && self.hi_m() is PInf) || (self.lo_m()
                is Fin && self.hi_m() is Fin),
        ensures
            r.prec() == self.prec(),
            (self.lo_m() is NInf && self.hi_m() is PInf) ==> x_is_nan(r.lo_m()) && x_is_nan(
                r.hi_m(),
            ),
            x_is_nan(self.lo_m()) ==> x_is_nan(r.lo_m()) && x_is_nan(r.hi_m()),
            (self.lo_m() is Fin && self.hi_m() is Fin) ==> x_rdn(
                r.lo_m(),
                x_sub(self.hi_m(), self.lo_m()),
                self.prec() as nat,
            ) && x_rup(r.hi_m(), x_sub(self.hi_m(), self.lo_m()), self.prec() as nat),
    {
        proof {
            use_type_invariant(self);
        }
        if self.is_whole() {
            Self::nan(self.precision())
        } else {
            let hi_iv = Self::singleton(self.hi.dup());
            let lo_iv = Self::singleton(self.lo.dup());
            hi_iv.sub(lo_iv)
        }
    }

    /// Cuts `self` into two at `val` and returns the left and right pieces
    /// as a pair.
    ///
    /// If `self` lies on only one side of `val`, the non-existent side is
    /// the NaN interval.
    pub fn split(self, val: BOUND) -> (r: (Self, Self))
        requires
            val.p() == self.prec(),
            !x_is_nan(val.m()),
        ensures
            r.0.prec() == self.prec() && r.1.prec() == self.prec(),
            x_le(val.m(), self.lo_m()) ==> x_is_nan(r.0.lo_m()) && r.1.lo_m() == self.lo_m()
                && r.1.hi_m() == self.hi_m(),
            !x_le(val.m(), self.lo_m()) && x_le(self.hi_m(), val.m()) ==> r.0.lo_m()
                == self.lo_m() && r.0.hi_m() == self.hi_m() && x_is_nan(r.1.lo_m()),
            x_is_nan(self.lo_m()) ==> x_is_nan(r.0.lo_m()) && x_is_nan(r.1.lo_m()),
            !x_le(val.m(), self.lo_m()) && !x_le(self.hi_m(), val.m()) && !x_is_nan(self.lo_m())
                ==> r.0.lo_m() == self.lo_m() && r.0.hi_m() == val.m() && r.1.lo_m() == val.m()
                && r.1.hi_m() == self.hi_m(),
    {
        proof {
            use_type_invariant(&self);
        }
        let precision = self.precision();
        if val.le(&self.lo) {
            (Self::nan(precision), self)
        } else if self.hi.le(&val) {
            (self, Self::nan(precision))
        } else {
            if self.is_nan() {
                (Self::nan(precision), Self::nan(precision))
            } else {
                let Interval { lo, hi } = self;
                let val2 = val.dup();
                proof {
                    crate::model::lemma_x_total(val.m(), lo.m());
                    crate::model::lemma_x_total(hi.m(), val.m());
                }
                (Self::new(lo, val), Self::new(val2, hi))
            }
        }
    }

    /// Constructs the minimal interval that covers all of the given
    /// intervals, all at precision `precision`. NaN entries are ignored; if
    /// none other remain, the NaN interval results.
    pub fn minimal_cover(intervals: Vec<Self>, precision: usize) -> (r: Self)
        requires
            precision >= 1,
            forall|j: int|
                0 <= j < intervals@.len() ==> (#[trigger] intervals@[j]).prec() == precision,
        ensures
            r.prec() == precision,
            x_is_nan(r.lo_m()) <==> (forall|j: int|
                0 <= j < intervals@.len() ==> x_is_nan(#[trigger] intervals@[j].lo_m())),
            forall|j: int|
                0 <= j < intervals@.len() && !x_is_nan(#[trigger] intervals@[j].lo_m()) ==> x_le(
                    r.lo_m(),
                    intervals@[j].lo_m(),
                ) && x_le(intervals@[j].hi_m(), r.hi_m()),
            !x_is_nan(r.lo_m()) ==> (exists|j: int|
                0 <= j < intervals@.len() && r.lo_m() == #[trigger] intervals@[j].lo_m()) && (
            exists|j: int|
                0 <= j < intervals@.len() && r.hi_m() == #[trigger] intervals@[j].hi_m()),
    {
        let ghost s = intervals@;
        let mut lo = BOUND::infinity(precision);
        let mut hi = BOUND::neg_infinity(precision);
        let mut any = false;
        let n = intervals.len();
        let mut i: usize = 0;
        while i < n
            invariant
                n == s.len(),
                intervals@ == s,
                0 <= i <= n,
                forall|j: int| 0 <= j < s.len() ==> (#[trigger] s[j]).prec() == precision,
                forall|j: int|
                    0 <= j < i ==> wf_pair((#[trigger] s[j]).lo_m(), s[j].hi_m()),
                lo.p() == precision,
                hi.p() == precision,
                !x_is_nan(lo.m()) && !x_is_nan(hi.m()),
                any <==> (exists|j: int| 0 <= j < i && !x_is_nan(#[trigger] s[j].lo_m())),
                !any ==> lo.m() is PInf && hi.m() is NInf,
                any ==> (exists|j: int| 0 <= j < i && lo.m() == #[trigger] s[j].lo_m()) && (
                exists|j: int| 0 <= j < i && hi.m() == #[trigger] s[j].hi_m()),
                forall|j: int|
                    0 <= j < i && !x_is_nan(#[trigger] s[j].lo_m()) ==> x_le(lo.m(), s[j].lo_m())
                        && x_le(s[j].hi_m(), hi.m()),
                any ==> !(lo.m() is PInf) && !(hi.m() is NInf),
            decreases n - i,
        {
            let iv = &intervals[i];
            proof {
                use_type_invariant(iv);
                assert(wf_pair(s[i as int].lo_m(), s[i as int].hi_m()));
            }
            if !iv.is_nan() {
                let ghost old_lo = lo.m();
                let ghost old_hi = hi.m();
                lo = lo.min(iv.lo().dup());
                hi = hi.max(iv.hi().dup());
                proof {
                    crate::model::lemma_x_total(old_lo, iv.lo_m());
                    crate::model::lemma_x_total(iv.hi_m(), old_hi);
                    assert forall|j: int|
                        0 <= j < i + 1 && !x_is_nan(#[trigger] s[j].lo_m()) implies x_le(
                        lo.m(),
                        s[j].lo_m(),
                    ) && x_le(s[j].hi_m(), hi.m()) by {
                        if j < i {
                            crate::model::lemma_x_trans(lo.m(), old_lo, s[j].lo_m());
                            crate::model::lemma_x_trans(s[j].hi_m(), old_hi, hi.m());
                        } else {
                            crate::model::lemma_x_refl(s[j].lo_m());
                            crate::model::lemma_x_refl(s[j].hi_m());
                        }
                    }
                    crate::model::lemma_x_refl(iv.lo_m());
                    crate::model::lemma_x_refl(iv.hi_m());
                }
                any = true;
            }
            i += 1;
        }
        if !any {
            return Self::nan(precision);
        }
        proof {
            let j = choose|j: int| 0 <= j < s.len() && lo.m() == #[trigger] s[j].lo_m();
            let k = choose|k: int| 0 <= k < s.len() && hi.m() == #[trigger] s[k].hi_m();
            crate::model::lemma_x_trans(lo.m(), s[j].lo_m(), s[j].hi_m());
            crate::model::lemma_x_trans(lo.m(), s[j].hi_m(), hi.m());
        }
        Self::new(lo, hi)
    }
}

/// The exact relation between the bound models of two factors and those of
/// their product interval, following the sign-class table: each cell picks
/// the two corner products that bound the result, rounded outward.
pub open spec fn mul_rel(l1: Xv, h1: Xv, l2: Xv, h2: Xv, rlo: Xv, rhi: Xv, p: nat) -> bool {
    match sign_class_of(l1, h1) {
        SignClass::Mixed => match sign_class_of(l2, h2) {
            SignClass::Mixed => exists|u: Xv, v: Xv, s: Xv, t: Xv|
                {
                    &&& x_rdn(u, x_mul(l1, h2), p)
                    &&& x_rdn(v, x_mul(h1, l2), p)
                    &&& x_rup(s, x_mul(l1, l2), p)
                    &&& x_rup(t, x_mul(h1, h2), p)
                    &&& rlo == x_min(u, v)
                    &&& rhi == x_max(s, t)
                },
            SignClass::Zero => rlo == l2 && rhi == h2,
            SignClass::Positive(_) => x_rdn(rlo, x_mul(l1, h2), p) && x_rup(
                rhi,
                x_mul(h1, h2),
                p,
            ),
            SignClass::Negative(_) => x_rdn(rlo, x_mul(h1, l2), p) && x_rup(
                rhi,
                x_mul(l1, l2),
                p,
            ),
        },
        SignClass::Zero => if x_is_nan(l2) {
            rlo == l2 && rhi == h2
        } else {
            rlo == l1 && rhi == h1
        },
        SignClass::Positive(_) => match sign_class_of(l2, h2) {
            SignClass::Mixed => x_rdn(rlo, x_mul(h1, l2), p) && x_rup(rhi, x_mul(h1, h2), p),
            SignClass::Zero => rlo == l2 && rhi == h2,
            SignClass::Positive(_) => x_rdn(rlo, x_mul(l1, l2), p) && x_rup(
                rhi,
                x_mul(h1, h2),
                p,
            ),
            SignClass::Negative(_) => x_rdn(rlo, x_mul(h1, l2), p) && x_rup(
                rhi,
                x_mul(l1, h2),
                p,
            ),
        },
        SignClass::Negative(_) => match sign_class_of(l2, h2) {
            SignClass::Mixed => x_rdn(rlo, x_mul(l1, h2), p) && x_rup(rhi, x_mul(l1, l2), p),
            SignClass::Zero => rlo == l2 && rhi == h2,
            SignClass::Positive(_) => x_rdn(rlo, x_mul(l1, h2), p) && x_rup(
                rhi,
                x_mul(h1, l2),
                p,
            ),
            SignClass::Negative(_) => x_rdn(rlo, x_mul(h1, h2), p) && x_rup(
                rhi,
                x_mul(l1, l2),
                p,
            ),
        },
    }
}

/// In the mixed-by-mixed cell the least rounded corner product and the
/// greatest one form a well-formed interval.
proof fn lemma_mul_mm(l1: Xv, h1: Xv, l2: Xv, h2: Xv, u: Xv, v: Xv, s: Xv, t: Xv, p: nat)
    requires
        !x_is_nan(l1) && !x_is_nan(h1) && !x_is_nan(l2) && !x_is_nan(h2),
        x_sign(l1) < 0 && x_sign(h1) > 0 && x_sign(l2) < 0 && x_sign(h2) > 0,
        x_rdn(u, x_mul(l1, h2), p),
        x_rdn(v, x_mul(h1, l2), p),
        x_rup(s, x_mul(l1, l2), p),
        x_rup(t, x_mul(h1, h2), p),
    ensures
        wf_pair(x_min(u, v), x_max(s, t)),
{
    lemma_x_mul_sign(l1, h2);
    lemma_x_mul_sign(l1, l2);
    lemma_x_mul_sign(h1, l2);
    lemma_x_mul_sign(h1, h2);
    lemma_rdn_le(u, x_mul(l1, h2), p);
    lemma_rdn_le(v, x_mul(h1, l2), p);
    lemma_rup_ge(s, x_mul(l1, l2), p);
    lemma_rup_ge(t, x_mul(h1, h2), p);
    lemma_x_sign_squeeze(x_mul(l1, h2), x_mul(l1, l2));
    lemma_x_min_max(u, v);
    lemma_x_min_max(s, t);
    lemma_x_trans(x_min(u, v), u, x_mul(l1, h2));
    lemma_x_trans(x_min(u, v), x_mul(l1, h2), x_mul(l1, l2));
    lemma_x_trans(x_min(u, v), x_mul(l1, l2), s);
    lemma_x_trans(x_min(u, v), s, x_max(s, t));
}

/// Soundness of the multiplication table: for finite points `a` and `b` of
/// the two factors, the exact product `a * b` lies between the rounded
/// corner products the table picks. Together with `mul_rel` this is the
/// containment property of interval multiplication.
#[verifier::rlimit(100)]
pub proof fn lemma_mul_point(
    l1: Xv,
    h1: Xv,
    l2: Xv,
    h2: Xv,
    rlo: Xv,
    rhi: Xv,
    p: nat,
    a: Xv,
    b: Xv,
)
    requires
        wf_pair(l1, h1),
        wf_pair(l2, h2),
        mul_rel(l1, h1, l2, h2, rlo, rhi, p),
        in_pair(a, l1, h1),
        in_pair(b, l2, h2),
    ensures
        in_pair(x_mul(a, b), rlo, rhi),
{
    let ab = x_mul(a, b);
    crate::model::lemma_x_sign_mono(l1, a);
    crate::model::lemma_x_sign_mono(a, h1);
    crate::model::lemma_x_sign_mono(l2, b);
    crate::model::lemma_x_sign_mono(b, h2);
    lemma_x_mul_sign(a, b);
    let c1 = sign_class_of(l1, h1);
    let c2 = sign_class_of(l2, h2);
    if c1 is Zero || c2 is Zero {
        // one factor holds only zero, so the product holds only zero
        lemma_x_sign_squeeze(rlo, ab);
        lemma_x_sign_squeeze(ab, rhi);
        return ;
    }
    if c1 is Mixed && c2 is Mixed {
        let (u, v, s, t) = choose|u: Xv, v: Xv, s: Xv, t: Xv|
            {
                &&& x_rdn(u, x_mul(l1, h2), p)
                &&& x_rdn(v, x_mul(h1, l2), p)
                &&& x_rup(s, x_mul(l1, l2), p)
                &&& x_rup(t, x_mul(h1, h2), p)
                &&& rlo == x_min(u, v)
                &&& rhi == x_max(s, t)
            };
        lemma_x_mul_sign(l1, h2);
        lemma_x_mul_sign(h1, l2);
        lemma_x_mul_sign(l1, l2);
        lemma_x_mul_sign(h1, h2);
        lemma_rdn_le(u, x_mul(l1, h2), p);
        lemma_rdn_le(v, x_mul(h1, l2), p);
        lemma_rup_ge(s, x_mul(l1, l2), p);
        lemma_rup_ge(t, x_mul(h1, h2), p);
        lemma_x_min_max(u, v);
        lemma_x_min_max(s, t);
        if x_sign(b) > 0 && x_sign(a) != 0 {
            crate::model::lemma_mul_corner_le(l1, h2, a, b);
            lemma_x_trans(x_min(u, v), u, x_mul(l1, h2));
            lemma_x_trans(x_min(u, v), x_mul(l1, h2), ab);
            crate::model::lemma_mul_corner_ge(h1, h2, a, b);
            lemma_x_trans(ab, x_mul(h1, h2), t);
            lemma_x_trans(ab, t, x_max(s, t));
        } else if x_sign(b) < 0 && x_sign(a) != 0 {
            crate::model::lemma_mul_corner_le(h1, l2, a, b);
            lemma_x_trans(x_min(u, v), v, x_mul(h1, l2));
            lemma_x_trans(x_min(u, v), x_mul(h1, l2), ab);
            crate::model::lemma_mul_corner_ge(l1, l2, a, b);
            lemma_x_trans(ab, x_mul(l1, l2), s);
            lemma_x_trans(ab, s, x_max(s, t));
        } else {
            // the product is zero: it sits between the negative lower corner
            // and the positive upper corner
            lemma_x_sign_squeeze(x_mul(l1, h2), ab);
            lemma_x_trans(x_min(u, v), u, x_mul(l1, h2));
            lemma_x_trans(x_min(u, v), x_mul(l1, h2), ab);
            lemma_x_sign_squeeze(ab, x_mul(l1, l2));
            lemma_x_trans(ab, x_mul(l1, l2), s);
            lemma_x_trans(ab, s, x_max(s, t));
        }
        return ;
    }
    // the remaining cells each round two fixed corners outward
    let (c_lo_1, c_lo_2, c_hi_1, c_hi_2): (Xv, Xv, Xv, Xv) = if c1 is Mixed {
        if c2 is Positive {
            (l1, h2, h1, h2)
        } else {
            (h1, l2, l1, l2)
        }
    } else if c1 is Positive {
        if c2 is Mixed {
            (h1, l2, h1, h2)
        } else if c2 is Positive {
            (l1, l2, h1, h2)
        } else {
            (h1, l2, l1, h2)
        }
    } else {
        if c2 is Mixed {
            (l1, h2, l1, l2)
        } else if c2 is Positive {
            (l1, h2, h1, l2)
        } else {
            (h1, h2, l1, l2)
        }
    };
    let plo = x_mul(c_lo_1, c_lo_2);
    let phi = x_mul(c_hi_1, c_hi_2);
    lemma_x_mul_sign(c_lo_1, c_lo_2);
    lemma_x_mul_sign(c_hi_1, c_hi_2);
    lemma_rdn_le(rlo, plo, p);
    lemma_rup_ge(rhi, phi, p);
    if x_sign(plo) <= 0 && x_sign(ab) >= 0 {
        lemma_x_sign_squeeze(plo, ab);
    } else {
        crate::model::lemma_mul_corner_le(c_lo_1, c_lo_2, a, b);
    }
    if x_sign(phi) >= 0 && x_sign(ab) <= 0 {
        lemma_x_sign_squeeze(ab, phi);
    } else {
        crate::model::lemma_mul_corner_ge(c_hi_1, c_hi_2, a, b);
    }
    lemma_x_trans(rlo, plo, ab);
    lemma_x_trans(ab, phi, rhi);
}

/// The corner products chosen by the sign-class table are ordered and free
/// of `0 * inf`, so their outward roundings form a well-formed interval.
#[verifier::rlimit(50)]
proof fn lemma_mul_cell(l1: Xv, h1: Xv, l2: Xv, h2: Xv, rlo: Xv, rhi: Xv, p: nat)
    requires
        wf_pair(l1, h1),
        wf_pair(l2, h2),
        !x_is_nan(l1),
        !x_is_nan(l2),
        !(sign_class_of(l1, h1) is Zero),
        !(sign_class_of(l2, h2) is Zero),
        mul_rel(l1, h1, l2, h2, rlo, rhi, p),
    ensures
        wf_pair(rlo, rhi),
{
    let c1 = sign_class_of(l1, h1);
    let c2 = sign_class_of(l2, h2);
    // A lower bound is never +inf, an upper bound never -inf; with the sign
    // information of each class this rules NaN corner products out.
    assert(!(l1 is PInf) && !(h1 is NInf) && !(l2 is PInf) && !(h2 is NInf));
    crate::model::lemma_x_sign_mono(l1, h1);
    crate::model::lemma_x_sign_mono(l2, h2);
    if c1 is Mixed && c2 is Mixed {
        let (u, v, s, t) = choose|u: Xv, v: Xv, s: Xv, t: Xv|
            {
                &&& x_rdn(u, x_mul(l1, h2), p)
                &&& x_rdn(v, x_mul(h1, l2), p)
                &&& x_rup(s, x_mul(l1, l2), p)
                &&& x_rup(t, x_mul(h1, h2), p)
                &&& rlo == x_min(u, v)
                &&& rhi == x_max(s, t)
            };
        lemma_mul_mm(l1, h1, l2, h2, u, v, s, t, p);
        } else if c1 is Mixed {
        if c2 is Positive {
            lemma_x_mul_sign(l1, h2);
            lemma_x_mul_sign(h1, h2);
            lemma_x_mul_mono_r(l1, h1, h2);
            lemma_rdn_le(rlo, x_mul(l1, h2), p);
            lemma_rup_ge(rhi, x_mul(h1, h2), p);
            lemma_x_trans(rlo, x_mul(l1, h2), x_mul(h1, h2));
            lemma_x_trans(rlo, x_mul(h1, h2), rhi);
        } else {
            lemma_x_mul_sign(h1, l2);
            lemma_x_mul_sign(l1, l2);
            lemma_x_mul_anti_r(l1, h1, l2);
            lemma_rdn_le(rlo, x_mul(h1, l2), p);
            lemma_rup_ge(rhi, x_mul(l1, l2), p);
            lemma_x_trans(rlo, x_mul(h1, l2), x_mul(l1, l2));
            lemma_x_trans(rlo, x_mul(l1, l2), rhi);
        }
    } else if c1 is Positive {
        if c2 is Mixed {
            lemma_x_mul_sign(h1, l2);
            lemma_x_mul_sign(h1, h2);
            lemma_x_mul_comm(h1, l2);
            lemma_x_mul_comm(h1, h2);
            lemma_x_mul_mono_r(l2, h2, h1);
            lemma_rdn_le(rlo, x_mul(h1, l2), p);
            lemma_rup_ge(rhi, x_mul(h1, h2), p);
            lemma_x_trans(rlo, x_mul(h1, l2), x_mul(h1, h2));
            lemma_x_trans(rlo, x_mul(h1, h2), rhi);
        } else if c2 is Positive {
            lemma_x_mul_sign(l1, l2);
            lemma_x_mul_sign(h1, h2);
            if x_sign(l1) == 0 || x_sign(l2) == 0 {
                lemma_x_sign_squeeze(x_mul(l1, l2), x_mul(h1, h2));
            } else {
                lemma_x_mul_sign(h1, l2);
                lemma_x_mul_mono_r(l1, h1, l2);
                lemma_x_mul_comm(h1, l2);
                lemma_x_mul_comm(h1, h2);
                lemma_x_mul_mono_r(l2, h2, h1);
                lemma_x_trans(x_mul(l1, l2), x_mul(h1, l2), x_mul(h1, h2));
            }
            lemma_rdn_le(rlo, x_mul(l1, l2), p);
            lemma_rup_ge(rhi, x_mul(h1, h2), p);
            lemma_x_trans(rlo, x_mul(l1, l2), x_mul(h1, h2));
            lemma_x_trans(rlo, x_mul(h1, h2), rhi);
        } else {
            lemma_x_mul_sign(h1, l2);
            lemma_x_mul_sign(l1, h2);
            if x_sign(l1) == 0 {
                lemma_x_sign_squeeze(x_mul(h1, l2), x_mul(l1, h2));
            } else {
                lemma_x_mul_sign(l1, l2);
                lemma_x_mul_anti_r(l1, h1, l2);
                lemma_x_mul_comm(l1, l2);
                lemma_x_mul_comm(l1, h2);
                lemma_x_mul_mono_r(l2, h2, l1);
                lemma_x_trans(x_mul(h1, l2), x_mul(l1, l2), x_mul(l1, h2));
            }
            lemma_rdn_le(rlo, x_mul(h1, l2), p);
            lemma_rup_ge(rhi, x_mul(l1, h2), p);
            lemma_x_trans(rlo, x_mul(h1, l2), x_mul(l1, h2));
            lemma_x_trans(rlo, x_mul(l1, h2), rhi);
        }
    } else {
        if c2 is Mixed {
            lemma_x_mul_sign(l1, h2);
            lemma_x_mul_sign(l1, l2);
            lemma_x_mul_comm(l1, h2);
            lemma_x_mul_comm(l1, l2);
            lemma_x_mul_anti_r(l2, h2, l1);
            lemma_rdn_le(rlo, x_mul(l1, h2), p);
            lemma_rup_ge(rhi, x_mul(l1, l2), p);
            lemma_x_trans(rlo, x_mul(l1, h2), x_mul(l1, l2));
            lemma_x_trans(rlo, x_mul(l1, l2), rhi);
        } else if c2 is Positive {
            lemma_x_mul_sign(l1, h2);
            lemma_x_mul_sign(h1, l2);
            if x_sign(h1) == 0 {
                lemma_x_sign_squeeze(x_mul(l1, h2), x_mul(h1, l2));
            } else {
                lemma_x_mul_sign(h1, h2);
                lemma_x_mul_mono_r(l1, h1, h2);
                lemma_x_mul_comm(h1, h2);
                lemma_x_mul_comm(h1, l2);
                lemma_x_mul_anti_r(l2, h2, h1);
                lemma_x_trans(x_mul(l1, h2), x_mul(h1, h2), x_mul(h1, l2));
            }
            lemma_rdn_le(rlo, x_mul(l1, h2), p);
            lemma_rup_ge(rhi, x_mul(h1, l2), p);
            lemma_x_trans(rlo, x_mul(l1, h2), x_mul(h1, l2));
            lemma_x_trans(rlo, x_mul(h1, l2), rhi);
        } else {
            lemma_x_mul_sign(h1, h2);
            lemma_x_mul_sign(l1, l2);
            if x_sign(h2) == 0 {
                lemma_x_sign_squeeze(x_mul(h1, h2), x_mul(l1, l2));
            } else {
                lemma_x_mul_sign(l1, h2);
                lemma_x_mul_anti_r(l1, h1, h2);
                lemma_x_mul_comm(l1, h2);
                lemma_x_mul_comm(l1, l2);
                lemma_x_mul_anti_r(l2, h2, l1);
                lemma_x_trans(x_mul(h1, h2), x_mul(l1, h2), x_mul(l1, l2));
            }
            lemma_rdn_le(rlo, x_mul(h1, h2), p);
            lemma_rup_ge(rhi, x_mul(l1, l2), p);
            lemma_x_trans(rlo, x_mul(h1, h2), x_mul(l1, l2));
            lemma_x_trans(rlo, x_mul(l1, l2), rhi);
        }
    }
}

impl<BOUND: Float> Interval<BOUND> {
    /// Correctly rounded multiplication, dispatching on the sign classes of
    /// both operands. A zero operand absorbs everything but an empty (NaN)
    /// operand, which stays empty.
    pub fn mul(self, rhs: Self) -> (r: Self)
        requires
            self.prec() == rhs.prec(),
        ensures
            r.prec() == self.prec(),
            mul_rel(
                self.lo_m(),
                self.hi_m(),
                rhs.lo_m(),
                rhs.hi_m(),
                r.lo_m(),
                r.hi_m(),
                self.prec() as nat,
            ),
            forall|a: Xv, b: Xv|
                in_pair(a, self.lo_m(), self.hi_m()) && in_pair(b, rhs.lo_m(), rhs.hi_m())
                    ==> in_pair(#[trigger] x_mul(a, b), r.lo_m(), r.hi_m()),
    {
        proof {
            use_type_invariant(&self);
            use_type_invariant(&rhs);
        }
        let ghost sl = self.lo_m();
        let ghost sh = self.hi_m();
        let ghost rl = rhs.lo_m();
        let ghost rh = rhs.hi_m();
        let ghost p = self.prec() as nat;
        let r = self.mul_inner(rhs);
        proof {
            assert forall|a: Xv, b: Xv|
                in_pair(a, sl, sh) && in_pair(b, rl, rh) implies in_pair(
                #[trigger] x_mul(a, b),
                r.lo_m(),
                r.hi_m(),
            ) by {
                lemma_mul_point(sl, sh, rl, rh, r.lo_m(), r.hi_m(), p, a, b);
            }
        }
        r
    }

    /// The sign-class dispatch behind `mul`.
    fn mul_inner(self, rhs: Self) -> (r: Self)
        requires
            self.prec() == rhs.prec(),
        ensures
            r.prec() == self.prec(),
            mul_rel(
                self.lo_m(),
                self.hi_m(),
                rhs.lo_m(),
                rhs.hi_m(),
                r.lo_m(),
                r.hi_m(),
                self.prec() as nat,
            ),
    {
        proof {
            use_type_invariant(&self);
            use_type_invariant(&rhs);
        }
        let ghost p = self.prec() as nat;
        let c1 = self.sign_class();
        let c2 = rhs.sign_class();
        match c1 {
            SignClass::Mixed => match c2 {
                SignClass::Mixed => {
                    let Interval { lo: l1, hi: h1 } = self;
                    let Interval { lo: l2, hi: h2 } = rhs;
                    let u = l1.dup().mul_lo(h2.dup());
                    let v = h1.dup().mul_lo(l2.dup());
                    let s = l1.mul_hi(l2);
                    let t = h1.mul_hi(h2);
                    proof {
                        assert({
                            &&& x_rdn(u.m(), x_mul(l1.m(), h2.m()), p)
                            &&& x_rdn(v.m(), x_mul(h1.m(), l2.m()), p)
                            &&& x_rup(s.m(), x_mul(l1.m(), l2.m()), p)
                            &&& x_rup(t.m(), x_mul(h1.m(), h2.m()), p)
                            &&& x_min(u.m(), v.m()) == x_min(u.m(), v.m())
                            &&& x_max(s.m(), t.m()) == x_max(s.m(), t.m())
                        });
                        assert(mul_rel(
                            l1.m(),
                            h1.m(),
                            l2.m(),
                            h2.m(),
                            x_min(u.m(), v.m()),
                            x_max(s.m(), t.m()),
                            p,
                        ));
                        lemma_mul_cell(l1.m(), h1.m(), l2.m(), h2.m(), x_min(u.m(), v.m()), x_max(s.m(), t.m()), p);
                    }
                    Self::new(u.min(v), s.max(t))
                },
                SignClass::Zero => rhs,
                SignClass::Positive(_) => {
                    let Interval { lo: l1, hi: h1 } = self;
                    let Interval { lo: l2, hi: h2 } = rhs;
                    let lo = l1.mul_lo(h2.dup());
                    let hi = h1.mul_hi(h2);
                    proof {
                        lemma_mul_cell(l1.m(), h1.m(), l2.m(), h2.m(), lo.m(), hi.m(), p);
                    }
                    Self::new(lo, hi)
                },
                SignClass::Negative(_) => {
                    let Interval { lo: l1, hi: h1 } = self;
                    let Interval { lo: l2, hi: h2 } = rhs;
                    let lo = h1.mul_lo(l2.dup());
                    let hi = l1.mul_hi(l2);
                    proof {
                        lemma_mul_cell(l1.m(), h1.m(), l2.m(), h2.m(), lo.m(), hi.m(), p);
                    }
                    Self::new(lo, hi)
                },
            },
            SignClass::Zero => if rhs.is_nan() {
                rhs
            } else {
                self
            },
            SignClass::Positive(_) => match c2 {
                SignClass::Mixed => {
                    let Interval { lo: l1, hi: h1 } = self;
                    let Interval { lo: l2, hi: h2 } = rhs;
                    let lo = h1.dup().mul_lo(l2);
                    let hi = h1.mul_hi(h2);
                    proof {
                        lemma_mul_cell(l1.m(), h1.m(), l2.m(), h2.m(), lo.m(), hi.m(), p);
                    }
                    Self::new(lo, hi)
                },
                SignClass::Zero => rhs,
                SignClass::Positive(_) => {
                    let Interval { lo: l1, hi: h1 } = self;
                    let Interval { lo: l2, hi: h2 } = rhs;
                    let lo = l1.mul_lo(l2);
                    let hi = h1.mul_hi(h2);
                    proof {
                        lemma_mul_cell(l1.m(), h1.m(), l2.m(), h2.m(), lo.m(), hi.m(), p);
                    }
                    Self::new(lo, hi)
                },
                SignClass::Negative(_) => {
                    let Interval { lo: l1, hi: h1 } = self;
                    let Interval { lo: l2, hi: h2 } = rhs;
                    let lo = h1.mul_lo(l2);
                    let hi = l1.mul_hi(h2);
                    proof {
                        lemma_mul_cell(l1.m(), h1.m(), l2.m(), h2.m(), lo.m(), hi.m(), p);
                    }
                    Self::new(lo, hi)
                },
            },
            SignClass::Negative(_) => match c2 {
                SignClass::Mixed => {
                    let Interval { lo: l1, hi: h1 } = self;
                    let Interval { lo: l2, hi: h2 } = rhs;
                    let lo = l1.dup().mul_lo(h2);
                    let hi = l1.mul_hi(l2);
                    proof {
                        lemma_mul_cell(l1.m(), h1.m(), l2.m(), h2.m(), lo.m(), hi.m(), p);
                    }
                    Self::new(lo, hi)
                },
                SignClass::Zero => rhs,
                SignClass::Positive(_) => {
                    let Interval { lo: l1, hi: h1 } = self;
                    let Interval { lo: l2, hi: h2 } = rhs;
                    let lo = l1.mul_lo(h2.dup());
                    let hi = h1.mul_hi(l2);
                    proof {
                        lemma_mul_cell(l1.m(), h1.m(), l2.m(), h2.m(), lo.m(), hi.m(), p);
                    }
                    Self::new(lo, hi)
                },
                SignClass::Negative(_) => {
                    let Interval { lo: l1, hi: h1 } = self;
                    let Interval { lo: l2, hi: h2 } = rhs;
                    let lo = h1.mul_lo(h2.dup());
                    let hi = l1.mul_hi(l2);
                    proof {
                        lemma_mul_cell(l1.m(), h1.m(), l2.m(), h2.m(), lo.m(), hi.m(), p);
                    }
                    Self::new(lo, hi)
                },
            },
        }
    }
}

/// The case in which the power of two singletons is a single rounded
/// corner pair: neither operand empty or zero, both singletons, and the
/// exponent strictly positive.
pub open spec fn pow_single_case(l1: Xv, h1: Xv, l2: Xv, h2: Xv) -> bool {
    &&& !x_is_nan(l1)
    &&& !x_is_nan(l2)
    &&& !(x_is_zero(l2) && x_is_zero(h2))
    &&& !(x_is_zero(l1) && x_is_zero(h1))
    &&& x_eq(l1, h1)
    &&& x_eq(l2, h2)
    &&& x_sign(h2) > 0
}

/// A bound pair kept as given when it forms a well-formed interval, and
/// collapsed to the empty (NaN) pair otherwise.
pub open spec fn checked_pair(lo: Xv, hi: Xv) -> (Xv, Xv) {
    if wf_pair(lo, hi) {
        (lo, hi)
    } else {
        (Xv::Nan, Xv::Nan)
    }
}

/// The bound models of a sequence of intervals.
pub open spec fn models_of<B: Float>(s: Seq<Interval<B>>) -> Seq<(Xv, Xv)> {
    Seq::new(s.len(), |i: int| (s[i].lo_m(), s[i].hi_m()))
}

/// `lo` and `hi` are the bounds of the smallest single interval covering
/// all the non-empty pairs of `s`; NaN when no such pair exists.
pub open spec fn cover_of(s: Seq<(Xv, Xv)>, lo: Xv, hi: Xv) -> bool {
    &&& (x_is_nan(lo) <==> (forall|j: int| 0 <= j < s.len() ==> x_is_nan((#[trigger] s[j]).0)))
    &&& (forall|j: int|
        0 <= j < s.len() && !x_is_nan((#[trigger] s[j]).0) ==> x_le(lo, s[j].0) && x_le(s[j].1, hi))
    &&& !x_is_nan(lo) ==> (exists|j: int| 0 <= j < s.len() && lo == (#[trigger] s[j]).0) && (
    exists|j: int| 0 <= j < s.len() && hi == (#[trigger] s[j]).1)
}

/// The exact relation between the bound models of a dividend and divisor
/// and the models of the interval list their quotient covers, following the
/// sign-class table. `u` and `w` name the rounded finite corner quotients.
pub open spec fn div_rel(l1: Xv, h1: Xv, l2: Xv, h2: Xv, r: Seq<(Xv, Xv)>, p: nat) -> bool {
    match sign_class_of(l1, h1) {
        SignClass::Mixed => match sign_class_of(l2, h2) {
            SignClass::Mixed => r =~= seq![(Xv::NInf, Xv::PInf)],
            SignClass::Zero => r =~= Seq::<(Xv, Xv)>::empty(),
            SignClass::Positive(z2) => if z2 {
                r =~= seq![(Xv::NInf, Xv::PInf)]
            } else {
                exists|u: Xv, w: Xv|
                    x_qdn(u, l1, l2, p) && x_qup(w, h1, l2, p) && r =~= seq![checked_pair(u, w)]
            },
            SignClass::Negative(z2) => if z2 {
                r =~= seq![(Xv::NInf, Xv::PInf)]
            } else {
                exists|u: Xv, w: Xv|
                    x_qdn(u, h1, h2, p) && x_qup(w, l1, h2, p) && r =~= seq![checked_pair(u, w)]
            },
        },
        SignClass::Zero => if x_is_nan(l1) || x_is_nan(l2) || (x_is_zero(l2) && x_is_zero(h2)) {
            r =~= Seq::<(Xv, Xv)>::empty()
        } else {
            r =~= seq![(l1, h1)]
        },
        SignClass::Positive(z1) => match sign_class_of(l2, h2) {
            SignClass::Mixed => if z1 {
                r =~= seq![(Xv::NInf, Xv::PInf)]
            } else {
                exists|u: Xv, w: Xv|
                    x_qup(w, l1, l2, p) && x_qdn(u, l1, h2, p) && r =~= seq![
                        (Xv::NInf, w),
                        (u, Xv::PInf),
                    ]
            },
            SignClass::Zero => r =~= Seq::<(Xv, Xv)>::empty(),
            SignClass::Positive(z2) => if z2 {
                exists|u: Xv| x_qdn(u, l1, h2, p) && r =~= seq![(u, Xv::PInf)]
            } else {
                exists|u: Xv, w: Xv|
                    x_qdn(u, l1, h2, p) && x_qup(w, h1, l2, p) && r =~= seq![checked_pair(u, w)]
            },
            SignClass::Negative(z2) => if z2 {
                exists|w: Xv| x_qup(w, l1, l2, p) && r =~= seq![(Xv::NInf, w)]
            } else {
                exists|u: Xv, w: Xv|
                    x_qdn(u, h1, h2, p) && x_qup(w, l1, l2, p) && r =~= seq![checked_pair(u, w)]
            },
        },
        SignClass::Negative(z1) => match sign_class_of(l2, h2) {
            SignClass::Mixed => if z1 {
                r =~= seq![(Xv::NInf, Xv::PInf)]
            } else {
                exists|u: Xv, w: Xv|
                    x_qup(w, h1, h2, p) && x_qdn(u, h1, l2, p) && r =~= seq![
                        (Xv::NInf, w),
                        (u, Xv::PInf),
                    ]
            },
            SignClass::Zero => r =~= Seq::<(Xv, Xv)>::empty(),
            SignClass::Positive(z2) => if z2 {
                exists|w: Xv| x_qup(w, h1, h2, p) && r =~= seq![(Xv::NInf, w)]
            } else {
                exists|u: Xv, w: Xv|
                    x_qdn(u, l1, l2, p) && x_qup(w, h1, h2, p) && r =~= seq![checked_pair(u, w)]
            },
            SignClass::Negative(z2) => if z2 {
                exists|u: Xv| x_qdn(u, h1, l2, p) && r =~= seq![(u, Xv::PInf)]
            } else {
                exists|u: Xv, w: Xv|
                    x_qdn(u, h1, l2, p) && x_qup(w, l1, h2, p) && r =~= seq![checked_pair(u, w)]
            },
        },
    }
}

/// Whether the exact quotient `a / b` (for finite `a` and finite nonzero
/// `b`) lies in the closed interval with bound models `lo` and `hi`, stated
/// multiplicatively so that no division appears in the model.
pub open spec fn quot_in(a: Xv, b: Xv, lo: Xv, hi: Xv) -> bool {
    if x_sign(b) > 0 {
        x_le(x_mul(lo, b), a) && x_le(a, x_mul(hi, b))
    } else {
        x_le(x_mul(hi, b), a) && x_le(a, x_mul(lo, b))
    }
}

/// One rounded corner quotient bounds the point quotients from below: from
/// the corner inequality `v * y <= x` and `x <= a`, moving the divisor
/// corner `y` to the point `b` in the direction the corner's sign makes
/// monotone gives `v * b <= a`.
proof fn corner_le(v: Xv, x: Xv, y: Xv, a: Xv, b: Xv)
    requires
        v is Fin && x is Fin && y is Fin && a is Fin && b is Fin,
        x_le(x_mul(v, y), x),
        x_le(x, a),
        (x_sign(v) >= 0 && x_le(b, y)) || (x_sign(v) <= 0 && x_le(y, b)),
    ensures
        x_le(x_mul(v, b), a),
{
    crate::model::lemma_qcorner_le(v->Fin_0, x->Fin_0, y->Fin_0, a->Fin_0, b->Fin_0);
}

/// The mirror of `corner_le`: from `x <= v * y` and `a <= x` follows
/// `a <= v * b`.
proof fn corner_ge(v: Xv, x: Xv, y: Xv, a: Xv, b: Xv)
    requires
        v is Fin && x is Fin && y is Fin && a is Fin && b is Fin,
        x_le(x, x_mul(v, y)),
        x_le(a, x),
        (x_sign(v) >= 0 && x_le(y, b)) || (x_sign(v) <= 0 && x_le(b, y)),
    ensures
        x_le(a, x_mul(v, b)),
{
    crate::model::lemma_qcorner_ge(v->Fin_0, x->Fin_0, y->Fin_0, a->Fin_0, b->Fin_0);
}

/// One cell of the division table: `u` is the rounded-down corner quotient
/// of `ux / uy` (or the lower ray end), `w` the rounded-up corner quotient
/// of `wx / wy` (or the upper ray end), and the table's corner choices make
/// the pair bracket every point quotient `a / b` and form a well-formed
/// interval.
/// The finite-corner condition for the lower end of a division cell.
pub open spec fn div_u_fin(ux: Xv, uy: Xv, u: Xv, a: Xv, b: Xv, p: nat) -> bool {
    &&& x_qdn(u, ux, uy, p)
    &&& uy is Fin
    &&& x_sign(uy) != 0
    &&& !x_is_nan(ux)
    &&& if x_sign(b) > 0 {
        x_sign(uy) > 0 && x_le(ux, a) && ((x_le(b, uy) && x_sign(ux) >= 0) || (x_le(uy, b)
            && x_sign(ux) < 0))
    } else {
        x_sign(uy) < 0 && x_le(a, ux) && ((x_le(b, uy) && x_sign(ux) > 0) || (x_le(uy, b)
            && x_sign(ux) <= 0))
    }
}

/// The finite-corner condition for the upper end of a division cell.
pub open spec fn div_w_fin(wx: Xv, wy: Xv, w: Xv, a: Xv, b: Xv, p: nat) -> bool {
    &&& x_qup(w, wx, wy, p)
    &&& wy is Fin
    &&& x_sign(wy) != 0
    &&& !x_is_nan(wx)
    &&& if x_sign(b) > 0 {
        x_sign(wy) > 0 && x_le(a, wx) && ((x_le(wy, b) && x_sign(wx) > 0) || (x_le(b, wy)
            && x_sign(wx) <= 0))
    } else {
        x_sign(wy) < 0 && x_le(wx, a) && ((x_le(b, wy) && x_sign(wx) < 0) || (x_le(wy, b)
            && x_sign(wx) >= 0))
    }
}

#[verifier::rlimit(100)]
proof fn div_cell_fin(ux: Xv, wx: Xv, uy: Xv, wy: Xv, u: Xv, w: Xv, a: Xv, b: Xv, p: nat)
    requires
        a is Fin,
        b is Fin,
        x_sign(b) != 0,
        u is NInf || (u == x_zero() && !x_is_nan(ux) && (x_sign(b) > 0 ==> x_le(ux, a) && x_sign(
            ux,
        ) >= 0) && (x_sign(b) < 0 ==> x_le(a, ux) && x_sign(ux) <= 0)) || div_u_fin(
            ux,
            uy,
            u,
            a,
            b,
            p,
        ),
        w is PInf || (w == x_zero() && !x_is_nan(wx) && (x_sign(b) > 0 ==> x_le(a, wx) && x_sign(
            wx,
        ) <= 0) && (x_sign(b) < 0 ==> x_le(wx, a) && x_sign(wx) >= 0)) || div_w_fin(
            wx,
            wy,
            w,
            a,
            b,
            p,
        ),
    ensures
        quot_in(a, b, u, w),
        wf_pair(u, w),
{
    lemma_x_mul_sign(Xv::NInf, b);
    lemma_x_mul_sign(Xv::PInf, b);
    let bd = b->Fin_0;
    let ad = a->Fin_0;
    // the lower end of the pair
    if u is NInf {
    } else if !div_u_fin(ux, uy, u, a, b, p) {
        // the corner divisor is infinite: the corner quotient is zero, and
        // the dividend side keeps every point on the right side of it
        lemma_x_mul_sign(u, b);
        if x_sign(b) > 0 {
            crate::model::lemma_x_sign_mono(ux, a);
            lemma_x_sign_squeeze(x_mul(u, b), a);
        } else {
            crate::model::lemma_x_sign_mono(a, ux);
            lemma_x_sign_squeeze(a, x_mul(u, b));
        }
    } else if ux is NInf {
        assert(u is NInf);
    } else if ux is PInf {
        assert(u is NInf);
    } else {
        let ud = u->Fin_0;
        let uxd = ux->Fin_0;
        let uyd = uy->Fin_0;
        crate::model::lemma_dy_mul_sign(ud, bd);
        crate::model::lemma_dy_zero_cmp(crate::model::dy_mul(ud, bd));
        crate::model::lemma_dy_zero_cmp(ad);
        crate::model::lemma_dy_zero_cmp(uxd);
        if x_sign(b) > 0 {
            // show u * b <= a
            if x_sign(ux) >= 0 {
                crate::model::lemma_qdn_nonneg(ud, uxd, uyd, p);
                corner_le(u, ux, uy, a, b);
            } else {
                crate::model::lemma_sign_prod_below(ud, uyd, uxd);
                corner_le(u, ux, uy, a, b);
            }
        } else {
            // show a <= u * b
            if x_sign(ux) > 0 {
                crate::model::lemma_sign_prod_above(ud, uyd, uxd);
                corner_ge(u, ux, uy, a, b);
            } else {
                crate::model::lemma_qdn_nonneg(ud, uxd, uyd, p);
                corner_ge(u, ux, uy, a, b);
            }
        }
    }
    // the upper end of the pair
    if w is PInf {
    } else if !div_w_fin(wx, wy, w, a, b, p) {
        lemma_x_mul_sign(w, b);
        if x_sign(b) > 0 {
            crate::model::lemma_x_sign_mono(a, wx);
            lemma_x_sign_squeeze(a, x_mul(w, b));
        } else {
            crate::model::lemma_x_sign_mono(wx, a);
            lemma_x_sign_squeeze(x_mul(w, b), a);
        }
    } else if wx is PInf {
        assert(w is PInf);
    } else if wx is NInf {
        assert(w is PInf);
    } else {
        let wd = w->Fin_0;
        let wxd = wx->Fin_0;
        let wyd = wy->Fin_0;
        crate::model::lemma_dy_mul_sign(wd, bd);
        crate::model::lemma_dy_zero_cmp(crate::model::dy_mul(wd, bd));
        crate::model::lemma_dy_zero_cmp(ad);
        crate::model::lemma_dy_zero_cmp(wxd);
        if x_sign(b) > 0 {
            // show a <= w * b
            if x_sign(wx) > 0 {
                crate::model::lemma_sign_prod_above(wd, wyd, wxd);
                corner_ge(w, wx, wy, a, b);
            } else {
                if wd.m <= 0 {
                    corner_ge(w, wx, wy, a, b);
                } else {
                    crate::model::lemma_x_sign_mono(a, wx);
                    lemma_x_sign_squeeze(a, x_mul(w, b));
                }
            }
        } else {
            // show w * b <= a
            if x_sign(wx) < 0 {
                crate::model::lemma_sign_prod_below(wd, wyd, wxd);
                corner_le(w, wx, wy, a, b);
            } else {
                if wd.m <= 0 {
                    corner_le(w, wx, wy, a, b);
                } else {
                    crate::model::lemma_x_sign_mono(wx, a);
                    lemma_x_sign_squeeze(x_mul(w, b), a);
                }
            }
        }
    }
    // the two ends form a well-formed pair
    if u is Fin && w is Fin {
        if x_sign(b) > 0 {
            crate::model::lemma_dy_trans(
                crate::model::dy_mul(u->Fin_0, bd),
                ad,
                crate::model::dy_mul(w->Fin_0, bd),
            );
        } else {
            crate::model::lemma_dy_trans(
                crate::model::dy_mul(w->Fin_0, bd),
                ad,
                crate::model::dy_mul(u->Fin_0, bd),
            );
        }
        crate::model::lemma_dy_mul_cancel_r(u->Fin_0, w->Fin_0, bd);
    }
}

/// Soundness of the division table: for every finite point `a` of the
/// dividend and finite nonzero point `b` of the divisor, some interval of
/// the list that `div_multi` returns contains the exact quotient `a / b`.
/// Together with `div_rel` this is the containment property of interval
/// division.
#[verifier::rlimit(100)]
pub proof fn lemma_div_point(
    l1: Xv,
    h1: Xv,
    l2: Xv,
    h2: Xv,
    s: Seq<(Xv, Xv)>,
    p: nat,
    a: Xv,
    b: Xv,
)
    requires
        wf_pair(l1, h1),
        wf_pair(l2, h2),
        div_rel(l1, h1, l2, h2, s, p),
        in_pair(a, l1, h1),
        in_pair(b, l2, h2),
        x_sign(b) != 0,
    ensures
        exists|i: int| 0 <= i < s.len() && quot_in(a, b, (#[trigger] s[i]).0, s[i].1),
{
    crate::model::lemma_x_sign_mono(l1, a);
    crate::model::lemma_x_sign_mono(a, h1);
    crate::model::lemma_x_sign_mono(l2, b);
    crate::model::lemma_x_sign_mono(b, h2);
    let c1 = sign_class_of(l1, h1);
    let c2 = sign_class_of(l2, h2);
    lemma_x_mul_sign(Xv::NInf, b);
    lemma_x_mul_sign(Xv::PInf, b);
    if c1 is Zero {
        // the dividend holds only zero, so every quotient is zero
        lemma_x_mul_sign(l1, b);
        lemma_x_mul_sign(h1, b);
        lemma_x_sign_squeeze(x_mul(l1, b), a);
        lemma_x_sign_squeeze(a, x_mul(l1, b));
        lemma_x_sign_squeeze(x_mul(h1, b), a);
        lemma_x_sign_squeeze(a, x_mul(h1, b));
        assert(quot_in(a, b, s[0].0, s[0].1));
        return ;
    }
    if s =~= seq![(Xv::NInf, Xv::PInf)] {
        assert(quot_in(a, b, s[0].0, s[0].1));
        return ;
    }
    // every remaining form bounds the quotient by rounded corner quotients
    if c1 is Mixed {
        if c2 is Positive {
            let (u, w) = choose|u: Xv, w: Xv|
                x_qdn(u, l1, l2, p) && x_qup(w, h1, l2, p) && s =~= seq![checked_pair(u, w)];
            div_cell_fin(l1, h1, l2, l2, u, w, a, b, p);
            assert(quot_in(a, b, s[0].0, s[0].1));
        } else {
            let (u, w) = choose|u: Xv, w: Xv|
                x_qdn(u, h1, h2, p) && x_qup(w, l1, h2, p) && s =~= seq![checked_pair(u, w)];
            div_cell_fin(h1, l1, h2, h2, u, w, a, b, p);
            assert(quot_in(a, b, s[0].0, s[0].1));
        }
    } else if c1 is Positive {
        if c2 is Mixed {
            let (u, w) = choose|u: Xv, w: Xv|
                x_qup(w, l1, l2, p) && x_qdn(u, l1, h2, p) && s =~= seq![
                    (Xv::NInf, w),
                    (u, Xv::PInf),
                ];
            if x_sign(b) > 0 {
                div_cell_fin(l1, h1, h2, l2, u, Xv::PInf, a, b, p);
                assert(quot_in(a, b, s[1].0, s[1].1));
            } else {
                div_cell_fin(h1, l1, h2, l2, Xv::NInf, w, a, b, p);
                assert(quot_in(a, b, s[0].0, s[0].1));
            }
        } else if c2 is Positive {
            if sign_class_of(l2, h2) == SignClass::Positive(true) {
                let u = choose|u: Xv| x_qdn(u, l1, h2, p) && s =~= seq![(u, Xv::PInf)];
                div_cell_fin(l1, h1, h2, l2, u, Xv::PInf, a, b, p);
                assert(quot_in(a, b, s[0].0, s[0].1));
            } else {
                let (u, w) = choose|u: Xv, w: Xv|
                    x_qdn(u, l1, h2, p) && x_qup(w, h1, l2, p) && s =~= seq![checked_pair(u, w)];
                div_cell_fin(l1, h1, h2, l2, u, w, a, b, p);
                assert(quot_in(a, b, s[0].0, s[0].1));
            }
        } else {
            if sign_class_of(l2, h2) == SignClass::Negative(true) {
                let w = choose|w: Xv| x_qup(w, l1, l2, p) && s =~= seq![(Xv::NInf, w)];
                div_cell_fin(h1, l1, h2, l2, Xv::NInf, w, a, b, p);
                assert(quot_in(a, b, s[0].0, s[0].1));
            } else {
                let (u, w) = choose|u: Xv, w: Xv|
                    x_qdn(u, h1, h2, p) && x_qup(w, l1, l2, p) && s =~= seq![checked_pair(u, w)];
                div_cell_fin(h1, l1, h2, l2, u, w, a, b, p);
                assert(quot_in(a, b, s[0].0, s[0].1));
            }
        }
    } else {
        if c2 is Mixed {
            let (u, w) = choose|u: Xv, w: Xv|
                x_qup(w, h1, h2, p) && x_qdn(u, h1, l2, p) && s =~= seq![
                    (Xv::NInf, w),
                    (u, Xv::PInf),
                ];
            if x_sign(b) > 0 {
                div_cell_fin(l1, h1, l2, h2, Xv::NInf, w, a, b, p);
                assert(quot_in(a, b, s[0].0, s[0].1));
            } else {
                div_cell_fin(h1, l1, l2, h2, u, Xv::PInf, a, b, p);
                assert(quot_in(a, b, s[1].0, s[1].1));
            }
        } else if c2 is Positive {
            if sign_class_of(l2, h2) == SignClass::Positive(true) {
                let w = choose|w: Xv| x_qup(w, h1, h2, p) && s =~= seq![(Xv::NInf, w)];
                div_cell_fin(l1, h1, l2, h2, Xv::NInf, w, a, b, p);
                assert(quot_in(a, b, s[0].0, s[0].1));
            } else {
                let (u, w) = choose|u: Xv, w: Xv|
                    x_qdn(u, l1, l2, p) && x_qup(w, h1, h2, p) && s =~= seq![checked_pair(u, w)];
                div_cell_fin(l1, h1, l2, h2, u, w, a, b, p);
                assert(quot_in(a, b, s[0].0, s[0].1));
            }
        } else {
            if sign_class_of(l2, h2) == SignClass::Negative(true) {
                let u = choose|u: Xv| x_qdn(u, h1, l2, p) && s =~= seq![(u, Xv::PInf)];
                div_cell_fin(h1, l1, l2, h2, u, Xv::PInf, a, b, p);
                assert(quot_in(a, b, s[0].0, s[0].1));
            } else {
                let (u, w) = choose|u: Xv, w: Xv|
                    x_qdn(u, h1, l2, p) && x_qup(w, l1, h2, p) && s =~= seq![checked_pair(u, w)];
                div_cell_fin(h1, l1, l2, h2, u, w, a, b, p);
                assert(quot_in(a, b, s[0].0, s[0].1));
            }
        }
    }
}

impl<BOUND: Float> Interval<BOUND> {
    /// Builds the interval `[lo, hi]` after checking the interval criteria
    /// at run time; an invalid pair gives the NaN interval. The sign-class
    /// tables only ever produce valid pairs, so the check is a safety net,
    /// not a branch callers see taken.
    fn make(lo: BOUND, hi: BOUND) -> (r: Self)
        requires
            lo.p() == hi.p(),
            lo.p() >= 1,
        ensures
            r.prec() == lo.p(),
            (r.lo_m(), r.hi_m()) == checked_pair(lo.m(), hi.m()),
    {
        let ok = (lo.is_nan() == hi.is_nan()) && (lo.is_nan() || lo.le(&hi)) && !(lo.is_infinity()
            && hi.is_infinity()) && !(lo.is_neg_infinity() && hi.is_neg_infinity());
        if ok {
            Self::new(lo, hi)
        } else {
            Self::nan(lo.precision())
        }
    }

    /// Divides `self` by `rhs` and returns a vector of intervals minimally
    /// covering the result.
    ///
    /// Division by an interval containing only zero gives no intervals; a
    /// divisor straddling zero splits the quotient of a one-signed dividend
    /// into two rays around the excluded neighbourhood of the pole.
    pub fn div_multi(self, rhs: Self) -> (r: Vec<Self>)
        requires
            self.prec() == rhs.prec(),
        ensures
            forall|i: int| 0 <= i < r@.len() ==> (#[trigger] r@[i]).prec() == self.prec(),
            div_rel(
                self.lo_m(),
                self.hi_m(),
                rhs.lo_m(),
                rhs.hi_m(),
                models_of(r@),
                self.prec() as nat,
            ),
            forall|a: Xv, b: Xv|
                #[trigger] in_pair(a, self.lo_m(), self.hi_m()) && #[trigger] in_pair(
                    b,
                    rhs.lo_m(),
                    rhs.hi_m(),
                ) && x_sign(b) != 0 ==> exists|i: int|
                    0 <= i < r@.len() && quot_in(
                        a,
                        b,
                        (#[trigger] models_of(r@)[i]).0,
                        models_of(r@)[i].1,
                    ),
    {
        proof {
            use_type_invariant(&self);
            use_type_invariant(&rhs);
        }
        let ghost sl = self.lo_m();
        let ghost sh = self.hi_m();
        let ghost rl = rhs.lo_m();
        let ghost rh = rhs.hi_m();
        let ghost gp = self.prec() as nat;
        let r = self.div_parts(rhs);
        proof {
            assert forall|a: Xv, b: Xv|
                #[trigger] in_pair(a, sl, sh) && #[trigger] in_pair(b, rl, rh) && x_sign(b)
                    != 0 implies exists|i: int|
                0 <= i < r@.len() && quot_in(
                    a,
                    b,
                    (#[trigger] models_of(r@)[i]).0,
                    models_of(r@)[i].1,
                ) by {
                lemma_div_point(sl, sh, rl, rh, models_of(r@), gp, a, b);
            }
        }
        r
    }

    /// The sign-class dispatch behind `div_multi`.
    fn div_parts(self, rhs: Self) -> (r: Vec<Self>)
        requires
            self.prec() == rhs.prec(),
        ensures
            forall|i: int| 0 <= i < r@.len() ==> (#[trigger] r@[i]).prec() == self.prec(),
            div_rel(
                self.lo_m(),
                self.hi_m(),
                rhs.lo_m(),
                rhs.hi_m(),
                models_of(r@),
                self.prec() as nat,
            ),
    {
        proof {
            use_type_invariant(&self);
            use_type_invariant(&rhs);
        }
        let ghost p = self.prec() as nat;
        let precision = self.precision();
        let c1 = self.sign_class();
        let c2 = rhs.sign_class();
        let mut r: Vec<Self> = Vec::new();
        match c1 {
            SignClass::Mixed => match c2 {
                SignClass::Mixed => { r.push(Self::whole(precision)) },
                SignClass::Zero => {},
                SignClass::Positive(z2) => if z2 {
                    r.push(Self::whole(precision))
                } else {
                    let Interval { lo: l1, hi: h1 } = self;
                    let Interval { lo: l2, hi: h2 } = rhs;
                    {
                        let qlo = l1.div_lo(l2.dup());
                        let qhi = h1.div_hi(l2);
                        let iv = Self::make(qlo, qhi);
                        r.push(iv);
                        proof {
                            assert(x_qdn(qlo.m(), l1.m(), l2.m(), p) && x_qup(qhi.m(), h1.m(), l2.m(), p)
                                && models_of(r@) =~= seq![checked_pair(qlo.m(), qhi.m())]);
                        }
                    }
                },
                SignClass::Negative(z2) => if z2 {
                    r.push(Self::whole(precision))
                } else {
                    proof {
                        crate::model::lemma_x_sign_mono(rhs.lo_m(), rhs.hi_m());
                    }
                    let Interval { lo: l1, hi: h1 } = self;
                    let Interval { lo: l2, hi: h2 } = rhs;
                    {
                        let qlo = h1.div_lo(h2.dup());
                        let qhi = l1.div_hi(h2);
                        let iv = Self::make(qlo, qhi);
                        r.push(iv);
                        proof {
                            assert(x_qdn(qlo.m(), h1.m(), h2.m(), p) && x_qup(qhi.m(), l1.m(), h2.m(), p)
                                && models_of(r@) =~= seq![checked_pair(qlo.m(), qhi.m())]);
                        }
                    }
                },
            },
            SignClass::Zero => {
                if !(self.is_nan() || rhs.is_nan() || rhs.is_zero()) {
                    r.push(self);
                }
            },
            SignClass::Positive(z1) => match c2 {
                SignClass::Mixed => if z1 {
                    r.push(Self::whole(precision))
                } else {
                    let Interval { lo: l1, hi: h1 } = self;
                    let Interval { lo: l2, hi: h2 } = rhs;
                    let qhi = l1.dup().div_hi(l2);
                    let qlo = l1.div_lo(h2);
                    r.push(Self::new(BOUND::neg_infinity(precision), qhi));
                    r.push(Self::new(qlo, BOUND::infinity(precision)));
                    proof {
                        assert(x_qup(qhi.m(), l1.m(), l2.m(), p) && x_qdn(qlo.m(), l1.m(), h2.m(), p)
                            && models_of(r@) =~= seq![(Xv::NInf, qhi.m()), (qlo.m(), Xv::PInf)]);
                    }
                },
                SignClass::Zero => {},
                SignClass::Positive(z2) => if z2 {
                    proof {
                        crate::model::lemma_x_sign_mono(rhs.lo_m(), rhs.hi_m());
                    }
                    let Interval { lo: l1, hi: h1 } = self;
                    let Interval { lo: l2, hi: h2 } = rhs;
                    {
                        let qlo = l1.div_lo(h2);
                        r.push(Self::new(qlo, BOUND::infinity(precision)));
                        proof {
                            assert(x_qdn(qlo.m(), l1.m(), h2.m(), p) && models_of(r@) =~= seq![
                                (qlo.m(), Xv::PInf),
                            ]);
                        }
                    }
                } else {
                    proof {
                        crate::model::lemma_x_sign_mono(rhs.lo_m(), rhs.hi_m());
                    }
                    let Interval { lo: l1, hi: h1 } = self;
                    let Interval { lo: l2, hi: h2 } = rhs;
                    {
                        let qlo = l1.div_lo(h2);
                        let qhi = h1.div_hi(l2);
                        let iv = Self::make(qlo, qhi);
                        r.push(iv);
                        proof {
                            assert(x_qdn(qlo.m(), l1.m(), h2.m(), p) && x_qup(qhi.m(), h1.m(), l2.m(), p)
                                && models_of(r@) =~= seq![checked_pair(qlo.m(), qhi.m())]);
                        }
                    }
                },
                SignClass::Negative(z2) => if z2 {
                    let Interval { lo: l1, hi: h1 } = self;
                    let Interval { lo: l2, hi: h2 } = rhs;
                    {
                        let qhi = l1.div_hi(l2);
                        r.push(Self::new(BOUND::neg_infinity(precision), qhi));
                        proof {
                            assert(x_qup(qhi.m(), l1.m(), l2.m(), p) && models_of(r@) =~= seq![
                                (Xv::NInf, qhi.m()),
                            ]);
                        }
                    }
                } else {
                    proof {
                        crate::model::lemma_x_sign_mono(rhs.lo_m(), rhs.hi_m());
                    }
                    let Interval { lo: l1, hi: h1 } = self;
                    let Interval { lo: l2, hi: h2 } = rhs;
                    {
                        let qlo = h1.div_lo(h2);
                        let qhi = l1.div_hi(l2);
                        let iv = Self::make(qlo, qhi);
                        r.push(iv);
                        proof {
                            assert(x_qdn(qlo.m(), h1.m(), h2.m(), p) && x_qup(qhi.m(), l1.m(), l2.m(), p)
                                && models_of(r@) =~= seq![checked_pair(qlo.m(), qhi.m())]);
                        }
                    }
                },
            },
            SignClass::Negative(z1) => match c2 {
                SignClass::Mixed => if z1 {
                    r.push(Self::whole(precision))
                } else {
                    let Interval { lo: l1, hi: h1 } = self;
                    let Interval { lo: l2, hi: h2 } = rhs;
                    let qhi = h1.dup().div_hi(h2);
                    let qlo = h1.div_lo(l2);
                    r.push(Self::new(BOUND::neg_infinity(precision), qhi));
                    r.push(Self::new(qlo, BOUND::infinity(precision)));
                    proof {
                        assert(x_qup(qhi.m(), h1.m(), h2.m(), p) && x_qdn(qlo.m(), h1.m(), l2.m(), p)
                            && models_of(r@) =~= seq![(Xv::NInf, qhi.m()), (qlo.m(), Xv::PInf)]);
                    }
                },
                SignClass::Zero => {},
                SignClass::Positive(z2) => if z2 {
                    proof {
                        crate::model::lemma_x_sign_mono(rhs.lo_m(), rhs.hi_m());
                    }
                    let Interval { lo: l1, hi: h1 } = self;
                    let Interval { lo: l2, hi: h2 } = rhs;
                    {
                        let qhi = h1.div_hi(h2);
                        r.push(Self::new(BOUND::neg_infinity(precision), qhi));
                        proof {
                            assert(x_qup(qhi.m(), h1.m(), h2.m(), p) && models_of(r@) =~= seq![
                                (Xv::NInf, qhi.m()),
                            ]);
                        }
                    }
                } else {
                    proof {
                        crate::model::lemma_x_sign_mono(rhs.lo_m(), rhs.hi_m());
                    }
                    let Interval { lo: l1, hi: h1 } = self;
                    let Interval { lo: l2, hi: h2 } = rhs;
                    {
                        let qlo = l1.div_lo(l2.dup());
                        let qhi = h1.div_hi(h2);
                        let iv = Self::make(qlo, qhi);
                        r.push(iv);
                        proof {
                            assert(x_qdn(qlo.m(), l1.m(), l2.m(), p) && x_qup(qhi.m(), h1.m(), h2.m(), p)
                                && models_of(r@) =~= seq![checked_pair(qlo.m(), qhi.m())]);
                        }
                    }
                },
                SignClass::Negative(z2) => if z2 {
                    let Interval { lo: l1, hi: h1 } = self;
                    let Interval { lo: l2, hi: h2 } = rhs;
                    {
                        let qlo = h1.div_lo(l2);
                        r.push(Self::new(qlo, BOUND::infinity(precision)));
                        proof {
                            assert(x_qdn(qlo.m(), h1.m(), l2.m(), p) && models_of(r@) =~= seq![
                                (qlo.m(), Xv::PInf),
                            ]);
                        }
                    }
                } else {
                    let Interval { lo: l1, hi: h1 } = self;
                    let Interval { lo: l2, hi: h2 } = rhs;
                    {
                        let qlo = h1.div_lo(l2.dup());
                        let qhi = l1.div_hi(h2);
                        let iv = Self::make(qlo, qhi);
                        r.push(iv);
                        proof {
                            assert(x_qdn(qlo.m(), h1.m(), l2.m(), p) && x_qup(qhi.m(), l1.m(), h2.m(), p)
                                && models_of(r@) =~= seq![checked_pair(qlo.m(), qhi.m())]);
                        }
                    }
                },
            },
        }
        r
    }

    /// Correctly rounded division: the minimal cover of `div_multi`.
    pub fn div(self, rhs: Self) -> (r: Self)
        requires
            self.prec() == rhs.prec(),
        ensures
            r.prec() == self.prec(),
            exists|s: Seq<(Xv, Xv)>|
                div_rel(
                    self.lo_m(),
                    self.hi_m(),
                    rhs.lo_m(),
                    rhs.hi_m(),
                    s,
                    self.prec() as nat,
                ) && #[trigger] cover_of(s, r.lo_m(), r.hi_m()),
    {
        let ghost l1 = self.lo_m();
        let ghost h1 = self.hi_m();
        let ghost l2 = rhs.lo_m();
        let ghost h2 = rhs.hi_m();
        let precision = self.precision();
        let parts = self.div_multi(rhs);
        let ghost pseq = parts@;
        let ghost s = models_of(pseq);
        let r = Self::minimal_cover(parts, precision);
        proof {
            use_type_invariant(&r);
            assert(forall|j: int|
                0 <= j < pseq.len() ==> (#[trigger] s[j]) == (pseq[j].lo_m(), pseq[j].hi_m()));
            if x_is_nan(r.lo_m()) {
                assert forall|j: int| 0 <= j < s.len() implies x_is_nan((#[trigger] s[j]).0) by {
                    assert(x_is_nan(pseq[j].lo_m()));
                }
            } else {
                if forall|j: int| 0 <= j < s.len() ==> x_is_nan((#[trigger] s[j]).0) {
                    assert forall|j: int|
                        0 <= j < pseq.len() implies x_is_nan(
                        (#[trigger] pseq[j]).lo_m(),
                    ) by {
                        assert(x_is_nan(s[j].0));
                    }
                    assert(false);
                }
                let j1 = choose|j: int|
                    0 <= j < pseq.len() && r.lo_m() == (#[trigger] pseq[j]).lo_m();
                let j2 = choose|j: int|
                    0 <= j < pseq.len() && r.hi_m() == (#[trigger] pseq[j]).hi_m();
                assert((#[trigger] s[j1]).0 == r.lo_m());
                assert((#[trigger] s[j2]).1 == r.hi_m());
            }
            assert(cover_of(s, r.lo_m(), r.hi_m()));
        }
        r
    }
}

impl<BOUND: Float> Interval<BOUND> {
    /// Correctly rounded natural logarithm.
    ///
    /// Negative-only and zero intervals have no real logarithm and give the
    /// NaN interval; a negative part of a mixed interval contributes
    /// nothing, and a zero touch pushes the lower bound to `-inf`.
    pub fn log(self) -> (r: Self)
        ensures
            r.prec() == self.prec(),
            (sign_class_of(self.lo_m(), self.hi_m()) is Zero || sign_class_of(
                self.lo_m(),
                self.hi_m(),
            ) is Negative) ==> x_is_nan(r.lo_m()) && x_is_nan(r.hi_m()),
            (sign_class_of(self.lo_m(), self.hi_m()) is Mixed || sign_class_of(
                self.lo_m(),
                self.hi_m(),
            ) == SignClass::Positive(true)) ==> r.lo_m() is NInf && r.hi_m() == BOUND::log_up(
                self.hi_m(),
                self.prec(),
            ),
            sign_class_of(self.lo_m(), self.hi_m()) == SignClass::Positive(false) ==> r.lo_m()
                == BOUND::log_dn(self.lo_m(), self.prec()) && r.hi_m() == BOUND::log_up(
                self.hi_m(),
                self.prec(),
            ),
            // feeding the result to `exp` can only widen a strictly positive
            // interval: the exact exponential of the exact logarithm gives the
            // argument back, and each rounding moves outward
            sign_class_of(self.lo_m(), self.hi_m()) == SignClass::Positive(false) ==> x_le(
                BOUND::exp_dn(BOUND::log_dn(self.lo_m(), self.prec()), self.prec()),
                self.lo_m(),
            ),
            (sign_class_of(self.lo_m(), self.hi_m()) == SignClass::Positive(false) && self.hi_m()
                is Fin) ==> x_le(
                self.hi_m(),
                BOUND::exp_up(BOUND::log_up(self.hi_m(), self.prec()), self.prec()),
            ),
    {
        proof {
            use_type_invariant(&self);
        }
        let precision = self.precision();
        match self.sign_class() {
            SignClass::Mixed => {
                let Interval { lo: _, hi } = self;
                Self::new(BOUND::neg_infinity(precision), hi.log_hi())
            },
            SignClass::Zero => Self::nan(precision),
            SignClass::Positive(has_zero) => {
                if has_zero {
                    let Interval { lo: _, hi } = self;
                    Self::new(BOUND::neg_infinity(precision), hi.log_hi())
                } else {
                    let Interval { lo, hi } = self;
                    proof {
                        crate::model::lemma_x_sign_mono(lo.m(), hi.m());
                    }
                    let llo = lo.log_lo();
                    let lhi = hi.log_hi();
                    Self::new(llo, lhi)
                }
            },
            SignClass::Negative(_) => Self::nan(precision),
        }
    }

    /// Correctly rounded natural exponential; total and monotonic.
    pub fn exp(self) -> (r: Self)
        ensures
            r.prec() == self.prec(),
            r.lo_m() == BOUND::exp_dn(self.lo_m(), self.prec()),
            r.hi_m() == BOUND::exp_up(self.hi_m(), self.prec()),
    {
        proof {
            use_type_invariant(&self);
        }
        let Interval { lo, hi } = self;
        let elo = lo.exp_lo();
        let ehi = hi.exp_hi();
        Self::new(elo, ehi)
    }

    /// Raises an interval to a strictly positive scalar power, splitting the
    /// base at zero: the negative part is bounded by the extreme rounded
    /// powers of its endpoints (NaN when no real power exists), the
    /// non-negative part by its endpoint powers directly.
    fn pow_a_sp_multi(self, rhs: BOUND) -> (r: Vec<Self>)
        requires
            self.prec() == rhs.p(),
            x_sign(rhs.m()) == 1,
            !x_is_nan(rhs.m()),
        ensures
            forall|i: int| 0 <= i < r@.len() ==> (#[trigger] r@[i]).prec() == self.prec(),
            (x_eq(self.lo_m(), self.hi_m()) && x_sign(self.lo_m()) > 0) ==> models_of(r@) =~= seq![
                checked_pair(
                    BOUND::pow_dn(self.lo_m(), rhs.m(), self.prec()),
                    BOUND::pow_up(self.hi_m(), rhs.m(), self.prec()),
                ),
            ],
            (x_eq(self.lo_m(), self.hi_m()) && x_sign(self.lo_m()) < 0) ==> models_of(r@) =~= seq![
                checked_pair(
                    x_min(
                        BOUND::pow_dn(self.lo_m(), rhs.m(), self.prec()),
                        BOUND::pow_dn(self.hi_m(), rhs.m(), self.prec()),
                    ),
                    x_max(
                        BOUND::pow_up(self.lo_m(), rhs.m(), self.prec()),
                        BOUND::pow_up(self.hi_m(), rhs.m(), self.prec()),
                    ),
                ),
            ],
    {
        proof {
            use_type_invariant(&self);
            crate::model::lemma_x_zero_sign(self.lo_m());
            crate::model::lemma_x_zero_sign(self.hi_m());
            if !x_is_nan(self.lo_m()) {
                crate::model::lemma_x_sign_mono(self.lo_m(), self.hi_m());
            }
            if x_eq(self.lo_m(), self.hi_m()) {
                crate::model::lemma_x_sign_mono(self.hi_m(), self.lo_m());
            }
        }
        let precision = self.precision();
        let mut intervals: Vec<Self> = Vec::new();
        let (self_n, self_p) = self.split(BOUND::zero(precision));
        if !self_n.is_nan() {
            let (nlo, nhi) = self_n.into_pair();
            let u1 = nlo.dup().pow_lo(rhs.dup());
            let u2 = nhi.dup().pow_lo(rhs.dup());
            let v1 = nlo.pow_hi(rhs.dup());
            let v2 = nhi.pow_hi(rhs.dup());
            intervals.push(Self::make(u1.min(u2), v1.max(v2)));
        }
        if !self_p.is_nan() {
            let (plo, phi) = self_p.into_pair();
            intervals.push(Self::make(plo.pow_lo(rhs.dup()), phi.pow_hi(rhs)));
        }
        intervals
    }

    /// Raises an interval to a strictly negative scalar power, as the
    /// reciprocal of the positive-power result.
    fn pow_a_sn_multi(self, rhs: BOUND) -> (r: Vec<Self>)
        requires
            self.prec() == rhs.p(),
            x_sign(rhs.m()) == -1,
            !x_is_nan(rhs.m()),
        ensures
            forall|i: int| 0 <= i < r@.len() ==> (#[trigger] r@[i]).prec() == self.prec(),
    {
        let ghost precision = self.prec();
        let pos_intervals = self.pow_a_sp_multi(rhs.neg());
        let mut r: Vec<Self> = Vec::new();
        let n = pos_intervals.len();
        let mut idx: usize = 0;
        while idx < n
            invariant
                n == pos_intervals@.len(),
                forall|i: int| 0 <= i < r@.len() ==> (#[trigger] r@[i]).prec() == precision,
                forall|i: int|
                    0 <= i < pos_intervals@.len() ==> (#[trigger] pos_intervals@[i]).prec()
                        == precision,
                0 <= idx <= n,
            decreases n - idx,
        {
            let iv = pos_intervals[idx].clone();
            idx += 1;
            let p = iv.precision();
            let mut part = Self::one(p).div_multi(iv);
            let ghost part_snap = part@;
            let m = part.len();
            let mut j: usize = 0;
            while j < m
                invariant
                    m == part@.len(),
                    part@ == part_snap,
                    forall|i: int| 0 <= i < part@.len() ==> (#[trigger] part@[i]).prec() == p,
                    forall|i: int| 0 <= i < r@.len() ==> (#[trigger] r@[i]).prec() == precision,
                    p == precision,
                    0 <= j <= m,
                decreases m - j,
            {
                r.push(part[j].clone());
                j += 1;
            }
        }
        r
    }

    /// Raises an interval to a scalar power of any sign.
    fn pow_a_s_multi(self, rhs: BOUND) -> (r: Vec<Self>)
        requires
            self.prec() == rhs.p(),
            !x_is_nan(rhs.m()),
        ensures
            forall|i: int| 0 <= i < r@.len() ==> (#[trigger] r@[i]).prec() == self.prec(),
            (x_eq(self.lo_m(), self.hi_m()) && x_sign(self.lo_m()) > 0 && x_sign(rhs.m()) > 0)
                ==> models_of(r@) =~= seq![
                checked_pair(
                    BOUND::pow_dn(self.lo_m(), rhs.m(), self.prec()),
                    BOUND::pow_up(self.hi_m(), rhs.m(), self.prec()),
                ),
            ],
            (x_eq(self.lo_m(), self.hi_m()) && x_sign(self.lo_m()) < 0 && x_sign(rhs.m()) > 0)
                ==> models_of(r@) =~= seq![
                checked_pair(
                    x_min(
                        BOUND::pow_dn(self.lo_m(), rhs.m(), self.prec()),
                        BOUND::pow_dn(self.hi_m(), rhs.m(), self.prec()),
                    ),
                    x_max(
                        BOUND::pow_up(self.lo_m(), rhs.m(), self.prec()),
                        BOUND::pow_up(self.hi_m(), rhs.m(), self.prec()),
                    ),
                ),
            ],
    {
        let precision = self.precision();
        match rhs.sign() {
            Sign::Negative => self.pow_a_sn_multi(rhs),
            Sign::Zero => {
                let mut r: Vec<Self> = Vec::new();
                r.push(Self::one(precision));
                r
            },
            Sign::Positive => self.pow_a_sp_multi(rhs),
        }
    }

    /// Power of a non-negative base interval by a non-negative exponent
    /// interval, splitting the base at one: for bases above one the power
    /// grows with the exponent, below one it shrinks, so the rounded corner
    /// choices flip between the two parts.
    fn pow_p_p_multi(self, rhs: Self) -> (r: Vec<Self>)
        requires
            self.prec() == rhs.prec(),
            sign_class_of(self.lo_m(), self.hi_m()) is Positive,
            sign_class_of(rhs.lo_m(), rhs.hi_m()) is Positive,
        ensures
            forall|i: int| 0 <= i < r@.len() ==> (#[trigger] r@[i]).prec() == self.prec(),
    {
        proof {
            use_type_invariant(&rhs);
        }
        let precision = self.precision();
        let mut intervals: Vec<Self> = Vec::new();
        if rhs.has_zero() {
            intervals.push(Self::one(precision));
        }
        let (self_01, self_1i) = self.split(BOUND::one(precision));
        if !self_1i.is_nan() {
            let (lo, hi) = self_1i.into_pair();
            intervals.push(Self::make(lo.pow_lo(rhs.lo().dup()), hi.pow_hi(rhs.hi().dup())));
        }
        if !self_01.is_nan() {
            let (lo, hi) = self_01.into_pair();
            intervals.push(Self::make(lo.pow_lo(rhs.hi().dup()), hi.pow_hi(rhs.lo().dup())));
        }
        intervals
    }

    /// Power of a non-negative base interval by a non-positive exponent
    /// interval, as the reciprocal of the positive-exponent result.
    fn pow_p_n_multi(self, rhs: Self) -> (r: Vec<Self>)
        requires
            self.prec() == rhs.prec(),
            sign_class_of(self.lo_m(), self.hi_m()) is Positive,
            sign_class_of(rhs.lo_m(), rhs.hi_m()) is Negative,
        ensures
            forall|i: int| 0 <= i < r@.len() ==> (#[trigger] r@[i]).prec() == self.prec(),
    {
        let ghost precision = self.prec();
        let pos_intervals = self.pow_p_p_multi(rhs.neg());
        let mut r: Vec<Self> = Vec::new();
        let n = pos_intervals.len();
        let mut idx: usize = 0;
        while idx < n
            invariant
                n == pos_intervals@.len(),
                forall|i: int| 0 <= i < r@.len() ==> (#[trigger] r@[i]).prec() == precision,
                forall|i: int|
                    0 <= i < pos_intervals@.len() ==> (#[trigger] pos_intervals@[i]).prec()
                        == precision,
                0 <= idx <= n,
            decreases n - idx,
        {
            let iv = pos_intervals[idx].clone();
            idx += 1;
            let p = iv.precision();
            let mut part = Self::one(p).div_multi(iv);
            let ghost part_snap = part@;
            let m = part.len();
            let mut j: usize = 0;
            while j < m
                invariant
                    m == part@.len(),
                    part@ == part_snap,
                    forall|i: int| 0 <= i < part@.len() ==> (#[trigger] part@[i]).prec() == p,
                    forall|i: int| 0 <= i < r@.len() ==> (#[trigger] r@[i]).prec() == precision,
                    p == precision,
                    0 <= j <= m,
                decreases m - j,
            {
                r.push(part[j].clone());
                j += 1;
            }
        }
        r
    }

    /// Power of a non-negative base interval by an exponent interval of any
    /// sign, splitting the exponent at zero.
    fn pow_p_a_multi(self, rhs: Self) -> (r: Vec<Self>)
        requires
            self.prec() == rhs.prec(),
            sign_class_of(self.lo_m(), self.hi_m()) is Positive,
            !x_is_nan(rhs.lo_m()),
            !(x_is_zero(rhs.lo_m()) && x_is_zero(rhs.hi_m())),
        ensures
            forall|i: int| 0 <= i < r@.len() ==> (#[trigger] r@[i]).prec() == self.prec(),
    {
        proof {
            use_type_invariant(&rhs);
            if !x_is_nan(rhs.lo_m()) {
                crate::model::lemma_x_sign_mono(rhs.lo_m(), rhs.hi_m());
            }
        }
        let ghost precision = self.prec();
        let mut intervals: Vec<Self> = Vec::new();
        let prec_rhs = rhs.precision();
        let ghost rl = rhs.lo_m();
        let ghost rh = rhs.hi_m();
        let (rhs_n, rhs_p) = rhs.split(BOUND::zero(prec_rhs));
        proof {
            crate::model::lemma_x_zero_sign(rl);
            crate::model::lemma_x_zero_sign(rh);
            crate::model::lemma_x_total(x_zero(), rl);
            crate::model::lemma_x_total(rh, x_zero());
        }
        if !rhs_p.is_nan() {
            let mut part = self.clone().pow_p_p_multi(rhs_p);
            let ghost part_snap = part@;
            let m = part.len();
            let mut j: usize = 0;
            while j < m
                invariant
                    m == part@.len(),
                    part@ == part_snap,
                    forall|i: int|
                        0 <= i < part@.len() ==> (#[trigger] part@[i]).prec() == precision,
                    forall|i: int|
                        0 <= i < intervals@.len() ==> (#[trigger] intervals@[i]).prec()
                            == precision,
                    0 <= j <= m,
                decreases m - j,
            {
                intervals.push(part[j].clone());
                j += 1;
            }
        }
        if !rhs_n.is_nan() {
            let mut part = self.pow_p_n_multi(rhs_n);
            let ghost part_snap = part@;
            let m = part.len();
            let mut j: usize = 0;
            while j < m
                invariant
                    m == part@.len(),
                    part@ == part_snap,
                    forall|i: int|
                        0 <= i < part@.len() ==> (#[trigger] part@[i]).prec() == precision,
                    forall|i: int|
                        0 <= i < intervals@.len() ==> (#[trigger] intervals@[i]).prec()
                            == precision,
                    0 <= j <= m,
                decreases m - j,
            {
                intervals.push(part[j].clone());
                j += 1;
            }
        }
        intervals
    }

    /// Power of a non-positive base interval: computed on the negated base
    /// and returned together with its negation, bounding both the odd and
    /// the even integer exponents inside the exponent interval.
    fn pow_n_a_multi(self, rhs: Self) -> (r: Vec<Self>)
        requires
            self.prec() == rhs.prec(),
            sign_class_of(self.lo_m(), self.hi_m()) is Negative,
            !x_is_nan(rhs.lo_m()),
            !(x_is_zero(rhs.lo_m()) && x_is_zero(rhs.hi_m())),
        ensures
            forall|i: int| 0 <= i < r@.len() ==> (#[trigger] r@[i]).prec() == self.prec(),
    {
        let ghost precision = self.prec();
        let neg_intervals = self.neg().pow_p_a_multi(rhs);
        let mut intervals: Vec<Self> = Vec::new();
        let n = neg_intervals.len();
        let mut j: usize = 0;
        while j < n
            invariant
                n == neg_intervals@.len(),
                forall|i: int|
                    0 <= i < neg_intervals@.len() ==> (#[trigger] neg_intervals@[i]).prec()
                        == precision,
                forall|i: int|
                    0 <= i < intervals@.len() ==> (#[trigger] intervals@[i]).prec() == precision,
                0 <= j <= n,
            decreases n - j,
        {
            intervals.push(neg_intervals[j].clone().neg());
            j += 1;
        }
        let mut j2: usize = 0;
        while j2 < n
            invariant
                n == neg_intervals@.len(),
                forall|i: int|
                    0 <= i < neg_intervals@.len() ==> (#[trigger] neg_intervals@[i]).prec()
                        == precision,
                forall|i: int|
                    0 <= i < intervals@.len() ==> (#[trigger] intervals@[i]).prec() == precision,
                0 <= j2 <= n,
            decreases n - j2,
        {
            intervals.push(neg_intervals[j2].clone());
            j2 += 1;
        }
        intervals
    }

    /// Computes `self` raised to the power `rhs` and returns a vector of
    /// intervals minimally covering the result.
    ///
    /// An empty operand gives no intervals; a zero exponent interval gives
    /// `{1}` (`0^0 = 1` included); a zero base gives `{0}` for a strictly
    /// positive exponent, `{0, 1}` for an exponent touching zero, and
    /// nothing for a strictly negative exponent. A singleton exponent is
    /// handed to the scalar power, which decides by value: an integer
    /// exponent gives the exactly rounded signed power, a non-integer one
    /// no real result on a negative base. Otherwise the base is split at
    /// zero; the non-negative part goes through the sign table, and for a
    /// strictly negative part the result carries both sign mirrors of the
    /// power of the negated base, since the real powers at the integer
    /// exponents inside the range alternate in sign with the exponent's
    /// parity and the mirrored pair contains them all.
    pub fn pow_multi(self, rhs: Self) -> (r: Vec<Self>)
        requires
            self.prec() == rhs.prec(),
        ensures
            forall|i: int| 0 <= i < r@.len() ==> (#[trigger] r@[i]).prec() == self.prec(),
            (x_is_nan(self.lo_m()) || x_is_nan(rhs.lo_m())) ==> models_of(r@)
                =~= Seq::<(Xv, Xv)>::empty(),
            (!x_is_nan(self.lo_m()) && x_is_zero(rhs.lo_m()) && x_is_zero(rhs.hi_m())) ==>
                models_of(r@) =~= seq![(x_one(), x_one())],
            (!x_is_nan(rhs.lo_m()) && !(x_is_zero(rhs.lo_m()) && x_is_zero(rhs.hi_m()))
                && x_is_zero(self.lo_m()) && x_is_zero(self.hi_m())) ==> {
                if x_sign(rhs.lo_m()) <= 0 && x_sign(rhs.hi_m()) >= 0 {
                    models_of(r@) =~= seq![(x_zero(), x_zero()), (x_one(), x_one())]
                } else if x_sign(rhs.lo_m()) > 0 {
                    models_of(r@) =~= seq![(x_zero(), x_zero())]
                } else {
                    models_of(r@) =~= Seq::<(Xv, Xv)>::empty()
                }
            },
            pow_single_case(self.lo_m(), self.hi_m(), rhs.lo_m(), rhs.hi_m()) && x_sign(
                self.lo_m(),
            ) > 0 ==> models_of(r@) =~= seq![
                checked_pair(
                    BOUND::pow_dn(self.lo_m(), rhs.hi_m(), self.prec()),
                    BOUND::pow_up(self.hi_m(), rhs.hi_m(), self.prec()),
                ),
            ],
            pow_single_case(self.lo_m(), self.hi_m(), rhs.lo_m(), rhs.hi_m()) && x_sign(
                self.lo_m(),
            ) < 0 ==> models_of(r@) =~= seq![
                checked_pair(
                    x_min(
                        BOUND::pow_dn(self.lo_m(), rhs.hi_m(), self.prec()),
                        BOUND::pow_dn(self.hi_m(), rhs.hi_m(), self.prec()),
                    ),
                    x_max(
                        BOUND::pow_up(self.lo_m(), rhs.hi_m(), self.prec()),
                        BOUND::pow_up(self.hi_m(), rhs.hi_m(), self.prec()),
                    ),
                ),
            ],
    {
        proof {
            use_type_invariant(&self);
            use_type_invariant(&rhs);
            if !x_is_nan(self.lo_m()) {
                crate::model::lemma_x_sign_mono(self.lo_m(), self.hi_m());
            }
            if !x_is_nan(rhs.lo_m()) {
                crate::model::lemma_x_sign_mono(rhs.lo_m(), rhs.hi_m());
            }
        }
        let precision = self.precision();
        let mut r: Vec<Self> = Vec::new();
        if rhs.is_nan() || self.is_nan() {
            return r;
        }
        if rhs.is_zero() {
            r.push(Self::one(precision));
            return r;
        }
        if self.is_zero() {
            if rhs.has_zero() {
                r.push(Self::zero(precision));
                r.push(Self::one(precision));
            } else if rhs.sign_class().is_positive() {
                r.push(Self::zero(precision));
            }
            return r;
        }
        if rhs.is_singleton() {
            let (_, hi) = rhs.into_pair();
            return self.pow_a_s_multi(hi);
        }
        let ghost sl = self.lo_m();
        let ghost sh = self.hi_m();
        let (self_n, self_p) = self.split(BOUND::zero(precision));
        proof {
            crate::model::lemma_x_zero_sign(sl);
            crate::model::lemma_x_zero_sign(sh);
            crate::model::lemma_x_total(x_zero(), sl);
            crate::model::lemma_x_total(sh, x_zero());
        }
        if !self_p.is_nan() {
            let mut part = self_p.pow_p_a_multi(rhs.clone());
            let ghost part_snap = part@;
            let m = part.len();
            let mut j: usize = 0;
            while j < m
                invariant
                    m == part@.len(),
                    part@ == part_snap,
                    forall|i: int|
                        0 <= i < part@.len() ==> (#[trigger] part@[i]).prec() == precision,
                    forall|i: int| 0 <= i < r@.len() ==> (#[trigger] r@[i]).prec() == precision,
                    0 <= j <= m,
                decreases m - j,
            {
                r.push(part[j].clone());
                j += 1;
            }
        }
        if !self_n.is_nan() {
            let mut part = self_n.pow_n_a_multi(rhs);
            let ghost part_snap = part@;
            let m = part.len();
            let mut j: usize = 0;
            while j < m
                invariant
                    m == part@.len(),
                    part@ == part_snap,
                    forall|i: int|
                        0 <= i < part@.len() ==> (#[trigger] part@[i]).prec() == precision,
                    forall|i: int| 0 <= i < r@.len() ==> (#[trigger] r@[i]).prec() == precision,
                    0 <= j <= m,
                decreases m - j,
            {
                r.push(part[j].clone());
                j += 1;
            }
        }
        r
    }
}

impl<BOUND: Float> Interval<BOUND> {
    /// Correctly rounded power: the minimal cover of `pow_multi`. The cover
    /// relation carries `pow_multi`'s fixed cases with it: a NaN operand
    /// gives the NaN interval, a zero exponent gives one, and a zero base
    /// follows the exponent's sign class.
    pub fn pow(self, rhs: Self) -> (r: Self)
        requires
            self.prec() == rhs.prec(),
        ensures
            r.prec() == self.prec(),
            exists|s: Seq<(Xv, Xv)>|
                #[trigger] cover_of(s, r.lo_m(), r.hi_m()) && ((x_is_nan(self.lo_m()) || x_is_nan(
                    rhs.lo_m(),
                )) ==> s =~= Seq::<(Xv, Xv)>::empty()) && ((!x_is_nan(self.lo_m()) && x_is_zero(
                    rhs.lo_m(),
                ) && x_is_zero(rhs.hi_m())) ==> s =~= seq![(x_one(), x_one())]) && ((!x_is_nan(
                    rhs.lo_m(),
                ) && !(x_is_zero(rhs.lo_m()) && x_is_zero(rhs.hi_m())) && x_is_zero(self.lo_m())
                    && x_is_zero(self.hi_m())) ==> {
                    if x_sign(rhs.lo_m()) <= 0 && x_sign(rhs.hi_m()) >= 0 {
                        s =~= seq![(x_zero(), x_zero()), (x_one(), x_one())]
                    } else if x_sign(rhs.lo_m()) > 0 {
                        s =~= seq![(x_zero(), x_zero())]
                    } else {
                        s =~= Seq::<(Xv, Xv)>::empty()
                    }
                }) && ((pow_single_case(self.lo_m(), self.hi_m(), rhs.lo_m(), rhs.hi_m())
                    && x_sign(self.lo_m()) > 0) ==> s =~= seq![
                    checked_pair(
                        BOUND::pow_dn(self.lo_m(), rhs.hi_m(), self.prec()),
                        BOUND::pow_up(self.hi_m(), rhs.hi_m(), self.prec()),
                    ),
                ]) && ((pow_single_case(self.lo_m(), self.hi_m(), rhs.lo_m(), rhs.hi_m())
                    && x_sign(self.lo_m()) < 0) ==> s =~= seq![
                    checked_pair(
                        x_min(
                            BOUND::pow_dn(self.lo_m(), rhs.hi_m(), self.prec()),
                            BOUND::pow_dn(self.hi_m(), rhs.hi_m(), self.prec()),
                        ),
                        x_max(
                            BOUND::pow_up(self.lo_m(), rhs.hi_m(), self.prec()),
                            BOUND::pow_up(self.hi_m(), rhs.hi_m(), self.prec()),
                        ),
                    ),
                ]),
            (x_is_nan(self.lo_m()) || x_is_nan(rhs.lo_m())) ==> x_is_nan(r.lo_m()) && x_is_nan(
                r.hi_m(),
            ),
            (!x_is_nan(self.lo_m()) && x_is_zero(rhs.lo_m()) && x_is_zero(rhs.hi_m()))
                ==> r.lo_m() == x_one() && r.hi_m() == x_one(),
    {
        let ghost sl = self.lo_m();
        let ghost sh = self.hi_m();
        let ghost rl = rhs.lo_m();
        let ghost rh = rhs.hi_m();
        let precision = self.precision();
        let parts = self.pow_multi(rhs);
        let ghost pseq = parts@;
        let ghost s = models_of(pseq);
        let r = Self::minimal_cover(parts, precision);
        proof {
            use_type_invariant(&r);
            assert(forall|j: int|
                0 <= j < pseq.len() ==> (#[trigger] s[j]) == (pseq[j].lo_m(), pseq[j].hi_m()));
            if x_is_nan(r.lo_m()) {
                assert forall|j: int| 0 <= j < s.len() implies x_is_nan((#[trigger] s[j]).0) by {
                    assert(x_is_nan(pseq[j].lo_m()));
                }
            } else {
                if forall|j: int| 0 <= j < s.len() ==> x_is_nan((#[trigger] s[j]).0) {
                    assert forall|j: int|
                        0 <= j < pseq.len() implies x_is_nan(
                        (#[trigger] pseq[j]).lo_m(),
                    ) by {
                        assert(x_is_nan(s[j].0));
                    }
                    assert(false);
                }
                let j1 = choose|j: int|
                    0 <= j < pseq.len() && r.lo_m() == (#[trigger] pseq[j]).lo_m();
                let j2 = choose|j: int|
                    0 <= j < pseq.len() && r.hi_m() == (#[trigger] pseq[j]).hi_m();
                assert((#[trigger] s[j1]).0 == r.lo_m());
                assert((#[trigger] s[j2]).1 == r.hi_m());
            }
            assert(cover_of(s, r.lo_m(), r.hi_m()));
            if x_is_nan(sl) || x_is_nan(rl) {
                assert(s.len() == 0);
                assert(pseq.len() == 0);
                assert(forall|j: int|
                    0 <= j < pseq.len() ==> x_is_nan((#[trigger] pseq[j]).lo_m()));
                assert(x_is_nan(r.lo_m()));
            }
            if !x_is_nan(sl) && x_is_zero(rl) && x_is_zero(rh) {
                assert(s =~= seq![(x_one(), x_one())]);
                assert(s[0] == (x_one(), x_one()));
                assert(pseq[0].lo_m() == x_one() && pseq[0].hi_m() == x_one());
                assert(!x_is_nan(pseq[0].lo_m()));
                assert(!x_is_nan(r.lo_m()));
                let j1 = choose|j: int|
                    0 <= j < pseq.len() && r.lo_m() == (#[trigger] pseq[j]).lo_m();
                let j2 = choose|j: int|
                    0 <= j < pseq.len() && r.hi_m() == (#[trigger] pseq[j]).hi_m();
                assert(r.lo_m() == x_one() && r.hi_m() == x_one());
            }
        }
        r
    }
}

impl<BOUND: Float> crate::transc::Transc for Interval<BOUND> {
    type Output = Self;

    /// `pow` needs both operands at one precision.
    open spec fn pow_compat(&self, rhs: &Self) -> bool {
        self.prec() == rhs.prec()
    }

    /// The unary operations accept any interval.
    open spec fn unary_ok(&self) -> bool {
        true
    }

    fn log(self) -> Self::Output {
        Interval::log(self)
    }

    fn exp(self) -> Self::Output {
        Interval::exp(self)
    }

    fn pow(self, rhs: Self) -> Self::Output {
        Interval::pow(self, rhs)
    }
}

/// Grammar whitespace: the characters trimmed around brackets and commas.
pub open spec fn is_ws_char(c: char) -> bool {
    c == ' ' || c == '\t' || c == '\n' || c == '\r'
}

/// Index after the run of `'<'` characters starting at `i`.
pub open spec fn skip_open(s: Seq<char>, i: int) -> int
    decreases s.len() - i,
{
    if 0 <= i < s.len() && s[i] == '<' {
        skip_open(s, i + 1)
    } else {
        i
    }
}

/// Index after the run of whitespace starting at `i`, within `[i, j)`.
pub open spec fn skip_ws(s: Seq<char>, i: int, j: int) -> int
    decreases j - i,
{
    if 0 <= i < j <= s.len() && is_ws_char(s[i]) {
        skip_ws(s, i + 1, j)
    } else {
        i
    }
}

/// Index before the run of `'>'` characters ending at `j`, within `(i, j]`.
pub open spec fn rskip_close(s: Seq<char>, i: int, j: int) -> int
    decreases j,
{
    if 0 <= i < j <= s.len() && s[j - 1] == '>' {
        rskip_close(s, i, j - 1)
    } else {
        j
    }
}

/// Index before the run of whitespace ending at `j`, within `(i, j]`.
pub open spec fn rskip_ws(s: Seq<char>, i: int, j: int) -> int
    decreases j,
{
    if 0 <= i < j <= s.len() && is_ws_char(s[j - 1]) {
        rskip_ws(s, i, j - 1)
    } else {
        j
    }
}

/// The number of commas in `s[i..j)`.
pub open spec fn comma_count(s: Seq<char>, i: int, j: int) -> int
    decreases j - i,
{
    if i < j && 0 <= i && j <= s.len() {
        (if s[i] == ',' {
            1int
        } else {
            0
        }) + comma_count(s, i + 1, j)
    } else {
        0
    }
}

/// The index of the first comma in `s[i..j)`, or `j` if there is none.
pub open spec fn first_comma(s: Seq<char>, i: int, j: int) -> int
    decreases j - i,
{
    if i < j && 0 <= i && j <= s.len() {
        if s[i] == ',' {
            i
        } else {
            first_comma(s, i + 1, j)
        }
    } else {
        j
    }
}

/// Extending a scan by one character adds that character's comma count.
proof fn lemma_comma_count_snoc(s: Seq<char>, i: int, k: int)
    requires
        0 <= i <= k < s.len(),
    ensures
        comma_count(s, i, k + 1) == comma_count(s, i, k) + (if s[k] == ',' {
            1int
        } else {
            0
        }),
    decreases k - i,
{
    if i == k {
        assert(comma_count(s, k + 1, k + 1) == 0);
    } else {
        lemma_comma_count_snoc(s, i + 1, k);
        assert(comma_count(s, i, k + 1) == (if s[i] == ',' {
            1int
        } else {
            0
        }) + comma_count(s, i + 1, k + 1));
        assert(comma_count(s, i, k) == (if s[i] == ',' {
            1int
        } else {
            0
        }) + comma_count(s, i + 1, k));
    }
}

/// Before the first comma is reached, the first comma of the rest is the
/// first comma of the whole range.
proof fn lemma_first_comma_step(s: Seq<char>, i: int, k: int, j: int)
    requires
        0 <= i <= k < j <= s.len(),
        s[k] != ',',
        first_comma(s, i, j) == first_comma(s, k, j),
    ensures
        first_comma(s, i, j) == first_comma(s, k + 1, j),
{
}

/// The exact textual form `Interval::display_string` produces from the
/// bound models `(lo, hi)` at precision `p`: the upper bound's own text for
/// a singleton or empty interval, else the two bounds' texts between
/// brackets; each bound text parses back, in either direction, to its
/// value.
pub open spec fn iv_display_rel<B: Float>(lo: Xv, hi: Xv, p: usize, out: Seq<char>) -> bool {
    if x_eq(lo, hi) || x_is_nan(lo) {
        &&& out.len() > 0
        &&& crate::fp::is_plain_str(out)
        &&& B::str_parses(out)
        &&& B::str_lo(out, p) == hi
        &&& B::str_hi(out, p) == hi
    } else {
        exists|ls: Seq<char>, hs: Seq<char>|
            {
                &&& crate::fp::is_plain_str(ls)
                &&& crate::fp::is_plain_str(hs)
                &&& ls.len() > 0
                &&& hs.len() > 0
                &&& B::str_parses(ls)
                &&& B::str_lo(ls, p) == lo
                &&& B::str_hi(ls, p) == lo
                &&& B::str_parses(hs)
                &&& B::str_lo(hs, p) == hi
                &&& B::str_hi(hs, p) == hi
                &&& out =~= seq!['<'] + ls + seq![',', ' '] + hs + seq!['>']
            }
    }
}

/// The outcome the interval grammar assigns to `s` at precision `p`:
/// either the two bound models of the parsed interval, or the error kind
/// among the five that the grammar distinguishes.
pub open spec fn iv_parse<B: Float>(s: Seq<char>, p: usize) -> Result<
    (Xv, Xv),
    ParseIntervalError,
> {
    if B::str_parses(s) {
        let lo = B::str_lo(s, p);
        let hi = B::str_hi(s, p);
        if !(lo is PInf && hi is PInf) && !(lo is NInf && hi is NInf) {
            Result::Ok((lo, hi))
        } else {
            Result::Err(ParseIntervalError::InvalidBounds)
        }
    } else if s.len() == 0 || s[0] != '<' {
        Result::Err(ParseIntervalError::MissingOpeningBracket)
    } else {
        let i = skip_ws(s, skip_open(s, 0), s.len() as int);
        if i == s.len() || s[s.len() - 1] != '>' {
            Result::Err(ParseIntervalError::MissingClosingBracket)
        } else {
            let j = rskip_ws(s, i, rskip_close(s, i, s.len() as int));
            if comma_count(s, i, j) != 1 {
                Result::Err(ParseIntervalError::InvalidNumberOfBounds)
            } else {
                let k = first_comma(s, i, j);
                let a = skip_ws(s, i, k);
                let b = rskip_ws(s, a, k);
                let c = skip_ws(s, k + 1, j);
                let d = rskip_ws(s, c, j);
                if B::str_parses(s.subrange(a, b)) && B::str_parses(s.subrange(c, d)) {
                    let lo = B::str_lo(s.subrange(a, b), p);
                    let hi = B::str_hi(s.subrange(c, d), p);
                    if (x_is_nan(lo) && x_is_nan(hi)) || (!x_is_nan(lo) && !x_is_nan(hi) && x_le(
                        lo,
                        hi,
                    )) {
                        if !(lo is PInf && hi is PInf) && !(lo is NInf && hi is NInf) {
                            Result::Ok((lo, hi))
                        } else {
                            Result::Err(ParseIntervalError::InvalidBounds)
                        }
                    } else {
                        Result::Err(ParseIntervalError::InvalidBounds)
                    }
                } else {
                    Result::Err(ParseIntervalError::BoundsParseError)
                }
            }
        }
    }
}

impl<BOUND: Float> Interval<BOUND> {
    /// Whether an exec character is grammar whitespace.
    pub(crate) fn is_ws(c: char) -> (r: bool)
        ensures
            r == is_ws_char(c),
    {
        c == ' ' || c == '\t' || c == '\n' || c == '\r'
    }

    /// Constructs an interval by parsing a string.
    ///
    /// Accepts `INTERVAL` according to the rule below, where `FLOAT` is the
    /// bound type's own syntax:
    ///
    /// ```text
    /// INTERVAL = FLOAT | '<' FLOAT ',' FLOAT '>'
    /// ```
    ///
    /// A bare `FLOAT` is parsed twice, rounding down for the lower bound and
    /// up for the upper; in the bracket form the left bound rounds down and
    /// the right one up. The contract pins the whole outcome to `iv_parse`:
    /// grammatical input is owed its interval, and each of the five error
    /// kinds comes exactly on the inputs `iv_parse` names. Bounds that parse
    /// but break the interval criteria (one-sided NaN, a lower bound above
    /// the upper, or both bounds one infinity) are rejected as
    /// `InvalidBounds` rather than constructed.
    pub fn from_str_with_prec(s: &str, precision: usize) -> (r: Result<
        Self,
        ParseIntervalError,
    >)
        requires
            precision >= 1,
        ensures
            r matches Ok(iv) ==> iv.prec() == precision && iv_parse::<BOUND>(s@, precision)
                == Result::<(Xv, Xv), ParseIntervalError>::Ok((iv.lo_m(), iv.hi_m())),
            r matches Err(e) ==> iv_parse::<BOUND>(s@, precision) == Result::<
                (Xv, Xv),
                ParseIntervalError,
            >::Err(e),
    {
        let lo_try = BOUND::from_str_lo(s, precision);
        let hi_try = BOUND::from_str_hi(s, precision);
        if let (Some(lo), Some(hi)) = (lo_try, hi_try) {
            if !(lo.is_infinity() && hi.is_infinity()) && !(lo.is_neg_infinity()
                && hi.is_neg_infinity()) {
                return Ok(Self::new(lo, hi));
            }
            return Err(ParseIntervalError::InvalidBounds);
        }
        let n = s.unicode_len();
        if n == 0 || s.get_char(0) != '<' {
            return Err(ParseIntervalError::MissingOpeningBracket);
        }
        let mut i: usize = 0;
        while i < n && s.get_char(i) == '<'
            invariant
                0 <= i <= n,
                n == s@.len(),
                skip_open(s@, 0) == skip_open(s@, i as int),
            decreases n - i,
        {
            i += 1;
        }
        while i < n && Self::is_ws(s.get_char(i))
            invariant
                0 <= i <= n,
                n == s@.len(),
                skip_ws(s@, skip_open(s@, 0), n as int) == skip_ws(s@, i as int, n as int),
            decreases n - i,
        {
            i += 1;
        }
        proof {
            assert(i as int == skip_ws(s@, skip_open(s@, 0), n as int));
        }
        if i == n || s.get_char(n - 1) != '>' {
            return Err(ParseIntervalError::MissingClosingBracket);
        }
        let mut j: usize = n;
        while j > i && s.get_char(j - 1) == '>'
            invariant
                i <= j <= n,
                i < n,
                n == s@.len(),
                rskip_close(s@, i as int, n as int) == rskip_close(s@, i as int, j as int),
            decreases j,
        {
            j -= 1;
        }
        let ghost jc = j as int;
        while j > i && Self::is_ws(s.get_char(j - 1))
            invariant
                i <= j <= n,
                n == s@.len(),
                rskip_ws(s@, i as int, jc) == rskip_ws(s@, i as int, j as int),
            decreases j,
        {
            j -= 1;
        }
        proof {
            assert(j as int == rskip_ws(s@, i as int, rskip_close(s@, i as int, n as int)));
        }
        // count the commas between the brackets and find the first
        let mut commas: usize = 0;
        let mut comma_at: usize = i;
        let mut k: usize = i;
        while k < j
            invariant
                i <= k <= j <= n,
                n == s@.len(),
                commas <= k,
                commas as int == comma_count(s@, i as int, k as int),
                commas == 0 ==> first_comma(s@, i as int, j as int) == first_comma(
                    s@,
                    k as int,
                    j as int,
                ),
                commas > 0 ==> i <= comma_at < k && comma_at as int == first_comma(
                    s@,
                    i as int,
                    j as int,
                ),
            decreases j - k,
        {
            proof {
                lemma_comma_count_snoc(s@, i as int, k as int);
            }
            if s.get_char(k) == ',' {
                if commas == 0 {
                    comma_at = k;
                }
                commas += 1;
            } else {
                proof {
                    if commas == 0 {
                        lemma_first_comma_step(s@, i as int, k as int, j as int);
                    }
                }
            }
            k += 1;
        }
        if commas != 1 {
            return Err(ParseIntervalError::InvalidNumberOfBounds);
        }
        // trim each part
        let ghost kk = comma_at as int;
        let mut a: usize = i;
        let mut b: usize = comma_at;
        while a < b && Self::is_ws(s.get_char(a))
            invariant
                i <= a <= b,
                b == comma_at,
                kk == comma_at as int,
                comma_at < j <= n,
                n == s@.len(),
                skip_ws(s@, i as int, kk) == skip_ws(s@, a as int, kk),
            decreases b - a,
        {
            a += 1;
        }
        proof {
            assert(a as int == skip_ws(s@, i as int, kk));
        }
        while b > a && Self::is_ws(s.get_char(b - 1))
            invariant
                a <= b <= comma_at,
                kk == comma_at as int,
                comma_at < j <= n,
                n == s@.len(),
                rskip_ws(s@, a as int, kk) == rskip_ws(s@, a as int, b as int),
            decreases b,
        {
            b -= 1;
        }
        let mut c: usize = comma_at + 1;
        let mut d: usize = j;
        while c < d && Self::is_ws(s.get_char(c))
            invariant
                comma_at < c <= d,
                d == j,
                kk == comma_at as int,
                j <= n,
                n == s@.len(),
                skip_ws(s@, kk + 1, j as int) == skip_ws(s@, c as int, j as int),
            decreases d - c,
        {
            c += 1;
        }
        proof {
            assert(c as int == skip_ws(s@, kk + 1, j as int));
        }
        while d > c && Self::is_ws(s.get_char(d - 1))
            invariant
                c <= d <= j,
                j <= n,
                n == s@.len(),
                rskip_ws(s@, c as int, j as int) == rskip_ws(s@, c as int, d as int),
            decreases d,
        {
            d -= 1;
        }
        let lo_s = s.substring_char(a, b);
        let hi_s = s.substring_char(c, d);
        let lo_try2 = BOUND::from_str_lo(lo_s, precision);
        let hi_try2 = BOUND::from_str_hi(hi_s, precision);
        if let (Some(lo), Some(hi)) = (lo_try2, hi_try2) {
            let both_nan = lo.is_nan() && hi.is_nan();
            let ordered = !lo.is_nan() && !hi.is_nan() && lo.le(&hi);
            if (both_nan || ordered) && !(lo.is_infinity() && hi.is_infinity()) && !(
            lo.is_neg_infinity() && hi.is_neg_infinity()) {
                Ok(Self::new(lo, hi))
            } else {
                Err(ParseIntervalError::InvalidBounds)
            }
        } else {
            Err(ParseIntervalError::BoundsParseError)
        }
    }

    /// The textual form of `self`: the upper bound alone for a singleton or
    /// NaN interval (the canonical shortest form), else `<lo, hi>`.
    pub fn display_string(&self) -> (r: String)
        ensures
            r@.len() > 0,
            iv_display_rel::<BOUND>(self.lo_m(), self.hi_m(), self.prec(), r@),
    {
        proof {
            use_type_invariant(self);
        }
        if self.is_singleton() || self.is_nan() {
            // `lo` may print as -0, so the upper bound is preferred.
            let r = self.hi.to_str();
            proof {
                assert(r@.len() > 0);
            }
            r
        } else {
            let ls = self.lo.to_str();
            let hs = self.hi.to_str();
            let mut out = String::new();
            out.append("<");
            out.append(ls.as_str());
            out.append(", ");
            out.append(hs.as_str());
            out.append(">");
            proof {
                reveal_strlit("<");
                reveal_strlit(", ");
                reveal_strlit(">");
                assert(out@ =~= seq!['<'] + ls@ + seq![',', ' '] + hs@ + seq!['>']);
            }
            out
        }
    }
}

impl<BOUND: Float> core::str::FromStr for Interval<BOUND> {
    type Err = ParseIntervalError;

    /// Parses at the default precision of 53 bits.
    fn from_str(s: &str) -> Result<Self, Self::Err> {
        Self::from_str_with_prec(s, 53)
    }
}

impl<BOUND: Float> PartialEq for Interval<BOUND> {
    /// Two intervals are equal when both are empty, or when their bounds
    /// hold equal values; an empty interval equals another empty one even
    /// though NaN bounds compare false.
    fn eq(&self, rhs: &Self) -> (r: bool) {
        (self.is_nan() && rhs.is_nan()) || (self.lo.eq_val(&rhs.lo) && self.hi.eq_val(&rhs.hi))
    }
}

impl<BOUND: Float> vstd::std_specs::cmp::PartialEqSpecImpl for Interval<BOUND> {
    open spec fn obeys_eq_spec() -> bool {
        true
    }

    open spec fn eq_spec(&self, rhs: &Self) -> bool {
        (x_is_nan(self.lo_m()) && x_is_nan(rhs.lo_m())) || (x_eq(self.lo_m(), rhs.lo_m()) && x_eq(
            self.hi_m(),
            rhs.hi_m(),
        ))
    }
}

impl<BOUND: Float> PartialOrd for Interval<BOUND> {
    /// One interval is greater than another when it lies entirely to the
    /// right of it, and less when entirely to the left; overlapping or
    /// empty intervals are incomparable.
    fn partial_cmp(&self, rhs: &Self) -> (r: Option<core::cmp::Ordering>) {
        if rhs.hi.lt(&self.lo) {
            Some(core::cmp::Ordering::Greater)
        } else if self.hi.lt(&rhs.lo) {
            Some(core::cmp::Ordering::Less)
        } else {
            None
        }
    }
}

impl<BOUND: Float> vstd::std_specs::cmp::PartialOrdSpecImpl for Interval<BOUND> {
    open spec fn obeys_partial_cmp_spec() -> bool {
        true
    }

    open spec fn partial_cmp_spec(&self, rhs: &Self) -> Option<core::cmp::Ordering> {
        if x_lt(rhs.hi_m(), self.lo_m()) {
            Option::Some(core::cmp::Ordering::Greater)
        } else if x_lt(self.hi_m(), rhs.lo_m()) {
            Option::Some(core::cmp::Ordering::Less)
        } else {
            Option::None
        }
    }
}

} // verus!
