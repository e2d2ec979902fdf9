//! Trait for transcendental functions over intervals and interval sets.

use vstd::prelude::*;

verus! {

/// Transcendental functions: natural logarithm, natural exponential, and
/// power.
pub trait Transc: Sized {
    /// Output type.
    type Output;

    /// When `self` and `rhs` are compatible operands for `pow` (for interval
    /// types: both sides carry the same precision).
    spec fn pow_compat(&self, rhs: &Self) -> bool;

    /// When `self` is an acceptable operand for the unary operations (for
    /// interval sets: all members carry one precision).
    spec fn unary_ok(&self) -> bool;

    /// Computes the natural logarithm of `self`.
    fn log(self) -> Self::Output
        requires
            self.unary_ok(),
    ;

    /// Computes the natural exponential of `self`.
    fn exp(self) -> Self::Output
        requires
            self.unary_ok(),
    ;

    /// Computes `self` raised to the power `rhs`.
    fn pow(self, rhs: Self) -> Self::Output
        requires
            self.pow_compat(&rhs),
    ;
}

} // verus!
