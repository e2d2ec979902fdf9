//! Interval arithmetic with correct rounding.
//!
//! This crate implements elementary arithmetic (addition, subtraction,
//! multiplication and division) as well as logarithm, exponential and power
//! over intervals and interval sets. Bounds of the returned values are always
//! rounded down or up as their side demands, so that every possible exact
//! result is contained. The scalar bound type is a type parameter; its
//! contract lives in `fp`, and verified soundness of the interval operations
//! rests on that contract alone.

/// Mathematical model of scalar values: dyadic rationals, infinities, NaN.
pub mod model;

/// Finite precision module: the directed-rounding scalar bound contract.
pub mod fp;

/// Interval module: the `Interval` struct over a bound type.
pub mod interval;

/// Transcendental trait module: `log`, `exp` and `pow`.
pub mod transc;

/// Interval set module: normalized unions of non-overlapping intervals.
pub mod intervalset;

pub use interval::{Interval, ParseIntervalError, SignClass};
pub use intervalset::{IntervalSet, ParseIntervalSetError};
