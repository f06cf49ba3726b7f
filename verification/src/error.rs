//! Error taxonomy for the fixed-point engine.

use vstd::prelude::*;

verus! {

/// Failure modes of the arithmetic engine. Every operation reports failure
/// explicitly instead of panicking or wrapping, so the caller decides the
/// consequence.
#[derive(Clone, Copy, Debug, PartialEq, Eq, Structural)]
pub enum MathError {
    /// An arithmetic result exceeds the backing integer's representable range.
    Overflow,
    /// A subtraction would produce a negative value, which the non-negative
    /// number type cannot hold.
    Underflow,
    /// An explicit zero divisor in general arithmetic.
    DivisionByZero,
    /// Narrowing a fixed-point value to an integer lost required range.
    Unrepresentable,
}

} // verus!
