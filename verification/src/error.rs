//! The ways an operation of this library can decline to produce a value.

use vstd::prelude::*;

verus! {

/// Why an operation returned no value.
#[derive(Clone, Copy, Debug, PartialEq, Eq, Structural)]
pub enum AlgebraError {
    /// An exact intermediate or final fraction does not fit in 64-bit parts.
    Overflow,
    /// A reciprocal or quotient by an exact zero was asked for.
    DivisionByZero,
    /// The operation is defined, but not for this input (roots above degree two,
    /// a power whose exact value is not a fraction).
    UnsupportedOperation,
    /// The value lacks what the operation reads (a polynomial without terms).
    InvalidState,
}

} // verus!
