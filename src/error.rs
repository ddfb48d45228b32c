use vstd::prelude::*;

verus! {

/// The ways in which an operation of this library can refuse its input.
#[derive(Clone, Copy, Debug, PartialEq, Eq, Structural)]
pub enum OrthoError {
    /// The dimension is zero or odd.
    InvalidDimension,
    /// An index lies past the end of its range.
    IndexOutOfRange,
    /// Two vectors that must have one length have different lengths.
    LengthMismatch,
    /// A vector has the wrong parity.
    ParityMismatch,
    /// Division by the zero element of the field.
    DivisionByZero,
}

} // verus!
