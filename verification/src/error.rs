//! The error conditions a field definition or a field operation can report.

use vstd::prelude::*;

verus! {

/// Why a field definition request or a field operation was rejected.
#[derive(Clone, Copy, Debug, PartialEq, Eq, Structural)]
pub enum FieldError {
    /// The requested degree p is 0 or above the supported maximum of 16.
    DegreeOutOfRange,
    /// The supplied modulus polynomial does not have degree exactly p.
    ModulusDegreeMismatch,
    /// The supplied modulus polynomial is not irreducible.
    ModulusNotIrreducible,
    /// The supplied generator does not generate the whole multiplicative group.
    GeneratorNotPrimitive,
    /// An automatic search scanned its whole candidate range without a match.
    /// A match always exists, so this reports an internal defect, not a
    /// legitimate configuration.
    SearchExhausted,
    /// Division by the zero element of the field.
    DivisionByZero,
}

} // verus!
