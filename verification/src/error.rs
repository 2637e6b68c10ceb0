//! The failures the library reports as values.

use vstd::prelude::*;

verus! {

/// Why an operation could not produce a result.
#[derive(Clone, Copy, Debug, PartialEq, Eq, Structural)]
pub enum SumcheckError {
    /// The evaluation table's length is not a power of two.
    TableNotPowerOfTwo,
    /// The number of variables asked for is not the table's dimension.
    DimensionMismatch,
    /// The modulus offered for a field is not prime.
    ModulusNotPrime,
    /// The inverse of zero was asked for.
    DivisionByZero,
    /// The claimed sum is not the sum of the table.
    SumMismatch,
}

} // verus!
