//! The failures that building or querying a classifier can report.

use vstd::prelude::*;

verus! {

/// What can go wrong when a population table or a classifier is built, or
/// when a classifier is asked about a code.
#[derive(Debug, Clone, Copy, PartialEq, Eq, Structural)]
pub enum ChunkError {
    /// The text could not be decoded into rows of a code and a population.
    Csv,
    /// A row's code is not made of exactly `CODE_LENGTH` decimal digits.
    InvalidRow,
    /// The populations of all rows together do not fit in a `u64`.
    PopulationOverflow,
    /// One single code holds more people than the target, so that no chunk
    /// could take it.
    CodeExceedsTarget,
    /// The code asked about has fewer than `CODE_LENGTH` characters.
    InvalidCode,
}

/// The error type of the `csv` crate. Nothing is read out of such a value:
/// it only tells that decoding failed.
#[verifier::external_type_specification]
#[verifier::external_body]
pub struct ExCsvError(csv::Error);

} // verus!
