//! What can go wrong: a line that is no record, and a count that no longer
//! fits.

use vstd::prelude::*;

verus! {

/// Why a line is no record.
#[derive(Clone, Copy, Debug, PartialEq, Eq, Structural)]
pub enum RecordFault {
    /// The line holds no separator.
    MissingSeparator,
    /// The key is not valid UTF-8.
    InvalidKey,
    /// The value does not match `[-]digits.digit`.
    InvalidValue,
    /// The value matches the grammar but its tenths do not fit in an `i64`.
    ValueOutOfRange,
}

/// A line that is no record: the offset at which the line starts, and why
/// it is rejected.
#[derive(Clone, Copy, Debug, PartialEq, Eq, Structural)]
pub struct ChunkError {
    pub offset: usize,
    pub fault: RecordFault,
}

/// The count of some key would no longer fit in a `u64`.
#[derive(Clone, Copy, Debug, PartialEq, Eq, Structural)]
pub struct CountOverflow;

} // verus!
