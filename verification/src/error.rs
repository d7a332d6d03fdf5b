//! The library's error type.

use vstd::prelude::*;

verus! {

/// Cause of a failed sink write.
#[derive(Clone, Copy, Debug, PartialEq, Eq, Structural)]
pub enum IoKind {
    /// The consumer of the output went away.
    BrokenPipe,
    /// Any other write failure.
    Other,
}

/// Everything that can go wrong while importing or rendering.
#[derive(Debug, PartialEq, Eq)]
pub enum Error {
    /// A bare message.
    Msg(String),
    /// No data source was named on the command line or in the environment.
    NoSourceOfData,
    /// An invalid date was read, or a range is inverted or out of bounds.
    WrongDate,
    /// A requested year has no entry in the store.
    NoData,
    /// Underlying storage failure, described in prose.
    DataBaseError(String),
    /// A year string did not parse as an integer.
    ParseIntError,
    /// In-memory text assembly failed.
    FmtError,
    /// A sink write failed.
    IoError(IoKind),
    /// A date string did not parse.
    ParseDateError,
}

} // verus!
