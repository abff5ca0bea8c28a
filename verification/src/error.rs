//! Error kinds surfaced by the engine.
//!
//! A malformed record names what was missing; a full table is a
//! configuration defect; I/O and worker failures are reported by the
//! unverified shell through the same type.

use vstd::prelude::*;

verus! {

/// What went wrong.
#[derive(Clone, Copy, Debug, PartialEq, Eq, Structural)]
pub enum BarseErrorKind {
    /// Opening or mapping the input failed.
    Io,
    /// No key/value delimiter within the longest legal key.
    MissingDelimiter,
    /// No record terminator within the longest legal numeric token.
    MissingTerminator,
    /// An empty key, or a value outside the numeric grammar.
    MalformedRecord,
    /// No free slot was left while probing: the table was sized below the
    /// number of distinct keys.
    TableFull,
    /// A parallel worker terminated abnormally.
    WorkerFailure,
}

/// An error of the engine, carrying its kind.
#[derive(Clone, Copy, Debug, PartialEq, Eq, Structural)]
pub struct BarseError {
    pub kind: BarseErrorKind,
}

impl BarseError {
    pub fn new(kind: BarseErrorKind) -> (r: Self)
        ensures
            r.kind == kind,
    {
        BarseError { kind }
    }
}

pub type BarseResult<T> = Result<T, BarseError>;

} // verus!
