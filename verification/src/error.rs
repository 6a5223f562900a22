//! The error taxonomy surfaced to callers of the store.

use vstd::prelude::*;

verus! {

/// Everything a database operation can fail with.
///
/// - `Encode`: a record body could not be built.
/// - `Decode`: a record body could not be parsed back.
/// - `Io`: an underlying filesystem operation failed (reported by the host).
/// - `CorruptedFile`: a structural invariant of the log is violated — a
///   frame length above the record-size cap, a truncated frame, or an
///   unrecognized action tag.
/// - `InvalidPath`: the supplied directory path is not a directory.
/// - `Other`: an infrastructural failure, such as exhaustion of the
///   segment-name counter.
#[derive(Clone, Copy, Debug, PartialEq, Eq, Structural)]
pub enum DBError {
    Encode,
    Decode,
    Io,
    CorruptedFile,
    InvalidPath,
    Other,
}

} // verus!
