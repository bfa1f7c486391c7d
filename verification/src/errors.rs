//! The error kinds that archive operations report.

use vstd::prelude::*;

verus! {

/// Everything that can go wrong while writing to or reading from an archive.
#[derive(Clone, Copy, Debug, PartialEq, Eq, Structural)]
pub enum ArchiveError {
    /// A filesystem or stream failure.  The library itself performs no I/O;
    /// this kind is reported by callers that read or write archive bytes.
    IoError,
    /// A malformed or truncated serialized record.
    FormatError,
    /// An absolute path, or a path already appended in the same commit.
    PathError,
    /// A version index beyond the loaded version sequence.
    IndexOutOfRange,
    /// The requested path is absent from the requested version.
    NotFound,
    /// A patch failed to apply, or a patch chain has no snapshot anchor.
    ReconstructionError,
}

} // verus!
