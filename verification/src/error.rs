//! The failure taxonomy of the archive engine.

use vstd::prelude::*;

verus! {

/// Why a path was rejected.
#[derive(Debug, PartialEq, Eq, Structural, Clone, Copy)]
pub enum RelativePathError {
    /// The path contains an illegal character or is not valid text.
    Invalid,
    /// The path reduces to zero components.
    Empty,
}

/// A failure of the archive engine.  There is no local recovery: a single
/// failure aborts the whole encode or decode.
#[derive(Debug, PartialEq, Eq, Structural, Clone, Copy)]
pub enum Error {
    /// The input ended inside a record, or an underlying stream failed.
    Io,
    /// An authenticated-encryption seal or open failed; on decode this is
    /// indistinguishable from a wrong password, by design.
    Aes,
    /// A malformed or truncated entry record.
    Entry,
    /// A stored path failed validation.
    Path(RelativePathError),
}

} // verus!
