//! The error kinds the engine distinguishes.

use vstd::prelude::*;

verus! {

/// Why an operation was refused or failed.
#[derive(Clone, Copy, Debug, PartialEq, Eq, Structural)]
pub enum IndexError {
    /// A dimension mismatch, a non-positive dimension or count, or an
    /// unrecognised metric name.
    InvalidArgument,
    /// A named index is absent, or a node id is out of range.
    NotFound,
    /// Creating an index under a name that is already bound.
    AlreadyExists,
    /// A mutating operation on a disk-backed, read-only index.
    ReadOnly,
    /// A serialized index that is too short, has a bad magic, an
    /// unsupported version, or inconsistent contents.
    MalformedInput,
    /// An underlying read, write or open failure, reported by the caller
    /// that performed the transfer.
    Io,
    /// A violated internal engine invariant; reported rather than crashing.
    EngineInternal,
}

} // verus!
