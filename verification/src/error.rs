use vstd::prelude::*;

verus! {

/// Errors of the storage layer.
#[derive(Clone, Copy, PartialEq, Eq, Structural, Debug)]
pub enum IoError {
    /// The storage refuses modification.
    ReadOnly,
}

/// Errors of the filesystem core.
#[derive(Clone, Copy, PartialEq, Eq, Structural, Debug)]
pub enum FsError {
    /// A documented on-disk invariant is violated: an unsupported sector or
    /// cluster size, a bad table count, a misaligned region boundary, or a
    /// malformed long-name fragment sequence.
    Inconsistent,
    /// A caller-supplied slot index does not designate the expected kind of
    /// directory entry.
    Index,
}

/// The error taxonomy shared by every operation: an unimplemented operation
/// or volume variant, a storage-layer failure passed through unmodified, or
/// a filesystem-level condition.
#[derive(Clone, Copy, PartialEq, Eq, Structural, Debug)]
pub enum Error {
    Unimplemented,
    Io(IoError),
    Fs(FsError),
}

} // verus!
