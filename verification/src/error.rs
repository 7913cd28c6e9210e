//! What can go wrong.

use vstd::prelude::*;

verus! {

/// The kinds of failure that the daemon tells apart.
#[derive(Debug, Clone, Copy, PartialEq, Eq, Structural)]
pub enum ErrorKind {
    /// A request names a process that cannot be inspected, a window that
    /// is not aligned to pages, a process that is registered already, or one
    /// that is not registered.
    PreconditionFailed,
    /// The kernel's control files are missing or cannot be written.
    KernelUnavailable,
    /// Reading or writing a kernel file failed.
    KernelIoError,
    /// A kernel file held fewer bytes than were asked for, or an address
    /// that does not fit in 64 bits.
    PagemapMalformed,
    /// The merge index did not hold a page that it was told to remove, or
    /// a job was handed an answer to a question that it had not asked.
    InvariantViolation,
}

} // verus!
