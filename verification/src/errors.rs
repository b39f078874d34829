//! Typed failures of memory access and of the single-step transition.

use vstd::prelude::*;

verus! {

/// Every failure the memory subsystem or the step transition can report.
/// None of them mutates state: an operation either fully applies or reports
/// one of these and leaves everything as it was.
#[derive(Clone, Copy, Debug, PartialEq, Eq, Structural)]
pub enum VmError {
    /// An address or range beyond the configured address space, or beyond a
    /// page's bounds.
    OutOfBounds,
    /// An access that the instruction set requires to be naturally aligned
    /// was not.
    UnalignedAccess,
    /// An instruction bit pattern with no defined semantics.
    DecodeFailure,
    /// A step requested on a machine that has already exited.
    AlreadyExited,
}

} // verus!
