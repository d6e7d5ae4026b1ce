//! Kernelino: a user-space simulator of operating-system internals.
//!
//! The crate models three cooperating components: a virtual memory manager
//! (a fixed frame pool behind a page table), a virtual file system (a
//! directory tree whose file contents live only in memory-manager frames),
//! and a virtual process manager (process identities with monotonically
//! assigned pids and a tick counter).

use vstd::prelude::*;

pub mod utils;
pub mod vfs;
pub mod vmm;
pub mod vpm;

verus! {

/// The failure taxonomy shared by every component.
///
/// `ResourceExhausted` and `InvariantViolation` replace conditions that would
/// otherwise abort the whole simulator; the remaining variants describe
/// recoverable conditions that callers treat as logged no-ops.
#[derive(Clone, Copy, Debug, PartialEq, Eq, Structural)]
pub enum KernelError {
    /// No free frame (or no fresh virtual address) is left to allocate.
    ResourceExhausted,
    /// A page-table entry or frame content that should exist is missing.
    InvariantViolation,
    /// A path, file or directory lookup missed.
    NotFound,
    /// A file or directory of that name already exists.
    Conflict,
    /// A reserved name or an operation that the component refuses.
    Unsupported,
}

} // verus!
