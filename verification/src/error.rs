use vstd::prelude::*;

verus! {

/// Error kinds surfaced by the memory subsystem and the kernel.
#[derive(Copy, Clone, Debug, PartialEq, Eq, Structural)]
pub enum VmError {
    /// A malformed argument: zero pages requested, or a physical range
    /// that does not fit the arena.
    InvalidInput,
    /// Not enough free physical pages to satisfy an allocation.
    OutOfMemory,
    /// A virtual address at or beyond the end of a process's address space.
    OutOfRange,
    /// A write or a program image larger than the allowed maximum.
    TooLarge,
    /// An unknown pid.
    NotFound,
}

} // verus!
