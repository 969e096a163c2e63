use vstd::prelude::*;

verus! {

/// What a syscall handler (or one interpreter step) came to, as the
/// scheduler sees it.
#[derive(Copy, Clone, Debug, PartialEq, Eq, Structural)]
pub enum SyscallOutcome {
    Completed,
    Blocked,
    Yielded,
}

} // verus!
