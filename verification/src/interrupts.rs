//! The register backup an exception wrapper builds, and the check a thread
//! runs on its way back to userspace.

use vstd::prelude::*;

verus! {

/// Represents a register backup.
///
/// The exception wrapper constructs this structure before calling the
/// exception handler, and saves it to the thread's bookkeeping for debug
/// purposes. When the handler returns, the wrapper pops it before
/// returning to userspace, which gives the handler precise control over
/// the register state it resumes with.
#[derive(Debug, Clone, Copy, PartialEq, Eq, Structural, Default)]
pub struct UserspaceHardwareContext {
    pub esp: usize,
    pub ebp: usize,
    pub edi: usize,
    pub esi: usize,
    pub edx: usize,
    pub ecx: usize,
    pub ebx: usize,
    pub eax: usize,
    pub errcode: usize,
    pub eip: usize,
    pub cs: usize,
    pub eflags: usize,
}

/// The scheduling states a thread can be observed in when it is about to
/// leave the kernel.
#[derive(Debug, Clone, Copy, PartialEq, Eq, Structural)]
pub enum ThreadState {
    Running,
    Stopped,
    Killed,
}

/// Checks if the current thread was killed, in which case it must
/// unschedule itself for good instead of returning to userspace: the
/// caller loops on unscheduling as long as this answers true, which also
/// absorbs spurious wakeups. The caller reads the thread's state word and
/// passes it in.
pub fn check_thread_killed(state: ThreadState) -> (r: bool)
    ensures
        r == (state is Killed),
{
    matches!(state, ThreadState::Killed)
}

} // verus!
