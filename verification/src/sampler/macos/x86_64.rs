//! Register state of an x86_64 thread, as `thread_get_state` returns it.

use vstd::prelude::*;

verus! {

/// `thread_get_state` flavor of `x86_thread_state64_t`.
pub const THREAD_STATE_FLAVOR: i32 = 4;
/// Size of `x86_thread_state64_t` in 32-bit words.
pub const THREAD_STATE_COUNT: u32 = 42;

/// `x86_thread_state64_t`.
#[derive(Debug, Clone, Copy)]
pub struct ThreadState {
    pub rax: u64,
    pub rbx: u64,
    pub rcx: u64,
    pub rdx: u64,
    pub rdi: u64,
    pub rsi: u64,
    /// frame pointer
    pub rbp: u64,
    pub rsp: u64,
    pub r8: u64,
    pub r9: u64,
    pub r10: u64,
    pub r11: u64,
    pub r12: u64,
    pub r13: u64,
    pub r14: u64,
    pub r15: u64,
    pub rip: u64,
    pub rflags: u64,
    pub cs: u64,
    pub fs: u64,
    pub gs: u64,
}

/// Addresses on x86_64 carry no pointer authentication code.
pub fn strip_pac(addr: u64) -> (r: u64)
    ensures
        r == addr,
{
    addr
}

} // verus!
