//! Register state of an arm64 thread, as `thread_get_state` returns it.

use vstd::prelude::*;

verus! {

/// `thread_get_state` flavor of `arm_thread_state64_t`.
pub const THREAD_STATE_FLAVOR: i32 = 6;
/// Size of `arm_thread_state64_t` in 32-bit words.
pub const THREAD_STATE_COUNT: u32 = 68;

/// `arm_thread_state64_t`.
#[derive(Debug, Clone, Copy)]
pub struct ThreadState {
    /// x0–x28
    pub x: [u64; 29],
    /// x29 (frame pointer)
    pub fp: u64,
    /// x30 (link register)
    pub lr: u64,
    pub sp: u64,
    pub pc: u64,
    pub cpsr: u32,
    pub pad: u32,
}

/// Strips pointer authentication codes from an address on Apple Silicon:
/// the virtual address space uses at most 39 bits.
pub fn strip_pac(addr: u64) -> (r: u64)
    ensures
        r == addr & 0x0000_007F_FFFF_FFFF,
        r == addr % 0x80_0000_0000,
{
    assert(addr & 0x0000_007F_FFFF_FFFF == addr % 0x80_0000_0000) by (bit_vector);
    addr & 0x0000_007F_FFFF_FFFF
}

} // verus!
