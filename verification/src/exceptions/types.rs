//! The [`TrapFrame`] — the register snapshot saved at exception entry and
//! restored on `eret`.

use vstd::prelude::*;

use crate::arch::mm::VirtAddr;
use crate::arch::reg::Spsr;

verus! {

/// CPU snapshot saved at exception entry and restored on `eret`. Handlers
/// may modify any field; changes take effect when control returns to the
/// interrupted code. The layout mirrors the entry trampoline's stores, so
/// the offsets below move together with it.
#[derive(Debug, Clone, Copy)]
pub struct TrapFrame {
    /// General-purpose registers `x0..x30`.
    pub x: [u64; 31],
    /// EL0 stack pointer; meaningful only for exceptions from EL0.
    pub sp_el0: u64,
    /// Return address for `eret`.
    pub elr_el1: u64,
    /// Saved `PSTATE`.
    pub spsr_el1: u64,
}

/// Byte offset of `x[0]` in the frame.
pub const X_OFFSET: usize = 0;

/// Byte offset of `sp_el0`.
pub const SP_EL0_OFFSET: usize = 248;

/// Byte offset of `elr_el1`.
pub const ELR_OFFSET: usize = 256;

/// Byte offset of `spsr_el1`.
pub const SPSR_OFFSET: usize = 264;

/// Bytes the trampoline reserves for a frame (16-byte aligned).
pub const SIZE: usize = 272;

/// The offsets tile the frame: 31 eight-byte registers, then the three
/// special registers in order, ending at `SIZE`, which keeps the stack
/// 16-byte aligned.
pub proof fn lemma_frame_offsets_tile()
    ensures
        X_OFFSET + 31 * 8 == SP_EL0_OFFSET,
        SP_EL0_OFFSET + 8 == ELR_OFFSET,
        ELR_OFFSET + 8 == SPSR_OFFSET,
        SPSR_OFFSET + 8 == SIZE,
        SIZE % 16 == 0,
{
}

impl TrapFrame {
    /// PC the interrupted code resumes at, as a virtual address.
    pub fn elr(&self) -> (r: VirtAddr)
        ensures
            r@ == self.elr_el1,
    {
        VirtAddr::from_u64(self.elr_el1)
    }

    /// EL0 stack pointer at the time of the exception.
    pub fn user_sp(&self) -> (r: VirtAddr)
        ensures
            r@ == self.sp_el0,
    {
        VirtAddr::from_u64(self.sp_el0)
    }

    /// Saved `PSTATE` at the moment of the exception.
    pub fn spsr(&self) -> (r: Spsr)
        ensures
            r@ == self.spsr_el1,
    {
        Spsr::from_raw(self.spsr_el1)
    }
}

} // verus!
