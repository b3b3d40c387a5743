//! Logical and hardware CPU identities.

use vstd::prelude::*;

verus! {

/// Logical CPU index, used to address per-CPU arrays (stacks, data, boot
/// info). Index 0 is the boot CPU; secondaries are numbered in bring-up
/// order, independent of their MPIDR.
#[derive(Debug, Copy, Clone, PartialEq, Eq, Structural)]
pub struct CpuId(u32);

impl View for CpuId {
    type V = u32;

    closed spec fn view(&self) -> u32 {
        self.0
    }
}

impl CpuId {
    /// The boot CPU.
    pub fn primary() -> (r: Self)
        ensures
            r@ == 0,
    {
        Self(0)
    }

    pub fn new(idx: u32) -> (r: Self)
        ensures
            r@ == idx,
    {
        Self(idx)
    }

    pub fn raw(self) -> (r: u32)
        ensures
            r == self@,
    {
        self.0
    }

    /// Two identities are equal exactly when their numbers are.
    pub proof fn lemma_view_injective(a: Self, b: Self)
        ensures
            a@ == b@ <==> a == b,
    {
    }

    pub fn as_usize(self) -> (r: usize)
        ensures
            r == self@,
    {
        self.0 as usize
    }
}

/// Affinity bits kept from `MPIDR_EL1`: AFF0..AFF2 in bits 23:0 and AFF3 in
/// bits 39:32. The MT and U flags, the RES1 bit and the reserved bits are
/// cleared.
pub const MPIDR_MASK: u64 = 0xFF_00FF_FFFF;

/// Multiprocessor Affinity Register value identifying a physical CPU. Only
/// the affinity bits are kept, so that the register value of a CPU compares
/// equal to its device-tree `reg`.
#[derive(Debug, Copy, Clone, PartialEq, Eq, Structural)]
pub struct Mpidr(u64);

impl View for Mpidr {
    type V = u64;

    closed spec fn view(&self) -> u64 {
        self.0
    }
}

impl Mpidr {
    /// Keep the affinity bits of a raw register value.
    pub fn new(raw: u64) -> (r: Self)
        ensures
            r@ == raw & MPIDR_MASK,
            r@ <= MPIDR_MASK,
    {
        assert(raw & 0xFF_00FF_FFFFu64 <= 0xFF_00FF_FFFFu64) by (bit_vector);
        Self(raw & MPIDR_MASK)
    }

    pub fn raw(self) -> (r: u64)
        ensures
            r == self@,
    {
        self.0
    }

    /// Two identities are equal exactly when their affinity values are.
    pub proof fn lemma_view_injective(a: Self, b: Self)
        ensures
            a@ == b@ <==> a == b,
    {
    }

    /// Two register values give the same identity exactly when all four
    /// affinity fields (AFF0..AFF2 in bits 23:0, AFF3 in bits 39:32) agree:
    /// the MT, U and reserved bits play no part.
    pub proof fn lemma_same_affinity(x: u64, y: u64)
        ensures
            (x & MPIDR_MASK == y & MPIDR_MASK) <==> ((x & 0xFF_FFFF) == (y & 0xFF_FFFF) && ((x
                >> 32u64) & 0xFF) == ((y >> 32u64) & 0xFF)),
    {
        assert((x & 0xFF_00FF_FFFFu64 == y & 0xFF_00FF_FFFFu64) <==> ((x & 0xFF_FFFFu64) == (y
            & 0xFF_FFFFu64) && ((x >> 32u64) & 0xFFu64) == ((y >> 32u64) & 0xFFu64)))
            by (bit_vector);
    }
}

/// Masking is idempotent: re-reading an identity keeps it.
pub proof fn lemma_mpidr_mask_idempotent(raw: u64)
    ensures
        (raw & MPIDR_MASK) & MPIDR_MASK == raw & MPIDR_MASK,
{
    assert((raw & 0xFF_00FF_FFFFu64) & 0xFF_00FF_FFFFu64 == raw & 0xFF_00FF_FFFFu64)
        by (bit_vector);
}

} // verus!
