//! The address vocabulary ([`PhysAddr`], [`VirtAddr`]) and the translation
//! [`Level`].

use vstd::prelude::*;

verus! {

/// Physical address. A thin wrapper around `usize` to keep physical and
/// virtual addresses from being mixed up at call sites.
#[derive(Debug, Copy, Clone, PartialEq, Eq, Structural)]
pub struct PhysAddr(u64);

impl View for PhysAddr {
    type V = u64;

    closed spec fn view(&self) -> u64 {
        self.0
    }
}

impl PhysAddr {
    pub fn new(raw: usize) -> (r: Self)
        ensures
            r@ == raw,
    {
        Self(raw as u64)
    }

    /// Wrap a 64-bit address (the width of `usize` on the target).
    pub fn from_u64(raw: u64) -> (r: Self)
        ensures
            r@ == raw,
    {
        Self(raw)
    }

    pub fn as_usize(self) -> (r: usize)
        ensures
            r == self@ as usize,
    {
        self.0 as usize
    }

    pub fn as_u64(self) -> (r: u64)
        ensures
            r == self@,
    {
        self.0
    }

    /// Two addresses are equal exactly when their raw values are.
    pub proof fn lemma_view_injective(a: Self, b: Self)
        ensures
            a@ == b@ <==> a == b,
    {
    }
}

/// Virtual address. Paired with [`PhysAddr`]; the newtype lets functions
/// declare which kind of address they want.
#[derive(Debug, Copy, Clone, PartialEq, Eq, Structural)]
pub struct VirtAddr(u64);

impl View for VirtAddr {
    type V = u64;

    closed spec fn view(&self) -> u64 {
        self.0
    }
}

impl VirtAddr {
    pub fn new(raw: usize) -> (r: Self)
        ensures
            r@ == raw,
    {
        Self(raw as u64)
    }

    /// Wrap a 64-bit address (the width of `usize` on the target).
    pub fn from_u64(raw: u64) -> (r: Self)
        ensures
            r@ == raw,
    {
        Self(raw)
    }

    pub fn as_usize(self) -> (r: usize)
        ensures
            r == self@ as usize,
    {
        self.0 as usize
    }

    pub fn as_u64(self) -> (r: u64)
        ensures
            r == self@,
    {
        self.0
    }

    /// Two addresses are equal exactly when their raw values are.
    pub proof fn lemma_view_injective(a: Self, b: Self)
        ensures
            a@ == b@ <==> a == b,
    {
    }
}

/// Where a translation table sits in the 4-level hierarchy.
///
/// Each level consumes 9 bits of the virtual address and either points at
/// the next level via a table entry or terminates the walk with a block
/// (L1, L2) or page (L3).
#[derive(Debug, Copy, Clone, PartialEq, Eq, Structural)]
pub enum Level {
    L0,
    L1,
    L2,
    L3,
}

/// Bit position of a level's 9-bit index inside a virtual address.
pub open spec fn level_shift(l: Level) -> u64 {
    match l {
        Level::L0 => 39,
        Level::L1 => 30,
        Level::L2 => 21,
        Level::L3 => 12,
    }
}

/// The numeric depth of a level (0 for the root).
pub open spec fn level_depth(l: Level) -> nat {
    match l {
        Level::L0 => 0,
        Level::L1 => 1,
        Level::L2 => 2,
        Level::L3 => 3,
    }
}

/// The 9-bit slice of `va` that a walk consumes at a level.
pub open spec fn va_index(va: u64, shift: u64) -> u64 {
    (va >> shift) & 0x1FF
}

impl Level {
    /// Bit position of this level's 9-bit index inside a virtual address.
    pub fn index_shift(self) -> (r: u64)
        ensures
            r == level_shift(self),
    {
        match self {
            Level::L0 => 39,
            Level::L1 => 30,
            Level::L2 => 21,
            Level::L3 => 12,
        }
    }

    /// Whether block entries are encodable at this level. L1 = 1 GiB
    /// blocks, L2 = 2 MiB blocks; L0 and L3 don't support blocks.
    pub fn supports_block(self) -> (r: bool)
        ensures
            r == (self == Level::L1 || self == Level::L2),
    {
        matches!(self, Level::L1 | Level::L2)
    }

    /// Extract this level's 9-bit index from a virtual address. The result
    /// is in `0..512`.
    pub fn index_in(self, va: VirtAddr) -> (r: usize)
        ensures
            r == va_index(va@, level_shift(self)),
            r < 512,
    {
        let v = va.as_u64() >> self.index_shift();
        let idx = v & 0x1FF;
        assert(v & 0x1FF <= 0x1FF) by (bit_vector);
        idx as usize
    }

    /// Next deeper level. L3 has no level below it.
    pub fn next_level(self) -> (r: Level)
        requires
            self != Level::L3,
        ensures
            level_depth(r) == level_depth(self) + 1,
    {
        match self {
            Level::L0 => Level::L1,
            Level::L1 => Level::L2,
            _ => Level::L3,
        }
    }

    /// Build a level from a 2-bit index (e.g. the level field of a fault
    /// status code). Only the low two bits are read, so it is total.
    pub fn from_index(n: u8) -> (r: Level)
        ensures
            level_depth(r) == (n & 3) as nat,
    {
        let low = n & 0b11;
        assert(n & 3 <= 3) by (bit_vector);
        if low == 0 {
            Level::L0
        } else if low == 1 {
            Level::L1
        } else if low == 2 {
            Level::L2
        } else {
            Level::L3
        }
    }
}

/// The four levels' 9-bit indices tile bits [47:12] of a virtual address
/// exactly: each is below 512, and reassembled they equal those bits.
pub proof fn lemma_level_indices_tile_va(va: u64)
    ensures
        va_index(va, 39) < 512,
        va_index(va, 30) < 512,
        va_index(va, 21) < 512,
        va_index(va, 12) < 512,
        (va_index(va, 39) << 27u64) | (va_index(va, 30) << 18u64) | (va_index(va, 21) << 9u64)
            | va_index(va, 12) == (va >> 12u64) & 0xF_FFFF_FFFF,
{
    assert(((va >> 39u64) & 0x1FF) < 512 && ((va >> 30u64) & 0x1FF) < 512 && ((va >> 21u64)
        & 0x1FF) < 512 && ((va >> 12u64) & 0x1FF) < 512) by (bit_vector);
    assert((((va >> 39u64) & 0x1FF) << 27u64) | (((va >> 30u64) & 0x1FF) << 18u64) | (((va
        >> 21u64) & 0x1FF) << 9u64) | ((va >> 12u64) & 0x1FF) == (va >> 12u64) & 0xF_FFFF_FFFF)
        by (bit_vector);
}

} // verus!
