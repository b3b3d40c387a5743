//! General types for MMU control, and the physical allocator's value types.

use vstd::prelude::*;

use crate::arch::mm::PhysAddr;

verus! {

/// Cache-coherence domain of the mapped region.
#[derive(Debug, Copy, Clone, PartialEq, Eq, Structural)]
pub enum Shareability {
    NonShareable,
    OuterShareable,
    /// All CPUs in the inner-shareable domain snoop each other. The right
    /// choice for kernel mappings on SMP.
    InnerShareable,
}

/// The 2-bit `SH` encoding of a shareability domain.
pub open spec fn shareability_bits(s: Shareability) -> u64 {
    match s {
        Shareability::NonShareable => 0b00,
        Shareability::OuterShareable => 0b10,
        Shareability::InnerShareable => 0b11,
    }
}

impl Shareability {
    pub fn bits(self) -> (r: u64)
        ensures
            r == shareability_bits(self),
    {
        match self {
            Shareability::NonShareable => 0b00,
            Shareability::OuterShareable => 0b10,
            Shareability::InnerShareable => 0b11,
        }
    }
}

/// Cacheability of MMU page-table walks (`IRGN`/`ORGN` in `TCR_EL1`).
#[derive(Debug, Clone, Copy, PartialEq, Eq, Structural)]
pub enum Cacheability {
    NonCacheable,
    WriteBackReadWriteAlloc,
    WriteThroughReadAlloc,
    WriteBackReadAlloc,
}

/// The 2-bit encoding of a walk cacheability.
pub open spec fn cacheability_bits(c: Cacheability) -> u64 {
    match c {
        Cacheability::NonCacheable => 0b00,
        Cacheability::WriteBackReadWriteAlloc => 0b01,
        Cacheability::WriteThroughReadAlloc => 0b10,
        Cacheability::WriteBackReadAlloc => 0b11,
    }
}

impl Cacheability {
    pub fn bits(self) -> (r: u64)
        ensures
            r == cacheability_bits(self),
    {
        match self {
            Cacheability::NonCacheable => 0b00,
            Cacheability::WriteBackReadWriteAlloc => 0b01,
            Cacheability::WriteThroughReadAlloc => 0b10,
            Cacheability::WriteBackReadAlloc => 0b11,
        }
    }
}

/// Translation granule size.
#[derive(Debug, Clone, Copy, PartialEq, Eq, Structural)]
pub enum Granule {
    _4KB,
    _16KB,
    _64KB,
}

/// `TG0` encoding of a granule.
pub open spec fn tg0_bits(g: Granule) -> u64 {
    match g {
        Granule::_4KB => 0b00,
        Granule::_16KB => 0b10,
        Granule::_64KB => 0b01,
    }
}

/// `TG1` encoding of a granule (differs from `TG0`).
pub open spec fn tg1_bits(g: Granule) -> u64 {
    match g {
        Granule::_4KB => 0b10,
        Granule::_16KB => 0b01,
        Granule::_64KB => 0b11,
    }
}

impl Granule {
    pub fn to_tg0_bits(self) -> (r: u64)
        ensures
            r == tg0_bits(self),
    {
        match self {
            Granule::_4KB => 0b00,
            Granule::_16KB => 0b10,
            Granule::_64KB => 0b01,
        }
    }

    pub fn to_tg1_bits(self) -> (r: u64)
        ensures
            r == tg1_bits(self),
    {
        match self {
            Granule::_4KB => 0b10,
            Granule::_16KB => 0b01,
            Granule::_64KB => 0b11,
        }
    }
}

/// Physical (intermediate) address size.
#[derive(Debug, Clone, Copy, PartialEq, Eq, Structural)]
pub enum PhysAddrSize {
    _32BIT,
    _36BIT,
    _40BIT,
    _42BIT,
    _44BIT,
    _48BIT,
    /// Requires FEAT_LPA; granule-dependent.
    _52BIT,
}

/// The 3-bit `IPS` encoding of an address size.
pub open spec fn phys_addr_size_bits(s: PhysAddrSize) -> u64 {
    match s {
        PhysAddrSize::_32BIT => 0b000,
        PhysAddrSize::_36BIT => 0b001,
        PhysAddrSize::_40BIT => 0b010,
        PhysAddrSize::_42BIT => 0b011,
        PhysAddrSize::_44BIT => 0b100,
        PhysAddrSize::_48BIT => 0b101,
        PhysAddrSize::_52BIT => 0b110,
    }
}

impl PhysAddrSize {
    pub fn bits(self) -> (r: u64)
        ensures
            r == phys_addr_size_bits(self),
    {
        match self {
            PhysAddrSize::_32BIT => 0b000,
            PhysAddrSize::_36BIT => 0b001,
            PhysAddrSize::_40BIT => 0b010,
            PhysAddrSize::_42BIT => 0b011,
            PhysAddrSize::_44BIT => 0b100,
            PhysAddrSize::_48BIT => 0b101,
            PhysAddrSize::_52BIT => 0b110,
        }
    }
}

/// A virtual-address width in bits, between 25 and 48.
#[derive(Clone, Copy, Debug, PartialEq, Eq, Structural)]
pub struct VirtAddrSize(u8);

impl View for VirtAddrSize {
    type V = u8;

    closed spec fn view(&self) -> u8 {
        self.0
    }
}

impl VirtAddrSize {
    #[verifier::type_invariant]
    spec fn supported(self) -> bool {
        25 <= self.0 <= 48
    }

    /// A VA size of `va_bits` bits; only 25..=48 is supported.
    pub fn from_va_bits(va_bits: u8) -> (r: Self)
        requires
            25 <= va_bits <= 48,
        ensures
            r@ == va_bits,
    {
        Self(va_bits)
    }

    /// The width in bits, 25..=48.
    pub fn va_bits(self) -> (r: u8)
        ensures
            r == self@,
            25 <= r <= 48,
    {
        proof {
            use_type_invariant(&self);
        }
        self.0
    }

    /// The `TnSZ` field value: the number of unused top bits.
    pub fn tsz_bits(self) -> (r: u64)
        ensures
            r == 64 - self@,
    {
        proof {
            use_type_invariant(&self);
        }
        (64 - self.0) as u64
    }
}

/// A source of physical frames for page-table construction.
pub trait FrameAllocator {
    /// Whether a frame can be handed out now.
    spec fn can_alloc(&self) -> bool;

    /// Hand out one page-aligned frame.
    fn alloc_page(&mut self) -> (r: PhysAddr)
        requires
            old(self).can_alloc(),
        ensures
            r@ % 4096 == 0,
    ;
}

/// A physical frame number — a page index into RAM (`pa / PAGE_SIZE`).
#[derive(Clone, Copy, PartialEq, Eq, Debug, Structural)]
pub struct Pfn(u32);

impl View for Pfn {
    type V = u32;

    closed spec fn view(&self) -> u32 {
        self.0
    }
}

impl Pfn {
    pub fn new(raw: u32) -> (r: Self)
        ensures
            r@ == raw,
    {
        Self(raw)
    }

    pub fn raw(self) -> (r: u32)
        ensures
            r == self@,
    {
        self.0
    }

    pub fn index(self) -> (r: usize)
        ensures
            r == self@,
    {
        self.0 as usize
    }
}

/// A count of physical frames — distinct from a [`Pfn`], which is a position.
#[derive(Clone, Copy, PartialEq, Eq, Debug, Structural)]
pub struct FrameCount(usize);

impl View for FrameCount {
    type V = usize;

    closed spec fn view(&self) -> usize {
        self.0
    }
}

impl FrameCount {
    pub fn new(n: usize) -> (r: Self)
        ensures
            r@ == n,
    {
        Self(n)
    }

    pub fn get(self) -> (r: usize)
        ensures
            r == self@,
    {
        self.0
    }
}

/// A buddy allocation order — a block spans `2^order` frames.
#[derive(Clone, Copy, PartialEq, Eq, Debug, Structural)]
pub struct Order(u8);

impl View for Order {
    type V = u8;

    closed spec fn view(&self) -> u8 {
        self.0
    }
}

impl Order {
    pub fn new(raw: u8) -> (r: Self)
        ensures
            r@ == raw,
    {
        Self(raw)
    }

    pub fn raw(self) -> (r: u8)
        ensures
            r == self@,
    {
        self.0
    }

    pub fn index(self) -> (r: usize)
        ensures
            r == self@,
    {
        self.0 as usize
    }
}

} // verus!
