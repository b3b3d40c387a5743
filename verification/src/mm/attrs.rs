//! Memory-attribute slots of `MAIR_EL1` and the value programmed into it.

use vstd::prelude::*;

verus! {

/// Memory attribute slot selector used inside page-table entries. Each
/// variant matches one slot in `MAIR_EL1`.
#[derive(Debug, Clone, Copy, PartialEq, Eq, Structural)]
pub enum MemoryAttr {
    /// Index 0: Normal memory, Inner+Outer write-back, write-allocate.
    Normal,
    /// Index 1: Normal memory, non-cacheable.
    NormalNonCacheable,
    /// Index 2: Device-nGnRnE — the strictest device type.
    DeviceNGNRNE,
    /// Index 3: Device-nGnRE — like the above but with early write ack.
    DeviceNGNRE,
}

/// The `MAIR_EL1` slot index of an attribute.
pub open spec fn attr_index(a: MemoryAttr) -> u64 {
    match a {
        MemoryAttr::Normal => 0,
        MemoryAttr::NormalNonCacheable => 1,
        MemoryAttr::DeviceNGNRNE => 2,
        MemoryAttr::DeviceNGNRE => 3,
    }
}

impl MemoryAttr {
    /// The raw MAIR slot index for use in a descriptor's `AttrIndx` field.
    pub fn index(self) -> (r: u64)
        ensures
            r == attr_index(self),
            r < 4,
    {
        match self {
            MemoryAttr::Normal => 0,
            MemoryAttr::NormalNonCacheable => 1,
            MemoryAttr::DeviceNGNRNE => 2,
            MemoryAttr::DeviceNGNRE => 3,
        }
    }
}

/// `encoding` placed in the byte of `attr`'s slot.
pub fn mair_slot(attr: MemoryAttr, encoding: u64) -> (r: u64)
    requires
        encoding <= 0xFF,
    ensures
        r == encoding << (attr_index(attr) * 8),
{
    encoding << (attr.index() * 8)
}

/// The value programmed into `MAIR_EL1`: Normal WB (0xFF), Normal NC (0x44),
/// Device-nGnRnE (0x00), Device-nGnRE (0x04) in slots 0..3.
pub const MAIR_VALUE: u64 = 0x0400_44FF;

/// The programmed value is the four slots' encodings composed.
pub fn mair_value() -> (r: u64)
    ensures
        r == MAIR_VALUE,
{
    let v = mair_slot(MemoryAttr::Normal, 0xFF) | mair_slot(MemoryAttr::NormalNonCacheable, 0x44)
        | mair_slot(MemoryAttr::DeviceNGNRNE, 0x00) | mair_slot(MemoryAttr::DeviceNGNRE, 0x04);
    assert((0xFFu64 << 0u64) | (0x44u64 << 8u64) | (0x00u64 << 16u64) | (0x04u64 << 24u64)
        == 0x0400_44FFu64) by (bit_vector);
    v
}

} // verus!
