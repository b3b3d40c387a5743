//! `TCR_EL1` (Translation Control Register) configuration.
//!
//! `TCR_EL1` controls how virtual addresses are translated for both halves
//! of the address space (TTBR0 for the low half, TTBR1 for the high half):
//! granule, virtual-address size, walk cacheability and shareability. The
//! register value is composed from named fields, so the raw bits never
//! appear as a magic number.

use vstd::prelude::*;

use crate::mm::types::{
    cacheability_bits, phys_addr_size_bits, shareability_bits, tg0_bits, tg1_bits, Cacheability,
    Granule, PhysAddrSize, Shareability, VirtAddrSize,
};

verus! {

/// Translation settings of one half of the address space.
#[derive(Clone, Copy, Debug)]
pub struct TtbrConfig {
    pub va_size: VirtAddrSize,
    pub granule: Granule,
    pub inner_cache: Cacheability,
    pub outer_cache: Cacheability,
    pub shareability: Shareability,
    /// Top-byte ignore.
    pub tbi: bool,
}

/// The whole register: the low half, the high half (or `None` to disable
/// its walks), the physical address size and the ASID source.
#[derive(Clone, Copy, Debug)]
pub struct TcrConfig {
    pub ttbr0: TtbrConfig,
    pub ttbr1: Option<TtbrConfig>,
    pub ips: PhysAddrSize,
    /// Take the ASID from `TTBR1_EL1` (`A1`).
    pub asid_from_ttbr1: bool,
}

/// The composed register value.
#[derive(Clone, Copy, Debug)]
pub struct TcrValue {
    raw: u64,
}

impl View for TcrValue {
    type V = u64;

    closed spec fn view(&self) -> u64 {
        self.raw
    }
}

impl TcrValue {
    pub fn raw(self) -> (r: u64)
        ensures
            r == self@,
    {
        self.raw
    }
}

/// ASID source choice (0 = TTBR0, 1 = TTBR1).
pub const A1_SHIFT: u64 = 22;

/// Top-byte ignore for TTBR0.
pub const TBI0_SHIFT: u64 = 37;

/// Top-byte ignore for TTBR1.
pub const TBI1_SHIFT: u64 = 38;

/// `T0SZ` — the number of unused top VA bits in the low half.
pub const T0SZ_SHIFT: u64 = 0;

/// `IRGN0` — inner cacheability of TTBR0 walks.
pub const IRGN0_SHIFT: u64 = 8;

/// `ORGN0` — outer cacheability of TTBR0 walks.
pub const ORGN0_SHIFT: u64 = 10;

/// `SH0` — shareability of TTBR0 walks.
pub const SH0_SHIFT: u64 = 12;

/// `TG0` — TTBR0 granule.
pub const TG0_SHIFT: u64 = 14;

/// `T1SZ` — as `T0SZ`, for the high half.
pub const T1SZ_SHIFT: u64 = 16;

/// `EPD1` — when 1, TTBR1 walks are disabled.
pub const EPD1_SHIFT: u64 = 23;

/// `IRGN1` — inner cacheability of TTBR1 walks.
pub const IRGN1_SHIFT: u64 = 24;

/// `ORGN1` — outer cacheability of TTBR1 walks.
pub const ORGN1_SHIFT: u64 = 26;

/// `SH1` — shareability of TTBR1 walks.
pub const SH1_SHIFT: u64 = 28;

/// `TG1` — TTBR1 granule (its encoding differs from `TG0`).
pub const TG1_SHIFT: u64 = 30;

/// `IPS` — intermediate physical address size, common to both halves.
pub const IPS_SHIFT: u64 = 32;

/// A flag as a bit.
pub open spec fn flag(b: bool) -> u64 {
    if b {
        1
    } else {
        0
    }
}

/// The fields of the low half in their positions.
pub open spec fn ttbr0_field_bits(t: TtbrConfig) -> u64 {
    (((64 - t.va_size@) as u64) << T0SZ_SHIFT) | (cacheability_bits(t.inner_cache) << IRGN0_SHIFT)
        | (cacheability_bits(t.outer_cache) << ORGN0_SHIFT) | (shareability_bits(t.shareability)
        << SH0_SHIFT) | (tg0_bits(t.granule) << TG0_SHIFT) | (flag(t.tbi) << TBI0_SHIFT)
}

/// The fields of the high half in their positions.
pub open spec fn ttbr1_field_bits(t: TtbrConfig) -> u64 {
    (((64 - t.va_size@) as u64) << T1SZ_SHIFT) | (cacheability_bits(t.inner_cache) << IRGN1_SHIFT)
        | (cacheability_bits(t.outer_cache) << ORGN1_SHIFT) | (shareability_bits(t.shareability)
        << SH1_SHIFT) | (tg1_bits(t.granule) << TG1_SHIFT) | (flag(t.tbi) << TBI1_SHIFT)
}

/// The register value a configuration composes to; a disabled high half
/// sets `EPD1` instead of its fields.
pub open spec fn tcr_raw(c: TcrConfig) -> u64 {
    ttbr0_field_bits(c.ttbr0) | match c.ttbr1 {
        Some(t1) => ttbr1_field_bits(t1),
        None => 1u64 << EPD1_SHIFT,
    } | ((flag(c.asid_from_ttbr1) << A1_SHIFT) | (phys_addr_size_bits(c.ips) << IPS_SHIFT))
}

fn flag_bit(b: bool) -> (r: u64)
    ensures
        r == flag(b),
{
    if b {
        1
    } else {
        0
    }
}

/// Every field of the configuration reads back from its position in the
/// composed value; a disabled high half leaves only `EPD1` in its fields.
pub open spec fn tcr_fields_read_back(c: TcrConfig, raw: u64) -> bool {
    &&& (raw >> T0SZ_SHIFT) & 0x3F == 64 - c.ttbr0.va_size@
    &&& (raw >> IRGN0_SHIFT) & 3 == cacheability_bits(c.ttbr0.inner_cache)
    &&& (raw >> ORGN0_SHIFT) & 3 == cacheability_bits(c.ttbr0.outer_cache)
    &&& (raw >> SH0_SHIFT) & 3 == shareability_bits(c.ttbr0.shareability)
    &&& (raw >> TG0_SHIFT) & 3 == tg0_bits(c.ttbr0.granule)
    &&& (raw >> TBI0_SHIFT) & 1 == flag(c.ttbr0.tbi)
    &&& (raw >> A1_SHIFT) & 1 == flag(c.asid_from_ttbr1)
    &&& (raw >> IPS_SHIFT) & 7 == phys_addr_size_bits(c.ips)
    &&& match c.ttbr1 {
        Some(t1) => {
            &&& (raw >> T1SZ_SHIFT) & 0x3F == 64 - t1.va_size@
            &&& (raw >> IRGN1_SHIFT) & 3 == cacheability_bits(t1.inner_cache)
            &&& (raw >> ORGN1_SHIFT) & 3 == cacheability_bits(t1.outer_cache)
            &&& (raw >> SH1_SHIFT) & 3 == shareability_bits(t1.shareability)
            &&& (raw >> TG1_SHIFT) & 3 == tg1_bits(t1.granule)
            &&& (raw >> TBI1_SHIFT) & 1 == flag(t1.tbi)
            &&& (raw >> EPD1_SHIFT) & 1 == 0
        },
        None => {
            &&& (raw >> EPD1_SHIFT) & 1 == 1
            &&& (raw >> T1SZ_SHIFT) & 0x3F == 0
        },
    }
}

impl TcrConfig {
    /// Compose the register value. A disabled high half cannot be the ASID
    /// source.
    pub fn build(self) -> (r: TcrValue)
        requires
            !(self.ttbr1 is None && self.asid_from_ttbr1),
        ensures
            r@ == tcr_raw(self),
            tcr_fields_read_back(self, r@),
    {
        let t0 = self.ttbr0;
        let _ = t0.va_size.va_bits();
        let ttbr0_bits = (t0.va_size.tsz_bits() << T0SZ_SHIFT) | (t0.inner_cache.bits()
            << IRGN0_SHIFT) | (t0.outer_cache.bits() << ORGN0_SHIFT) | (t0.shareability.bits()
            << SH0_SHIFT) | (t0.granule.to_tg0_bits() << TG0_SHIFT) | (flag_bit(t0.tbi)
            << TBI0_SHIFT);
        let ttbr1_bits = match self.ttbr1 {
            Some(t1) => {
                let _ = t1.va_size.va_bits();
                (t1.va_size.tsz_bits() << T1SZ_SHIFT) | (t1.inner_cache.bits() << IRGN1_SHIFT) | (
                t1.outer_cache.bits() << ORGN1_SHIFT) | (t1.shareability.bits() << SH1_SHIFT) | (
                t1.granule.to_tg1_bits() << TG1_SHIFT) | (flag_bit(t1.tbi) << TBI1_SHIFT)
            },
            None => 1u64 << EPD1_SHIFT,
        };
        let common_bits = (flag_bit(self.asid_from_ttbr1) << A1_SHIFT) | (self.ips.bits()
            << IPS_SHIFT);
        let raw = ttbr0_bits | ttbr1_bits | common_bits;
        proof {
            let tsz0 = (64 - t0.va_size@) as u64;
            let i0 = cacheability_bits(t0.inner_cache);
            let o0 = cacheability_bits(t0.outer_cache);
            let s0 = shareability_bits(t0.shareability);
            let g0 = tg0_bits(t0.granule);
            let b0 = flag(t0.tbi);
            let a1 = flag(self.asid_from_ttbr1);
            let ips = phys_addr_size_bits(self.ips);
            let low = (tsz0 << 0u64) | (i0 << 8u64) | (o0 << 10u64) | (s0 << 12u64) | (g0 << 14u64) | (b0
                << 37u64);
            let com = (a1 << 22u64) | (ips << 32u64);
            assert(i0 < 4 && o0 < 4 && s0 < 4 && g0 < 4 && b0 < 2 && a1 < 2 && ips < 8);
            match self.ttbr1 {
                Some(t1) => {
                    let tsz1 = (64 - t1.va_size@) as u64;
                    let i1 = cacheability_bits(t1.inner_cache);
                    let o1 = cacheability_bits(t1.outer_cache);
                    let s1 = shareability_bits(t1.shareability);
                    let g1 = tg1_bits(t1.granule);
                    let b1 = flag(t1.tbi);
                    assert(i1 < 4 && o1 < 4 && s1 < 4 && g1 < 4 && b1 < 2);
                    let high = (tsz1 << 16u64) | (i1 << 24u64) | (o1 << 26u64) | (s1 << 28u64) | (g1
                        << 30u64) | (b1 << 38u64);
                    assert({
                        let v = low | high | com;
                        &&& (v >> 0u64) & 0x3F == tsz0
                        &&& (v >> 8u64) & 3 == i0
                        &&& (v >> 10u64) & 3 == o0
                        &&& (v >> 12u64) & 3 == s0
                        &&& (v >> 14u64) & 3 == g0
                        &&& (v >> 37u64) & 1 == b0
                        &&& (v >> 22u64) & 1 == a1
                        &&& (v >> 32u64) & 7 == ips
                        &&& (v >> 16u64) & 0x3F == tsz1
                        &&& (v >> 24u64) & 3 == i1
                        &&& (v >> 26u64) & 3 == o1
                        &&& (v >> 28u64) & 3 == s1
                        &&& (v >> 30u64) & 3 == g1
                        &&& (v >> 38u64) & 1 == b1
                        &&& (v >> 23u64) & 1 == 0
                    }) by (bit_vector)
                        requires
                            16 <= tsz0 <= 39,
                            16 <= tsz1 <= 39,
                            i0 < 4,
                            o0 < 4,
                            s0 < 4,
                            g0 < 4,
                            b0 < 2,
                            a1 < 2,
                            ips < 8,
                            i1 < 4,
                            o1 < 4,
                            s1 < 4,
                            g1 < 4,
                            b1 < 2,
                            low == (tsz0 << 0u64) | (i0 << 8u64) | (o0 << 10u64) | (s0 << 12u64) | (g0
                                << 14u64) | (b0 << 37u64),
                            com == (a1 << 22u64) | (ips << 32u64),
                            high == (tsz1 << 16u64) | (i1 << 24u64) | (o1 << 26u64) | (s1 << 28u64)
                                | (g1 << 30u64) | (b1 << 38u64),
                    ;
                },
                None => {
                    assert({
                        let v = low | (1u64 << 23u64) | com;
                        &&& (v >> 0u64) & 0x3F == tsz0
                        &&& (v >> 8u64) & 3 == i0
                        &&& (v >> 10u64) & 3 == o0
                        &&& (v >> 12u64) & 3 == s0
                        &&& (v >> 14u64) & 3 == g0
                        &&& (v >> 37u64) & 1 == b0
                        &&& (v >> 22u64) & 1 == a1
                        &&& (v >> 32u64) & 7 == ips
                        &&& (v >> 23u64) & 1 == 1
                        &&& (v >> 16u64) & 0x3F == 0
                    }) by (bit_vector)
                        requires
                            16 <= tsz0 <= 39,
                            i0 < 4,
                            o0 < 4,
                            s0 < 4,
                            g0 < 4,
                            b0 < 2,
                            a1 < 2,
                            ips < 8,
                            low == (tsz0 << 0u64) | (i0 << 8u64) | (o0 << 10u64) | (s0 << 12u64) | (g0
                                << 14u64) | (b0 << 37u64),
                            com == (a1 << 22u64) | (ips << 32u64),
                    ;
                },
            }
        }
        TcrValue { raw }
    }
}

/// The configuration the kernel installs: 48-bit VAs and 4 KiB granule in
/// both halves, write-back write-allocate inner-shareable walks, top-byte
/// ignore in the low half only, 48-bit physical addresses, ASID from
/// `TTBR1_EL1`.
pub fn kernel_tcr() -> (r: TcrConfig)
    ensures
        r.ttbr0.va_size@ == 48,
        r.ttbr0.granule == Granule::_4KB,
        r.ttbr0.inner_cache == Cacheability::WriteBackReadWriteAlloc,
        r.ttbr0.outer_cache == Cacheability::WriteBackReadWriteAlloc,
        r.ttbr0.shareability == Shareability::InnerShareable,
        r.ttbr0.tbi,
        r.ttbr1 matches Some(t1) && t1.va_size@ == 48 && t1.granule == Granule::_4KB
            && t1.inner_cache == Cacheability::WriteBackReadWriteAlloc && t1.outer_cache
            == Cacheability::WriteBackReadWriteAlloc && t1.shareability
            == Shareability::InnerShareable && !t1.tbi,
        r.ips == PhysAddrSize::_48BIT,
        r.asid_from_ttbr1,
{
    TcrConfig {
        ttbr0: TtbrConfig {
            va_size: VirtAddrSize::from_va_bits(48),
            granule: Granule::_4KB,
            inner_cache: Cacheability::WriteBackReadWriteAlloc,
            outer_cache: Cacheability::WriteBackReadWriteAlloc,
            shareability: Shareability::InnerShareable,
            tbi: true,
        },
        ttbr1: Some(
            TtbrConfig {
                va_size: VirtAddrSize::from_va_bits(48),
                granule: Granule::_4KB,
                inner_cache: Cacheability::WriteBackReadWriteAlloc,
                outer_cache: Cacheability::WriteBackReadWriteAlloc,
                shareability: Shareability::InnerShareable,
                tbi: false,
            },
        ),
        ips: PhysAddrSize::_48BIT,
        asid_from_ttbr1: true,
    }
}

/// The value the kernel programs into `TCR_EL1`.
pub const KERNEL_TCR_VALUE: u64 = 0x0000_0025_B550_3510;

/// The kernel configuration composes to [`KERNEL_TCR_VALUE`].
pub fn kernel_tcr_value() -> (r: u64)
    ensures
        r == KERNEL_TCR_VALUE,
{
    let c = kernel_tcr();
    let v = c.build().raw();
    proof {
        let t0 = (16u64 << 0u64) | (1u64 << 8u64) | (1u64 << 10u64) | (3u64 << 12u64) | (0u64
            << 14u64) | (1u64 << 37u64);
        let t1 = (16u64 << 16u64) | (1u64 << 24u64) | (1u64 << 26u64) | (3u64 << 28u64) | (2u64
            << 30u64) | (0u64 << 38u64);
        let cm = (1u64 << 22u64) | (5u64 << 32u64);
        assert(ttbr0_field_bits(c.ttbr0) == t0);
        assert(ttbr1_field_bits(c.ttbr1->0) == t1);
        assert(t0 | t1 | cm == 0x0000_0025_B550_3510u64) by (bit_vector)
            requires
                t0 == (16u64 << 0u64) | (1u64 << 8u64) | (1u64 << 10u64) | (3u64 << 12u64) | (0u64
                    << 14u64) | (1u64 << 37u64),
                t1 == (16u64 << 16u64) | (1u64 << 24u64) | (1u64 << 26u64) | (3u64 << 28u64) | (
                2u64 << 30u64) | (0u64 << 38u64),
                cm == (1u64 << 22u64) | (5u64 << 32u64),
        ;
    }
    v
}

} // verus!
