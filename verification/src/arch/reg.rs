//! Typed decoders for the AArch64 system registers read at exception entry:
//! [`Spsr`], [`Esr`], and the data-fault status code [`Dfsc`].

use vstd::prelude::*;

use crate::arch::exceptions::{ExceptionClass, FaultStatus, exception_class_of, fault_status_of};

verus! {

/// Saved Program Status Register snapshot: `PSTATE` at the moment an
/// exception was taken.
#[derive(Debug, Copy, Clone)]
pub struct Spsr(u64);

impl View for Spsr {
    type V = u64;

    closed spec fn view(&self) -> u64 {
        self.0
    }
}

impl Spsr {
    pub fn from_raw(raw: u64) -> (r: Self)
        ensures
            r@ == raw,
    {
        Self(raw)
    }

    pub fn raw(self) -> (r: u64)
        ensures
            r == self@,
    {
        self.0
    }

    /// Bits `M[4:0]` — source exception level and SP selector.
    pub fn mode_bits(self) -> (r: u8)
        ensures
            r == self@ & 0x1F,
    {
        let x = self.0;
        let m = x & 0b1_1111;
        assert(x & 0x1F <= 0x1F) by (bit_vector);
        m as u8
    }

    /// Decoded source mode.
    pub fn mode(self) -> (r: SpsrMode)
        ensures
            r == spsr_mode_of((self@ & 0x1F) as u8),
    {
        SpsrMode::from_bits(self.mode_bits())
    }
}

/// Source exception level + SP selector, decoded from `SPSR.M[4:0]`.
///
/// The `t` / `h` suffix distinguishes the SP used at the source EL:
/// `t` means SP_EL0, `h` means SP_ELx of the source level.
#[derive(Debug, Copy, Clone, PartialEq, Eq, Structural)]
pub enum SpsrMode {
    El0t,
    El1t,
    El1h,
    El2t,
    El2h,
    El3t,
    El3h,
    AArch32(u8),
    Unknown(u8),
}

/// The mode an `M[4:0]` value names: the seven AArch64 encodings, any value
/// with bit 4 set as an AArch32 mode, anything else unknown.
pub open spec fn spsr_mode_of(bits: u8) -> SpsrMode {
    if bits == 0b00000 {
        SpsrMode::El0t
    } else if bits == 0b00100 {
        SpsrMode::El1t
    } else if bits == 0b00101 {
        SpsrMode::El1h
    } else if bits == 0b01000 {
        SpsrMode::El2t
    } else if bits == 0b01001 {
        SpsrMode::El2h
    } else if bits == 0b01100 {
        SpsrMode::El3t
    } else if bits == 0b01101 {
        SpsrMode::El3h
    } else if bits & 0b1_0000 != 0 {
        SpsrMode::AArch32(bits)
    } else {
        SpsrMode::Unknown(bits)
    }
}

impl SpsrMode {
    pub fn from_bits(bits: u8) -> (r: Self)
        ensures
            r == spsr_mode_of(bits),
    {
        match bits {
            0b00000 => Self::El0t,
            0b00100 => Self::El1t,
            0b00101 => Self::El1h,
            0b01000 => Self::El2t,
            0b01001 => Self::El2h,
            0b01100 => Self::El3t,
            0b01101 => Self::El3h,
            // 0b10000.. is AArch32 modes (user, FIQ, IRQ, SVC, ...).
            b => {
                if b & 0b1_0000 != 0 {
                    Self::AArch32(b)
                } else {
                    Self::Unknown(b)
                }
            },
        }
    }
}

/// Exception Syndrome Register (`ESR_EL1`) value.
///
/// Bit layout: `EC[31:26]`, `IL[25]`, `ISS[24:0]`.
#[derive(Debug, Copy, Clone)]
pub struct Esr(u64);

impl View for Esr {
    type V = u64;

    closed spec fn view(&self) -> u64 {
        self.0
    }
}

/// `EC` field of a syndrome value.
pub open spec fn esr_ec(raw: u64) -> u64 {
    (raw >> 26) & 0x3F
}

/// `IL` bit of a syndrome value.
pub open spec fn esr_il(raw: u64) -> bool {
    (raw >> 25) & 1 != 0
}

/// `ISS` field of a syndrome value.
pub open spec fn esr_iss(raw: u64) -> u64 {
    raw & 0x01FF_FFFF
}

impl Esr {
    pub fn raw(self) -> (r: u64)
        ensures
            r == self@,
    {
        self.0
    }

    pub fn from_raw(raw: u64) -> (r: Self)
        ensures
            r@ == raw,
    {
        Self(raw)
    }

    /// `EC` field — coarse classifier (load it through `class()` for an enum).
    pub fn ec_raw(self) -> (r: u8)
        ensures
            r == esr_ec(self@),
            r < 64,
    {
        let x = self.0;
        let v = (x >> 26) & 0x3F;
        assert(((x >> 26) & 0x3F) <= 0x3F) by (bit_vector);
        v as u8
    }

    pub fn class(self) -> (r: ExceptionClass)
        ensures
            r == exception_class_of(esr_ec(self@) as u8),
    {
        ExceptionClass::from_ec(self.ec_raw())
    }

    /// Instruction Length: true if the trapped instruction was 32-bit.
    pub fn il(self) -> (r: bool)
        ensures
            r == esr_il(self@),
    {
        (self.0 >> 25) & 1 != 0
    }

    /// Instruction-specific syndrome bits. Interpretation depends on `EC`.
    pub fn iss(self) -> (r: u32)
        ensures
            r == esr_iss(self@),
            r < 0x0200_0000,
    {
        let x = self.0;
        let v = x & 0x01FF_FFFF;
        assert(x & 0x01FF_FFFF <= 0x01FF_FFFF) by (bit_vector);
        v as u32
    }

    /// Raw `DFSC`/`IFSC` field (`ISS[5:0]`) — the fault status code of a
    /// data or instruction abort.
    pub fn dfsc(self) -> (r: Dfsc)
        ensures
            r@ == self@ & 0x3F,
    {
        let x = self.0;
        let v = x & 0x3F;
        assert(x & 0x3F <= 0x3F) by (bit_vector);
        Dfsc(v as u8)
    }

    /// Decode the fault status code into a typed [`FaultStatus`]. Meaningful
    /// only on a data or instruction abort.
    pub fn fault_status(self) -> (r: FaultStatus)
        ensures
            r == fault_status_of((self@ & 0x3F) as u8),
    {
        FaultStatus::from_dfsc(self.dfsc())
    }

    /// `WnR` (`ISS[6]`): true if a write caused the abort. Defined for data
    /// aborts only.
    pub fn is_write(self) -> (r: bool)
        ensures
            r == ((self@ >> 6) & 1 == 1),
    {
        let x = self.0;
        assert((x >> 6) & 1 != 0 <==> (x >> 6) & 1 == 1) by (bit_vector);
        (x >> 6) & 1 != 0
    }

    /// Whether `FAR_EL1` holds a valid faulting address: `FnV` (`ISS[10]`)
    /// is clear.
    pub fn far_valid(self) -> (r: bool)
        ensures
            r == ((self@ >> 10) & 1 == 0),
    {
        (self.0 >> 10) & 1 == 0
    }
}

/// The `EC`, `IL` and `ISS` fields tile bits [31:0] of a syndrome value
/// exactly — no gap, no overlap.
pub proof fn lemma_esr_fields_tile_low_word(raw: u64)
    ensures
        esr_ec(raw) < 64,
        esr_iss(raw) < 0x0200_0000,
        (esr_ec(raw) << 26u64) | ((if esr_il(raw) { 1u64 } else { 0u64 }) << 25u64) | esr_iss(raw)
            == raw & 0xFFFF_FFFF,
{
    assert(((raw >> 26u64) & 0x3F) < 64 && (raw & 0x01FF_FFFF) < 0x0200_0000) by (bit_vector);
    if (raw >> 25u64) & 1 != 0 {
        assert((raw >> 25u64) & 1 != 0 ==> (((raw >> 26u64) & 0x3F) << 26u64) | (1u64 << 25u64)
            | (raw & 0x01FF_FFFF) == raw & 0xFFFF_FFFF) by (bit_vector);
    } else {
        assert((raw >> 25u64) & 1 == 0 ==> (((raw >> 26u64) & 0x3F) << 26u64) | (0u64 << 25u64)
            | (raw & 0x01FF_FFFF) == raw & 0xFFFF_FFFF) by (bit_vector);
    }
}

/// The 6-bit fault status code (`DFSC`/`IFSC`) extracted from an [`Esr`].
#[derive(Clone, Copy, Debug)]
pub struct Dfsc(u8);

impl View for Dfsc {
    type V = u8;

    closed spec fn view(&self) -> u8 {
        self.0
    }
}

impl Dfsc {
    /// Wrap a raw 6-bit fault status code.
    pub fn new(raw: u8) -> (r: Self)
        ensures
            r@ == raw,
    {
        Self(raw)
    }

    /// The underlying code.
    pub fn raw(&self) -> (r: u8)
        ensures
            r == self@,
    {
        self.0
    }
}

} // verus!
