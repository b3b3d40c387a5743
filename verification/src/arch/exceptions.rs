//! Exception-class and fault-status decoding.

use vstd::prelude::*;

use crate::arch::mm::{Level, level_depth};
use crate::arch::reg::{Dfsc, Esr};

verus! {

/// A decoded data/instruction-abort fault status (`ESR_EL1.DFSC`/`IFSC`).
///
/// A translation fault means the page isn't mapped, a permission fault that
/// it is mapped but the access is disallowed, an access-flag fault that the
/// access flag was clear. `level` is the table level at which the walk
/// faulted.
#[derive(Clone, Copy, Debug, PartialEq, Eq, Structural)]
pub enum FaultStatus {
    /// Output address exceeds the configured PA size at `level`.
    AddressSize { level: Level },
    /// No valid descriptor at `level` — the page is not mapped.
    Translation { level: Level },
    /// Descriptor valid but its Access Flag is clear at `level`.
    AccessFlag { level: Level },
    /// Mapped, but the access violates the entry's permissions at `level`.
    Permission { level: Level },
    /// Unaligned access that the memory type doesn't allow.
    Alignment,
    /// Anything else, carrying the raw code for diagnostics.
    Other(u8),
}

/// The level named by the low two bits of a code.
pub open spec fn level_of_bits(n: u8) -> Level {
    if n & 3 == 0 {
        Level::L0
    } else if n & 3 == 1 {
        Level::L1
    } else if n & 3 == 2 {
        Level::L2
    } else {
        Level::L3
    }
}

/// The fault status a raw code names. Codes `0x00..=0x0F` split into class
/// (bits `[3:2]`) and level (bits `[1:0]`); `0x21` is an alignment fault;
/// any other code is carried raw.
pub open spec fn fault_status_of(raw: u8) -> FaultStatus {
    if raw <= 0x0F {
        let level = level_of_bits(raw);
        if raw >> 2 == 0 {
            FaultStatus::AddressSize { level }
        } else if raw >> 2 == 1 {
            FaultStatus::Translation { level }
        } else if raw >> 2 == 2 {
            FaultStatus::AccessFlag { level }
        } else {
            FaultStatus::Permission { level }
        }
    } else if raw == 0x21 {
        FaultStatus::Alignment
    } else {
        FaultStatus::Other(raw)
    }
}

/// The level a fault status carries, if any.
pub open spec fn fault_level(s: FaultStatus) -> Option<Level> {
    match s {
        FaultStatus::AddressSize { level } => Some(level),
        FaultStatus::Translation { level } => Some(level),
        FaultStatus::AccessFlag { level } => Some(level),
        FaultStatus::Permission { level } => Some(level),
        FaultStatus::Alignment => None,
        FaultStatus::Other(_) => None,
    }
}

/// Human-readable name of a fault class.
pub open spec fn fault_description(s: FaultStatus) -> Seq<char> {
    match s {
        FaultStatus::AddressSize { .. } => "Address size fault"@,
        FaultStatus::Translation { .. } => "Translation fault"@,
        FaultStatus::AccessFlag { .. } => "Access flag fault"@,
        FaultStatus::Permission { .. } => "Permission fault"@,
        FaultStatus::Alignment => "Alignment fault"@,
        FaultStatus::Other(_) => "Other / External fault"@,
    }
}

impl FaultStatus {
    /// Human-readable name of the fault class, without the level.
    pub fn description(self) -> (r: &'static str)
        ensures
            r@ == fault_description(self),
    {
        match self {
            FaultStatus::AddressSize { .. } => "Address size fault",
            FaultStatus::Translation { .. } => "Translation fault",
            FaultStatus::AccessFlag { .. } => "Access flag fault",
            FaultStatus::Permission { .. } => "Permission fault",
            FaultStatus::Alignment => "Alignment fault",
            FaultStatus::Other(_) => "Other / External fault",
        }
    }

    /// Decode a raw fault status code.
    pub fn from_dfsc(dfsc: Dfsc) -> (r: Self)
        ensures
            r == fault_status_of(dfsc@),
    {
        let dfsc = dfsc.raw();
        if dfsc <= 0x0F {
            let level = Level::from_index(dfsc & 0b11);
            assert(dfsc & 3 & 3 == dfsc & 3) by (bit_vector);
            let class = dfsc >> 2;
            if class == 0b00 {
                FaultStatus::AddressSize { level }
            } else if class == 0b01 {
                FaultStatus::Translation { level }
            } else if class == 0b10 {
                FaultStatus::AccessFlag { level }
            } else {
                FaultStatus::Permission { level }
            }
        } else if dfsc == 0x21 {
            FaultStatus::Alignment
        } else {
            FaultStatus::Other(dfsc)
        }
    }

    /// The translation-table level the fault was detected at, or `None` for
    /// classes that have no level.
    pub fn level(&self) -> (r: Option<Level>)
        ensures
            r == fault_level(*self),
    {
        match self {
            FaultStatus::AddressSize { level } => Some(*level),
            FaultStatus::Translation { level } => Some(*level),
            FaultStatus::AccessFlag { level } => Some(*level),
            FaultStatus::Permission { level } => Some(*level),
            FaultStatus::Alignment => None,
            FaultStatus::Other(_) => None,
        }
    }
}

/// Every fault code classifies; the levelled classes are exactly the codes
/// up to `0x0F`, and for those the level is the code's low two bits.
pub proof fn lemma_fault_status_total(raw: u8)
    ensures
        fault_level(fault_status_of(raw)) is Some <==> raw <= 0x0F,
        raw <= 0x0F ==> level_depth(fault_level(fault_status_of(raw))->0) == (raw & 3) as nat,
        fault_description(fault_status_of(raw)).len() > 0,
{
    reveal_strlit("Address size fault");
    reveal_strlit("Translation fault");
    reveal_strlit("Access flag fault");
    reveal_strlit("Permission fault");
    reveal_strlit("Alignment fault");
    reveal_strlit("Other / External fault");
    assert(raw & 3 <= 3) by (bit_vector);
}

/// Exception class decoded from `ESR_EL1.EC`.
#[derive(Debug, Clone, Copy, PartialEq, Eq, Structural)]
pub enum ExceptionClass {
    Unknown,
    TrappedFp,
    SvcAArch64,
    InstrAbortLowerEl,
    InstrAbortSameEl,
    PcAlignment,
    DataAbortLowerEl,
    DataAbortSameEl,
    SpAlignment,
    TrappedWfi,
    Brk,
    Other(u8),
}

/// The class a raw `EC` value names.
pub open spec fn exception_class_of(ec: u8) -> ExceptionClass {
    if ec == 0x00 {
        ExceptionClass::Unknown
    } else if ec == 0x07 {
        ExceptionClass::TrappedFp
    } else if ec == 0x15 {
        ExceptionClass::SvcAArch64
    } else if ec == 0x20 {
        ExceptionClass::InstrAbortLowerEl
    } else if ec == 0x21 {
        ExceptionClass::InstrAbortSameEl
    } else if ec == 0x22 {
        ExceptionClass::PcAlignment
    } else if ec == 0x24 {
        ExceptionClass::DataAbortLowerEl
    } else if ec == 0x25 {
        ExceptionClass::DataAbortSameEl
    } else if ec == 0x26 {
        ExceptionClass::SpAlignment
    } else if ec == 0x2F {
        ExceptionClass::TrappedWfi
    } else if ec == 0x3C {
        ExceptionClass::Brk
    } else {
        ExceptionClass::Other(ec)
    }
}

/// Human-readable description of an exception class.
pub open spec fn class_description(c: ExceptionClass) -> Seq<char> {
    match c {
        ExceptionClass::Unknown => "Unknown reason (e.g. udf instruction)"@,
        ExceptionClass::TrappedFp => "Trapped FP/SIMD/SVE access"@,
        ExceptionClass::SvcAArch64 => "SVC system call from AArch64"@,
        ExceptionClass::InstrAbortLowerEl => "Instruction abort from lower EL"@,
        ExceptionClass::InstrAbortSameEl => "Instruction abort from same EL"@,
        ExceptionClass::PcAlignment => "PC alignment fault"@,
        ExceptionClass::DataAbortLowerEl => "Data abort from lower EL"@,
        ExceptionClass::DataAbortSameEl => "Data abort from same EL"@,
        ExceptionClass::SpAlignment => "SP alignment fault"@,
        ExceptionClass::TrappedWfi => "Trapped WFI/WFE"@,
        ExceptionClass::Brk => "Software breakpoint (brk)"@,
        ExceptionClass::Other(_) => "Other / unhandled exception class"@,
    }
}

impl ExceptionClass {
    /// Construct from the raw 6-bit `EC` field of `ESR_EL1`.
    pub fn from_ec(ec: u8) -> (r: Self)
        ensures
            r == exception_class_of(ec),
    {
        match ec {
            0x00 => Self::Unknown,
            0x07 => Self::TrappedFp,
            0x15 => Self::SvcAArch64,
            0x20 => Self::InstrAbortLowerEl,
            0x21 => Self::InstrAbortSameEl,
            0x22 => Self::PcAlignment,
            0x24 => Self::DataAbortLowerEl,
            0x25 => Self::DataAbortSameEl,
            0x26 => Self::SpAlignment,
            0x2F => Self::TrappedWfi,
            0x3C => Self::Brk,
            other => Self::Other(other),
        }
    }

    /// Convenience wrapper for callers that already have a raw ESR.
    pub fn from_esr(esr: u64) -> (r: Self)
        ensures
            r == exception_class_of(((esr >> 26) & 0x3F) as u8),
    {
        Esr::from_raw(esr).class()
    }

    pub fn description(&self) -> (r: &'static str)
        ensures
            r@ == class_description(*self),
    {
        match self {
            Self::Unknown => "Unknown reason (e.g. udf instruction)",
            Self::TrappedFp => "Trapped FP/SIMD/SVE access",
            Self::SvcAArch64 => "SVC system call from AArch64",
            Self::InstrAbortLowerEl => "Instruction abort from lower EL",
            Self::InstrAbortSameEl => "Instruction abort from same EL",
            Self::PcAlignment => "PC alignment fault",
            Self::DataAbortLowerEl => "Data abort from lower EL",
            Self::DataAbortSameEl => "Data abort from same EL",
            Self::SpAlignment => "SP alignment fault",
            Self::TrappedWfi => "Trapped WFI/WFE",
            Self::Brk => "Software breakpoint (brk)",
            Self::Other(_) => "Other / unhandled exception class",
        }
    }
}

/// Every `EC` value classifies, and every class has a non-empty description.
pub proof fn lemma_exception_class_total(ec: u8)
    ensures
        class_description(exception_class_of(ec)).len() > 0,
        exception_class_of(ec) is Other <==> !(ec == 0x00 || ec == 0x07 || ec == 0x15 || ec
            == 0x20 || ec == 0x21 || ec == 0x22 || ec == 0x24 || ec == 0x25 || ec == 0x26 || ec
            == 0x2F || ec == 0x3C),
{
    reveal_strlit("Unknown reason (e.g. udf instruction)");
    reveal_strlit("Trapped FP/SIMD/SVE access");
    reveal_strlit("SVC system call from AArch64");
    reveal_strlit("Instruction abort from lower EL");
    reveal_strlit("Instruction abort from same EL");
    reveal_strlit("PC alignment fault");
    reveal_strlit("Data abort from lower EL");
    reveal_strlit("Data abort from same EL");
    reveal_strlit("SP alignment fault");
    reveal_strlit("Trapped WFI/WFE");
    reveal_strlit("Software breakpoint (brk)");
    reveal_strlit("Other / unhandled exception class");
}

/// The class decoding follows the architecture's `EC` encoding: the four
/// abort classes are exactly the codes `0b10_0x0y`, where bit 2 tells a data
/// abort from an instruction abort and bit 0 an abort taken from the same EL
/// from one taken from a lower EL; the two alignment faults are the codes
/// `0b10_0x10`, bit 2 telling SP from PC; and each named class comes from
/// exactly one code, while any other code is kept as it is.
pub proof fn lemma_exception_class_encoding(ec: u8)
    ensures
        ({
            let c = exception_class_of(ec);
            c is InstrAbortLowerEl || c is InstrAbortSameEl || c is DataAbortLowerEl
                || c is DataAbortSameEl
        }) <==> ec & 0xFA == 0x20,
        ec & 0xFA == 0x20 ==> ((exception_class_of(ec) is DataAbortLowerEl || exception_class_of(
            ec,
        ) is DataAbortSameEl) <==> ec & 0x04 != 0),
        ec & 0xFA == 0x20 ==> ((exception_class_of(ec) is InstrAbortSameEl || exception_class_of(
            ec,
        ) is DataAbortSameEl) <==> ec & 0x01 != 0),
        (exception_class_of(ec) is PcAlignment || exception_class_of(ec) is SpAlignment) <==> ec
            & 0xFB == 0x22,
        ec & 0xFB == 0x22 ==> (exception_class_of(ec) is SpAlignment <==> ec & 0x04 != 0),
        exception_class_of(ec) == ExceptionClass::Unknown <==> ec == 0x00,
        exception_class_of(ec) == ExceptionClass::TrappedFp <==> ec == 0x07,
        exception_class_of(ec) == ExceptionClass::SvcAArch64 <==> ec == 0x15,
        exception_class_of(ec) == ExceptionClass::InstrAbortLowerEl <==> ec == 0x20,
        exception_class_of(ec) == ExceptionClass::InstrAbortSameEl <==> ec == 0x21,
        exception_class_of(ec) == ExceptionClass::PcAlignment <==> ec == 0x22,
        exception_class_of(ec) == ExceptionClass::DataAbortLowerEl <==> ec == 0x24,
        exception_class_of(ec) == ExceptionClass::DataAbortSameEl <==> ec == 0x25,
        exception_class_of(ec) == ExceptionClass::SpAlignment <==> ec == 0x26,
        exception_class_of(ec) == ExceptionClass::TrappedWfi <==> ec == 0x2F,
        exception_class_of(ec) == ExceptionClass::Brk <==> ec == 0x3C,
        exception_class_of(ec) matches ExceptionClass::Other(x) ==> x == ec,
{
    assert(((ec & 0xFA == 0x20) <==> (ec == 0x20 || ec == 0x21 || ec == 0x24 || ec == 0x25)) && ((ec
        & 0xFB == 0x22) <==> (ec == 0x22 || ec == 0x26)) && (ec == 0x20 ==> ec & 0x04 == 0 && ec
        & 0x01 == 0) && (ec == 0x21 ==> ec & 0x04 == 0 && ec & 0x01 != 0) && (ec == 0x24 ==> ec
        & 0x04 != 0 && ec & 0x01 == 0) && (ec == 0x25 ==> ec & 0x04 != 0 && ec & 0x01 != 0) && (ec
        == 0x22 ==> ec & 0x04 == 0) && (ec == 0x26 ==> ec & 0x04 != 0)) by (bit_vector);
}

} // verus!
