//! Page-fault classification for data and instruction aborts.
//!
//! Today a fault is classified and reported, then the CPU parks; this is
//! the seam where demand paging and copy-on-write will branch on the same
//! decode.

use vstd::prelude::*;

use crate::arch::exceptions::{exception_class_of, fault_level, fault_status_of, ExceptionClass, FaultStatus};
use crate::arch::mm::Level;
use crate::arch::reg::{esr_ec, Esr};
use crate::exceptions::types::TrapFrame;

verus! {

/// What the faulting access was doing.
#[derive(Debug, Clone, Copy, PartialEq, Eq, Structural)]
pub enum AccessKind {
    Execute,
    Write,
    Read,
}

/// The access kind of an abort: an instruction abort is always a fetch;
/// a data abort is a write or a read per its `WnR` bit.
pub open spec fn access_kind_of(class: ExceptionClass, wnr: bool) -> AccessKind {
    match class {
        ExceptionClass::InstrAbortSameEl | ExceptionClass::InstrAbortLowerEl => AccessKind::Execute,
        _ => if wnr {
            AccessKind::Write
        } else {
            AccessKind::Read
        },
    }
}

impl AccessKind {
    /// The access kind of the abort `esr` describes. `WnR` is read only for
    /// data aborts: on an instruction abort that bit means something else.
    pub fn of(esr: Esr) -> (r: AccessKind)
        ensures
            r == access_kind_of(exception_class_of(esr_ec(esr@) as u8), (esr@ >> 6) & 1 == 1),
    {
        match esr.class() {
            ExceptionClass::InstrAbortSameEl | ExceptionClass::InstrAbortLowerEl => {
                AccessKind::Execute
            },
            _ => {
                if esr.is_write() {
                    AccessKind::Write
                } else {
                    AccessKind::Read
                }
            },
        }
    }

    /// The word a report uses for the access.
    pub fn name(self) -> (r: &'static str)
        ensures
            self == AccessKind::Execute ==> r@ == "execute"@,
            self == AccessKind::Write ==> r@ == "write"@,
            self == AccessKind::Read ==> r@ == "read"@,
    {
        match self {
            AccessKind::Execute => "execute",
            AccessKind::Write => "write",
            AccessKind::Read => "read",
        }
    }
}

/// Everything a page-fault report says about one abort.
#[derive(Debug, Clone, Copy)]
pub struct PageFaultReport {
    pub status: FaultStatus,
    pub level: Option<Level>,
    pub access: AccessKind,
    pub far: u64,
    /// `FAR_EL1` is trustworthy only when `FnV` is clear.
    pub far_valid: bool,
    pub elr: u64,
    pub esr: u64,
}

impl PageFaultReport {
    /// Classify the abort described by `esr`, taken with fault address `far`
    /// while running the code saved in `frame`.
    pub fn classify(esr: Esr, far: u64, frame: &TrapFrame) -> (r: PageFaultReport)
        ensures
            r.status == fault_status_of((esr@ & 0x3F) as u8),
            r.level == fault_level(r.status),
            r.access == access_kind_of(exception_class_of(esr_ec(esr@) as u8), (esr@ >> 6) & 1 == 1),
            r.far == far,
            r.far_valid == ((esr@ >> 10) & 1 == 0),
            r.elr == frame.elr_el1,
            r.esr == esr@,
    {
        let status = esr.fault_status();
        PageFaultReport {
            status,
            level: status.level(),
            access: AccessKind::of(esr),
            far,
            far_valid: esr.far_valid(),
            elr: frame.elr().as_u64(),
            esr: esr.raw(),
        }
    }
}

} // verus!
