//! Routing of exceptions taken at EL1.

use vstd::prelude::*;

use crate::arch::exceptions::{exception_class_of, ExceptionClass};
use crate::arch::reg::{esr_ec, Esr};

verus! {

/// Where a synchronous exception at EL1 goes.
#[derive(Debug, Clone, Copy, PartialEq, Eq, Structural)]
pub enum SyncRoute {
    /// A same-EL data or instruction abort: the page-fault path.
    PageFault,
    /// Anything else (SVC from the kernel, `brk`, `udf`, alignment, …):
    /// the generic register dump.
    Dump,
}

/// The route of a synchronous exception of class `c` taken at EL1.
pub open spec fn sync_route_of(c: ExceptionClass) -> SyncRoute {
    match c {
        ExceptionClass::DataAbortSameEl | ExceptionClass::InstrAbortSameEl => SyncRoute::PageFault,
        _ => SyncRoute::Dump,
    }
}

/// Route the synchronous exception `esr` describes.
pub fn el1_sync_route(esr: Esr) -> (r: SyncRoute)
    ensures
        r == sync_route_of(exception_class_of(esr_ec(esr@) as u8)),
        r == SyncRoute::PageFault <==> (esr_ec(esr@) == 0x25 || esr_ec(esr@) == 0x21),
{
    proof {
        let x = esr@;
        assert(((x >> 26u64) & 0x3Fu64) < 64) by (bit_vector);
    }
    match esr.class() {
        ExceptionClass::DataAbortSameEl | ExceptionClass::InstrAbortSameEl => SyncRoute::PageFault,
        _ => SyncRoute::Dump,
    }
}

} // verus!
