use preon::arch::exceptions::FaultStatus;
use preon::arch::mm::Level;
use preon::arch::reg::{Esr, SpsrMode};
use preon::exceptions::handlers::{el1_sync_route, SyncRoute};
use preon::exceptions::page_fault::{AccessKind, PageFaultReport};
use preon::exceptions::types::{TrapFrame, ELR_OFFSET, SIZE, SPSR_OFFSET, SP_EL0_OFFSET, X_OFFSET};

fn frame() -> TrapFrame {
    TrapFrame { x: [0; 31], sp_el0: 0x7FFF_F000, elr_el1: 0xFFFF_FFFF_8010_0040, spsr_el1: 0x3C5 }
}

#[test]
fn trap_frame_accessors() {
    let f = frame();
    assert_eq!(f.elr().as_u64(), 0xFFFF_FFFF_8010_0040);
    assert_eq!(f.user_sp().as_u64(), 0x7FFF_F000);
    assert_eq!(f.spsr().raw(), 0x3C5);
    assert_eq!(f.spsr().mode(), SpsrMode::El1h);
}

#[test]
fn trap_frame_offsets() {
    assert_eq!(X_OFFSET, 0);
    assert_eq!(SP_EL0_OFFSET, 31 * 8);
    assert_eq!(ELR_OFFSET, 31 * 8 + 8);
    assert_eq!(SPSR_OFFSET, 31 * 8 + 16);
    assert_eq!(SIZE, 272);
    assert_eq!(SIZE % 16, 0);
}

#[test]
fn access_kind_from_class() {
    // instruction abort: execute, whatever WnR says
    assert_eq!(AccessKind::of(Esr::from_raw((0x21 << 26) | (1 << 6))), AccessKind::Execute);
    assert_eq!(AccessKind::of(Esr::from_raw(0x20 << 26)), AccessKind::Execute);
    assert_eq!(AccessKind::of(Esr::from_raw((0x25 << 26) | (1 << 6))), AccessKind::Write);
    assert_eq!(AccessKind::of(Esr::from_raw(0x24 << 26)), AccessKind::Read);
    assert_eq!(AccessKind::Execute.name(), "execute");
    assert_eq!(AccessKind::Write.name(), "write");
    assert_eq!(AccessKind::Read.name(), "read");
}

#[test]
fn page_fault_report() {
    let esr = Esr::from_raw((0x25 << 26) | (1 << 25) | 0x0E);
    let r = PageFaultReport::classify(esr, 0xDEAD_0000, &frame());
    assert_eq!(r.status, FaultStatus::Permission { level: Level::L2 });
    assert_eq!(r.level, Some(Level::L2));
    assert_eq!(r.access, AccessKind::Read);
    assert_eq!(r.far, 0xDEAD_0000);
    assert!(r.far_valid);
    assert_eq!(r.elr, 0xFFFF_FFFF_8010_0040);
    assert_eq!(r.esr, esr.raw());
    let bad_far = PageFaultReport::classify(Esr::from_raw((0x21 << 26) | (1 << 10) | 0x21), 0, &frame());
    assert!(!bad_far.far_valid);
    assert_eq!(bad_far.status, FaultStatus::Alignment);
    assert_eq!(bad_far.level, None);
    assert_eq!(bad_far.access, AccessKind::Execute);
}

#[test]
fn el1_sync_routing() {
    assert_eq!(el1_sync_route(Esr::from_raw(0x25 << 26)), SyncRoute::PageFault);
    assert_eq!(el1_sync_route(Esr::from_raw(0x21 << 26)), SyncRoute::PageFault);
    assert_eq!(el1_sync_route(Esr::from_raw(0x24 << 26)), SyncRoute::Dump);
    assert_eq!(el1_sync_route(Esr::from_raw(0x15 << 26)), SyncRoute::Dump);
    assert_eq!(el1_sync_route(Esr::from_raw(0)), SyncRoute::Dump);
}
