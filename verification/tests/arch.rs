use preon::arch::exceptions::{ExceptionClass, FaultStatus};
use preon::arch::mm::{Level, PhysAddr, VirtAddr};
use preon::arch::reg::{Dfsc, Esr, Spsr, SpsrMode};

#[test]
fn level_index_shifts() {
    assert_eq!(Level::L0.index_shift(), 39);
    assert_eq!(Level::L1.index_shift(), 30);
    assert_eq!(Level::L2.index_shift(), 21);
    assert_eq!(Level::L3.index_shift(), 12);
}

#[test]
fn level_indices_tile_a_va() {
    let va = VirtAddr::from_u64(0x0000_7FAB_CDEF_1234);
    let i0 = Level::L0.index_in(va) as u64;
    let i1 = Level::L1.index_in(va) as u64;
    let i2 = Level::L2.index_in(va) as u64;
    let i3 = Level::L3.index_in(va) as u64;
    assert!(i0 < 512 && i1 < 512 && i2 < 512 && i3 < 512);
    let joined = (i0 << 27) | (i1 << 18) | (i2 << 9) | i3;
    assert_eq!(joined, (va.as_u64() >> 12) & 0xF_FFFF_FFFF);
}

#[test]
fn level_index_of_known_va() {
    let va = VirtAddr::new(0x4020_0000);
    assert_eq!(Level::L0.index_in(va), 0);
    assert_eq!(Level::L1.index_in(va), 1);
    assert_eq!(Level::L2.index_in(va), 1);
    assert_eq!(Level::L3.index_in(va), 0);
}

#[test]
fn level_blocks_and_next() {
    assert!(!Level::L0.supports_block());
    assert!(Level::L1.supports_block());
    assert!(Level::L2.supports_block());
    assert!(!Level::L3.supports_block());
    assert_eq!(Level::L0.next_level(), Level::L1);
    assert_eq!(Level::L1.next_level(), Level::L2);
    assert_eq!(Level::L2.next_level(), Level::L3);
}

#[test]
fn level_from_index_is_total() {
    assert_eq!(Level::from_index(0), Level::L0);
    assert_eq!(Level::from_index(1), Level::L1);
    assert_eq!(Level::from_index(2), Level::L2);
    assert_eq!(Level::from_index(3), Level::L3);
    assert_eq!(Level::from_index(7), Level::L3);
    assert_eq!(Level::from_index(0xFC), Level::L0);
}

#[test]
fn addresses_round_trip() {
    let pa = PhysAddr::new(0x4008_0000);
    assert_eq!(pa.as_u64(), 0x4008_0000);
    assert_eq!(pa.as_usize(), 0x4008_0000);
    let va = VirtAddr::from_u64(0xFFFF_8000_0000_1000);
    assert_eq!(va.as_u64(), 0xFFFF_8000_0000_1000);
}

#[test]
fn esr_fields() {
    // EC = 0x25 (data abort, same EL), IL = 1, ISS = WnR | DFSC 0x07
    let raw: u64 = (0x25 << 26) | (1 << 25) | (1 << 6) | 0x07;
    let esr = Esr::from_raw(raw);
    assert_eq!(esr.raw(), raw);
    assert_eq!(esr.ec_raw(), 0x25);
    assert_eq!(esr.class(), ExceptionClass::DataAbortSameEl);
    assert!(esr.il());
    assert_eq!(esr.iss(), (1 << 6) | 0x07);
    assert_eq!(esr.dfsc().raw(), 0x07);
    assert_eq!(esr.fault_status(), FaultStatus::Translation { level: Level::L3 });
    assert!(esr.is_write());
    assert!(esr.far_valid());
}

#[test]
fn esr_fields_tile_low_word() {
    let raw: u64 = 0xDEAD_BEEF_8765_4321;
    let esr = Esr::from_raw(raw);
    let joined = ((esr.ec_raw() as u64) << 26) | ((esr.il() as u64) << 25) | esr.iss() as u64;
    assert_eq!(joined, raw & 0xFFFF_FFFF);
}

#[test]
fn esr_far_not_valid_when_fnv_set() {
    let esr = Esr::from_raw((0x24 << 26) | (1 << 10));
    assert!(!esr.far_valid());
    assert!(!esr.is_write());
}

#[test]
fn fault_status_decoding() {
    assert_eq!(FaultStatus::from_dfsc(Dfsc::new(0x00)), FaultStatus::AddressSize { level: Level::L0 });
    assert_eq!(FaultStatus::from_dfsc(Dfsc::new(0x05)), FaultStatus::Translation { level: Level::L1 });
    assert_eq!(FaultStatus::from_dfsc(Dfsc::new(0x0A)), FaultStatus::AccessFlag { level: Level::L2 });
    assert_eq!(FaultStatus::from_dfsc(Dfsc::new(0x0F)), FaultStatus::Permission { level: Level::L3 });
    assert_eq!(FaultStatus::from_dfsc(Dfsc::new(0x21)), FaultStatus::Alignment);
    assert_eq!(FaultStatus::from_dfsc(Dfsc::new(0x10)), FaultStatus::Other(0x10));
}

#[test]
fn fault_status_levels_and_descriptions() {
    assert_eq!(FaultStatus::Translation { level: Level::L2 }.level(), Some(Level::L2));
    assert_eq!(FaultStatus::Alignment.level(), None);
    assert_eq!(FaultStatus::Other(0x30).level(), None);
    assert_eq!(FaultStatus::Permission { level: Level::L1 }.description(), "Permission fault");
    assert_eq!(FaultStatus::Other(0x30).description(), "Other / External fault");
    for raw in 0u8..=255 {
        assert!(!FaultStatus::from_dfsc(Dfsc::new(raw)).description().is_empty());
    }
}

#[test]
fn exception_class_decoding() {
    assert_eq!(ExceptionClass::from_ec(0x00), ExceptionClass::Unknown);
    assert_eq!(ExceptionClass::from_ec(0x15), ExceptionClass::SvcAArch64);
    assert_eq!(ExceptionClass::from_ec(0x21), ExceptionClass::InstrAbortSameEl);
    assert_eq!(ExceptionClass::from_ec(0x3C), ExceptionClass::Brk);
    assert_eq!(ExceptionClass::from_ec(0x3F), ExceptionClass::Other(0x3F));
    assert_eq!(ExceptionClass::from_esr(0x25 << 26), ExceptionClass::DataAbortSameEl);
    assert_eq!(ExceptionClass::from_esr(0xF200_0000), ExceptionClass::Brk);
    assert_eq!(ExceptionClass::Brk.description(), "Software breakpoint (brk)");
    assert_eq!(ExceptionClass::Other(1).description(), "Other / unhandled exception class");
    for ec in 0u8..64 {
        assert!(!ExceptionClass::from_ec(ec).description().is_empty());
    }
}

#[test]
fn spsr_modes() {
    assert_eq!(Spsr::from_raw(0x3C5).mode_bits(), 0x05);
    assert_eq!(Spsr::from_raw(0x3C5).mode(), SpsrMode::El1h);
    assert_eq!(Spsr::from_raw(0x0).mode(), SpsrMode::El0t);
    assert_eq!(Spsr::from_raw(0x4).mode(), SpsrMode::El1t);
    assert_eq!(Spsr::from_raw(0x3C5).raw(), 0x3C5);
}

#[test]
fn fault_status_total() {
    for raw in 0..=u8::MAX {
        let fs = FaultStatus::from_dfsc(Dfsc::new(raw));
        match fs {
            FaultStatus::AddressSize { .. }
            | FaultStatus::Translation { .. }
            | FaultStatus::AccessFlag { .. }
            | FaultStatus::Permission { .. } => {
                assert!(raw <= 0x0F);
                assert!(fs.level().is_some());
            }
            FaultStatus::Alignment | FaultStatus::Other(_) => assert!(fs.level().is_none()),
        }
        assert!(!fs.description().is_empty());
    }
}

#[test]
fn exception_class_total() {
    for ec in 0..=u8::MAX {
        assert!(!ExceptionClass::from_ec(ec).description().is_empty());
    }
}

#[test]
fn next_level_progresses() {
    assert_eq!(Level::L0.next_level(), Level::L1);
    assert_eq!(Level::L1.next_level(), Level::L2);
    assert_eq!(Level::L2.next_level(), Level::L3);
}

#[test]
fn esr_abort_syndrome_bits() {
    for raw in [0u64, 0x3F, 0x40, 0x400, 0x9600_0045, 0x9200_0404, u64::MAX, 0x1234_5678_9ABC_DEF0] {
        let esr = Esr::from_raw(raw);
        assert_eq!(esr.dfsc().raw() as u64, raw & 0x3F);
        assert_eq!(esr.is_write(), (raw >> 6) & 1 == 1);
        assert_eq!(esr.far_valid(), (raw >> 10) & 1 == 0);
    }
}
