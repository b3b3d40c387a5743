use preon::arch::mm::{PhysAddr, VirtAddr};
use preon::mm::attrs::{mair_slot, mair_value, MemoryAttr, MAIR_VALUE};
use preon::mm::layout::{
    image_va_to_pa, linear_va_to_pa, pa_to_device_va, pa_to_linear_va, IMAGE_PA_BASE,
    KERNEL_DEVICE_BASE, KERNEL_IMAGE_BASE, KERNEL_LINEAR_BASE,
};
use preon::mm::tcr::{kernel_tcr, kernel_tcr_value, TcrConfig, KERNEL_TCR_VALUE};
use preon::mm::types::{
    Cacheability, FrameCount, Granule, Order, Pfn, PhysAddrSize, Shareability, VirtAddrSize,
};

#[test]
fn linear_round_trip() {
    for pa in [0u64, 0x4000_0000, 0x1234_5000, 0x3FFF_FFFF_F000] {
        let va = pa_to_linear_va(PhysAddr::from_u64(pa));
        assert_eq!(va.as_u64(), pa + KERNEL_LINEAR_BASE);
        assert!(va.as_u64() >= KERNEL_LINEAR_BASE && va.as_u64() < KERNEL_DEVICE_BASE);
        assert_eq!(linear_va_to_pa(va).as_u64(), pa);
    }
}

#[test]
fn device_map_in_window() {
    let va = pa_to_device_va(PhysAddr::from_u64(0x0900_0000));
    assert_eq!(va.as_u64(), 0xFFFF_C000_0900_0000);
    assert!(va.as_u64() >= KERNEL_DEVICE_BASE && va.as_u64() < KERNEL_IMAGE_BASE);
}

#[test]
fn image_map_no_underflow() {
    let pa = image_va_to_pa(VirtAddr::from_u64(KERNEL_IMAGE_BASE + 0x10_0000));
    assert_eq!(pa.as_u64(), 0x4010_0000);
    assert_eq!(image_va_to_pa(VirtAddr::from_u64(KERNEL_IMAGE_BASE)).as_u64(), IMAGE_PA_BASE);
}

#[test]
fn region_bases_are_ordered() {
    assert!(KERNEL_LINEAR_BASE < KERNEL_DEVICE_BASE);
    assert!(KERNEL_DEVICE_BASE < KERNEL_IMAGE_BASE);
}

#[test]
fn mair_slots_compose() {
    assert_eq!(MemoryAttr::Normal.index(), 0);
    assert_eq!(MemoryAttr::NormalNonCacheable.index(), 1);
    assert_eq!(MemoryAttr::DeviceNGNRNE.index(), 2);
    assert_eq!(MemoryAttr::DeviceNGNRE.index(), 3);
    assert_eq!(mair_slot(MemoryAttr::DeviceNGNRE, 0x04), 0x0400_0000);
    assert_eq!(mair_value(), MAIR_VALUE);
    assert_eq!(MAIR_VALUE, 0x0400_44FF);
}

#[test]
fn field_encodings() {
    assert_eq!(Shareability::InnerShareable.bits(), 0b11);
    assert_eq!(Shareability::OuterShareable.bits(), 0b10);
    assert_eq!(Cacheability::WriteBackReadWriteAlloc.bits(), 0b01);
    assert_eq!(Granule::_4KB.to_tg0_bits(), 0b00);
    assert_eq!(Granule::_4KB.to_tg1_bits(), 0b10);
    assert_eq!(Granule::_64KB.to_tg0_bits(), 0b01);
    assert_eq!(Granule::_16KB.to_tg1_bits(), 0b01);
    assert_eq!(PhysAddrSize::_48BIT.bits(), 0b101);
    assert_eq!(VirtAddrSize::from_va_bits(48).tsz_bits(), 16);
    assert_eq!(VirtAddrSize::from_va_bits(39).tsz_bits(), 25);
    assert_eq!(VirtAddrSize::from_va_bits(25).va_bits(), 25);
}

#[test]
fn value_types() {
    assert_eq!(Pfn::new(7).raw(), 7);
    assert_eq!(Pfn::new(7).index(), 7);
    assert_eq!(FrameCount::new(9).get(), 9);
    assert_eq!(Order::new(3).raw(), 3);
    assert_eq!(Order::new(3).index(), 3);
}

#[test]
fn kernel_tcr_composes_to_expected_value() {
    assert_eq!(kernel_tcr_value(), KERNEL_TCR_VALUE);
    assert_eq!(kernel_tcr().build().raw(), 0x0000_0025_B550_3510);
}

#[test]
fn tcr_fields_read_back() {
    let raw = kernel_tcr().build().raw();
    assert_eq!(raw & 0x3F, 16); // T0SZ
    assert_eq!((raw >> 16) & 0x3F, 16); // T1SZ
    assert_eq!((raw >> 30) & 3, 0b10); // TG1 = 4 KiB
    assert_eq!((raw >> 32) & 7, 0b101); // IPS = 48 bits
    assert_eq!((raw >> 37) & 1, 1); // TBI0
    assert_eq!((raw >> 38) & 1, 0); // TBI1
    assert_eq!((raw >> 22) & 1, 1); // A1
    assert_eq!((raw >> 23) & 1, 0); // EPD1 clear
}

#[test]
fn tcr_disabled_high_half_sets_epd1() {
    let k = kernel_tcr();
    let cfg = TcrConfig { ttbr0: k.ttbr0, ttbr1: None, ips: PhysAddrSize::_40BIT, asid_from_ttbr1: false };
    let raw = cfg.build().raw();
    assert_eq!((raw >> 23) & 1, 1);
    assert_eq!((raw >> 16) & 0x3F, 0);
    assert_eq!((raw >> 22) & 1, 0);
    assert_eq!((raw >> 32) & 7, 0b010);
}
