use preon::arch::mm::PhysAddr;
use preon::mm::bootmem::BootMem;
use preon::mm::handoff::{init_buddy, memmap_placement, HandoffError};

const PAGE: usize = 4096;

/// 128 MiB of RAM at 1 GiB with a 1.5 MiB kernel image reserved near its base.
fn qemu_like() -> BootMem {
    let mut bm = BootMem::new();
    bm.add_memory_bytes(0x4000_0000, 0x4800_0000);
    bm.reserve_bytes(0x4008_0000, 0x4020_0000);
    bm
}

#[test]
fn handoff_sizes_the_allocator_over_the_span() {
    let buddy = init_buddy(qemu_like()).unwrap();
    assert_eq!(buddy.dram_base().as_u64(), 0x4000_0000);
    assert_eq!(buddy.nr_frames(), 0x8000);
}

#[test]
fn handoff_frees_everything_but_the_image_and_the_memmap() {
    let buddy = init_buddy(qemu_like()).unwrap();
    // 0x8000 frames, minus 0x180 for the image, minus 128 for the mem-map
    // (one 16-byte descriptor per frame).
    assert_eq!(buddy.free_frames(), 0x8000 - 0x180 - 128);
}

#[test]
fn handoff_never_hands_out_reserved_frames() {
    let mut buddy = init_buddy(qemu_like()).unwrap();
    let memmap = 0x4800_0000u64 - 128 * PAGE as u64;
    let mut taken = 0usize;
    while let Some(pa) = buddy.alloc_page() {
        let pa = pa.as_u64();
        assert!(pa < 0x4008_0000 || pa >= 0x4020_0000, "image frame handed out: {pa:#x}");
        assert!(pa < memmap, "mem-map frame handed out: {pa:#x}");
        assert!(pa >= 0x4000_0000 && pa < 0x4800_0000);
        taken += 1;
    }
    assert_eq!(taken, 0x8000 - 0x180 - 128);
}

#[test]
fn handoff_frees_a_gap_between_regions_as_reserved() {
    let mut bm = BootMem::new();
    bm.add_memory_bytes(0, 16 * PAGE);
    bm.add_memory_bytes(32 * PAGE, 48 * PAGE);
    let mut buddy = init_buddy(bm).unwrap();
    assert_eq!(buddy.nr_frames(), 48);
    // 48 descriptors fit one frame, carved from the top of the higher region.
    assert_eq!(buddy.free_frames(), 16 + 16 - 1);
    while let Some(pa) = buddy.alloc_page() {
        let f = pa.as_u64() as usize / PAGE;
        assert!(f < 16 || (32..47).contains(&f), "frame {f} is not free RAM");
    }
}

#[test]
fn handoff_without_room_for_the_memmap() {
    let mut bm = BootMem::new();
    bm.add_memory_bytes(0, 4 * PAGE);
    bm.reserve_bytes(0, 4 * PAGE);
    assert_eq!(init_buddy(bm).err(), Some(HandoffError::NoRoomForMemMap));
}

#[test]
fn handoff_refuses_overlapping_ram() {
    let mut bm = BootMem::new();
    bm.add_memory_bytes(0x4000_0000, 0x4010_0000);
    bm.add_memory_bytes(0x4000_0000, 0x4010_0000);
    assert_eq!(init_buddy(bm).err(), Some(HandoffError::OverlappingRam));
}

#[test]
fn handoff_refuses_a_span_past_the_link_space() {
    let mut bm = BootMem::new();
    bm.add_memory_bytes(0, PAGE);
    bm.add_memory_bytes((u32::MAX as usize - 1) * PAGE, u32::MAX as usize * PAGE);
    assert_eq!(init_buddy(bm).err(), Some(HandoffError::SpanTooLarge));
}

#[test]
fn handoff_frame_addresses_map_back() {
    let buddy = init_buddy(qemu_like()).unwrap();
    let pfn = buddy.pfn_of(PhysAddr::new(0x4000_0000 + 5 * PAGE));
    assert_eq!(pfn.raw(), 5);
}

#[test]
fn handoff_carves_maximal_blocks() {
    // RAM [0, 16) frames, nothing reserved: the one-frame mem-map takes
    // frame 15, and [0, 15) is carved into blocks of 8, 4, 2 and 1 frames.
    let mut bm = BootMem::new();
    bm.add_memory_bytes(0, 16 * PAGE);
    let mut buddy = init_buddy(bm).unwrap();
    assert_eq!(buddy.free_frames(), 15);
    assert_eq!(buddy.alloc_pages(3).map(|p| p.as_u64()), Some(0));
    assert_eq!(buddy.alloc_pages(2).map(|p| p.as_u64()), Some(8 * PAGE as u64));
    assert_eq!(buddy.alloc_pages(1).map(|p| p.as_u64()), Some(12 * PAGE as u64));
    assert_eq!(buddy.alloc_pages(0).map(|p| p.as_u64()), Some(14 * PAGE as u64));
    assert_eq!(buddy.alloc_pages(0), None);
}

#[test]
fn memmap_placement_matches_the_handoff() {
    let bm = qemu_like();
    assert_eq!(memmap_placement(&bm), Some((0x4800_0 - 128, 128)));
    let mut full = BootMem::new();
    full.add_memory_bytes(0, 4 * PAGE);
    full.reserve_bytes(0, 4 * PAGE);
    assert_eq!(memmap_placement(&full), None);
}
