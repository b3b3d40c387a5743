use preon::arch::mm::{Level, PhysAddr, VirtAddr};
use preon::mm::attrs::MemoryAttr;
use preon::mm::identity;
use preon::mm::kernel_map::{self, ImageLayout, ImageSection};
use preon::mm::layout::{KERNEL_IMAGE_BASE, KERNEL_LINEAR_BASE};
use preon::mm::page_table::{
    Access, Entry, Executable, LeafAttrs, MapError, PagePool, PageTable, Shareability, AF,
    OUTPUT_ADDR_MASK, POOL_PAGES, PXN, UXN,
};
use preon::mm::ram::{for_each_region, RamRegion};
use preon::mm::types::FrameAllocator;

const POOL_BASE: u64 = 0x4800_0000;

fn kernel_ram() -> LeafAttrs {
    LeafAttrs {
        memory: MemoryAttr::Normal,
        access: Access::KernelReadWrite,
        share: Shareability::InnerShareable,
        execute: Executable::Kernel,
    }
}

fn device_uart() -> LeafAttrs {
    LeafAttrs {
        memory: MemoryAttr::DeviceNGNRE,
        access: Access::KernelReadWrite,
        share: Shareability::NonShareable,
        execute: Executable::Never,
    }
}

/// Walk `va` from `root` down to `depth`, returning the entry read there.
fn walk(pool: &PagePool, root: PhysAddr, va: u64, depth: usize) -> Option<Entry> {
    let levels = [Level::L0, Level::L1, Level::L2, Level::L3];
    let mut table = root;
    for d in 0..=depth {
        let e = pool.entry(table, levels[d].index_in(VirtAddr::from_u64(va)));
        if d == depth {
            return Some(e);
        }
        if !e.is_table_or_page() {
            return None;
        }
        table = e.output_addr();
    }
    None
}

#[test]
fn leaf_attr_bits() {
    assert_eq!(kernel_ram().bits(), 0x0040_0000_0000_0700);
    assert_eq!(device_uart().bits(), 0x0060_0000_0000_040C);
    assert_eq!(Access::KernelReadOnly.bits(), 0x80);
    assert_eq!(Access::SharedReadWrite.bits(), 0x40);
    assert_eq!(Executable::User.bits(), PXN);
    assert_eq!(Executable::Kernel.bits(), UXN);
    assert_eq!(Executable::Never.bits(), PXN | UXN);
    assert_eq!(kernel_ram().bits() & AF, AF);
}

#[test]
fn page_encoding_round_trip() {
    for pa in [0u64, 0x1000, 0x4000_0000, 0x0000_FFFF_FFFF_F000] {
        let e = Entry::page(PhysAddr::from_u64(pa), kernel_ram());
        assert_eq!(e.output_addr().as_u64(), pa);
        assert!(e.is_valid());
        assert!(e.is_table_or_page());
        assert!(!e.is_block());
    }
}

#[test]
fn table_encoding_round_trip() {
    for pa in [0u64, 0x1000, 0x4800_3000, 0x0000_FFFF_FFFF_F000] {
        let e = Entry::table(PhysAddr::from_u64(pa));
        assert_eq!(e.output_addr().as_u64(), pa);
        assert_eq!(e.raw(), pa | 3);
        assert!(e.is_valid());
        assert!(e.is_table_or_page());
        assert!(!e.is_block());
    }
}

#[test]
fn block_encoding_round_trip() {
    for pa in [0u64, 0x20_0000, 0x4000_0000] {
        let e = Entry::block(PhysAddr::from_u64(pa), Level::L2, kernel_ram());
        assert_eq!(e.output_addr().as_u64(), pa);
        assert!(e.is_valid());
        assert!(e.is_block());
        assert!(!e.is_table_or_page());
    }
    let b = Entry::block(PhysAddr::from_u64(0x4000_0000), Level::L1, kernel_ram());
    assert_eq!(b.raw(), 0x0040_0000_4000_0701);
}

#[test]
fn unaligned_address_is_masked() {
    let e = Entry::table(PhysAddr::from_u64(0xFFFF_0000_1234_5678));
    assert_eq!(e.output_addr().as_u64(), 0x0000_0000_1234_5000);
    assert_eq!(OUTPUT_ADDR_MASK, 0x0000_FFFF_FFFF_F000);
}

#[test]
fn invalid_entry_is_inert() {
    let e = Entry::invalid();
    assert_eq!(e.raw(), 0);
    assert!(!e.is_valid());
    assert!(!e.is_block());
    assert!(!e.is_table_or_page());
    assert_eq!(e.output_addr().as_u64(), 0);
}

#[test]
fn page_table_entry_access() {
    let mut t = PageTable::zeroed();
    assert_eq!(t.entries.len(), 512);
    let va = VirtAddr::from_u64(0x4020_1000);
    assert_eq!(t.entry_at(va, Level::L2), Entry::invalid());
    *t.entry_at_mut(va, Level::L2) = Entry::table(PhysAddr::from_u64(0x5000));
    assert_eq!(t.entries[1].output_addr().as_u64(), 0x5000);
    assert_eq!(t.entry_at(va, Level::L2).raw(), 0x5003);
    assert_eq!(t.entry_at(va, Level::L3).raw(), 0x5003);
}

#[test]
fn map_reads_back_and_builds_path() {
    let mut pool = PagePool::new(PhysAddr::from_u64(POOL_BASE));
    let root = pool.alloc_page();
    assert_eq!(root.as_u64(), POOL_BASE);
    let va = 0x0000_0012_3456_7000u64;
    let pa = PhysAddr::from_u64(0x4321_0000);
    assert_eq!(pool.tables_needed_for(root, VirtAddr::from_u64(va), Level::L3), Some(3));
    pool.map(root, VirtAddr::from_u64(va), pa, Level::L3, kernel_ram());
    assert_eq!(pool.used(), 4);
    assert_eq!(walk(&pool, root, va, 3), Some(Entry::page(pa, kernel_ram())));
    // a neighbouring page reuses every table
    assert_eq!(pool.tables_needed_for(root, VirtAddr::from_u64(va + 0x1000), Level::L3), Some(0));
}

#[test]
fn map_preserves_other_mappings() {
    let mut pool = PagePool::new(PhysAddr::from_u64(POOL_BASE));
    let root = pool.alloc_page();
    let a = 0x4000_0000u64;
    let b = 0x4000_1000u64;
    let c = 0x8000_0000u64;
    pool.map(root, VirtAddr::from_u64(a), PhysAddr::from_u64(0x1000), Level::L3, kernel_ram());
    pool.map(root, VirtAddr::from_u64(b), PhysAddr::from_u64(0x2000), Level::L3, kernel_ram());
    pool.map(root, VirtAddr::from_u64(c), PhysAddr::from_u64(0x4000_0000), Level::L1, kernel_ram());
    assert_eq!(walk(&pool, root, a, 3), Some(Entry::page(PhysAddr::from_u64(0x1000), kernel_ram())));
    assert_eq!(walk(&pool, root, b, 3), Some(Entry::page(PhysAddr::from_u64(0x2000), kernel_ram())));
    assert_eq!(
        walk(&pool, root, c, 1),
        Some(Entry::block(PhysAddr::from_u64(0x4000_0000), Level::L1, kernel_ram()))
    );
}

#[test]
fn try_map_refuses_to_descend_through_a_block() {
    let mut pool = PagePool::new(PhysAddr::from_u64(POOL_BASE));
    let root = pool.alloc_page();
    pool.map(root, VirtAddr::from_u64(0x4000_0000), PhysAddr::from_u64(0x4000_0000), Level::L2, kernel_ram());
    let used = pool.used();
    let r = pool.try_map(
        root,
        VirtAddr::from_u64(0x4000_1000),
        PhysAddr::from_u64(0x1000),
        Level::L3,
        kernel_ram(),
    );
    assert_eq!(r, Err(MapError::BlockInTheWay));
    assert_eq!(pool.used(), used);
}

#[test]
fn try_map_refuses_when_pool_is_exhausted() {
    let mut pool = PagePool::new(PhysAddr::from_u64(POOL_BASE));
    let root = pool.alloc_page();
    let mut i = 0u64;
    loop {
        let va = VirtAddr::from_u64(i << 39);
        match pool.try_map(root, va, PhysAddr::from_u64(0x1000), Level::L3, kernel_ram()) {
            Ok(()) => i += 1,
            Err(e) => {
                assert_eq!(e, MapError::PoolExhausted);
                break;
            }
        }
    }
    assert_eq!(i, 10);
    assert_eq!(pool.used(), 31);
    assert!(pool.used() <= POOL_PAGES);
}

#[test]
fn identity_map_covers_ram_and_uart() {
    let mut pool = PagePool::new(PhysAddr::from_u64(POOL_BASE));
    let root = identity::build(&mut pool);
    assert_eq!(root.as_u64(), POOL_BASE);
    assert_eq!(pool.used(), 5);
    for k in 0..64u64 {
        let pa = 0x4000_0000 + k * 0x20_0000;
        assert_eq!(
            walk(&pool, root, pa, 2),
            Some(Entry::block(PhysAddr::from_u64(pa), Level::L2, kernel_ram()))
        );
    }
    let uart = walk(&pool, root, 0x0900_0000, 3).unwrap();
    assert_eq!(uart, Entry::page(PhysAddr::from_u64(0x0900_0000), device_uart()));
    assert_eq!(uart.raw(), 0x0060_0000_0900_040F);
    assert_eq!(pool.entry(root, 0).raw(), (POOL_BASE + 0x1000) | 3);
}

#[test]
fn ram_regions_keep_only_sized_ranges() {
    let ranges = vec![(0x4000_0000u64, Some(0x800_0000usize)), (0x9000_0000, None), (0x1_0000_0000, Some(0x1000))];
    let regions = for_each_region(&ranges);
    assert_eq!(regions.len(), 2);
    assert_eq!((regions[0].base.as_u64(), regions[0].size), (0x4000_0000, 0x800_0000));
    assert_eq!((regions[1].base.as_u64(), regions[1].size), (0x1_0000_0000, 0x1000));
}

#[test]
fn map_region_prefers_large_blocks() {
    let mut pool = PagePool::new(PhysAddr::from_u64(POOL_BASE));
    let root = pool.alloc_page();
    let attrs = kernel_map::data_attrs();
    let r = kernel_map::map_region(&mut pool, root, PhysAddr::from_u64(0x4000_0000), 0x4020_0000, attrs);
    assert_eq!(r, Ok(()));
    let one_gib = walk(&pool, root, KERNEL_LINEAR_BASE + 0x4000_0000, 1).unwrap();
    assert!(one_gib.is_block());
    assert_eq!(one_gib.output_addr().as_u64(), 0x4000_0000);
    let tail = walk(&pool, root, KERNEL_LINEAR_BASE + 0x8000_0000, 2).unwrap();
    assert!(tail.is_block());
    assert_eq!(tail.output_addr().as_u64(), 0x8000_0000);
}

#[test]
fn map_region_refuses_unaligned_tail() {
    let mut pool = PagePool::new(PhysAddr::from_u64(POOL_BASE));
    let root = pool.alloc_page();
    let attrs = kernel_map::data_attrs();
    let r = kernel_map::map_region(&mut pool, root, PhysAddr::from_u64(0x4000_0000), 0x20_1000, attrs);
    assert_eq!(r, Err(MapError::UnalignedTail { pa: 0x4020_0000, remaining: 0x1000 }));
    let r = kernel_map::map_region(&mut pool, root, PhysAddr::from_u64(0x1000), 0x20_0000, attrs);
    assert_eq!(r, Err(MapError::UnalignedTail { pa: 0x1000, remaining: 0x20_0000 }));
}

#[test]
fn kernel_map_build_maps_ram_and_image() {
    let mut pool = PagePool::new(PhysAddr::from_u64(POOL_BASE));
    let regions = vec![RamRegion { base: PhysAddr::from_u64(0x4000_0000), size: 0x800_0000 }];
    let sec = |off: u64, len: u64| ImageSection {
        start: VirtAddr::from_u64(KERNEL_IMAGE_BASE + off),
        end: VirtAddr::from_u64(KERNEL_IMAGE_BASE + off + len),
    };
    let layout = ImageLayout {
        text: sec(0x10_0000, 0x2000),
        rodata: sec(0x10_2000, 0x1000),
        data: sec(0x10_3000, 0x1000),
        bss: sec(0x10_4000, 0x1000),
        stack: sec(0x10_5000, 0x1000),
    };
    let root = kernel_map::build(&mut pool, &regions, &layout).unwrap();
    let linear = walk(&pool, root, KERNEL_LINEAR_BASE + 0x4020_0000, 2).unwrap();
    assert_eq!(linear, Entry::block(PhysAddr::from_u64(0x4020_0000), Level::L2, kernel_map::data_attrs()));
    let text = walk(&pool, root, KERNEL_IMAGE_BASE + 0x10_1000, 3).unwrap();
    assert_eq!(text, Entry::page(PhysAddr::from_u64(0x4010_1000), kernel_map::text_attrs()));
    let rodata = walk(&pool, root, KERNEL_IMAGE_BASE + 0x10_2000, 3).unwrap();
    assert_eq!(rodata, Entry::page(PhysAddr::from_u64(0x4010_2000), kernel_map::rodata_attrs()));
    let stack = walk(&pool, root, KERNEL_IMAGE_BASE + 0x10_5000, 3).unwrap();
    assert_eq!(stack.output_addr().as_u64(), 0x4010_5000);
}

#[test]
fn build_linear_reports_each_refusal() {
    let region = |base: u64, size: usize| RamRegion { base: PhysAddr::from_u64(base), size };
    // disjoint, aligned regions all map
    let mut pool = PagePool::new(PhysAddr::from_u64(POOL_BASE));
    let root = pool.alloc_page();
    let ok = vec![region(0x4000_0000, 0x4000_0000), region(0x8000_0000, 0x40_0000)];
    assert_eq!(kernel_map::build_linear(&mut pool, root, &ok), Ok(()));
    let tail = walk(&pool, root, KERNEL_LINEAR_BASE + 0x8020_0000, 2).unwrap();
    assert_eq!(tail.output_addr().as_u64(), 0x8020_0000);
    // a 2 MiB block inside an already mapped 1 GiB block
    let mut pool = PagePool::new(PhysAddr::from_u64(POOL_BASE));
    let root = pool.alloc_page();
    let nested = vec![region(0x4000_0000, 0x4000_0000), region(0x4000_0000, 0x20_0000)];
    assert_eq!(kernel_map::build_linear(&mut pool, root, &nested), Err(MapError::BlockInTheWay));
    // a region whose end fits no block
    let mut pool = PagePool::new(PhysAddr::from_u64(POOL_BASE));
    let root = pool.alloc_page();
    let ragged = vec![region(0x4000_0000, 0x20_1000)];
    assert_eq!(
        kernel_map::build_linear(&mut pool, root, &ragged),
        Err(MapError::UnalignedTail { pa: 0x4020_0000, remaining: 0x1000 })
    );
}

#[test]
fn page_pool_is_a_frame_allocator() {
    let mut pool = PagePool::new(PhysAddr::from_u64(POOL_BASE));
    let a = FrameAllocator::alloc_page(&mut pool);
    let b = FrameAllocator::alloc_page(&mut pool);
    assert_eq!((a.as_u64(), b.as_u64()), (POOL_BASE, POOL_BASE + 4096));
    assert_eq!(pool.used(), 2);
}

#[test]
fn builders_report_the_refusal() {
    let sec = |off: u64, len: u64| ImageSection {
        start: VirtAddr::from_u64(KERNEL_IMAGE_BASE + off),
        end: VirtAddr::from_u64(KERNEL_IMAGE_BASE + off + len),
    };
    let layout = ImageLayout {
        text: sec(0x10_0000, 0x2000),
        rodata: sec(0x10_2000, 0x1000),
        data: sec(0x10_3000, 0x1000),
        bss: sec(0x10_4000, 0x1000),
        stack: sec(0x10_5000, 0x1000),
    };
    // an image page under an existing 2 MiB block cannot be mapped
    let mut pool = PagePool::new(PhysAddr::from_u64(POOL_BASE));
    let root = pool.alloc_page();
    let blocked = pool.try_map(
        root,
        VirtAddr::from_u64(KERNEL_IMAGE_BASE),
        PhysAddr::from_u64(0x4000_0000),
        Level::L2,
        kernel_map::data_attrs(),
    );
    assert_eq!(blocked, Ok(()));
    assert_eq!(kernel_map::build_image(&mut pool, root, &layout), Err(MapError::BlockInTheWay));
    // a RAM region with a ragged end stops the whole build
    let mut pool = PagePool::new(PhysAddr::from_u64(POOL_BASE));
    let regions = vec![RamRegion { base: PhysAddr::from_u64(0x4000_0000), size: 0x20_1000 }];
    assert_eq!(
        kernel_map::build(&mut pool, &regions, &layout),
        Err(MapError::UnalignedTail { pa: 0x4020_0000, remaining: 0x1000 })
    );
}
