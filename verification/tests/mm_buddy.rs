use preon::arch::mm::PhysAddr;
use preon::mm::buddy::{BuddyAllocator, Pfn as RelPfn};

const BASE: u64 = 0x4000_0000;
const PAGE: u64 = 4096;

fn pa(pfn: u64) -> PhysAddr {
    PhysAddr::from_u64(BASE + pfn * PAGE)
}

fn with_free(nr: usize, start: u32, count: usize) -> BuddyAllocator {
    let mut a = BuddyAllocator::new(PhysAddr::from_u64(BASE), nr);
    a.free_range(RelPfn::new_unchecked(start), count);
    a
}

#[test]
fn new_starts_reserved() {
    let mut a = BuddyAllocator::new(PhysAddr::from_u64(BASE), 8);
    assert_eq!(a.free_frames(), 0);
    assert_eq!(a.alloc_pages(0), None);
    assert_eq!(a.alloc_page(), None);
}

#[test]
fn pfn_pa_round_trip() {
    let a = BuddyAllocator::new(PhysAddr::from_u64(BASE), 64);
    for k in 0u64..64 {
        assert_eq!(a.pfn_of(pa(k)).index() as u64, k);
    }
}

#[test]
fn free_range_full_is_one_block() {
    let mut a = with_free(4, 0, 4);
    assert_eq!(a.free_frames(), 4);
    assert_eq!(a.alloc_pages(2), Some(pa(0)));
    assert_eq!(a.free_frames(), 0);
    assert_eq!(a.alloc_page(), None);
}

#[test]
fn free_range_unaligned_tail() {
    let mut a = with_free(4, 1, 3);
    assert_eq!(a.free_frames(), 3);
    assert_eq!(a.alloc_pages(2), None);
    assert_eq!(a.alloc_pages(1), Some(pa(2)));
    assert_eq!(a.alloc_pages(0), Some(pa(1)));
    assert_eq!(a.free_frames(), 0);
}

#[test]
fn free_range_conserves_mass() {
    for start in 0u32..16 {
        for count in 0usize..=(16 - start as usize) {
            let a = with_free(16, start, count);
            assert_eq!(a.free_frames(), count);
        }
    }
}

#[test]
fn alloc_splits_correctly() {
    let mut a = with_free(4, 0, 4);
    assert_eq!(a.alloc_pages(0), Some(pa(0)));
    assert_eq!(a.free_frames(), 3);
    // the split left an order-1 block at 2 and an order-0 block at 1
    assert_eq!(a.alloc_pages(1), Some(pa(2)));
    assert_eq!(a.alloc_pages(0), Some(pa(1)));
    assert_eq!(a.free_frames(), 0);
}

#[test]
fn alloc_oom() {
    let mut a = with_free(4, 0, 2);
    assert_eq!(a.alloc_pages(2), None);
    assert_eq!(a.free_frames(), 2);
    assert_eq!(a.alloc_pages(11), None);
    assert_eq!(a.alloc_pages(1), Some(pa(0)));
    assert_eq!(a.alloc_pages(0), None);
}

#[test]
fn free_upper_buddy_coalesces() {
    let mut a = with_free(2, 0, 2);
    let f0 = a.alloc_pages(0).unwrap();
    let f1 = a.alloc_pages(0).unwrap();
    assert_eq!((f0, f1), (pa(0), pa(1)));
    a.free_pages(f0, 0);
    a.free_pages(f1, 0);
    assert_eq!(a.free_frames(), 2);
    // the two halves merged back into one order-1 block headed by frame 0
    assert_eq!(a.alloc_pages(1), Some(pa(0)));
}

#[test]
fn free_undoes_alloc() {
    for order in 0u8..=2 {
        let mut a = with_free(8, 0, 8);
        let before = a.free_frames();
        let p = a.alloc_pages(order).unwrap();
        assert_eq!(a.free_frames(), before - (1usize << order));
        a.free_pages(p, order);
        assert_eq!(a.free_frames(), before);
        assert_eq!(a.alloc_pages(3), Some(pa(0)));
    }
}

#[test]
fn memmap_sizing() {
    assert_eq!(BuddyAllocator::memmap_frames(0), 0);
    assert_eq!(BuddyAllocator::memmap_frames(1), 1);
    assert_eq!(BuddyAllocator::memmap_frames(256), 1);
    assert_eq!(BuddyAllocator::memmap_frames(257), 2);
    assert_eq!(BuddyAllocator::memmap_frames(32768), 128);
}

#[test]
fn alloc_free_pages_round_trip() {
    for order in 0u8..=2 {
        let mut a = with_free(4, 0, 4);
        let p = a.alloc_pages(order).unwrap();
        assert_eq!(p, PhysAddr::from_u64(BASE));
        assert_eq!(p.as_u64() % PAGE, 0);
        a.free_pages(p, order);
        assert_eq!(a.free_frames(), 4);
        assert_eq!(a.alloc_pages(2), Some(pa(0)));
    }
}

#[test]
fn buddy_blocks_pair_up() {
    // Freeing both halves of an order-1 pair in either order leaves one
    // order-1 block: each half finds the other as its buddy.
    for first in [0u64, 1] {
        let mut a = with_free(2, 0, 2);
        let lo = a.alloc_pages(0).unwrap();
        let hi = a.alloc_pages(0).unwrap();
        assert_eq!((lo, hi), (pa(0), pa(1)));
        let (x, y) = if first == 0 { (lo, hi) } else { (hi, lo) };
        a.free_pages(x, 0);
        a.free_pages(y, 0);
        assert_eq!(a.alloc_pages(1), Some(pa(0)));
    }
}
