use preon::arch::mm::PhysAddr;
use preon::mm::buddy::{BuddyAllocator, Pfn as RelPfn};
use preon::mm::layout::KERNEL_LINEAR_BASE;
use preon::mm::slab::{
    class_bytes, large_alloc, large_dealloc, objects_per_page, pages_order, size_class_index, Slab,
    NR_CLASSES,
};

const BASE: u64 = 0x4000_0000;

fn buddy_with(nr: usize) -> BuddyAllocator {
    let mut b = BuddyAllocator::new(PhysAddr::from_u64(BASE), nr);
    b.free_range(RelPfn::new_unchecked(0), nr);
    b
}

#[test]
fn size_class_is_smallest_fit() {
    for size in 1usize..=4096 {
        for shift in 0u32..=12 {
            let align = 1usize << shift;
            let need = size.max(align);
            match size_class_index(size, align) {
                Some(i) => {
                    assert!(class_bytes(i) >= size && class_bytes(i) >= align);
                    if i > 0 {
                        assert!(class_bytes(i - 1) < need);
                    }
                }
                None => assert!(need > 2048),
            }
        }
    }
}

#[test]
fn size_class_examples() {
    assert_eq!(size_class_index(1, 1), Some(0));
    assert_eq!(size_class_index(8, 8), Some(0));
    assert_eq!(size_class_index(9, 1), Some(1));
    assert_eq!(size_class_index(8, 16), Some(1));
    assert_eq!(size_class_index(2048, 1), Some(8));
    assert_eq!(size_class_index(2049, 1), None);
    assert_eq!(size_class_index(1, 4096), None);
    assert_eq!(size_class_index(0, 0), Some(0));
}

#[test]
fn carving_stays_in_page() {
    for idx in 0..NR_CLASSES {
        let n = objects_per_page(idx);
        assert!(n >= 1);
        assert!(n * class_bytes(idx) <= 4096);
    }
    assert_eq!(objects_per_page(0), 512);
    assert_eq!(objects_per_page(8), 2);
}

#[test]
fn pages_order_values() {
    assert_eq!(pages_order(0), 0);
    assert_eq!(pages_order(1), 0);
    assert_eq!(pages_order(4096), 0);
    assert_eq!(pages_order(4097), 1);
    assert_eq!(pages_order(8192), 1);
    assert_eq!(pages_order(8193), 2);
    assert_eq!(pages_order(3 * 4096), 2);
    assert_eq!(pages_order(1 << 20), 8);
    assert_eq!(pages_order(usize::MAX), 52);
}

#[test]
fn push_pop_is_lifo() {
    let mut slab = Slab::new();
    slab.push(0, 0x1000);
    slab.push(0, 0x1008);
    assert_eq!(slab.pop(0), Some(0x1008));
    assert_eq!(slab.pop(0), Some(0x1000));
    assert_eq!(slab.pop(0), None);
    assert!(slab.is_empty(0));
}

#[test]
fn classes_are_independent() {
    let mut slab = Slab::new();
    slab.push(2, 0xAA);
    assert!(slab.is_empty(1));
    assert_eq!(slab.pop(1), None);
    assert_eq!(slab.pop(2), Some(0xAA));
}

#[test]
fn refill_carves_one_page() {
    let mut buddy = buddy_with(4);
    let mut slab = Slab::new();
    assert_eq!(slab.refill(8, &mut buddy), Some(()));
    assert_eq!(buddy.free_frames(), 3);
    let va = KERNEL_LINEAR_BASE + BASE;
    assert_eq!(slab.pop(8), Some(va + 2048));
    assert_eq!(slab.pop(8), Some(va));
    assert_eq!(slab.pop(8), None);
}

#[test]
fn refill_fails_when_buddy_is_empty() {
    let mut buddy = BuddyAllocator::new(PhysAddr::from_u64(BASE), 4);
    let mut slab = Slab::new();
    assert_eq!(slab.refill(0, &mut buddy), None);
    assert!(slab.is_empty(0));
}

#[test]
fn alloc_object_reuses_freed_objects() {
    let mut buddy = buddy_with(4);
    let mut slab = Slab::new();
    let a = slab.alloc_object(&mut buddy, 16, 8).unwrap();
    assert_eq!(a, KERNEL_LINEAR_BASE + BASE + 255 * 16);
    let b = slab.alloc_object(&mut buddy, 12, 4).unwrap();
    assert_eq!(b, a - 16);
    slab.dealloc_object(&mut buddy, a, 16, 8);
    assert_eq!(slab.alloc_object(&mut buddy, 16, 8), Some(a));
    assert_eq!(buddy.free_frames(), 3);
}

#[test]
fn alloc_object_fails_without_memory() {
    let mut buddy = BuddyAllocator::new(PhysAddr::from_u64(BASE), 4);
    let mut slab = Slab::new();
    assert_eq!(slab.alloc_object(&mut buddy, 64, 8), None);
    assert_eq!(slab.alloc_object(&mut buddy, 8192, 8), None);
}

#[test]
fn large_requests_take_whole_pages() {
    let mut buddy = buddy_with(8);
    let mut slab = Slab::new();
    let p = slab.alloc_object(&mut buddy, 8192, 8).unwrap();
    assert_eq!(p, KERNEL_LINEAR_BASE + BASE);
    assert_eq!(buddy.free_frames(), 6);
    slab.dealloc_object(&mut buddy, p, 8192, 8);
    assert_eq!(buddy.free_frames(), 8);
    let q = large_alloc(&mut buddy, 3 * 4096).unwrap();
    assert_eq!(buddy.free_frames(), 4);
    large_dealloc(&mut buddy, q, 3 * 4096);
    assert_eq!(buddy.free_frames(), 8);
}
