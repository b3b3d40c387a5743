use preon::mm::bootmem::{BootMem, Region};
use preon::mm::types::{FrameCount, Pfn};

const PAGE: usize = 4096;

fn region(base: u32, frames: usize) -> Region {
    Region { base: Pfn::new(base), frames: FrameCount::new(frames) }
}

fn pairs(rs: &[Region]) -> Vec<(u32, usize)> {
    rs.iter().map(|r| (r.base.raw(), r.frames.get())).collect()
}

/// RAM `[0, 8)` with `[2, 4)` reserved.
fn ram8_with_hole() -> BootMem {
    let mut bm = BootMem::new();
    bm.add_memory_bytes(0, 8 * PAGE);
    bm.reserve_bytes(2 * PAGE, 4 * PAGE);
    bm
}

#[test]
fn overlaps_is_symmetric() {
    let rs = [region(0, 4), region(3, 2), region(4, 1), region(10, 3), region(5, 6)];
    for a in rs {
        for b in rs {
            assert_eq!(a.overlaps(b), b.overlaps(a));
        }
    }
}

#[test]
fn overlaps_matches_definition() {
    let rs = [region(0, 4), region(3, 2), region(4, 1), region(10, 3), region(5, 6)];
    for a in rs {
        for b in rs {
            let lo = a.base.raw().max(b.base.raw());
            let hi = a.end().raw().min(b.end().raw());
            assert_eq!(a.overlaps(b), lo < hi);
        }
    }
}

#[test]
fn for_each_free_two_holes() {
    let bm = ram8_with_hole();
    assert_eq!(pairs(&bm.for_each_free()), vec![(0, 2), (4, 4)]);
}

#[test]
fn for_each_free_two_reserved() {
    let mut bm = BootMem::new();
    bm.add_memory_bytes(0, 8 * PAGE);
    bm.reserve_bytes(4 * PAGE, 5 * PAGE);
    bm.reserve_bytes(PAGE, 2 * PAGE);
    assert_eq!(pairs(&bm.for_each_free()), vec![(0, 1), (2, 2), (5, 3)]);
}

#[test]
fn for_each_free_conserves_mass() {
    for m in 1usize..=8 {
        for rb in 0usize..=8 {
            for rf in 1usize..=8 {
                let mut bm = BootMem::new();
                bm.add_memory_bytes(0, m * PAGE);
                bm.reserve_bytes(rb * PAGE, (rb + rf) * PAGE);
                let freed: usize = bm.for_each_free().iter().map(|h| h.frames.get()).sum();
                let hi = (rb + rf).min(m);
                let overlap = if hi > rb { hi - rb } else { 0 };
                assert_eq!(freed, m - overlap);
            }
        }
    }
}

#[test]
fn free_holes_are_exactly_unreserved_ram() {
    let mut bm = BootMem::new();
    bm.add_memory_bytes(0, 10 * PAGE);
    bm.add_memory_bytes(20 * PAGE, 30 * PAGE);
    bm.reserve_bytes(8 * PAGE, 22 * PAGE);
    bm.reserve_bytes(3 * PAGE, 4 * PAGE);
    bm.reserve_bytes(25 * PAGE, 26 * PAGE);
    let holes = bm.for_each_free();
    let mem = bm.memory_regions();
    let res = bm.reserved_regions();
    for q in 0u32..40 {
        let in_hole = holes.iter().any(|h| h.base.raw() <= q && q < h.end().raw());
        let in_ram = mem.iter().any(|h| h.base.raw() <= q && q < h.end().raw());
        let in_res = res.iter().any(|h| h.base.raw() <= q && q < h.end().raw());
        assert_eq!(in_hole, in_ram && !in_res, "frame {}", q);
    }
}

#[test]
fn reserve_keeps_sorted() {
    for base in 0usize..=8 {
        let mut bm = BootMem::new();
        bm.reserve_bytes(2 * PAGE, 3 * PAGE);
        bm.reserve_bytes(5 * PAGE, 6 * PAGE);
        bm.reserve_bytes(base * PAGE, (base + 1) * PAGE);
        let res = bm.reserved_regions();
        assert_eq!(res.len(), 3);
        for i in 1..res.len() {
            assert!(res[i - 1].base.raw() <= res[i].base.raw());
        }
    }
}

#[test]
fn add_memory_appends() {
    let mut bm = BootMem::new();
    bm.add_memory_bytes(0, 4 * PAGE);
    bm.add_memory_bytes(10 * PAGE, 14 * PAGE);
    assert_eq!(pairs(&bm.memory_regions()), vec![(0, 4), (10, 4)]);
}

#[test]
fn reserve_bytes_rounds_outward() {
    for (b, e) in [(100usize, 5000usize), (4096, 8192), (1, 2), (8191, 8193)] {
        let mut bm = BootMem::new();
        bm.reserve_bytes(b, e);
        let r = bm.reserved_regions()[0];
        assert!(r.base.index() * PAGE <= b);
        assert!(r.end().index() * PAGE >= e);
    }
    let mut bm = BootMem::new();
    bm.reserve_bytes(100, 5000);
    assert_eq!(pairs(&bm.reserved_regions()), vec![(0, 2)]);
}

#[test]
fn add_memory_bytes_rounds_inward() {
    let mut bm = BootMem::new();
    bm.add_memory_bytes(100, 3 * PAGE + 5);
    assert_eq!(pairs(&bm.memory_regions()), vec![(1, 2)]);
    let r = bm.memory_regions()[0];
    assert!(r.base.index() * PAGE >= 100);
    assert!(r.end().index() * PAGE <= 3 * PAGE + 5);

    let mut none = BootMem::new();
    none.add_memory_bytes(100, 4000);
    assert!(none.memory_regions().is_empty());
}

#[test]
fn alloc_top_down_picks_highest() {
    let mut bm = ram8_with_hole();
    let base = bm.alloc_frames(FrameCount::new(2), 2).unwrap();
    assert_eq!(base.raw(), 6);
    assert_eq!(bm.reserved_regions().len(), 2);
    assert_eq!(pairs(&bm.for_each_free()), vec![(0, 2), (4, 2)]);
}

#[test]
fn alloc_never_hits_reserved() {
    for frames in 1u32..=8 {
        for align in [1u32, 2, 4] {
            let mut bm = ram8_with_hole();
            if let Some(base) = bm.alloc_frames(FrameCount::new(frames as usize), align) {
                assert_eq!(base.raw() % align, 0);
                assert!(base.raw() + frames <= 8);
                assert!(base.raw() + frames <= 2 || base.raw() >= 4);
            }
        }
    }
}

#[test]
fn alloc_returns_none_when_too_big() {
    let mut bm = ram8_with_hole();
    assert_eq!(bm.alloc_frames(FrameCount::new(5), 1), None);
    assert_eq!(bm.reserved_regions().len(), 1);
}

#[test]
fn alloc_fills_a_hole_exactly() {
    let mut bm = ram8_with_hole();
    assert_eq!(bm.alloc_frames(FrameCount::new(4), 4).unwrap().raw(), 4);
    assert_eq!(bm.alloc_frames(FrameCount::new(2), 1).unwrap().raw(), 0);
    assert_eq!(bm.alloc_frames(FrameCount::new(1), 1), None);
}

#[test]
fn ram_span_covers_all_regions() {
    let mut bm = BootMem::new();
    bm.add_memory_bytes(0x4_0000 * PAGE, 0x4_1000 * PAGE);
    bm.add_memory_bytes(0x100 * PAGE, 0x180 * PAGE);
    let (base, nr) = bm.ram_span();
    assert_eq!(base.raw(), 0x100);
    assert_eq!(nr.get(), 0x4_1000 - 0x100);
}

#[test]
fn best_fit_reserves_nothing() {
    let bm = ram8_with_hole();
    assert_eq!(bm.best_fit(FrameCount::new(2), 1).map(|p| p.raw()), Some(6));
    assert_eq!(bm.best_fit(FrameCount::new(3), 1).map(|p| p.raw()), Some(5));
    assert_eq!(bm.best_fit(FrameCount::new(5), 1), None);
    assert_eq!(bm.reserved_regions().len(), 1);
}

#[test]
fn reserve_inserts_in_base_order() {
    let mut bm = BootMem::new();
    bm.add_memory_bytes(0, 64 * PAGE);
    bm.reserve(Pfn::new(20), FrameCount::new(2));
    bm.reserve(Pfn::new(5), FrameCount::new(1));
    bm.reserve(Pfn::new(20), FrameCount::new(3));
    bm.reserve(Pfn::new(40), FrameCount::new(4));
    assert_eq!(pairs(&bm.reserved_regions()), vec![(5, 1), (20, 2), (20, 3), (40, 4)]);
}
