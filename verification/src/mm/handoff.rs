//! The hand-off from the boot-time allocator to the buddy allocator: size the
//! mem-map over the RAM span, carve it from bootmem, then free every frame
//! that bootmem still holds free.

use vstd::prelude::*;
use vstd::set_lib::{set_int_range, lemma_int_range, lemma_len_subset, lemma_set_disjoint_lens};

use crate::arch::mm::PhysAddr;
use crate::mm::bootmem::{
    best_candidate, ceil_div, covers, free_holes, in_some, insert_pos, lemma_free_holes_exact,
    no_wrap, regions_view, rv, BootMem, BootMemView, Region, NR_REGIONS,
};
use crate::mm::buddy::{
    carve, fresh_view, lemma_carve_conserves_mass, lemma_carve_frames, BuddyAllocator, BuddyView,
    FrameState, Pfn,
    PAGE_INFO_SIZE, RAW_NONE,
};
use crate::mm::frame::PAGE_SIZE;
use crate::mm::types::FrameCount;

verus! {

/// Why the hand-off could not take place.
#[derive(Clone, Copy, Debug, PartialEq, Eq)]
pub enum HandoffError {
    /// The RAM span has more frames than a mem-map can index.
    SpanTooLarge,
    /// No free gap of bootmem can hold the mem-map.
    NoRoomForMemMap,
    /// Two free gaps share a frame: the RAM intervals overlap.
    OverlappingRam,
}

/// The lowest base over the (non-empty) RAM intervals.
pub open spec fn mem_lo(mem: Seq<(nat, nat)>) -> nat
    decreases mem.len(),
{
    if mem.len() <= 1 {
        mem[0].0
    } else {
        let r = mem_lo(mem.drop_last());
        if mem.last().0 < r {
            mem.last().0
        } else {
            r
        }
    }
}

/// The highest end over the (non-empty) RAM intervals.
pub open spec fn mem_hi(mem: Seq<(nat, nat)>) -> nat
    decreases mem.len(),
{
    if mem.len() <= 1 {
        mem[0].0 + mem[0].1
    } else {
        let r = mem_hi(mem.drop_last());
        if mem.last().0 + mem.last().1 > r {
            mem.last().0 + mem.last().1
        } else {
            r
        }
    }
}

/// Frames from the lowest RAM frame to the highest: what the mem-map covers.
pub open spec fn span_frames(mem: Seq<(nat, nat)>) -> int {
    mem_hi(mem) - mem_lo(mem)
}

/// The span is too large for a mem-map: its frame numbers would reach the
/// "no frame" link value, or its descriptors would not fit the address space.
pub open spec fn span_too_large(mem: Seq<(nat, nat)>) -> bool {
    span_frames(mem) >= RAW_NONE || span_frames(mem) * PAGE_INFO_SIZE > usize::MAX
}

/// Frames the mem-map occupies: one descriptor per frame of the span.
pub open spec fn memmap_len(mem: Seq<(nat, nat)>) -> nat {
    ceil_div((span_frames(mem) * PAGE_INFO_SIZE) as nat, PAGE_SIZE as nat)
}

/// Where bootmem places the mem-map: its top-down candidate at alignment 1.
pub open spec fn memmap_base(bm: BootMemView) -> Option<nat> {
    best_candidate(free_holes(bm.memory, bm.reserved), memmap_len(bm.memory), 1)
}

/// The reserved intervals once the mem-map at `p` is reserved.
pub open spec fn reserved_after(bm: BootMemView, p: nat) -> Seq<(nat, nat)> {
    bm.reserved.insert(insert_pos(bm.reserved, p) as int, (p, memmap_len(bm.memory)))
}

/// The free gaps handed to the buddy allocator.
pub open spec fn handoff_holes(bm: BootMemView) -> Seq<(nat, nat)> {
    free_holes(bm.memory, reserved_after(bm, memmap_base(bm)->0))
}

/// Two intervals share a frame.
pub open spec fn overlap(a: (nat, nat), b: (nat, nat)) -> bool {
    a.0 < b.0 + b.1 && b.0 < a.0 + a.1
}

/// No two intervals of `hs` share a frame.
pub open spec fn pairwise_disjoint(hs: Seq<(nat, nat)>) -> bool {
    forall|i: int, j: int| 0 <= i < j < hs.len() ==> !overlap(#[trigger] hs[i], #[trigger] hs[j])
}

/// Frames held by the first `n` intervals, counted with multiplicity.
pub open spec fn total_frames(hs: Seq<(nat, nat)>, n: int) -> nat
    decreases n,
{
    if n <= 0 {
        0
    } else {
        total_frames(hs, n - 1) + hs[n - 1].1
    }
}

/// The allocator state after freeing the first `n` gaps of `hs` into `v`,
/// in order, each carved into maximal aligned blocks; frame numbers are
/// taken relative to `lo`.
pub open spec fn carve_holes(v: BuddyView, hs: Seq<(nat, nat)>, lo: nat, n: int) -> BuddyView
    decreases n,
{
    if n <= 0 {
        v
    } else {
        let h = hs[n - 1];
        carve(carve_holes(v, hs, lo, n - 1), (h.0 - lo) as nat, (h.0 + h.1 - lo) as nat)
    }
}

/// Some of the first `n` intervals contains frame `x`.
pub open spec fn covered_by(hs: Seq<(nat, nat)>, n: int, x: int) -> bool {
    exists|k: int| 0 <= k < n && covers(#[trigger] hs[k], x)
}

/// The frames of the first `n` intervals, as a set.
pub open spec fn cover_set(hs: Seq<(nat, nat)>, n: int) -> Set<int> {
    Set::new(|x: int| covered_by(hs, n, x))
}

/// `mem_lo` and `mem_hi` bound every RAM interval and are each attained.
pub proof fn lemma_mem_bounds(mem: Seq<(nat, nat)>)
    requires
        mem.len() > 0,
    ensures
        forall|i: int|
            0 <= i < mem.len() ==> mem_lo(mem) <= (#[trigger] mem[i]).0 && mem[i].0 + mem[i].1
                <= mem_hi(mem),
        exists|i: int| 0 <= i < mem.len() && (#[trigger] mem[i]).0 == mem_lo(mem),
        exists|i: int| 0 <= i < mem.len() && (#[trigger] mem[i]).0 + mem[i].1 == mem_hi(mem),
    decreases mem.len(),
{
    if mem.len() == 1 {
        assert(mem[0].0 == mem_lo(mem));
        assert(mem[0].0 + mem[0].1 == mem_hi(mem));
    } else {
        let init = mem.drop_last();
        let n = mem.len() - 1;
        lemma_mem_bounds(init);
        assert forall|i: int| 0 <= i < mem.len() implies mem_lo(mem) <= (#[trigger] mem[i]).0
            && mem[i].0 + mem[i].1 <= mem_hi(mem) by {
            if i < n {
                assert(init[i] == mem[i]);
            }
        }
        if mem[n].0 < mem_lo(init) {
            assert(mem[n].0 == mem_lo(mem));
        } else {
            let i = choose|i: int| 0 <= i < init.len() && (#[trigger] init[i]).0 == mem_lo(init);
            assert(mem[i].0 == mem_lo(mem));
        }
        if mem[n].0 + mem[n].1 > mem_hi(init) {
            assert(mem[n].0 + mem[n].1 == mem_hi(mem));
        } else {
            let i = choose|i: int|
                0 <= i < init.len() && (#[trigger] init[i]).0 + init[i].1 == mem_hi(init);
            assert(mem[i].0 + mem[i].1 == mem_hi(mem));
        }
    }
}

/// Pairwise-disjoint intervals cover exactly as many frames as their sizes
/// add up to.
pub proof fn lemma_cover_len(hs: Seq<(nat, nat)>, n: int)
    requires
        pairwise_disjoint(hs),
        0 <= n <= hs.len(),
    ensures
        cover_set(hs, n).finite(),
        cover_set(hs, n).len() == total_frames(hs, n),
    decreases n,
{
    if n == 0 {
        assert(cover_set(hs, 0) =~= Set::<int>::empty());
    } else {
        let h = hs[n - 1];
        let prev = cover_set(hs, n - 1);
        let here = set_int_range(h.0 as int, (h.0 + h.1) as int);
        lemma_cover_len(hs, n - 1);
        lemma_int_range(h.0 as int, (h.0 + h.1) as int);
        assert forall|x: int| #[trigger] cover_set(hs, n).contains(x) == (prev + here).contains(
            x,
        ) by {
            if covered_by(hs, n, x) {
                let k = choose|k: int| 0 <= k < n && covers(#[trigger] hs[k], x);
                if k < n - 1 {
                    assert(covered_by(hs, n - 1, x));
                }
            }
            if covered_by(hs, n - 1, x) {
                let k = choose|k: int| 0 <= k < n - 1 && covers(#[trigger] hs[k], x);
                assert(covered_by(hs, n, x));
            }
            if here.contains(x) {
                assert(covers(hs[n - 1], x));
            }
        }
        assert(cover_set(hs, n) =~= prev + here);
        assert(prev.disjoint(here)) by {
            assert forall|x: int| prev.contains(x) implies !here.contains(x) by {
                let k = choose|k: int| 0 <= k < n - 1 && covers(#[trigger] hs[k], x);
                assert(!overlap(hs[k], hs[n - 1]));
            }
        }
        lemma_set_disjoint_lens(prev, here);
    }
}

/// Pairwise-disjoint intervals inside `[lo, hi)` hold at most `hi - lo`
/// frames together.
pub proof fn lemma_total_bound(hs: Seq<(nat, nat)>, lo: nat, hi: nat, n: int)
    requires
        pairwise_disjoint(hs),
        0 <= n <= hs.len(),
        lo <= hi,
        forall|k: int| 0 <= k < hs.len() ==> lo <= (#[trigger] hs[k]).0 && hs[k].0 + hs[k].1 <= hi,
    ensures
        total_frames(hs, n) <= hi - lo,
{
    lemma_cover_len(hs, n);
    lemma_int_range(lo as int, hi as int);
    assert forall|x: int| cover_set(hs, n).contains(x) implies #[trigger] set_int_range(
        lo as int,
        hi as int,
    ).contains(x) by {
        let k = choose|k: int| 0 <= k < n && covers(#[trigger] hs[k], x);
    }
    lemma_len_subset(cover_set(hs, n), set_int_range(lo as int, hi as int));
}

/// Whether no two of the intervals share a frame.
fn regions_disjoint(holes: &Vec<Region>) -> (r: bool)
    requires
        forall|k: int| 0 <= k < holes@.len() ==> no_wrap(rv(#[trigger] holes@[k])),
    ensures
        r == pairwise_disjoint(regions_view(holes@)),
{
    let ghost hs = regions_view(holes@);
    let mut i: usize = 0;
    while i < holes.len()
        invariant
            i <= holes@.len(),
            hs == regions_view(holes@),
            forall|k: int| 0 <= k < holes@.len() ==> no_wrap(rv(#[trigger] holes@[k])),
            forall|a: int, b: int| 0 <= a < b < i ==> !overlap(#[trigger] hs[a], #[trigger] hs[b]),
        decreases holes@.len() - i,
    {
        let mut j: usize = 0;
        while j < i
            invariant
                j <= i < holes@.len(),
                hs == regions_view(holes@),
                forall|k: int| 0 <= k < holes@.len() ==> no_wrap(rv(#[trigger] holes@[k])),
                forall|a: int| 0 <= a < j ==> !overlap(#[trigger] hs[a], hs[i as int]),
            decreases i - j,
        {
            if holes[j].overlaps(holes[i]) {
                proof {
                    assert(overlap(hs[j as int], hs[i as int]));
                }
                return false;
            }
            j = j + 1;
        }
        i = i + 1;
    }
    true
}

/// Where the hand-off will put the mem-map: its first frame and its length
/// in frames, as `init_buddy` carves it. `None` exactly when the hand-off
/// refuses the span or finds no room for the mem-map.
pub fn memmap_placement(boot: &BootMem) -> (r: Option<(u32, usize)>)
    requires
        boot.wf(),
        boot@.memory.len() > 0,
    ensures
        r is Some <==> !span_too_large(boot@.memory) && memmap_base(boot@) is Some,
        r matches Some((p, n)) ==> p == memmap_base(boot@)->0 && n == memmap_len(boot@.memory),
{
    let ghost mem = boot@.memory;
    proof {
        boot.lemma_wf_intervals();
        lemma_mem_bounds(mem);
    }
    let (base_pfn, span) = boot.ram_span();
    let lo = base_pfn.raw();
    let nr = span.get();
    proof {
        let i0 = choose|i: int| 0 <= i < mem.len() && (#[trigger] mem[i]).0 == mem_lo(mem);
        let i1 = choose|i: int| 0 <= i < mem.len() && (#[trigger] mem[i]).0 == lo;
        assert(lo <= mem[i0].0);
        assert(mem_lo(mem) <= mem[i1].0);
        let j0 = choose|i: int| 0 <= i < mem.len() && (#[trigger] mem[i]).0 + mem[i].1 == mem_hi(mem);
        let j1 = choose|i: int| 0 <= i < mem.len() && (#[trigger] mem[i]).0 + mem[i].1 == lo + nr;
        assert(mem[j0].0 + mem[j0].1 <= lo + nr);
        assert(mem[j1].0 + mem[j1].1 <= mem_hi(mem));
        assert(nr == span_frames(mem));
        assert(mem[i0].1 >= 1);
    }
    if nr >= RAW_NONE as usize || nr > usize::MAX / PAGE_INFO_SIZE {
        proof {
            if nr <= usize::MAX / PAGE_INFO_SIZE {
                assert(nr * PAGE_INFO_SIZE <= usize::MAX) by (nonlinear_arith)
                    requires
                        nr <= usize::MAX / 16,
                ;
            }
        }
        return None;
    }
    proof {
        assert(nr * PAGE_INFO_SIZE <= usize::MAX) by (nonlinear_arith)
            requires
                nr <= usize::MAX / 16,
        ;
    }
    let mm_frames = BuddyAllocator::memmap_frames(nr);
    proof {
        assert(mm_frames >= 1) by (nonlinear_arith)
            requires
                nr >= 1,
                mm_frames * 4096 >= nr * 16,
        ;
    }
    match boot.best_fit(FrameCount::new(mm_frames), 1) {
        Some(p) => Some((p.raw(), mm_frames)),
        None => None,
    }
}

/// Hand memory from bootmem to a fresh buddy allocator: size the mem-map
/// over the RAM span, carve it from bootmem top-down, then free every gap
/// bootmem still holds free. In the allocator returned, a frame of the span
/// is free exactly when it is RAM and reserved by nothing, the mem-map
/// included.
pub fn init_buddy(boot: BootMem) -> (r: Result<BuddyAllocator, HandoffError>)
    requires
        boot.wf(),
        boot@.memory.len() > 0,
        boot@.reserved.len() < NR_REGIONS,
    ensures
        r matches Err(HandoffError::SpanTooLarge) <==> span_too_large(boot@.memory),
        r matches Err(HandoffError::NoRoomForMemMap) <==> !span_too_large(boot@.memory)
            && memmap_base(boot@) is None,
        r matches Err(HandoffError::OverlappingRam) <==> !span_too_large(boot@.memory)
            && memmap_base(boot@) is Some && !pairwise_disjoint(handoff_holes(boot@)),
        r matches Ok(b) ==> {
            let lo = mem_lo(boot@.memory);
            let res = reserved_after(boot@, memmap_base(boot@)->0);
            &&& b.wf()
            &&& b@ == carve_holes(
                fresh_view(span_frames(boot@.memory) as nat),
                handoff_holes(boot@),
                lo,
                handoff_holes(boot@).len() as int,
            )
            &&& b.spec_dram_base() == lo * PAGE_SIZE
            &&& b.spec_nr_frames() == span_frames(boot@.memory)
            &&& forall|q: int|
                0 <= q < span_frames(boot@.memory) ==> ((#[trigger] b@.states[q]
                    == FrameState::Reserved) <==> !in_some(handoff_holes(boot@), lo + q))
            &&& forall|q: int|
                0 <= q < span_frames(boot@.memory) ==> ((#[trigger] b@.states[q]
                    == FrameState::Reserved) <==> !(in_some(boot@.memory, lo + q) && !in_some(
                    res,
                    lo + q,
                )))
            &&& b@.free_frames == total_frames(
                handoff_holes(boot@),
                handoff_holes(boot@).len() as int,
            )
        },
{
    let ghost bm = boot@;
    let ghost mem = bm.memory;
    let mut boot = boot;
    proof {
        boot.lemma_wf_intervals();
        lemma_mem_bounds(mem);
    }
    let (base_pfn, span) = boot.ram_span();
    let lo = base_pfn.raw();
    let nr = span.get();
    proof {
        let i0 = choose|i: int| 0 <= i < mem.len() && (#[trigger] mem[i]).0 == mem_lo(mem);
        let i1 = choose|i: int| 0 <= i < mem.len() && (#[trigger] mem[i]).0 == lo;
        assert(lo <= mem[i0].0);
        assert(mem_lo(mem) <= mem[i1].0);
        let j0 = choose|i: int| 0 <= i < mem.len() && (#[trigger] mem[i]).0 + mem[i].1 == mem_hi(mem);
        let j1 = choose|i: int| 0 <= i < mem.len() && (#[trigger] mem[i]).0 + mem[i].1 == lo + nr;
        assert(mem[j0].0 + mem[j0].1 <= lo + nr);
        assert(mem[j1].0 + mem[j1].1 <= mem_hi(mem));
        assert(lo == mem_lo(mem));
        assert(nr == span_frames(mem));
        assert(no_wrap(mem[j1]));
        assert(mem[i0].1 >= 1);
    }
    if nr >= RAW_NONE as usize || nr > usize::MAX / PAGE_INFO_SIZE {
        proof {
            if nr <= usize::MAX / PAGE_INFO_SIZE {
                assert(nr * PAGE_INFO_SIZE <= usize::MAX) by (nonlinear_arith)
                    requires
                        nr <= usize::MAX / 16,
                ;
            } else {
                assert(nr * PAGE_INFO_SIZE > usize::MAX) by (nonlinear_arith)
                    requires
                        nr > usize::MAX / 16,
                ;
            }
        }
        return Err(HandoffError::SpanTooLarge);
    }
    proof {
        assert(nr * PAGE_INFO_SIZE <= usize::MAX) by (nonlinear_arith)
            requires
                nr <= usize::MAX / 16,
        ;
    }
    let mm_frames = BuddyAllocator::memmap_frames(nr);
    proof {
        assert(mm_frames >= 1) by (nonlinear_arith)
            requires
                nr >= 1,
                mm_frames * 4096 >= nr * 16,
        ;
        assert(mm_frames == memmap_len(mem));
    }
    let placed = boot.alloc_frames(FrameCount::new(mm_frames), 1);
    if placed.is_none() {
        return Err(HandoffError::NoRoomForMemMap);
    }
    let ghost p = memmap_base(bm)->0;
    let ghost res = reserved_after(bm, p);
    proof {
        assert(boot@.reserved == res);
        assert(boot@.memory == mem);
        boot.lemma_wf_intervals();
    }
    let holes = boot.for_each_free();
    let ghost hs = regions_view(holes@);
    proof {
        assert(hs == handoff_holes(bm));
    }
    if !regions_disjoint(&holes) {
        return Err(HandoffError::OverlappingRam);
    }
    proof {
        // every gap lies inside the span
        assert forall|k: int| 0 <= k < hs.len() implies lo <= (#[trigger] hs[k]).0 && hs[k].0
            + hs[k].1 <= lo + nr && hs[k].1 >= 1 by {
            assert(hs[k] == rv(holes@[k]));
            let h = hs[k];
            assert(covers(h, h.0 as int));
            assert(covers(h, h.0 + h.1 - 1));
            assert(in_some(hs, h.0 as int));
            assert(in_some(hs, h.0 + h.1 - 1));
            lemma_free_holes_exact(mem, res, h.0 as int);
            lemma_free_holes_exact(mem, res, h.0 + h.1 - 1);
            let a = choose|i: int| 0 <= i < mem.len() && covers(#[trigger] mem[i], h.0 as int);
            let b = choose|i: int| 0 <= i < mem.len() && covers(#[trigger] mem[i], h.0 + h.1 - 1);
        }
        assert(lo * 4096 + nr * 4096 <= u64::MAX) by (nonlinear_arith)
            requires
                lo + nr <= u32::MAX,
        ;
    }
    let dram_base = PhysAddr::from_u64(lo as u64 * PAGE_SIZE as u64);
    let mut buddy = BuddyAllocator::new(dram_base, nr);
    let mut i: usize = 0;
    while i < holes.len()
        invariant
            i <= holes@.len(),
            hs == regions_view(holes@),
            pairwise_disjoint(hs),
            forall|k: int|
                0 <= k < hs.len() ==> lo <= (#[trigger] hs[k]).0 && hs[k].0 + hs[k].1 <= lo + nr
                    && hs[k].1 >= 1,
            nr < RAW_NONE,
            nr * PAGE_INFO_SIZE <= usize::MAX,
            buddy.wf(),
            buddy.spec_nr_frames() == nr,
            buddy.spec_dram_base() == lo * PAGE_SIZE,
            buddy@.states.len() == nr,
            forall|q: int|
                0 <= q < nr ==> ((#[trigger] buddy@.states[q] == FrameState::Reserved)
                    <==> !covered_by(hs, i as int, lo + q)),
            buddy@.free_frames == total_frames(hs, i as int),
            buddy@ == carve_holes(fresh_view(nr as nat), hs, lo as nat, i as int),
        decreases holes@.len() - i,
    {
        let h = holes[i];
        proof {
            assert(hs[i as int] == rv(h));
        }
        let start = h.base.raw() - lo;
        let count = h.frames.get();
        let ghost before = buddy@;
        proof {
            lemma_total_bound(hs, lo as nat, (lo + nr) as nat, i + 1);
            assert forall|q: int| start <= q < start + count implies #[trigger] buddy@.states[q]
                == FrameState::Reserved by {
                assert(covers(hs[i as int], lo + q));
                if covered_by(hs, i as int, lo + q) {
                    let k = choose|k: int| 0 <= k < i && covers(#[trigger] hs[k], lo + q);
                    assert(overlap(hs[k], hs[i as int]));
                }
            }
        }
        buddy.free_range(Pfn::new_unchecked(start), count);
        proof {
            assert forall|q: int| 0 <= q < nr implies ((#[trigger] buddy@.states[q]
                == FrameState::Reserved) <==> !covered_by(hs, i + 1, lo + q)) by {
                lemma_carve_frames(before, start as nat, (start + count) as nat, q);
                if covered_by(hs, i + 1, lo + q) && !covers(hs[i as int], lo + q) {
                    let k = choose|k: int| 0 <= k < i + 1 && covers(#[trigger] hs[k], lo + q);
                    assert(covered_by(hs, i as int, lo + q));
                }
                if covered_by(hs, i as int, lo + q) {
                    let k = choose|k: int| 0 <= k < i && covers(#[trigger] hs[k], lo + q);
                    assert(covered_by(hs, i + 1, lo + q));
                }
                if covers(hs[i as int], lo + q) {
                    assert(covered_by(hs, i + 1, lo + q));
                }
            }
            lemma_carve_conserves_mass(before, start as nat, (start + count) as nat);
            lemma_carve_frames(before, start as nat, (start + count) as nat, 0);
        }
        i = i + 1;
    }
    proof {
        assert forall|q: int| 0 <= q < nr implies ((#[trigger] buddy@.states[q]
            == FrameState::Reserved) <==> !(in_some(mem, lo + q) && !in_some(res, lo + q))) by {
            lemma_free_holes_exact(mem, res, lo + q);
            if in_some(hs, lo + q) {
                let k = choose|k: int| 0 <= k < hs.len() && covers(#[trigger] hs[k], lo + q);
                assert(covered_by(hs, hs.len() as int, lo + q));
            }
            if covered_by(hs, hs.len() as int, lo + q) {
                let k = choose|k: int| 0 <= k < hs.len() && covers(#[trigger] hs[k], lo + q);
            }
        }
        assert forall|q: int| 0 <= q < nr implies ((#[trigger] buddy@.states[q]
            == FrameState::Reserved) <==> !in_some(hs, lo + q)) by {
            if in_some(hs, lo + q) {
                let k = choose|k: int| 0 <= k < hs.len() && covers(#[trigger] hs[k], lo + q);
                assert(covered_by(hs, hs.len() as int, lo + q));
            }
            if covered_by(hs, hs.len() as int, lo + q) {
                let k = choose|k: int| 0 <= k < hs.len() && covers(#[trigger] hs[k], lo + q);
            }
        }
    }
    Ok(buddy)
}

} // verus!
