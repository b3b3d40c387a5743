//! Slab allocator: the object layer of the kernel heap.
//!
//! Small requests are served from per-size-class free-lists carved out of
//! buddy pages; anything larger than the top class goes to the buddy in
//! whole pages. Freed objects are cached in their class's free-list and
//! reused; slab pages are never reclaimed. Each free-list is a stack of
//! object addresses, last in first out.

use vstd::prelude::*;
use vstd::arithmetic::power2::pow2;

use crate::arch::mm::{PhysAddr, VirtAddr};
use crate::mm::buddy::{alloc_view, lemma_alloc_in_range, pa_of_pfn, pfn_of_pa, BuddyAllocator, FrameState};
use crate::mm::frame::PAGE_SIZE;
use crate::mm::kernel_map::linear_span;
use crate::mm::layout::{linear_va_to_pa, pa_to_linear_va, KERNEL_DEVICE_BASE, KERNEL_LINEAR_BASE};

verus! {

/// Number of size classes.
pub const NR_CLASSES: usize = 9;

/// Object size of class `i`: 8, 16, 32, … 2048 bytes.
pub open spec fn class_size(i: int) -> nat {
    if i == 0 {
        8
    } else if i == 1 {
        16
    } else if i == 2 {
        32
    } else if i == 3 {
        64
    } else if i == 4 {
        128
    } else if i == 5 {
        256
    } else if i == 6 {
        512
    } else if i == 7 {
        1024
    } else {
        2048
    }
}

/// Object size of class `idx` in bytes.
pub fn class_bytes(idx: usize) -> (r: usize)
    requires
        idx < NR_CLASSES,
    ensures
        r == class_size(idx as int),
{
    if idx == 0 {
        8
    } else if idx == 1 {
        16
    } else if idx == 2 {
        32
    } else if idx == 3 {
        64
    } else if idx == 4 {
        128
    } else if idx == 5 {
        256
    } else if idx == 6 {
        512
    } else if idx == 7 {
        1024
    } else {
        2048
    }
}

/// The larger of a request's size and alignment: what a class must hold.
pub open spec fn need(size: usize, align: usize) -> nat {
    if size >= align {
        size as nat
    } else {
        align as nat
    }
}

/// Smallest size-class index fitting `size` and `align`, or `None` if the
/// request exceeds the largest class (the whole-page path).
pub fn size_class_index(size: usize, align: usize) -> (r: Option<usize>)
    ensures
        r matches Some(i) ==> i < NR_CLASSES && class_size(i as int) >= size && class_size(i as int)
            >= align && forall|j: int| 0 <= j < i ==> class_size(j) < need(size, align),
        r is None <==> need(size, align) > 2048,
{
    let n = if size >= align {
        size
    } else {
        align
    };
    let mut i: usize = 0;
    while i < NR_CLASSES
        invariant
            i <= NR_CLASSES,
            n == need(size, align),
            forall|j: int| 0 <= j < i ==> class_size(j) < n,
        decreases NR_CLASSES - i,
    {
        if class_bytes(i) >= n {
            return Some(i);
        }
        i = i + 1;
    }
    assert(class_size(8) < n);
    None
}

/// How many objects of class `idx` fit in one page.
pub fn objects_per_page(idx: usize) -> (r: usize)
    requires
        idx < NR_CLASSES,
    ensures
        r == PAGE_SIZE as nat / class_size(idx as int),
        r >= 1,
        r * class_size(idx as int) <= PAGE_SIZE,
{
    let c = class_bytes(idx);
    let n = PAGE_SIZE / c;
    assert(n * c <= PAGE_SIZE) by (nonlinear_arith)
        requires
            n == PAGE_SIZE / c,
            c > 0,
    ;
    n
}

/// Buddy order covering `size` bytes: the smallest `o` with `2^o` pages
/// holding `size` bytes.
pub open spec fn pages_order_spec(size: nat, o: nat) -> bool {
    &&& pow2(o) * PAGE_SIZE >= size
    &&& forall|j: nat| j < o ==> #[trigger] pow2(j) * PAGE_SIZE < size
}

/// Buddy order covering `size` bytes: `ceil_log2(ceil(size / PAGE_SIZE))`.
pub fn pages_order(size: usize) -> (r: u8)
    ensures
        pages_order_spec(size as nat, r as nat),
        r <= 64,
{
    let pages: u64 = (size as u64) / 4096 + if (size as u64) % 4096 != 0 {
        1
    } else {
        0
    };
    let mut o: u8 = 0;
    let mut span: u64 = 1;
    proof {
        vstd::arithmetic::power2::lemma2_to64();
        assert(pages <= 0x10_0000_0000_0000) by (nonlinear_arith)
            requires
                pages == (size as u64) / 4096 + (if (size as u64) % 4096 != 0 { 1int } else { 0 }),
                size <= u64::MAX,
        ;
    }
    while span < pages
        invariant
            span == pow2(o as nat),
            o <= 52,
            pages <= 0x10_0000_0000_0000,
            pages == (size as u64) / 4096 + (if (size as u64) % 4096 != 0 { 1int } else { 0 }),
            forall|j: nat| j < o ==> #[trigger] pow2(j) < pages,
        decreases 64 - o,
    {
        proof {
            vstd::arithmetic::power2::lemma_pow2_unfold((o + 1) as nat);
            if o >= 52 {
                vstd::arithmetic::power2::lemma2_to64_rest();
                assert(pow2(52) == 0x10_0000_0000_0000);
                assert(false);
            }
        }
        span = span * 2;
        o = o + 1;
    }
    proof {
        assert forall|j: nat| j < o implies #[trigger] pow2(j) * PAGE_SIZE < size by {
            assert(pow2(j) < pages);
            assert(pow2(j) * 4096 < size) by (nonlinear_arith)
                requires
                    pow2(j) < pages,
                    pages == size / 4096 + (if size % 4096 != 0 { 1int } else { 0 }),
            ;
        }
        assert(pow2(o as nat) * 4096 >= size) by (nonlinear_arith)
            requires
                pow2(o as nat) >= pages,
                pages == size / 4096 + (if size % 4096 != 0 { 1int } else { 0 }),
        ;
    }
    o
}

/// Per-size-class free-lists of object addresses (linear-map VAs). A class
/// stays empty until an allocation refills it from a fresh buddy page.
pub struct Slab {
    free_lists: Vec<Vec<u64>>,
}

impl View for Slab {
    type V = Seq<Seq<u64>>;

    closed spec fn view(&self) -> Seq<Seq<u64>> {
        Seq::new(self.free_lists@.len(), |i: int| self.free_lists@[i]@)
    }
}

impl Slab {
    /// Well-formedness: one free-list per class.
    pub open spec fn wf(&self) -> bool {
        self@.len() == NR_CLASSES
    }

    /// Every class empty.
    pub fn new() -> (r: Self)
        ensures
            r.wf(),
            forall|i: int| 0 <= i < NR_CLASSES ==> (#[trigger] r@[i]).len() == 0,
    {
        let mut free_lists: Vec<Vec<u64>> = Vec::new();
        let mut i: usize = 0;
        while i < NR_CLASSES
            invariant
                i <= NR_CLASSES,
                free_lists@.len() == i,
                forall|k: int| 0 <= k < i ==> (#[trigger] free_lists@[k])@.len() == 0,
            decreases NR_CLASSES - i,
        {
            free_lists.push(Vec::new());
            i = i + 1;
        }
        Self { free_lists }
    }

    /// Cache a free object of class `idx`; it is the next one handed out.
    pub fn push(&mut self, idx: usize, addr: u64)
        requires
            old(self).wf(),
            idx < NR_CLASSES,
        ensures
            final(self).wf(),
            final(self)@ == old(self)@.update(idx as int, old(self)@[idx as int].push(addr)),
    {
        self.free_lists[idx].push(addr);
        proof {
            assert(self@ =~= old(self)@.update(idx as int, old(self)@[idx as int].push(addr)));
        }
    }

    /// Take the most recently cached object of class `idx`, if any.
    pub fn pop(&mut self, idx: usize) -> (r: Option<u64>)
        requires
            old(self).wf(),
            idx < NR_CLASSES,
        ensures
            final(self).wf(),
            old(self)@[idx as int].len() == 0 ==> r is None && final(self)@ == old(self)@,
            old(self)@[idx as int].len() > 0 ==> r == Some(old(self)@[idx as int].last())
                && final(self)@ == old(self)@.update(idx as int, old(self)@[idx as int].drop_last()),
    {
        let r = self.free_lists[idx].pop();
        proof {
            if old(self)@[idx as int].len() == 0 {
                assert(self@ =~= old(self)@);
            } else {
                assert(self@ =~= old(self)@.update(idx as int, old(self)@[idx as int].drop_last()));
            }
        }
        r
    }

    /// Whether class `idx` has no cached object.
    pub fn is_empty(&self, idx: usize) -> (r: bool)
        requires
            self.wf(),
            idx < NR_CLASSES,
        ensures
            r == (self@[idx as int].len() == 0),
    {
        self.free_lists[idx].len() == 0
    }
}

/// The objects one page at `base` holds for class `idx`, in carving order.
pub open spec fn carved(base: nat, idx: int) -> Seq<u64> {
    Seq::new(PAGE_SIZE as nat / class_size(idx), |k: int| (base + k * class_size(idx)) as u64)
}

/// Linear-map address of the frame a buddy allocation returns.
pub open spec fn buddy_page_va(b: &BuddyAllocator, o: nat) -> nat {
    (pa_of_pfn(b.spec_dram_base() as nat, alloc_view(b@, o).1->0 as nat) + KERNEL_LINEAR_BASE) as nat
}

/// A buddy whose whole range lies inside the linear window.
pub open spec fn buddy_in_window(b: &BuddyAllocator) -> bool {
    b.spec_dram_base() + b.spec_nr_frames() * PAGE_SIZE <= linear_span()
}

/// Whether the buddy's whole range lies inside the linear window, so that
/// its pages can be handed out by linear-map address.
pub fn buddy_fits_window(b: &BuddyAllocator) -> (r: bool)
    requires
        b.wf(),
    ensures
        r == buddy_in_window(b),
{
    proof {
        b.lemma_wf_facts();
    }
    let base = b.dram_base().as_u64();
    let nr = b.nr_frames() as u64;
    let span: u64 = 0x4000_0000_0000;
    assert(span == linear_span());
    if nr > span / 4096 {
        assert(nr * 4096 > span) by (nonlinear_arith)
            requires
                nr > span / 4096,
        ;
        return false;
    }
    let bytes = nr * 4096;
    if base > span - bytes {
        false
    } else {
        true
    }
}

impl Slab {
    /// Carve one fresh buddy page into class-`idx` objects and cache them
    /// all, the page's last object on top. `None` when the buddy has no page.
    pub fn refill(&mut self, idx: usize, buddy: &mut BuddyAllocator) -> (r: Option<()>)
        requires
            old(self).wf(),
            idx < NR_CLASSES,
            old(buddy).wf(),
            buddy_in_window(old(buddy)),
        ensures
            final(self).wf(),
            final(buddy).wf(),
            final(buddy)@ == alloc_view(old(buddy)@, 0).0,
            final(buddy).spec_dram_base() == old(buddy).spec_dram_base(),
            final(buddy).spec_nr_frames() == old(buddy).spec_nr_frames(),
            r is None <==> alloc_view(old(buddy)@, 0).1 is None,
            r is None ==> final(self)@ == old(self)@,
            r is Some ==> final(self)@ == old(self)@.update(
                idx as int,
                old(self)@[idx as int] + carved(buddy_page_va(old(buddy), 0), idx as int),
            ),
    {
        proof {
            old(buddy).lemma_wf_facts();
            lemma_alloc_in_range(old(buddy)@, 0);
        }
        let pa = match buddy.alloc_page() {
            Some(pa) => pa,
            None => {
                return None;
            },
        };
        proof {
            let b = alloc_view(old(buddy)@, 0).1->0;
            let db = old(buddy).spec_dram_base();
            let nr = old(buddy).spec_nr_frames();
            assert(pa@ + PAGE_SIZE <= db + nr * PAGE_SIZE) by (nonlinear_arith)
                requires
                    pa@ == db + b * PAGE_SIZE,
                    b < nr,
            ;
        }
        let base = pa_to_linear_va(pa).as_u64();
        let size = class_bytes(idx) as u64;
        let n = objects_per_page(idx);
        let ghost start = self@[idx as int];
        let mut k: usize = 0;
        while k < n
            invariant
                self.wf(),
                idx < NR_CLASSES,
                k <= n,
                n == PAGE_SIZE as nat / class_size(idx as int),
                n * class_size(idx as int) <= PAGE_SIZE,
                size == class_size(idx as int),
                base == buddy_page_va(old(buddy), 0),
                base + PAGE_SIZE <= u64::MAX,
                forall|i: int| 0 <= i < NR_CLASSES && i != idx ==> #[trigger] self@[i] == old(self)@[i],
                self@[idx as int] == start + carved(base as nat, idx as int).subrange(0, k as int),
                start == old(self)@[idx as int],
            decreases n - k,
        {
            assert(k * size < PAGE_SIZE) by (nonlinear_arith)
                requires
                    k < n,
                    n * size <= PAGE_SIZE,
            ;
            let obj = base + (k as u64) * size;
            self.push(idx, obj);
            proof {
                assert(carved(base as nat, idx as int).subrange(0, k + 1) =~= carved(
                    base as nat,
                    idx as int,
                ).subrange(0, k as int).push(obj));
            }
            k = k + 1;
        }
        proof {
            assert(carved(base as nat, idx as int).subrange(0, n as int) =~= carved(
                base as nat,
                idx as int,
            ));
            assert(self@ =~= old(self)@.update(
                idx as int,
                old(self)@[idx as int] + carved(base as nat, idx as int),
            ));
        }
        Some(())
    }
}

/// The size class `alloc` would pick for `n` bytes, scanning from class
/// `i`: the first class at least `n` bytes large.
pub open spec fn size_class_from(n: nat, i: int) -> Option<int>
    decreases NR_CLASSES - i,
{
    if i >= NR_CLASSES {
        None
    } else if class_size(i) >= n {
        Some(i)
    } else {
        size_class_from(n, i + 1)
    }
}

/// The class of a request, `None` for the whole-page path.
pub open spec fn size_class(size: usize, align: usize) -> Option<int> {
    size_class_from(need(size, align), 0)
}

/// The scan's answer is the smallest fitting class.
proof fn lemma_size_class_from(n: nat, i: int)
    requires
        0 <= i <= NR_CLASSES,
        forall|j: int| 0 <= j < i ==> class_size(j) < n,
    ensures
        size_class_from(n, i) matches Some(c) ==> i <= c < NR_CLASSES && class_size(c) >= n
            && forall|j: int| 0 <= j < c ==> class_size(j) < n,
        size_class_from(n, i) is None ==> forall|j: int| 0 <= j < NR_CLASSES ==> class_size(j) < n,
    decreases NR_CLASSES - i,
{
    if i < NR_CLASSES && class_size(i) < n {
        lemma_size_class_from(n, i + 1);
    }
}

/// `size_class_index` answers `size_class`.
pub proof fn lemma_size_class_index_spec(size: usize, align: usize, r: Option<usize>)
    requires
        r matches Some(i) ==> i < NR_CLASSES && class_size(i as int) >= size && class_size(i as int)
            >= align && forall|j: int| 0 <= j < i ==> class_size(j) < need(size, align),
        r is None <==> need(size, align) > 2048,
    ensures
        r matches Some(i) ==> size_class(size, align) == Some(i as int),
        r is None ==> size_class(size, align) is None,
{
    lemma_size_class_from(need(size, align), 0);
    if let Some(i) = r {
        if let Some(c) = size_class(size, align) {
            if c < i {
                assert(class_size(c) < need(size, align));
            }
            if i < c {
                assert(class_size(i as int) < need(size, align));
            }
        }
    } else {
        if let Some(c) = size_class(size, align) {
            assert(class_size(c) <= 2048);
        }
    }
}

/// The buddy order of a whole-page request of `size` bytes.
pub open spec fn order_for(size: nat) -> nat {
    choose|o: nat| pages_order_spec(size, o)
}

/// The order is unique: only one order is the smallest that fits.
pub proof fn lemma_order_for(size: nat, o: nat)
    requires
        pages_order_spec(size, o),
    ensures
        order_for(size) == o,
{
    let c = order_for(size);
    assert(pages_order_spec(size, c));
    if c < o {
        assert(pow2(c) * PAGE_SIZE < size);
    }
    if o < c {
        assert(pow2(o) * PAGE_SIZE < size);
    }
}

/// The free-list is last in, first out: popping right after pushing an
/// object gives that object back and restores the list.
pub proof fn lemma_push_pop_lifo(lists: Seq<Seq<u64>>, idx: int, addr: u64)
    requires
        0 <= idx < lists.len(),
    ensures
        lists.update(idx, lists[idx].push(addr))[idx].last() == addr,
        lists.update(idx, lists[idx].push(addr)).update(
            idx,
            lists.update(idx, lists[idx].push(addr))[idx].drop_last(),
        ) == lists,
{
    assert(lists[idx].push(addr).drop_last() =~= lists[idx]);
    assert(lists.update(idx, lists[idx].push(addr)).update(idx, lists[idx]) =~= lists);
}

/// Carving keeps every object inside its page, aligned to its class.
pub proof fn lemma_carved_in_page(base: nat, idx: int, k: int)
    requires
        0 <= idx < NR_CLASSES,
        0 <= k < PAGE_SIZE as nat / class_size(idx),
        base + PAGE_SIZE <= u64::MAX,
    ensures
        base <= carved(base, idx)[k] < base + PAGE_SIZE,
        carved(base, idx)[k] + class_size(idx) <= base + PAGE_SIZE,
        (carved(base, idx)[k] - base) % (class_size(idx) as int) == 0,
{
    let c = class_size(idx);
    let n = PAGE_SIZE as nat / c;
    assert(n * c <= PAGE_SIZE) by (nonlinear_arith)
        requires
            n == PAGE_SIZE as nat / c,
            c > 0,
    ;
    assert(k * c + c <= PAGE_SIZE) by (nonlinear_arith)
        requires
            0 <= k < n,
            n * c <= PAGE_SIZE,
    ;
    assert((k * c) % (c as int) == 0) by (nonlinear_arith)
        requires
            c > 0,
    ;
    assert(k * c >= 0) by (nonlinear_arith)
        requires
            k >= 0,
            c > 0,
    ;
}

/// Linear-map address of the block a whole-page allocation of order `o`
/// returns.
pub open spec fn large_va(b: &BuddyAllocator, o: nat) -> u64 {
    buddy_page_va(b, o) as u64
}

/// Serve a request larger than the top size class as a run of whole buddy
/// pages, returned by its linear-map address; `None` when the buddy has no
/// such run.
pub fn large_alloc(buddy: &mut BuddyAllocator, size: usize) -> (r: Option<u64>)
    requires
        old(buddy).wf(),
        buddy_in_window(old(buddy)),
    ensures
        final(buddy).wf(),
        final(buddy)@ == alloc_view(old(buddy)@, order_for(size as nat)).0,
        final(buddy).spec_dram_base() == old(buddy).spec_dram_base(),
        final(buddy).spec_nr_frames() == old(buddy).spec_nr_frames(),
        r is None <==> alloc_view(old(buddy)@, order_for(size as nat)).1 is None,
        r matches Some(va) ==> va == large_va(old(buddy), order_for(size as nat)),
{
    let order = pages_order(size);
    proof {
        lemma_order_for(size as nat, order as nat);
        old(buddy).lemma_wf_facts();
        lemma_alloc_in_range(old(buddy)@, order as nat);
    }
    match buddy.alloc_pages(order) {
        Some(pa) => {
            proof {
                let b = alloc_view(old(buddy)@, order as nat).1->0;
                let db = old(buddy).spec_dram_base();
                let nr = old(buddy).spec_nr_frames();
                assert(pa@ + PAGE_SIZE <= db + nr * PAGE_SIZE) by (nonlinear_arith)
                    requires
                        pa@ == db + b * PAGE_SIZE,
                        b < nr,
                ;
            }
            Some(pa_to_linear_va(pa).as_u64())
        },
        None => None,
    }
}

/// What freeing a whole-page allocation at `va` of `size` bytes needs: a
/// linear-map address of a frame of the buddy that it handed out at the
/// order `size` takes.
pub open spec fn large_free_ok(b: &BuddyAllocator, va: u64, size: usize) -> bool {
    let pa = va - KERNEL_LINEAR_BASE;
    &&& KERNEL_LINEAR_BASE <= va < KERNEL_DEVICE_BASE
    &&& b.spec_dram_base() <= pa < b.spec_dram_base() + b.spec_nr_frames() * PAGE_SIZE
    &&& pa % (PAGE_SIZE as int) == 0
    &&& b@.states[pfn_of_pa(b.spec_dram_base() as nat, pa as nat) as int] == FrameState::Allocated(
        order_for(size as nat),
    )
    &&& b@.free_frames + pow2(order_for(size as nat)) <= usize::MAX
}

/// Return a whole-page allocation to the buddy.
pub fn large_dealloc(buddy: &mut BuddyAllocator, va: u64, size: usize)
    requires
        old(buddy).wf(),
        large_free_ok(old(buddy), va, size),
    ensures
        final(buddy).wf(),
        final(buddy)@ == crate::mm::buddy::free_view(
            old(buddy)@,
            pfn_of_pa(old(buddy).spec_dram_base() as nat, (va - KERNEL_LINEAR_BASE) as nat),
            order_for(size as nat),
        ),
        final(buddy).spec_dram_base() == old(buddy).spec_dram_base(),
        final(buddy).spec_nr_frames() == old(buddy).spec_nr_frames(),
{
    let pa = linear_va_to_pa(VirtAddr::from_u64(va));
    let order = pages_order(size);
    proof {
        lemma_order_for(size as nat, order as nat);
    }
    buddy.free_pages(pa, order);
}

impl Slab {
    /// Allocate `size` bytes at alignment `align`: from the smallest fitting
    /// class's free-list, refilled from a fresh buddy page when empty; a
    /// request above the top class takes whole buddy pages. `None` when the
    /// buddy cannot supply the page(s).
    pub fn alloc_object(&mut self, buddy: &mut BuddyAllocator, size: usize, align: usize) -> (r:
        Option<u64>)
        requires
            old(self).wf(),
            old(buddy).wf(),
            buddy_in_window(old(buddy)),
        ensures
            final(self).wf(),
            final(buddy).wf(),
            final(buddy).spec_dram_base() == old(buddy).spec_dram_base(),
            final(buddy).spec_nr_frames() == old(buddy).spec_nr_frames(),
            size_class(size, align) matches Some(i) ==> {
                if old(self)@[i].len() > 0 {
                    &&& r == Some(old(self)@[i].last())
                    &&& final(self)@ == old(self)@.update(i, old(self)@[i].drop_last())
                    &&& final(buddy)@ == old(buddy)@
                } else if alloc_view(old(buddy)@, 0).1 is None {
                    &&& r is None
                    &&& final(self)@ == old(self)@
                    &&& final(buddy)@ == old(buddy)@
                } else {
                    let fresh = carved(buddy_page_va(old(buddy), 0), i);
                    &&& r == Some(fresh.last())
                    &&& final(self)@ == old(self)@.update(i, fresh.drop_last())
                    &&& final(buddy)@ == alloc_view(old(buddy)@, 0).0
                }
            },
            size_class(size, align) is None ==> {
                &&& final(self)@ == old(self)@
                &&& final(buddy)@ == alloc_view(old(buddy)@, order_for(size as nat)).0
                &&& (r is None <==> alloc_view(old(buddy)@, order_for(size as nat)).1 is None)
                &&& (r matches Some(va) ==> va == large_va(old(buddy), order_for(size as nat)))
            },
    {
        let c = size_class_index(size, align);
        proof {
            lemma_size_class_index_spec(size, align, c);
            old(buddy).lemma_wf_facts();
        }
        match c {
            Some(idx) => {
                if self.is_empty(idx) {
                    match self.refill(idx, buddy) {
                        None => {
                            return None;
                        },
                        Some(()) => {},
                    }
                    proof {
                        let fresh = carved(buddy_page_va(old(buddy), 0), idx as int);
                        assert(old(self)@[idx as int] + fresh =~= fresh);
                        assert(fresh.len() >= 1) by {
                            assert(PAGE_SIZE as nat / class_size(idx as int) >= 1);
                        }
                    }
                }
                self.pop(idx)
            },
            None => large_alloc(buddy, size),
        }
    }

    /// Free an object of `size` bytes at alignment `align`: a small object
    /// goes back on top of its class's free-list, a whole-page allocation
    /// back to the buddy.
    pub fn dealloc_object(&mut self, buddy: &mut BuddyAllocator, addr: u64, size: usize, align: usize)
        requires
            old(self).wf(),
            old(buddy).wf(),
            size_class(size, align) is None ==> large_free_ok(old(buddy), addr, size),
        ensures
            final(self).wf(),
            final(buddy).wf(),
            size_class(size, align) matches Some(i) ==> final(self)@ == old(self)@.update(
                i,
                old(self)@[i].push(addr),
            ) && final(buddy)@ == old(buddy)@,
            size_class(size, align) is None ==> final(self)@ == old(self)@ && final(buddy)@
                == crate::mm::buddy::free_view(
                old(buddy)@,
                pfn_of_pa(old(buddy).spec_dram_base() as nat, (addr - KERNEL_LINEAR_BASE) as nat),
                order_for(size as nat),
            ),
    {
        let c = size_class_index(size, align);
        proof {
            lemma_size_class_index_spec(size, align, c);
        }
        match c {
            Some(idx) => self.push(idx, addr),
            None => large_dealloc(buddy, addr, size),
        }
    }
}

} // verus!
