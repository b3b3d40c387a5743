//! Boot-time physical memory allocator (memblock-style).
//!
//! Two fixed-capacity interval lists — `memory` (RAM from the device tree)
//! and `reserved` (kernel image, DTB, early allocations). [`BootMem::alloc_frames`]
//! carves a top-down aligned block from the free gaps;
//! [`BootMem::for_each_free`] yields every RAM frame not reserved, for
//! hand-off to the buddy allocator.

use vstd::prelude::*;

use crate::mm::frame::PAGE_SIZE;
use crate::mm::types::{FrameCount, Pfn};

verus! {

/// A frame interval `[base, base + frames)` in absolute frame numbers
/// (`pa / PAGE_SIZE`).
#[derive(Clone, Copy, Debug)]
pub struct Region {
    pub base: Pfn,
    pub frames: FrameCount,
}

/// An interval as `(base, frames)`.
pub open spec fn rv(r: Region) -> (nat, nat) {
    (r.base@ as nat, r.frames@ as nat)
}

/// Whether interval `r` contains frame `q`.
pub open spec fn covers(r: (nat, nat), q: int) -> bool {
    r.0 <= q < r.0 + r.1
}

/// Whether some interval of `rs` contains frame `q`.
pub open spec fn in_some(rs: Seq<(nat, nat)>, q: int) -> bool {
    exists|i: int| 0 <= i < rs.len() && covers(#[trigger] rs[i], q)
}

/// An interval whose end fits a 32-bit frame number.
pub open spec fn no_wrap(r: (nat, nat)) -> bool {
    r.0 + r.1 <= u32::MAX
}

impl Region {
    /// The all-zero interval.
    pub fn zero() -> (r: Self)
        ensures
            rv(r) == (0nat, 0nat),
    {
        Self { base: Pfn::new(0), frames: FrameCount::new(0) }
    }

    /// First frame past the interval.
    pub fn end(&self) -> (r: Pfn)
        requires
            no_wrap(rv(*self)),
        ensures
            r@ == self.base@ + self.frames@,
    {
        Pfn::new((self.base.index() + self.frames.get()) as u32)
    }

    /// Whether the two intervals share a frame.
    pub fn overlaps(&self, o: Region) -> (r: bool)
        requires
            no_wrap(rv(*self)),
            no_wrap(rv(o)),
        ensures
            r == (self.base@ < o.base@ + o.frames@ && o.base@ < self.base@ + self.frames@),
    {
        self.base.raw() < o.end().raw() && o.base.raw() < self.end().raw()
    }
}

/// Overlap is symmetric, and for non-empty intervals it means exactly that
/// the intersection is non-empty: `max(bases) < min(ends)`.
pub proof fn lemma_overlaps_definition(a: (nat, nat), b: (nat, nat))
    requires
        a.1 >= 1,
        b.1 >= 1,
    ensures
        (a.0 < b.0 + b.1 && b.0 < a.0 + a.1) == (b.0 < a.0 + a.1 && a.0 < b.0 + b.1),
        (a.0 < b.0 + b.1 && b.0 < a.0 + a.1) == ((if a.0 > b.0 {
            a.0
        } else {
            b.0
        }) < (if a.0 + a.1 < b.0 + b.1 {
            a.0 + a.1
        } else {
            b.0 + b.1
        })),
        (a.0 < b.0 + b.1 && b.0 < a.0 + a.1) == (exists|q: int| covers(a, q) && covers(b, q)),
{
    if a.0 < b.0 + b.1 && b.0 < a.0 + a.1 {
        let q = if a.0 > b.0 {
            a.0
        } else {
            b.0
        };
        assert(covers(a, q as int) && covers(b, q as int));
    }
}

/// Capacity of each interval list.
pub const NR_REGIONS: usize = 128;

/// Free gaps of RAM interval `[c, me)` left by reserved intervals `res[j..]`,
/// scanning with cursor `c` as the allocator does.
pub open spec fn holes_from(me: nat, res: Seq<(nat, nat)>, j: int, c: nat) -> Seq<(nat, nat)>
    decreases res.len() - j,
{
    if j >= res.len() || j < 0 {
        if c < me {
            seq![(c, (me - c) as nat)]
        } else {
            seq![]
        }
    } else {
        let rb = res[j].0;
        let re = res[j].0 + res[j].1;
        if re <= c || rb >= me {
            holes_from(me, res, j + 1, c)
        } else {
            let emit = if rb > c {
                seq![(c, (rb - c) as nat)]
            } else {
                seq![]
            };
            emit + holes_from(
                me,
                res,
                j + 1,
                if c > re {
                    c
                } else {
                    re
                },
            )
        }
    }
}

/// Free gaps of every RAM interval, RAM intervals in order.
pub open spec fn free_holes(mem: Seq<(nat, nat)>, res: Seq<(nat, nat)>) -> Seq<(nat, nat)>
    decreases mem.len(),
{
    if mem.len() == 0 {
        seq![]
    } else {
        let m = mem.last();
        free_holes(mem.drop_last(), res) + holes_from(m.0 + m.1, res, 0, m.0)
    }
}

/// Where a sorted insertion of base `b` lands: after every interval whose
/// base is not above `b`.
pub open spec fn insert_pos(s: Seq<(nat, nat)>, b: nat) -> nat
    decreases s.len(),
{
    if s.len() == 0 {
        0
    } else if s.last().0 > b {
        insert_pos(s.drop_last(), b)
    } else {
        s.len()
    }
}

/// The intervals are ordered by base.
pub open spec fn sorted_by_base(s: Seq<(nat, nat)>) -> bool {
    forall|i: int, j: int| 0 <= i < j < s.len() ==> #[trigger] s[i].0 <= #[trigger] s[j].0
}

/// `insert_pos` splits a base-sorted list: every interval before it has a
/// base not above `b`, every one from it on a base above `b`.
proof fn lemma_insert_pos_splits(s: Seq<(nat, nat)>, b: nat)
    requires
        sorted_by_base(s),
    ensures
        insert_pos(s, b) <= s.len(),
        forall|i: int| 0 <= i < insert_pos(s, b) ==> (#[trigger] s[i]).0 <= b,
        forall|i: int| insert_pos(s, b) <= i < s.len() ==> (#[trigger] s[i]).0 > b,
    decreases s.len(),
{
    if s.len() > 0 {
        let init = s.drop_last();
        if s.last().0 > b {
            lemma_insert_pos_splits(init, b);
            assert forall|i: int| 0 <= i < insert_pos(s, b) implies (#[trigger] s[i]).0 <= b by {
                assert(init[i] == s[i]);
            }
            assert forall|i: int| insert_pos(s, b) <= i < s.len() implies (#[trigger] s[i]).0 > b by {
                if i < s.len() - 1 {
                    assert(init[i] == s[i]);
                }
            }
        } else {
            assert forall|i: int| 0 <= i < insert_pos(s, b) implies (#[trigger] s[i]).0 <= b by {
                assert(s[i].0 <= s[s.len() - 1].0);
            }
        }
    }
}

/// Inserting an interval where `insert_pos` puts it keeps a base-sorted
/// list sorted, and the list then holds exactly the old intervals and the
/// new one: the law every reservation obeys.
pub proof fn lemma_sorted_insert(s: Seq<(nat, nat)>, x: (nat, nat))
    requires
        sorted_by_base(s),
    ensures
        sorted_by_base(s.insert(insert_pos(s, x.0) as int, x)),
        s.insert(insert_pos(s, x.0) as int, x).to_multiset() == s.to_multiset().insert(x),
        s.insert(insert_pos(s, x.0) as int, x).len() == s.len() + 1,
{
    lemma_insert_pos_splits(s, x.0);
    let p = insert_pos(s, x.0) as int;
    let t = s.insert(p, x);
    assert forall|i: int, j: int| 0 <= i < j < t.len() implies #[trigger] t[i].0 <= #[trigger] t[j].0 by {
        if j < p {
            assert(t[i] == s[i] && t[j] == s[j]);
        } else if j == p {
            assert(t[i] == s[i]);
        } else if i < p {
            assert(t[i] == s[i] && t[j] == s[j - 1]);
        } else if i == p {
            assert(t[j] == s[j - 1]);
        } else {
            assert(t[i] == s[i - 1] && t[j] == s[j - 1]);
        }
    }
    vstd::seq_lib::to_multiset_insert(s, p, x);
}

/// The candidate a hole offers for `frames` frames at alignment `align`:
/// the highest aligned base that keeps the block inside the hole.
pub open spec fn hole_candidate(h: (nat, nat), frames: nat, align: nat) -> Option<nat> {
    if h.1 >= frames {
        let top = (h.0 + h.1 - frames) as nat;
        let cand = (top - top % align) as nat;
        if cand >= h.0 {
            Some(cand)
        } else {
            None
        }
    } else {
        None
    }
}

/// The highest candidate over the holes, scanning in order and keeping a new
/// candidate only when it is strictly higher.
pub open spec fn best_candidate(hs: Seq<(nat, nat)>, frames: nat, align: nat) -> Option<nat>
    decreases hs.len(),
{
    if hs.len() == 0 {
        None
    } else {
        let prev = best_candidate(hs.drop_last(), frames, align);
        match hole_candidate(hs.last(), frames, align) {
            Some(c) => if prev is None || c > prev->0 {
                Some(c)
            } else {
                prev
            },
            None => prev,
        }
    }
}

/// Fixed-capacity `memory` / `reserved` interval lists. `reserved` is kept
/// sorted by base so the free-gap scan is a single pass.
pub struct BootMem {
    memory: Vec<Region>,
    n_memory: usize,
    reserved: Vec<Region>,
    n_reserved: usize,
}

/// The abstract state: the registered RAM and reserved intervals.
pub struct BootMemView {
    pub memory: Seq<(nat, nat)>,
    pub reserved: Seq<(nat, nat)>,
}

impl View for BootMem {
    type V = BootMemView;

    closed spec fn view(&self) -> BootMemView {
        BootMemView {
            memory: self.memory@.subrange(0, self.n_memory as int).map_values(|r: Region| rv(r)),
            reserved: self.reserved@.subrange(0, self.n_reserved as int).map_values(
                |r: Region| rv(r),
            ),
        }
    }
}

impl BootMem {
    /// Well-formedness: both lists within capacity, every interval non-empty
    /// and within the 32-bit frame space, `reserved` sorted by base.
    pub closed spec fn wf(&self) -> bool {
        &&& self.memory@.len() == NR_REGIONS
        &&& self.reserved@.len() == NR_REGIONS
        &&& self.n_memory <= NR_REGIONS
        &&& self.n_reserved <= NR_REGIONS
        &&& forall|i: int| 0 <= i < self.n_memory ==> no_wrap(rv(#[trigger] self.memory@[i]))
        &&& forall|i: int| 0 <= i < self.n_memory ==> (#[trigger] self.memory@[i]).frames@ >= 1
        &&& forall|i: int| 0 <= i < self.n_reserved ==> no_wrap(rv(#[trigger] self.reserved@[i]))
        &&& forall|i: int| 0 <= i < self.n_reserved ==> (#[trigger] self.reserved@[i]).frames@ >= 1
        &&& sorted_by_base(self@.reserved)
    }
}


impl BootMem {
    /// The `i`-th registered RAM interval, abstractly.
    proof fn lemma_view_index(&self, i: int)
        requires
            self.n_memory <= self.memory@.len(),
            self.n_reserved <= self.reserved@.len(),
        ensures
            0 <= i < self.n_memory ==> self@.memory[i] == rv(self.memory@[i]),
            0 <= i < self.n_reserved ==> self@.reserved[i] == rv(self.reserved@[i]),
            self@.memory.len() == self.n_memory,
            self@.reserved.len() == self.n_reserved,
    {
    }

    /// What well-formedness says of the abstract intervals: each non-empty
    /// and within the 32-bit frame space, the reserved ones sorted by base.
    pub proof fn lemma_wf_intervals(&self)
        requires
            self.wf(),
        ensures
            forall|i: int|
                0 <= i < self@.memory.len() ==> no_wrap(#[trigger] self@.memory[i])
                    && self@.memory[i].1 >= 1,
            forall|i: int|
                0 <= i < self@.reserved.len() ==> no_wrap(#[trigger] self@.reserved[i])
                    && self@.reserved[i].1 >= 1,
            sorted_by_base(self@.reserved),
            self@.memory.len() <= NR_REGIONS,
            self@.reserved.len() <= NR_REGIONS,
    {
        assert forall|i: int| 0 <= i < self@.memory.len() implies no_wrap(
            #[trigger] self@.memory[i],
        ) && self@.memory[i].1 >= 1 by {
            self.lemma_view_index(i);
        }
        assert forall|i: int| 0 <= i < self@.reserved.len() implies no_wrap(
            #[trigger] self@.reserved[i],
        ) && self@.reserved[i].1 >= 1 by {
            self.lemma_view_index(i);
        }
        self.lemma_view_index(0);
    }

    /// An empty allocator: no RAM, nothing reserved.
    pub fn new() -> (r: Self)
        ensures
            r.wf(),
            r@.memory.len() == 0,
            r@.reserved.len() == 0,
    {
        let mut memory: Vec<Region> = Vec::new();
        let mut reserved: Vec<Region> = Vec::new();
        let mut i: usize = 0;
        while i < NR_REGIONS
            invariant
                i <= NR_REGIONS,
                memory@.len() == i,
                reserved@.len() == i,
            decreases NR_REGIONS - i,
        {
            memory.push(Region::zero());
            reserved.push(Region::zero());
            i = i + 1;
        }
        let r = Self { memory, n_memory: 0, reserved, n_reserved: 0 };
        proof {
            assert(r@.reserved =~= Seq::<(nat, nat)>::empty());
        }
        r
    }

    /// Span from the lowest RAM frame to the highest: (base frame, frame
    /// count). The buddy mem-map covers this whole range.
    pub fn ram_span(&self) -> (r: (Pfn, FrameCount))
        requires
            self.wf(),
            self@.memory.len() > 0,
        ensures
            forall|i: int|
                0 <= i < self@.memory.len() ==> r.0@ <= (#[trigger] self@.memory[i]).0 && self@.memory[i].0
                    + self@.memory[i].1 <= r.0@ + r.1@,
            exists|i: int| 0 <= i < self@.memory.len() && (#[trigger] self@.memory[i]).0 == r.0@,
            exists|i: int|
                0 <= i < self@.memory.len() && (#[trigger] self@.memory[i]).0 + self@.memory[i].1
                    == r.0@ + r.1@,
    {
        proof {
            assert forall|i: int| 0 <= i < self.n_memory implies self@.memory[i] == rv(
                self.memory@[i],
            ) by {
                self.lemma_view_index(i);
            }
        }
        let mut lo: u32 = 0xFFFF_FFFF;
        let mut hi: u32 = 0;
        let mut i: usize = 0;
        let ghost mut lk: int = 0;
        let ghost mut hk: int = 0;
        while i < self.n_memory
            invariant
                self.wf(),
                i <= self.n_memory,
                forall|k: int| 0 <= k < self.n_memory ==> self@.memory[k] == rv(
                    #[trigger] self.memory@[k],
                ),
                forall|k: int|
                    0 <= k < i ==> lo <= (#[trigger] self@.memory[k]).0 && self@.memory[k].0
                        + self@.memory[k].1 <= hi,
                i > 0 ==> 0 <= lk < i && self@.memory[lk].0 == lo,
                i > 0 ==> 0 <= hk < i && self@.memory[hk].0 + self@.memory[hk].1 == hi,
                i > 0 ==> lo <= hi,
            decreases self.n_memory - i,
        {
            let m = self.memory[i];
            let b = m.base.raw();
            let e = m.end().raw();
            if b < lo || i == 0 {
                lo = b;
                proof {
                    lk = i as int;
                }
            }
            if e > hi || i == 0 {
                hi = e;
                proof {
                    hk = i as int;
                }
            }
            assert(self@.memory[i as int] == rv(m));
            i = i + 1;
        }
        proof {
            assert(self@.memory[lk].0 == lo);
            assert(self@.memory[hk].0 + self@.memory[hk].1 == hi);
        }
        (Pfn::new(lo), FrameCount::new((hi - lo) as usize))
    }

    /// Register RAM interval `[base, base + frames)`.
    fn add_memory(&mut self, base: Pfn, frames: FrameCount)
        requires
            old(self).wf(),
            old(self)@.memory.len() < NR_REGIONS,
            frames@ >= 1,
            base@ + frames@ <= u32::MAX,
        ensures
            final(self).wf(),
            final(self)@.memory == old(self)@.memory.push((base@ as nat, frames@ as nat)),
            final(self)@.reserved == old(self)@.reserved,
    {
        let ghost om = self@.memory;
        let n = self.n_memory;
        self.memory.set(n, Region { base, frames });
        self.n_memory = n + 1;
        proof {
            assert(self@.memory =~= om.push((base@ as nat, frames@ as nat)));
            assert(self@.reserved =~= old(self)@.reserved);
        }
    }

    /// Reserve interval `[base, base + frames)`, keeping `reserved` sorted by
    /// base (a new interval goes after every one with a base not above its
    /// own).
    pub fn reserve(&mut self, base: Pfn, frames: FrameCount)
        requires
            old(self).wf(),
            old(self)@.reserved.len() < NR_REGIONS,
            frames@ >= 1,
            base@ + frames@ <= u32::MAX,
        ensures
            final(self).wf(),
            final(self)@.reserved == old(self)@.reserved.insert(
                insert_pos(old(self)@.reserved, base@ as nat) as int,
                (base@ as nat, frames@ as nat),
            ),
            final(self)@.memory == old(self)@.memory,
            // still sorted, holding the old intervals and the new one
            sorted_by_base(final(self)@.reserved),
            final(self)@.reserved.len() == old(self)@.reserved.len() + 1,
            final(self)@.reserved.to_multiset() == old(self)@.reserved.to_multiset().insert(
                (base@ as nat, frames@ as nat),
            ),
    {
        proof {
            old(self).lemma_wf_intervals();
            lemma_sorted_insert(old(self)@.reserved, (base@ as nat, frames@ as nat));
        }
        let ghost old_res = self@.reserved;
        let ghost nr = (base@ as nat, frames@ as nat);
        let n = self.n_reserved;
        proof {
            assert(old_res.subrange(0, n as int) =~= old_res);
            assert forall|k: int| 0 <= k < n implies rv(#[trigger] self.reserved@[k]) == old_res[k] by {}
        }
        let mut i = n;
        while i > 0 && self.reserved[i - 1].base.raw() > base.raw()
            invariant
                i <= n < NR_REGIONS,
                self.reserved@.len() == NR_REGIONS,
                self.n_reserved == n,
                old_res.len() == n,
                self.memory == old(self).memory,
                self.n_memory == old(self).n_memory,
                forall|k: int| 0 <= k < i ==> rv(#[trigger] self.reserved@[k]) == old_res[k],
                forall|k: int| i < k <= n ==> rv(#[trigger] self.reserved@[k]) == old_res[k - 1],
                forall|k: int| i <= k < n ==> (#[trigger] old_res[k]).0 > base@,
                insert_pos(old_res, base@ as nat) == insert_pos(old_res.subrange(0, i as int), base@ as nat),
            decreases i,
        {
            proof {
                let s = old_res.subrange(0, i as int);
                assert(s.last() == old_res[i - 1]);
                assert(s.drop_last() =~= old_res.subrange(0, i - 1));
            }
            let prev = self.reserved[i - 1];
            self.reserved.set(i, prev);
            i = i - 1;
        }
        proof {
            if i > 0 {
                let s = old_res.subrange(0, i as int);
                assert(s.last() == old_res[i - 1]);
            }
            assert(insert_pos(old_res.subrange(0, i as int), base@ as nat) == i);
        }
        self.reserved.set(i, Region { base, frames });
        self.n_reserved = n + 1;
        proof {
            assert forall|k: int| 0 <= k < n + 1 implies #[trigger] self@.reserved[k] == old_res.insert(
                i as int,
                nr,
            )[k] by {}
            assert(self@.reserved =~= old_res.insert(i as int, nr));
            assert(self@.memory =~= old(self)@.memory);
            let r = self@.reserved;
            assert forall|a: int, b: int| 0 <= a < b < r.len() implies #[trigger] r[a].0
                <= #[trigger] r[b].0 by {
                if a < i && b < i {
                } else if a < i && b == i {
                    assert(old_res[i - 1].0 <= base@);
                    assert(old_res[a].0 <= old_res[i - 1].0);
                } else if a < i {
                    assert(old_res[a].0 <= old_res[b - 1].0);
                } else if a == i {
                    assert(old_res[b - 1].0 > base@);
                } else {
                    assert(old_res[a - 1].0 <= old_res[b - 1].0);
                }
            }
        }
    }

    /// Reserve the byte range `[base_pa, end_pa)`, rounded outward to whole
    /// frames.
    pub fn reserve_bytes(&mut self, base_pa: usize, end_pa: usize)
        requires
            old(self).wf(),
            old(self)@.reserved.len() < NR_REGIONS,
            base_pa < end_pa,
            end_pa as nat <= (u32::MAX as nat) * PAGE_SIZE,
        ensures
            final(self).wf(),
            final(self)@.memory == old(self)@.memory,
            final(self)@.reserved == old(self)@.reserved.insert(
                insert_pos(old(self)@.reserved, base_pa as nat / PAGE_SIZE as nat) as int,
                (
                    base_pa as nat / PAGE_SIZE as nat,
                    (ceil_div(end_pa as nat, PAGE_SIZE as nat) - base_pa as nat
                        / PAGE_SIZE as nat) as nat,
                ),
            ),
            // the frame range covers the byte range
            (base_pa as nat / PAGE_SIZE as nat) * PAGE_SIZE <= base_pa,
            end_pa <= ceil_div(end_pa as nat, PAGE_SIZE as nat) * PAGE_SIZE,
    {
        let base = base_pa / PAGE_SIZE;
        let end = end_pa / PAGE_SIZE + if end_pa % PAGE_SIZE != 0 {
            1
        } else {
            0
        };
        proof {
            lemma_ceil_div(end_pa as nat, PAGE_SIZE as nat);
            assert(base * PAGE_SIZE <= base_pa) by (nonlinear_arith)
                requires
                    base == base_pa / PAGE_SIZE,
            ;
            assert(end <= u32::MAX) by (nonlinear_arith)
                requires
                    end_pa <= (u32::MAX as nat) * PAGE_SIZE,
                    end == end_pa / PAGE_SIZE + (if end_pa % PAGE_SIZE != 0 { 1int } else { 0 }),
            ;
            assert(base < end);
        }
        self.reserve(Pfn::new(base as u32), FrameCount::new(end - base));
    }

    /// Register the RAM byte range `[base_pa, end_pa)`, rounded inward to
    /// whole frames; nothing is added when no whole frame fits.
    pub fn add_memory_bytes(&mut self, base_pa: usize, end_pa: usize)
        requires
            old(self).wf(),
            end_pa as nat / PAGE_SIZE as nat > ceil_div(base_pa as nat, PAGE_SIZE as nat)
                ==> old(self)@.memory.len() < NR_REGIONS,
            end_pa as nat / PAGE_SIZE as nat <= u32::MAX,
        ensures
            final(self).wf(),
            final(self)@.reserved == old(self)@.reserved,
            end_pa as nat / PAGE_SIZE as nat > ceil_div(base_pa as nat, PAGE_SIZE as nat)
                ==> final(self)@.memory == old(self)@.memory.push(
                (
                    ceil_div(base_pa as nat, PAGE_SIZE as nat),
                    (end_pa as nat / PAGE_SIZE as nat - ceil_div(
                        base_pa as nat,
                        PAGE_SIZE as nat,
                    )) as nat,
                ),
            ),
            end_pa as nat / PAGE_SIZE as nat <= ceil_div(base_pa as nat, PAGE_SIZE as nat)
                ==> final(self)@.memory == old(self)@.memory,
            // the frame range lies inside the byte range
            base_pa <= ceil_div(base_pa as nat, PAGE_SIZE as nat) * PAGE_SIZE,
            (end_pa as nat / PAGE_SIZE as nat) * PAGE_SIZE <= end_pa,
    {
        let base = base_pa / PAGE_SIZE + if base_pa % PAGE_SIZE != 0 {
            1
        } else {
            0
        };
        let end = end_pa / PAGE_SIZE;
        proof {
            lemma_ceil_div(base_pa as nat, PAGE_SIZE as nat);
            assert(end * PAGE_SIZE <= end_pa) by (nonlinear_arith)
                requires
                    end == end_pa / PAGE_SIZE,
            ;
        }
        if end > base {
            self.add_memory(Pfn::new(base as u32), FrameCount::new(end - base));
        }
    }
}

/// The intervals of a list of regions, in order.
pub open spec fn regions_view(s: Seq<Region>) -> Seq<(nat, nat)> {
    s.map_values(|r: Region| rv(r))
}

impl BootMem {
    /// Every RAM frame not reserved, as maximal free gaps: for each RAM
    /// interval in order, the gaps between the (base-sorted) reserved
    /// intervals that cut into it.
    pub fn for_each_free(&self) -> (r: Vec<Region>)
        requires
            self.wf(),
        ensures
            regions_view(r@) == free_holes(self@.memory, self@.reserved),
            forall|k: int|
                0 <= k < r@.len() ==> no_wrap(rv(#[trigger] r@[k])) && r@[k].frames@ >= 1,
    {
        let ghost mem = self@.memory;
        let ghost res = self@.reserved;
        proof {
            self.lemma_view_index(0);
            assert forall|k: int| 0 <= k < self.n_memory implies mem[k] == rv(
                #[trigger] self.memory@[k],
            ) by {
                self.lemma_view_index(k);
            }
            assert forall|k: int| 0 <= k < self.n_reserved implies res[k] == rv(
                #[trigger] self.reserved@[k],
            ) by {
                self.lemma_view_index(k);
            }
            assert(mem.subrange(0, 0) =~= Seq::<(nat, nat)>::empty());
        }
        let mut out: Vec<Region> = Vec::new();
        let mut mi: usize = 0;
        while mi < self.n_memory
            invariant
                self.wf(),
                mem == self@.memory,
                res == self@.reserved,
                mem.len() == self.n_memory,
                res.len() == self.n_reserved,
                mi <= self.n_memory,
                forall|k: int| 0 <= k < self.n_memory ==> mem[k] == rv(#[trigger] self.memory@[k]),
                forall|k: int| 0 <= k < self.n_reserved ==> res[k] == rv(
                    #[trigger] self.reserved@[k],
                ),
                regions_view(out@) == free_holes(mem.subrange(0, mi as int), res),
                forall|k: int|
                    0 <= k < out@.len() ==> no_wrap(rv(#[trigger] out@[k])) && out@[k].frames@
                        >= 1,
            decreases self.n_memory - mi,
        {
            let m = self.memory[mi];
            let mend = m.end();
            let ghost me: nat = mend@ as nat;
            let mut cursor: Pfn = m.base;
            let mut j: usize = 0;
            proof {
                let sub = mem.subrange(0, mi + 1);
                assert(sub.drop_last() =~= mem.subrange(0, mi as int));
                assert(sub.last() == rv(m));
                assert(free_holes(sub, res) == free_holes(mem.subrange(0, mi as int), res)
                    + holes_from(me, res, 0, m.base@ as nat));
            }
            while j < self.n_reserved
                invariant
                    self.wf(),
                    mem == self@.memory,
                    res == self@.reserved,
                    mem.len() == self.n_memory,
                    res.len() == self.n_reserved,
                    mi < self.n_memory,
                    j <= self.n_reserved,
                    me == mend@,
                    me <= u32::MAX,
                    forall|k: int| 0 <= k < self.n_memory ==> mem[k] == rv(
                        #[trigger] self.memory@[k],
                    ),
                    forall|k: int| 0 <= k < self.n_reserved ==> res[k] == rv(
                        #[trigger] self.reserved@[k],
                    ),
                    regions_view(out@) + holes_from(me, res, j as int, cursor@ as nat)
                        == free_holes(mem.subrange(0, mi + 1), res),
                    forall|k: int|
                        0 <= k < out@.len() ==> no_wrap(rv(#[trigger] out@[k])) && out@[k].frames@
                            >= 1,
                decreases self.n_reserved - j,
            {
                let r = self.reserved[j];
                let rend = r.end();
                let ghost before = regions_view(out@);
                let ghost c0: nat = cursor@ as nat;
                proof {
                    assert(res[j as int] == rv(r));
                }
                if rend.raw() <= cursor.raw() || r.base.raw() >= mend.raw() {
                    assert(holes_from(me, res, j as int, c0) == holes_from(me, res, j + 1, c0));
                } else {
                    let ghost c1: nat = if c0 > rend@ {
                        c0
                    } else {
                        rend@ as nat
                    };
                    assert(holes_from(me, res, j as int, c0) == (if r.base@ > c0 {
                        seq![(c0, (r.base@ - c0) as nat)]
                    } else {
                        seq![]
                    }) + holes_from(me, res, j + 1, c1));
                    if r.base.raw() > cursor.raw() {
                        let gap = Region {
                            base: cursor,
                            frames: FrameCount::new((r.base.raw() - cursor.raw()) as usize),
                        };
                        out.push(gap);
                        proof {
                            assert(regions_view(out@) =~= before + seq![rv(gap)]);
                            assert(rv(gap) == (c0, (r.base@ - c0) as nat));
                            assert((before + seq![rv(gap)]) + holes_from(me, res, j + 1, c1)
                                =~= before + (seq![rv(gap)] + holes_from(me, res, j + 1, c1)));
                        }
                    } else {
                        proof {
                            assert(seq![] + holes_from(me, res, j + 1, c1) =~= holes_from(
                                me,
                                res,
                                j + 1,
                                c1,
                            ));
                        }
                    }
                    if rend.raw() > cursor.raw() {
                        cursor = rend;
                    }
                }
                j = j + 1;
            }
            let ghost before = regions_view(out@);
            assert(holes_from(me, res, j as int, cursor@ as nat) == (if cursor@ < me {
                seq![(cursor@ as nat, (me - cursor@) as nat)]
            } else {
                seq![]
            }));
            if cursor.raw() < mend.raw() {
                let gap = Region {
                    base: cursor,
                    frames: FrameCount::new((mend.raw() - cursor.raw()) as usize),
                };
                out.push(gap);
                proof {
                    assert(regions_view(out@) =~= before + seq![rv(gap)]);
                }
            } else {
                assert(before + seq![] =~= before);
            }
            mi = mi + 1;
        }
        proof {
            assert(mem.subrange(0, mi as int) =~= mem);
        }
        out
    }
}

impl BootMem {
    /// Carve `frames` frames aligned to `align` from the free gaps, top-down:
    /// the highest aligned base whose block fits a gap wins, and is then
    /// reserved. `None` (and nothing reserved) when no gap can hold it.
    pub fn alloc_frames(&mut self, frames: FrameCount, align: u32) -> (r: Option<Pfn>)
        requires
            old(self).wf(),
            frames@ >= 1,
            align >= 1,
            best_candidate(free_holes(old(self)@.memory, old(self)@.reserved), frames@ as nat, align as nat) is Some
                ==> old(self)@.reserved.len() < NR_REGIONS,
        ensures
            final(self).wf(),
            final(self)@.memory == old(self)@.memory,
            r matches Some(p) ==> best_candidate(
                free_holes(old(self)@.memory, old(self)@.reserved),
                frames@ as nat,
                align as nat,
            ) == Some(p@ as nat),
            r is None ==> best_candidate(
                free_holes(old(self)@.memory, old(self)@.reserved),
                frames@ as nat,
                align as nat,
            ) is None,
            r matches Some(p) ==> final(self)@.reserved == old(self)@.reserved.insert(
                insert_pos(old(self)@.reserved, p@ as nat) as int,
                (p@ as nat, frames@ as nat),
            ),
            r is None ==> final(self)@.reserved == old(self)@.reserved,
    {
        let best = self.best_fit(frames, align);
        match best {
            Some(base) => {
                proof {
                    lemma_best_candidate_fits(
                        free_holes(self@.memory, self@.reserved),
                        frames@ as nat,
                        align as nat,
                    );
                }
                self.reserve(base, frames);
                Some(base)
            },
            None => None,
        }
    }

    /// Where [`BootMem::alloc_frames`] would place `frames` frames aligned to
    /// `align`: the highest aligned base whose block fits a free gap, or
    /// `None` when no gap can hold it. Nothing is reserved.
    pub fn best_fit(&self, frames: FrameCount, align: u32) -> (r: Option<Pfn>)
        requires
            self.wf(),
            frames@ >= 1,
            align >= 1,
        ensures
            r matches Some(p) ==> best_candidate(
                free_holes(self@.memory, self@.reserved),
                frames@ as nat,
                align as nat,
            ) == Some(p@ as nat),
            r is None ==> best_candidate(
                free_holes(self@.memory, self@.reserved),
                frames@ as nat,
                align as nat,
            ) is None,
            r matches Some(p) ==> p@ + frames@ <= u32::MAX,
    {
        let holes = self.for_each_free();
        let ghost hs = regions_view(holes@);
        let mut best: Option<Pfn> = None;
        let mut i: usize = 0;
        while i < holes.len()
            invariant
                i <= holes@.len(),
                hs == regions_view(holes@),
                hs.len() == holes@.len(),
                frames@ >= 1,
                align >= 1,
                forall|k: int|
                    0 <= k < holes@.len() ==> no_wrap(rv(#[trigger] holes@[k])) && holes@[k].frames@
                        >= 1,
                best matches Some(b) ==> best_candidate(hs.subrange(0, i as int), frames@ as nat, align as nat)
                    == Some(b@ as nat),
                best is None ==> best_candidate(hs.subrange(0, i as int), frames@ as nat, align as nat) is None,
            decreases holes@.len() - i,
        {
            let hole = holes[i];
            proof {
                let sub = hs.subrange(0, i + 1);
                assert(sub.drop_last() =~= hs.subrange(0, i as int));
                assert(sub.last() == rv(hole));
            }
            if hole.frames.get() >= frames.get() {
                let top = hole.end().raw() - frames.get() as u32;
                assert(top % align <= top) by (nonlinear_arith)
                    requires
                        align >= 1,
                ;
                let cand = top - top % align;
                let better = match best {
                    Some(b) => cand > b.raw(),
                    None => true,
                };
                if cand >= hole.base.raw() && better {
                    best = Some(Pfn::new(cand));
                }
            }
            i = i + 1;
        }
        proof {
            assert(hs.subrange(0, i as int) =~= hs);
            lemma_best_candidate_fits(hs, frames@ as nat, align as nat);
            if let Some(b) = best {
                let k = choose|k: int|
                    0 <= k < hs.len() && (#[trigger] hs[k]).0 <= b@ && b@ + frames@ <= hs[k].0
                        + hs[k].1;
                assert(hs[k] == rv(holes@[k]));
            }
        }
        best
    }
}

/// A block chosen by the top-down scan is aligned, lies inside one of the
/// gaps, and no gap offers a higher candidate.
pub proof fn lemma_best_candidate_fits(hs: Seq<(nat, nat)>, frames: nat, align: nat)
    requires
        align >= 1,
    ensures
        best_candidate(hs, frames, align) matches Some(c) ==> {
            &&& c % align == 0
            &&& exists|i: int|
                0 <= i < hs.len() && (#[trigger] hs[i]).0 <= c && c + frames <= hs[i].0 + hs[i].1
        },
        best_candidate(hs, frames, align) matches Some(c) ==> forall|i: int|
            0 <= i < hs.len() ==> (#[trigger] hole_candidate(hs[i], frames, align) matches Some(
                d,
            ) ==> d <= c),
        best_candidate(hs, frames, align) is None <==> forall|i: int|
            0 <= i < hs.len() ==> #[trigger] hole_candidate(hs[i], frames, align) is None,
    decreases hs.len(),
{
    if hs.len() > 0 {
        let init = hs.drop_last();
        lemma_best_candidate_fits(init, frames, align);
        let h = hs.last();
        assert forall|i: int| 0 <= i < init.len() implies hs[i] == #[trigger] init[i] by {}
        if let Some(c) = hole_candidate(h, frames, align) {
            let top = (h.0 + h.1 - frames) as nat;
            vstd::arithmetic::div_mod::lemma_fundamental_div_mod(top as int, align as int);
            assert(c == top - top % align);
            assert((top - top % align) % (align as int) == 0) by {
                vstd::arithmetic::div_mod::lemma_fundamental_div_mod(top as int, align as int);
                vstd::arithmetic::div_mod::lemma_mod_multiples_basic(top as int / align as int, align as int);
                assert(top - top % align == align * (top / align));
                assert((align * (top / align)) == (top / align) * align) by (nonlinear_arith);
            }
        }
        if best_candidate(hs, frames, align) is Some {
            let c = best_candidate(hs, frames, align)->0;
            if hole_candidate(h, frames, align) == Some(c) {
                assert(hs[hs.len() - 1] == h);
            } else {
                let i = choose|i: int|
                    0 <= i < init.len() && (#[trigger] init[i]).0 <= c && c + frames <= init[i].0
                        + init[i].1;
                assert(hs[i] == init[i]);
            }
            assert forall|i: int| 0 <= i < hs.len() implies (#[trigger] hole_candidate(
                hs[i],
                frames,
                align,
            ) matches Some(d) ==> d <= c) by {
                if i < init.len() {
                    assert(hs[i] == init[i]);
                }
            }
        }
        if forall|i: int| 0 <= i < hs.len() ==> #[trigger] hole_candidate(hs[i], frames, align) is None {
            assert(hole_candidate(hs[hs.len() - 1], frames, align) is None);
            assert forall|i: int| 0 <= i < init.len() implies #[trigger] hole_candidate(
                init[i],
                frames,
                align,
            ) is None by {
                assert(hs[i] == init[i]);
            }
        }
        if best_candidate(hs, frames, align) is None {
            assert forall|i: int| 0 <= i < hs.len() implies #[trigger] hole_candidate(
                hs[i],
                frames,
                align,
            ) is None by {
                if i < init.len() {
                    assert(hs[i] == init[i]);
                }
            }
        }
    }
}

/// What the allocator hands out is aligned, lies wholly in RAM and clear of
/// every reserved interval, and is the highest such aligned block that fits
/// one gap; when nothing is handed out, no gap can hold the request.
pub proof fn lemma_alloc_frames_safe(bm: BootMemView, frames: nat, align: nat)
    requires
        sorted_by_base(bm.reserved),
        align >= 1,
    ensures
        best_candidate(free_holes(bm.memory, bm.reserved), frames, align) matches Some(c) ==> {
            &&& c % align == 0
            &&& forall|q: int|
                c <= q < c + frames ==> in_some(bm.memory, q) && !in_some(bm.reserved, q)
        },
        best_candidate(free_holes(bm.memory, bm.reserved), frames, align) is None
            <==> forall|i: int|
            0 <= i < free_holes(bm.memory, bm.reserved).len() ==> #[trigger] hole_candidate(
                free_holes(bm.memory, bm.reserved)[i],
                frames,
                align,
            ) is None,
{
    let hs = free_holes(bm.memory, bm.reserved);
    lemma_best_candidate_fits(hs, frames, align);
    if best_candidate(hs, frames, align) is Some {
        let c = best_candidate(hs, frames, align)->0;
        let i = choose|i: int|
            0 <= i < hs.len() && (#[trigger] hs[i]).0 <= c && c + frames <= hs[i].0 + hs[i].1;
        assert forall|q: int| c <= q < c + frames implies in_some(bm.memory, q) && !in_some(
            bm.reserved,
            q,
        ) by {
            assert(covers(hs[i], q));
            lemma_free_holes_exact(bm.memory, bm.reserved, q);
        }
    }
}

/// A request larger than every free gap is refused.
pub proof fn lemma_alloc_frames_too_big(bm: BootMemView, frames: nat, align: nat)
    requires
        align >= 1,
        forall|i: int|
            0 <= i < free_holes(bm.memory, bm.reserved).len() ==> (#[trigger] free_holes(
                bm.memory,
                bm.reserved,
            )[i]).1 < frames,
    ensures
        best_candidate(free_holes(bm.memory, bm.reserved), frames, align) is None,
{
    lemma_best_candidate_fits(free_holes(bm.memory, bm.reserved), frames, align);
}

impl BootMem {
    /// The registered RAM intervals, in registration order.
    pub fn memory_regions(&self) -> (r: Vec<Region>)
        requires
            self.wf(),
        ensures
            regions_view(r@) == self@.memory,
    {
        let mut out: Vec<Region> = Vec::new();
        let mut i: usize = 0;
        while i < self.n_memory
            invariant
                self.wf(),
                i <= self.n_memory,
                regions_view(out@) == self@.memory.subrange(0, i as int),
            decreases self.n_memory - i,
        {
            let ghost prev = out@;
            let item = self.memory[i];
            out.push(item);
            proof {
                self.lemma_view_index(i as int);
                assert(regions_view(out@) =~= regions_view(prev).push(rv(item)));
                assert(self@.memory.subrange(0, i + 1) =~= self@.memory.subrange(0, i as int).push(
                    self@.memory[i as int],
                ));
            }
            i = i + 1;
        }
        proof {
            self.lemma_view_index(0);
            assert(self@.memory.subrange(0, i as int) =~= self@.memory);
        }
        out
    }

    /// The reserved intervals, sorted by base.
    pub fn reserved_regions(&self) -> (r: Vec<Region>)
        requires
            self.wf(),
        ensures
            regions_view(r@) == self@.reserved,
    {
        let mut out: Vec<Region> = Vec::new();
        let mut i: usize = 0;
        while i < self.n_reserved
            invariant
                self.wf(),
                i <= self.n_reserved,
                regions_view(out@) == self@.reserved.subrange(0, i as int),
            decreases self.n_reserved - i,
        {
            let ghost prev = out@;
            let item = self.reserved[i];
            out.push(item);
            proof {
                self.lemma_view_index(i as int);
                assert(regions_view(out@) =~= regions_view(prev).push(rv(item)));
                assert(self@.reserved.subrange(0, i + 1) =~= self@.reserved.subrange(0, i as int).push(
                    self@.reserved[i as int],
                ));
            }
            i = i + 1;
        }
        proof {
            self.lemma_view_index(0);
            assert(self@.reserved.subrange(0, i as int) =~= self@.reserved);
        }
        out
    }
}

/// Whether some interval of `rs` contains frame `q` (spelled out for the
/// concatenation lemma below).
proof fn lemma_in_some_concat(a: Seq<(nat, nat)>, b: Seq<(nat, nat)>, q: int)
    ensures
        in_some(a + b, q) == (in_some(a, q) || in_some(b, q)),
{
    let ab = a + b;
    if in_some(ab, q) {
        let i = choose|i: int| 0 <= i < ab.len() && covers(#[trigger] ab[i], q);
        if i < a.len() {
            assert(ab[i] == a[i]);
        } else {
            assert(ab[i] == b[i - a.len()]);
        }
    }
    if in_some(a, q) {
        let i = choose|i: int| 0 <= i < a.len() && covers(#[trigger] a[i], q);
        assert(ab[i] == a[i]);
    }
    if in_some(b, q) {
        let i = choose|i: int| 0 <= i < b.len() && covers(#[trigger] b[i], q);
        assert(ab[i + a.len()] == b[i]);
    }
}

/// The scan over one RAM interval, from reserved index `j` with cursor `c`,
/// yields exactly the frames in `[c, me)` that no reserved interval from
/// `j` on contains.
proof fn lemma_holes_from_exact(me: nat, res: Seq<(nat, nat)>, j: int, c: nat, q: int)
    requires
        sorted_by_base(res),
        0 <= j <= res.len(),
    ensures
        in_some(holes_from(me, res, j, c), q) == (c <= q < me && !(exists|k: int|
            j <= k < res.len() && covers(#[trigger] res[k], q))),
    decreases res.len() - j,
{
    if j >= res.len() {
        let h = holes_from(me, res, j, c);
        if in_some(h, q) {
            let i = choose|i: int| 0 <= i < h.len() && covers(#[trigger] h[i], q);
        }
        if c <= q < me {
            assert(covers(h[0], q));
        }
    } else {
        let rb = res[j].0;
        let re = res[j].0 + res[j].1;
        if re <= c || rb >= me {
            lemma_holes_from_exact(me, res, j + 1, c, q);
            if c <= q < me {
                assert(!covers(res[j], q));
                if exists|k: int| j + 1 <= k < res.len() && covers(#[trigger] res[k], q) {
                } else {
                    assert forall|k: int| j <= k < res.len() implies !covers(
                        #[trigger] res[k],
                        q,
                    ) by {
                        if k == j {
                        } else {
                            assert(!covers(res[k], q));
                        }
                    }
                }
            }
        } else {
            let c1 = if c > re {
                c
            } else {
                re
            };
            let emit: Seq<(nat, nat)> = if rb > c {
                seq![(c, (rb - c) as nat)]
            } else {
                seq![]
            };
            lemma_holes_from_exact(me, res, j + 1, c1, q);
            lemma_in_some_concat(emit, holes_from(me, res, j + 1, c1), q);
            assert(holes_from(me, res, j, c) == emit + holes_from(me, res, j + 1, c1));
            if in_some(emit, q) {
                let i = choose|i: int| 0 <= i < emit.len() && covers(#[trigger] emit[i], q);
                assert(c <= q < rb);
                assert forall|k: int| j <= k < res.len() implies !covers(#[trigger] res[k], q) by {
                    assert(res[j].0 <= res[k].0);
                }
            }
            if c <= q < me && !(exists|k: int| j <= k < res.len() && covers(#[trigger] res[k], q)) {
                if q < rb {
                    assert(covers(emit[0], q));
                } else {
                    assert(!covers(res[j], q));
                    assert forall|k: int| j + 1 <= k < res.len() implies !covers(
                        #[trigger] res[k],
                        q,
                    ) by {}
                }
            }
            if c1 <= q < me && !(exists|k: int|
                j + 1 <= k < res.len() && covers(#[trigger] res[k], q)) {
                assert forall|k: int| j <= k < res.len() implies !covers(#[trigger] res[k], q) by {
                    if k == j {
                    } else {
                    }
                }
            }
        }
    }
}

/// The free gaps are exactly the RAM frames that no reserved interval
/// contains: a frame lies in some gap iff it lies in some RAM interval and
/// in no reserved one.
pub proof fn lemma_free_holes_exact(mem: Seq<(nat, nat)>, res: Seq<(nat, nat)>, q: int)
    requires
        sorted_by_base(res),
    ensures
        in_some(free_holes(mem, res), q) == (in_some(mem, q) && !in_some(res, q)),
    decreases mem.len(),
{
    if mem.len() == 0 {
        let h = free_holes(mem, res);
        if in_some(h, q) {
            let i = choose|i: int| 0 <= i < h.len() && covers(#[trigger] h[i], q);
        }
        if in_some(mem, q) {
            let i = choose|i: int| 0 <= i < mem.len() && covers(#[trigger] mem[i], q);
        }
    } else {
        let m = mem.last();
        let init = mem.drop_last();
        lemma_free_holes_exact(init, res, q);
        lemma_holes_from_exact(m.0 + m.1, res, 0, m.0, q);
        lemma_in_some_concat(free_holes(init, res), holes_from(m.0 + m.1, res, 0, m.0), q);
        assert(mem =~= init + seq![m]);
        lemma_in_some_concat(init, seq![m], q);
        if in_some(seq![m], q) {
            let i = choose|i: int| 0 <= i < 1 && covers(#[trigger] seq![m][i], q);
        }
        if covers(m, q) {
            assert(covers(seq![m][0], q));
        }
        if in_some(res, q) {
            let k = choose|k: int| 0 <= k < res.len() && covers(#[trigger] res[k], q);
        }
        if exists|k: int| 0 <= k < res.len() && covers(#[trigger] res[k], q) {
            let k = choose|k: int| 0 <= k < res.len() && covers(#[trigger] res[k], q);
        }
    }
}

/// `a` divided by `d`, rounded up.
pub open spec fn ceil_div(a: nat, d: nat) -> nat {
    if a % d != 0 {
        a / d + 1
    } else {
        a / d
    }
}

/// Rounding up covers the value and overshoots by less than one unit.
pub proof fn lemma_ceil_div(a: nat, d: nat)
    requires
        d > 0,
    ensures
        a <= ceil_div(a, d) * d,
        ceil_div(a, d) * d < a + d,
        ceil_div(a, d) >= a / d,
{
    vstd::arithmetic::div_mod::lemma_fundamental_div_mod(a as int, d as int);
    let q = a / d;
    let r = a % d;
    assert(a == d * q + r);
    if r != 0 {
        assert((q + 1) * d == q * d + d) by (nonlinear_arith);
    }
    assert(q * d == d * q) by (nonlinear_arith);
}

} // verus!
