//! RAM discovery: which device-tree `memory` ranges count as RAM regions.

use vstd::prelude::*;

use crate::arch::mm::PhysAddr;
use crate::dtb::{dtb_memory, dtb_memory_ranges};
use crate::dtb_format::dtb_well_formed;

verus! {

/// One RAM region: `size` bytes from `base`.
#[derive(Debug, Clone, Copy)]
pub struct RamRegion {
    pub base: PhysAddr,
    pub size: usize,
}

/// The ranges that carry a size, as `(base, size)`, in order.
pub open spec fn sized_ranges(s: Seq<(u64, Option<usize>)>) -> Seq<(u64, usize)>
    decreases s.len(),
{
    if s.len() == 0 {
        seq![]
    } else {
        let rest = sized_ranges(s.drop_last());
        match s.last().1 {
            Some(size) => rest.push((s.last().0, size)),
            None => rest,
        }
    }
}

/// The regions as `(base, size)`.
pub open spec fn regions_view(r: Seq<RamRegion>) -> Seq<(u64, usize)> {
    r.map_values(|x: RamRegion| (x.base@, x.size))
}

/// The RAM regions among the device tree's `memory` ranges
/// (`(starting_address, size)` each): every range that states a size, in
/// order; a range without a size is skipped.
pub fn for_each_region(ranges: &Vec<(u64, Option<usize>)>) -> (r: Vec<RamRegion>)
    ensures
        regions_view(r@) == sized_ranges(ranges@),
{
    let mut out: Vec<RamRegion> = Vec::new();
    let mut i: usize = 0;
    while i < ranges.len()
        invariant
            i <= ranges@.len(),
            regions_view(out@) == sized_ranges(ranges@.subrange(0, i as int)),
        decreases ranges@.len() - i,
    {
        let (start, size) = ranges[i];
        proof {
            let sub = ranges@.subrange(0, i + 1);
            assert(sub.drop_last() =~= ranges@.subrange(0, i as int));
            assert(sub.last() == ranges@[i as int]);
        }
        let ghost before = regions_view(out@);
        match size {
            Some(sz) => {
                let reg = RamRegion { base: PhysAddr::from_u64(start), size: sz };
                out.push(reg);
                proof {
                    assert(regions_view(out@) =~= before.push((start, sz)));
                }
            },
            None => {},
        }
        i = i + 1;
    }
    proof {
        assert(ranges@.subrange(0, i as int) =~= ranges@);
    }
    out
}

/// The RAM regions the device-tree blob's `/memory` node lists: every
/// range of its `reg` that states a size, in order. `None` when the blob
/// has no readable `/memory` node.
pub fn ram_regions_from_dtb(blob: &[u8]) -> (r: Option<Vec<RamRegion>>)
    requires
        dtb_well_formed(blob@),
    ensures
        r is None <==> dtb_memory_ranges(blob@) is None,
        r matches Some(v) ==> regions_view(v@) == sized_ranges(dtb_memory_ranges(blob@)->0),
{
    match dtb_memory(blob) {
        Some(ranges) => Some(for_each_region(&ranges)),
        None => None,
    }
}

} // verus!
