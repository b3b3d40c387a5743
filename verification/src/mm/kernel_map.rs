//! The kernel-side translation regime: the linear map of all RAM and the
//! image sections, installed in `TTBR1_EL1`.
//!
//! Each RAM region maps to `VA = PA + KERNEL_LINEAR_BASE` in 1 GiB blocks,
//! or 2 MiB blocks where 1 GiB alignment does not fit; each image section
//! maps page by page with its own permissions.

use vstd::prelude::*;

use crate::arch::mm::{PhysAddr, VirtAddr};
use crate::mm::attrs::MemoryAttr;
use crate::mm::layout::{
    image_va_to_pa, pa_to_linear_va, IMAGE_PA_BASE, KERNEL_DEVICE_BASE, KERNEL_IMAGE_BASE,
    KERNEL_LINEAR_BASE,
};
use crate::arch::mm::{level_depth, va_index};
use crate::mm::page_table::{
    block_raw, depth_shift, is_root, lemma_map_preserves_disjoint_walk, pa_table, pool_wf, table_at,
    walk, page_raw, tables_needed, access_bits, executable_bits, PoolView, AF, AP_RO_EL1, AP_RW_EL1,
    PXN, UXN,
    Access, Executable, LeafAttrs, Level, MapError, PagePool, Shareability, POOL_PAGES,
};
use crate::mm::ram::RamRegion;

verus! {

/// 1 GiB — an L1 block.
pub const BLOCK_1GB: u64 = 0x4000_0000;

/// 2 MiB — an L2 block.
pub const BLOCK_2MB: u64 = 0x20_0000;

/// Bytes per page.
pub const PAGE_BYTES: u64 = 4096;

/// Bytes of physical address space the linear window covers.
pub open spec fn linear_span() -> nat {
    (KERNEL_DEVICE_BASE - KERNEL_LINEAR_BASE) as nat
}

/// Normal memory, inner shareable, with the given access and execution.
pub open spec fn normal_attrs(access: Access, execute: Executable) -> LeafAttrs {
    LeafAttrs {
        memory: MemoryAttr::Normal,
        access,
        share: Shareability::InnerShareable,
        execute,
    }
}

fn normal(access: Access, execute: Executable) -> (r: LeafAttrs)
    ensures
        r == normal_attrs(access, execute),
{
    LeafAttrs { memory: MemoryAttr::Normal, access, share: Shareability::InnerShareable, execute }
}

/// `.text`: read-only, kernel-executable.
pub fn text_attrs() -> (r: LeafAttrs)
    ensures
        r == normal_attrs(Access::KernelReadOnly, Executable::Kernel),
{
    normal(Access::KernelReadOnly, Executable::Kernel)
}

/// `.rodata`: read-only, never executable.
pub fn rodata_attrs() -> (r: LeafAttrs)
    ensures
        r == normal_attrs(Access::KernelReadOnly, Executable::Never),
{
    normal(Access::KernelReadOnly, Executable::Never)
}

/// `.data`, `.bss`, the boot stack and the linear map: read/write, never
/// executable.
pub fn data_attrs() -> (r: LeafAttrs)
    ensures
        r == normal_attrs(Access::KernelReadWrite, Executable::Never),
{
    normal(Access::KernelReadWrite, Executable::Never)
}

/// The first remainder of `[pa, end)` that neither a 1 GiB nor a 2 MiB
/// block fits, as `(pa, remaining)`, when the region is walked greedily
/// (1 GiB where aligned and room remains, else 2 MiB).
pub open spec fn region_tail(pa: nat, end: nat) -> Option<(nat, nat)>
    decreases end - pa,
{
    if pa >= end {
        None
    } else if pa % (BLOCK_1GB as nat) == 0 && end - pa >= BLOCK_1GB {
        region_tail((pa + BLOCK_1GB) as nat, end)
    } else if pa % (BLOCK_2MB as nat) == 0 && end - pa >= BLOCK_2MB {
        region_tail((pa + BLOCK_2MB) as nat, end)
    } else {
        Some((pa, (end - pa) as nat))
    }
}

/// Bytes covered by a block entry at depth `d` (1 or 2).
pub open spec fn block_size(d: nat) -> nat {
    if d == 1 {
        BLOCK_1GB as nat
    } else {
        BLOCK_2MB as nat
    }
}

/// The blocks the greedy walk of `[pa, end)` maps, as `(pa, depth)` in
/// order, up to the first remainder no block fits.
pub open spec fn region_blocks(pa: nat, end: nat) -> Seq<(nat, nat)>
    decreases end - pa,
{
    if pa >= end {
        seq![]
    } else if pa % (BLOCK_1GB as nat) == 0 && end - pa >= BLOCK_1GB {
        seq![(pa, 1nat)] + region_blocks((pa + BLOCK_1GB) as nat, end)
    } else if pa % (BLOCK_2MB as nat) == 0 && end - pa >= BLOCK_2MB {
        seq![(pa, 2nat)] + region_blocks((pa + BLOCK_2MB) as nat, end)
    } else {
        seq![]
    }
}

/// Some block of `bs` contains address `q`.
pub open spec fn blocks_cover(bs: Seq<(nat, nat)>, q: nat) -> bool {
    exists|k: int| 0 <= k < bs.len() && (#[trigger] bs[k]).0 <= q < bs[k].0 + block_size(bs[k].1)
}

/// The blocks of a region are aligned to their size, lie inside the
/// region, follow one another, and — when no remainder is left — cover
/// every address of the region.
pub proof fn lemma_region_blocks_tile(pa: nat, end: nat)
    ensures
        forall|k: int|
            0 <= k < region_blocks(pa, end).len() ==> {
                let b = #[trigger] region_blocks(pa, end)[k];
                &&& b.1 == 1 || b.1 == 2
                &&& b.0 % block_size(b.1) == 0
                &&& pa <= b.0
                &&& b.0 + block_size(b.1) <= end
            },
        forall|k: int, j: int|
            0 <= k < j < region_blocks(pa, end).len() ==> (#[trigger] region_blocks(pa, end)[k]).0
                + block_size(region_blocks(pa, end)[k].1) <= (#[trigger] region_blocks(pa, end)[j]).0,
        region_tail(pa, end) is None ==> forall|q: nat|
            pa <= q < end ==> #[trigger] blocks_cover(region_blocks(pa, end), q),
    decreases end - pa,
{
    if pa < end {
        let bs = region_blocks(pa, end);
        if pa % (BLOCK_1GB as nat) == 0 && end - pa >= BLOCK_1GB {
            let next = (pa + BLOCK_1GB) as nat;
            lemma_region_blocks_tile(next, end);
            let rest = region_blocks(next, end);
            assert(bs == seq![(pa, 1nat)] + rest);
            assert forall|k: int| 0 <= k < bs.len() implies {
                let b = #[trigger] bs[k];
                &&& b.1 == 1 || b.1 == 2
                &&& b.0 % block_size(b.1) == 0
                &&& pa <= b.0
                &&& b.0 + block_size(b.1) <= end
            } by {
                if k > 0 {
                    assert(bs[k] == rest[k - 1]);
                }
            }
            assert forall|k: int, j: int| 0 <= k < j < bs.len() implies (#[trigger] bs[k]).0
                + block_size(bs[k].1) <= (#[trigger] bs[j]).0 by {
                assert(bs[j] == rest[j - 1]);
                if k > 0 {
                    assert(bs[k] == rest[k - 1]);
                }
            }
            if region_tail(pa, end) is None {
                assert forall|q: nat| pa <= q < end implies #[trigger] blocks_cover(bs, q) by {
                    if q < next {
                        assert(bs[0].0 <= q < bs[0].0 + block_size(bs[0].1));
                    } else {
                        assert(blocks_cover(rest, q));
                        let k = choose|k: int|
                            0 <= k < rest.len() && (#[trigger] rest[k]).0 <= q < rest[k].0
                                + block_size(rest[k].1);
                        assert(bs[k + 1] == rest[k]);
                    }
                }
            }
        } else if pa % (BLOCK_2MB as nat) == 0 && end - pa >= BLOCK_2MB {
            let next = (pa + BLOCK_2MB) as nat;
            lemma_region_blocks_tile(next, end);
            let rest = region_blocks(next, end);
            assert(bs == seq![(pa, 2nat)] + rest);
            assert forall|k: int| 0 <= k < bs.len() implies {
                let b = #[trigger] bs[k];
                &&& b.1 == 1 || b.1 == 2
                &&& b.0 % block_size(b.1) == 0
                &&& pa <= b.0
                &&& b.0 + block_size(b.1) <= end
            } by {
                if k > 0 {
                    assert(bs[k] == rest[k - 1]);
                }
            }
            assert forall|k: int, j: int| 0 <= k < j < bs.len() implies (#[trigger] bs[k]).0
                + block_size(bs[k].1) <= (#[trigger] bs[j]).0 by {
                assert(bs[j] == rest[j - 1]);
                if k > 0 {
                    assert(bs[k] == rest[k - 1]);
                }
            }
            if region_tail(pa, end) is None {
                assert forall|q: nat| pa <= q < end implies #[trigger] blocks_cover(bs, q) by {
                    if q < next {
                        assert(bs[0].0 <= q < bs[0].0 + block_size(bs[0].1));
                    } else {
                        assert(blocks_cover(rest, q));
                        let k = choose|k: int|
                            0 <= k < rest.len() && (#[trigger] rest[k]).0 <= q < rest[k].0
                                + block_size(rest[k].1);
                        assert(bs[k + 1] == rest[k]);
                    }
                }
            }
        }
    }
}

/// Two aligned blocks of the linear window whose physical ranges are
/// disjoint part at a depth no deeper than either block: some table index
/// above both leaves differs.
pub proof fn lemma_disjoint_blocks_part(pa: u64, da: nat, pb: u64, db: nat) -> (d0: nat)
    requires
        da == 1 || da == 2,
        db == 1 || db == 2,
        pa < 0x4000_0000_0000,
        pb < 0x4000_0000_0000,
        (pa as int) % (block_size(da) as int) == 0,
        (pb as int) % (block_size(db) as int) == 0,
        pa + block_size(da) <= pb || pb + block_size(db) <= pa,
    ensures
        d0 <= da,
        d0 <= db,
        va_index((pa + KERNEL_LINEAR_BASE) as u64, depth_shift(d0)) != va_index(
            (pb + KERNEL_LINEAR_BASE) as u64,
            depth_shift(d0),
        ),
{
    let va = (pa + KERNEL_LINEAR_BASE) as u64;
    let vb = (pb + KERNEL_LINEAR_BASE) as u64;
    assert(depth_shift(0) == 39 && depth_shift(1) == 30 && depth_shift(2) == 21);
    if da == 2 && db == 2 {
        assert(((va >> 39u64) & 0x1FF) != ((vb >> 39u64) & 0x1FF) || ((va >> 30u64) & 0x1FF) != ((vb
            >> 30u64) & 0x1FF) || ((va >> 21u64) & 0x1FF) != ((vb >> 21u64) & 0x1FF)) by (bit_vector)
            requires
                pa < 0x4000_0000_0000u64,
                pb < 0x4000_0000_0000u64,
                pa % 0x20_0000 == 0,
                pb % 0x20_0000 == 0,
                pa + 0x20_0000u64 <= pb || pb + 0x20_0000u64 <= pa,
                va == pa + 0xFFFF_8000_0000_0000u64,
                vb == pb + 0xFFFF_8000_0000_0000u64,
        ;
        if ((va >> 39u64) & 0x1FF) != ((vb >> 39u64) & 0x1FF) {
            0
        } else if ((va >> 30u64) & 0x1FF) != ((vb >> 30u64) & 0x1FF) {
            1
        } else {
            2
        }
    } else {
        assert(((va >> 39u64) & 0x1FF) != ((vb >> 39u64) & 0x1FF) || ((va >> 30u64) & 0x1FF) != ((vb
            >> 30u64) & 0x1FF)) by (bit_vector)
            requires
                pa < 0x4000_0000_0000u64,
                pb < 0x4000_0000_0000u64,
                pa % 0x20_0000 == 0,
                pb % 0x20_0000 == 0,
                pa % 0x4000_0000 == 0 || pb % 0x4000_0000 == 0,
                (pa % 0x4000_0000 == 0 && pa + 0x4000_0000u64 <= pb) || (pb % 0x4000_0000 == 0 && pb
                    + 0x4000_0000u64 <= pa) || (pa + 0x20_0000u64 <= pb && pb % 0x4000_0000 == 0) || (
                pb + 0x20_0000u64 <= pa && pa % 0x4000_0000 == 0),
                va == pa + 0xFFFF_8000_0000_0000u64,
                vb == pb + 0xFFFF_8000_0000_0000u64,
        ;
        if ((va >> 39u64) & 0x1FF) != ((vb >> 39u64) & 0x1FF) {
            0
        } else {
            1
        }
    }
}

/// Mapping block `b` at its linear address from table `rt` would have to
/// descend through an existing block entry.
pub open spec fn block_in_the_way(p: PoolView, rt: int, b: (nat, nat)) -> bool {
    tables_needed(p, rt, (b.0 + KERNEL_LINEAR_BASE) as u64, 0, b.1) is None
}

/// Mapping block `b` at its linear address from table `rt` needs more
/// fresh tables than the pool has left.
pub open spec fn block_outgrows_pool(p: PoolView, rt: int, b: (nat, nat)) -> bool {
    tables_needed(p, rt, (b.0 + KERNEL_LINEAR_BASE) as u64, 0, b.1) matches Some(n) && p.used + n
        > POOL_PAGES
}

/// Map the physical range `[base, base + size)` at `base +
/// KERNEL_LINEAR_BASE`, preferring 1 GiB blocks, then 2 MiB. A remainder
/// that fits neither is refused with its address and length; a mapping the
/// pool refuses stops the walk with that refusal.
pub fn map_region(
    pool: &mut PagePool,
    root: PhysAddr,
    base: PhysAddr,
    size: usize,
    attrs: LeafAttrs,
) -> (r: Result<(), MapError>)
    requires
        pool_wf(old(pool)@),
        is_root(old(pool)@, root@),
        base@ + size <= linear_span(),
    ensures
        pool_wf(final(pool)@),
        is_root(final(pool)@, root@),
        pa_table(final(pool)@, root@) == pa_table(old(pool)@, root@),
        r is Ok ==> region_tail(base@ as nat, (base@ + size) as nat) is None,
        r matches Err(MapError::UnalignedTail { pa, remaining }) ==> region_tail(
            base@ as nat,
            (base@ + size) as nat,
        ) == Some((pa as nat, remaining as nat)),
        region_tail(base@ as nat, (base@ + size) as nat) is Some ==> r is Err,
        // a refusal by the pool names a block of the region it could not map
        r == Err::<(), MapError>(MapError::BlockInTheWay) ==> exists|k: int|
            0 <= k < region_blocks(base@ as nat, (base@ + size) as nat).len() && block_in_the_way(
                final(pool)@,
                pa_table(old(pool)@, root@),
                #[trigger] region_blocks(base@ as nat, (base@ + size) as nat)[k],
            ),
        r == Err::<(), MapError>(MapError::PoolExhausted) ==> exists|k: int|
            0 <= k < region_blocks(base@ as nat, (base@ + size) as nat).len() && block_outgrows_pool(
                final(pool)@,
                pa_table(old(pool)@, root@),
                #[trigger] region_blocks(base@ as nat, (base@ + size) as nat)[k],
            ),
        // every block of the region is mapped at its linear address
        r is Ok ==> forall|k: int|
            0 <= k < region_blocks(base@ as nat, (base@ + size) as nat).len() ==> {
                let b = #[trigger] region_blocks(base@ as nat, (base@ + size) as nat)[k];
                walk(final(pool)@, pa_table(old(pool)@, root@), (b.0 + KERNEL_LINEAR_BASE) as u64, b.1)
                    == Some(block_raw(b.0 as u64, attrs))
            },
        // an existing linear block outside the region keeps its entry
        forall|pb: u64, db: nat|
            (db == 1 || db == 2) && pb < linear_span() && (pb as int) % (block_size(db) as int) == 0
                && (pb + block_size(db) <= base@ || base@ + size <= pb) && #[trigger] table_at(
                old(pool)@,
                pa_table(old(pool)@, root@),
                (pb + KERNEL_LINEAR_BASE) as u64,
                db,
            ) is Some ==> walk(
                final(pool)@,
                pa_table(old(pool)@, root@),
                (pb + KERNEL_LINEAR_BASE) as u64,
                db,
            ) == walk(old(pool)@, pa_table(old(pool)@, root@), (pb + KERNEL_LINEAR_BASE) as u64, db),
{
    let mut pa: u64 = base.as_u64();
    let end: u64 = pa + size as u64;
    let ghost rt = pa_table(pool@, root@);
    let ghost mut done: Seq<(nat, nat)> = seq![];
    proof {
        lemma_region_blocks_tile(base@ as nat, end as nat);
    }
    while pa < end
        invariant
            pool_wf(pool@),
            is_root(pool@, root@),
            pa_table(pool@, root@) == rt,
            rt == pa_table(old(pool)@, root@),
            base@ <= pa <= end,
            end == base@ + size,
            end <= linear_span(),
            region_tail(base@ as nat, end as nat) == region_tail(pa as nat, end as nat),
            region_blocks(base@ as nat, end as nat) == done + region_blocks(pa as nat, end as nat),
            forall|k: int|
                0 <= k < done.len() ==> {
                    let b = #[trigger] done[k];
                    &&& b.1 == 1 || b.1 == 2
                    &&& b.0 % block_size(b.1) == 0
                    &&& b.0 + block_size(b.1) <= pa
                    &&& walk(pool@, rt, (b.0 + KERNEL_LINEAR_BASE) as u64, b.1) == Some(
                        block_raw(b.0 as u64, attrs),
                    )
                },
            forall|pb: u64, db: nat|
                (db == 1 || db == 2) && pb < linear_span() && (pb as int) % (block_size(db) as int)
                    == 0 && (pb + block_size(db) <= base@ || base@ + size <= pb) && #[trigger] table_at(
                    old(pool)@,
                    rt,
                    (pb + KERNEL_LINEAR_BASE) as u64,
                    db,
                ) is Some ==> walk(pool@, rt, (pb + KERNEL_LINEAR_BASE) as u64, db) == walk(
                    old(pool)@,
                    rt,
                    (pb + KERNEL_LINEAR_BASE) as u64,
                    db,
                ),
        decreases end - pa,
    {
        let remaining = end - pa;
        let block: u64;
        let level: Level;
        if pa % BLOCK_1GB == 0 && remaining >= BLOCK_1GB {
            block = BLOCK_1GB;
            level = Level::L1;
        } else if pa % BLOCK_2MB == 0 && remaining >= BLOCK_2MB {
            block = BLOCK_2MB;
            level = Level::L2;
        } else {
            return Err(MapError::UnalignedTail { pa, remaining });
        }
        let va = pa_to_linear_va(PhysAddr::from_u64(pa));
        let ghost p0 = pool@;
        let ghost depth: nat = if block == BLOCK_1GB {
            1
        } else {
            2
        };
        proof {
            assert(region_blocks(pa as nat, end as nat) == seq![(pa as nat, depth)] + region_blocks(
                (pa + block) as nat,
                end as nat,
            ));
            assert(region_blocks(base@ as nat, end as nat)[done.len() as int] == (pa as nat, depth));
        }
        match pool.try_map(root, va, PhysAddr::from_u64(pa), level, attrs) {
            Ok(()) => {},
            Err(e) => {
                proof {
                    let k = done.len() as int;
                    assert(region_blocks(base@ as nat, end as nat)[k] == (pa as nat, depth));
                    assert(e == MapError::BlockInTheWay ==> block_in_the_way(pool@, rt, (pa as nat, depth)));
                    assert(e == MapError::PoolExhausted ==> block_outgrows_pool(pool@, rt, (pa as nat, depth)));
                }
                return Err(e);
            },
        }
        proof {
            let p1 = pool@;
            let nb = (pa as nat, depth);
            assert(region_blocks(pa as nat, end as nat) == seq![nb] + region_blocks(
                (pa + block) as nat,
                end as nat,
            ));
            assert forall|k: int| 0 <= k < done.len() implies {
                let b = #[trigger] done[k];
                walk(p1, rt, (b.0 + KERNEL_LINEAR_BASE) as u64, b.1) == Some(
                    block_raw(b.0 as u64, attrs),
                )
            } by {
                let b = done[k];
                let d0 = lemma_disjoint_blocks_part(b.0 as u64, b.1, pa, depth);
                lemma_map_preserves_disjoint_walk(
                    p0,
                    p1,
                    rt,
                    va@,
                    depth,
                    (b.0 + KERNEL_LINEAR_BASE) as u64,
                    b.1,
                    d0,
                );
            }
            assert forall|pb: u64, db: nat|
                (db == 1 || db == 2) && pb < linear_span() && (pb as int) % (block_size(db) as int)
                    == 0 && (pb + block_size(db) <= base@ || base@ + size <= pb) && #[trigger] table_at(
                    old(pool)@,
                    rt,
                    (pb + KERNEL_LINEAR_BASE) as u64,
                    db,
                ) is Some implies walk(p1, rt, (pb + KERNEL_LINEAR_BASE) as u64, db) == walk(
                old(pool)@,
                rt,
                (pb + KERNEL_LINEAR_BASE) as u64,
                db,
            ) by {
                let vb = (pb + KERNEL_LINEAR_BASE) as u64;
                assert(walk(p0, rt, vb, db) == walk(old(pool)@, rt, vb, db));
                assert(table_at(p0, rt, vb, db) is Some);
                let d0 = lemma_disjoint_blocks_part(pb, db, pa, depth);
                lemma_map_preserves_disjoint_walk(p0, p1, rt, va@, depth, vb, db, d0);
            }
            done = done.push(nb);
            assert(region_blocks(base@ as nat, end as nat) =~= done + region_blocks(
                (pa + block) as nat,
                end as nat,
            ));
        }
        pa = pa + block;
    }
    proof {
        assert(region_blocks(pa as nat, end as nat) =~= Seq::<(nat, nat)>::empty());
        assert(done + Seq::<(nat, nat)>::empty() =~= done);
    }
    Ok(())
}

/// One image section: the virtual range `[start, end)`.
#[derive(Debug, Clone, Copy)]
pub struct ImageSection {
    pub start: VirtAddr,
    pub end: VirtAddr,
}

/// The linker's image sections, in the order they are mapped.
#[derive(Debug, Clone, Copy)]
pub struct ImageLayout {
    pub text: ImageSection,
    pub rodata: ImageSection,
    pub data: ImageSection,
    pub bss: ImageSection,
    pub stack: ImageSection,
}

/// A section the image map can walk: inside the image region, and not so
/// close to the top of the address space that a page step wraps.
pub open spec fn section_ok(s: ImageSection) -> bool {
    KERNEL_IMAGE_BASE <= s.start@ && s.end@ <= u64::MAX - PAGE_BYTES
}

/// Address of page `k` of a section.
pub open spec fn section_page(s: ImageSection, k: nat) -> u64 {
    (s.start@ + 4096 * k) as u64
}

/// The physical address an image address maps to.
pub open spec fn image_pa(va: u64) -> u64 {
    (va - KERNEL_IMAGE_BASE + IMAGE_PA_BASE) as u64
}

/// The image page at `va` is mapped onto the image's physical page with
/// `attrs`.
pub open spec fn image_page_mapped(p: PoolView, root: int, va: u64, attrs: LeafAttrs) -> bool {
    walk(p, root, va, 3) == Some(page_raw(image_pa(va), attrs))
}

/// Every page of section `s` — each `start + 4096 * k` below `end` — is
/// mapped with `attrs`.
pub open spec fn section_mapped(p: PoolView, root: int, s: ImageSection, attrs: LeafAttrs) -> bool {
    forall|k: nat|
        s.start@ + 4096 * k < s.end@ ==> image_page_mapped(p, root, #[trigger] section_page(s, k), attrs)
}

/// Outside the image region's top-level entry, every walk that existed
/// before reads the same entry after.
pub open spec fn outside_image_kept(old: PoolView, new: PoolView, root: int) -> bool {
    forall|va2: u64, d2: nat|
        d2 <= 3 && va_index(va2, depth_shift(0)) != 0x1FF && #[trigger] table_at(old, root, va2, d2)
            is Some ==> walk(new, root, va2, d2) == walk(old, root, va2, d2)
}

/// Image pages on a different page than any of section `s` keep their
/// entries.
pub open spec fn other_pages_kept(old: PoolView, new: PoolView, root: int, s: ImageSection) -> bool {
    forall|va2: u64|
        KERNEL_IMAGE_BASE <= va2 && (s.end@ <= s.start@ || va2 / 4096 < s.start@ / 4096 || va2 / 4096
            > (s.end@ - 1) / 4096) && #[trigger] table_at(old, root, va2, 3) is Some ==> walk(
            new,
            root,
            va2,
            3,
        ) == walk(old, root, va2, 3)
}

/// Every address of the image region sits under the last top-level entry.
pub proof fn lemma_image_top_entry(va: u64)
    requires
        KERNEL_IMAGE_BASE <= va,
    ensures
        va_index(va, depth_shift(0)) == 0x1FF,
{
    assert(depth_shift(0) == 39);
    assert(va >= 0xFFFF_FFFF_8000_0000u64 ==> (va >> 39u64) & 0x1FF == 0x1FF) by (bit_vector);
}

/// No address of the linear window sits under the image region's entry.
pub proof fn lemma_linear_top_entry(pa: u64)
    requires
        pa < 0x4000_0000_0000,
    ensures
        va_index((pa + KERNEL_LINEAR_BASE) as u64, depth_shift(0)) != 0x1FF,
{
    let va = (pa + KERNEL_LINEAR_BASE) as u64;
    assert(depth_shift(0) == 39);
    assert((va >> 39u64) & 0x1FF != 0x1FF) by (bit_vector)
        requires
            pa < 0x4000_0000_0000u64,
            va == pa + 0xFFFF_8000_0000_0000u64,
    ;
}

/// Two image addresses on different pages part at some depth of the walk.
pub proof fn lemma_image_pages_part(a: u64, b: u64) -> (d0: nat)
    requires
        KERNEL_IMAGE_BASE <= a,
        KERNEL_IMAGE_BASE <= b,
        a / 4096 != b / 4096,
    ensures
        d0 <= 3,
        va_index(a, depth_shift(d0)) != va_index(b, depth_shift(d0)),
{
    assert(depth_shift(0) == 39 && depth_shift(1) == 30 && depth_shift(2) == 21 && depth_shift(3)
        == 12);
    assert(((a >> 39u64) & 0x1FF) != ((b >> 39u64) & 0x1FF) || ((a >> 30u64) & 0x1FF) != ((b
        >> 30u64) & 0x1FF) || ((a >> 21u64) & 0x1FF) != ((b >> 21u64) & 0x1FF) || ((a >> 12u64)
        & 0x1FF) != ((b >> 12u64) & 0x1FF)) by (bit_vector)
        requires
            a >= 0xFFFF_FFFF_8000_0000u64,
            b >= 0xFFFF_FFFF_8000_0000u64,
            a / 4096 != b / 4096,
    ;
    if ((a >> 39u64) & 0x1FF) != ((b >> 39u64) & 0x1FF) {
        0
    } else if ((a >> 30u64) & 0x1FF) != ((b >> 30u64) & 0x1FF) {
        1
    } else if ((a >> 21u64) & 0x1FF) != ((b >> 21u64) & 0x1FF) {
        2
    } else {
        3
    }
}

/// Mapping the image page at `va` from table `rt` would have to descend
/// through an existing block entry.
pub open spec fn page_in_the_way(p: PoolView, rt: int, va: u64) -> bool {
    tables_needed(p, rt, va, 0, 3) is None
}

/// Mapping the image page at `va` from table `rt` needs more fresh tables
/// than the pool has left.
pub open spec fn page_outgrows_pool(p: PoolView, rt: int, va: u64) -> bool {
    tables_needed(p, rt, va, 0, 3) matches Some(n) && p.used + n > POOL_PAGES
}

/// Some page of section `s` is blocked by an existing block entry.
pub open spec fn section_blocked(p: PoolView, rt: int, s: ImageSection) -> bool {
    exists|k: nat| s.start@ + 4096 * k < s.end@ && page_in_the_way(p, rt, #[trigger] section_page(s, k))
}

/// Some page of section `s` needs more fresh tables than the pool has left.
pub open spec fn section_outgrows_pool(p: PoolView, rt: int, s: ImageSection) -> bool {
    exists|k: nat|
        s.start@ + 4096 * k < s.end@ && page_outgrows_pool(p, rt, #[trigger] section_page(s, k))
}

/// The image sections in the order they are mapped.
pub open spec fn layout_sections(l: ImageLayout) -> Seq<ImageSection> {
    seq![l.text, l.rodata, l.data, l.bss, l.stack]
}

/// Map the pages of `[start, end)` in the image region onto the image's
/// physical pages with `attrs`, one 4 KiB page at a time. A mapping the pool
/// refuses stops the walk with that refusal. Nothing outside the section's
/// pages changes.
fn map_section(pool: &mut PagePool, root: PhysAddr, section: ImageSection, attrs: LeafAttrs) -> (r:
    Result<(), MapError>)
    requires
        pool_wf(old(pool)@),
        is_root(old(pool)@, root@),
        section_ok(section),
    ensures
        pool_wf(final(pool)@),
        is_root(final(pool)@, root@),
        pa_table(final(pool)@, root@) == pa_table(old(pool)@, root@),
        r is Err ==> r == Err::<(), MapError>(MapError::BlockInTheWay) || r == Err::<(), MapError>(
            MapError::PoolExhausted,
        ),
        r is Ok ==> section_mapped(final(pool)@, pa_table(old(pool)@, root@), section, attrs),
        r == Err::<(), MapError>(MapError::BlockInTheWay) ==> section_blocked(
            final(pool)@,
            pa_table(old(pool)@, root@),
            section,
        ),
        r == Err::<(), MapError>(MapError::PoolExhausted) ==> section_outgrows_pool(
            final(pool)@,
            pa_table(old(pool)@, root@),
            section,
        ),
        outside_image_kept(old(pool)@, final(pool)@, pa_table(old(pool)@, root@)),
        other_pages_kept(old(pool)@, final(pool)@, pa_table(old(pool)@, root@), section),
{
    let mut va: u64 = section.start.as_u64();
    let va_end = section.end.as_u64();
    let ghost rt = pa_table(pool@, root@);
    let ghost mut k: nat = 0;
    while va < va_end
        invariant
            pool_wf(pool@),
            is_root(pool@, root@),
            pa_table(pool@, root@) == rt,
            rt == pa_table(old(pool)@, root@),
            KERNEL_IMAGE_BASE <= section.start@,
            KERNEL_IMAGE_BASE <= va,
            va_end == section.end@,
            va_end <= u64::MAX - PAGE_BYTES,
            va == section.start@ + 4096 * k,
            forall|j: nat|
                j < k ==> image_page_mapped(pool@, rt, #[trigger] section_page(section, j), attrs),
            outside_image_kept(old(pool)@, pool@, rt),
            other_pages_kept(old(pool)@, pool@, rt, section),
        decreases va_end + PAGE_BYTES - va,
    {
        let pa = image_va_to_pa(VirtAddr::from_u64(va));
        let ghost p0 = pool@;
        match pool.try_map(root, VirtAddr::from_u64(va), pa, Level::L3, attrs) {
            Ok(()) => {},
            Err(e) => {
                proof {
                    assert(section_page(section, k) == va);
                    assert(level_depth(Level::L3) == 3);
                    if e == MapError::BlockInTheWay {
                        assert(page_in_the_way(pool@, rt, section_page(section, k)));
                    }
                    if e == MapError::PoolExhausted {
                        assert(page_outgrows_pool(pool@, rt, section_page(section, k)));
                    }
                }
                return Err(e);
            },
        }
        proof {
            let p1 = pool@;
            lemma_image_top_entry(va);
            assert(pa@ == image_pa(va));
            assert(section_page(section, k) == va);
            assert forall|j: nat| j < k + 1 implies image_page_mapped(
                p1,
                rt,
                #[trigger] section_page(section, j),
                attrs,
            ) by {
                if j < k {
                    let vj = section_page(section, j);
                    assert(vj + 4096 <= va);
                    assert(vj / 4096 < va / 4096) by {
                        vstd::arithmetic::div_mod::lemma_div_is_ordered(vj + 4096, va as int, 4096);
                    }
                    assert(table_at(p0, rt, vj, 3) is Some);
                    let d0 = lemma_image_pages_part(vj, va);
                    lemma_map_preserves_disjoint_walk(p0, p1, rt, va, 3, vj, 3, d0);
                }
            }
            assert forall|va2: u64, d2: nat|
                d2 <= 3 && va_index(va2, depth_shift(0)) != 0x1FF && #[trigger] table_at(
                    old(pool)@,
                    rt,
                    va2,
                    d2,
                ) is Some implies walk(p1, rt, va2, d2) == walk(old(pool)@, rt, va2, d2) by {
                assert(walk(p0, rt, va2, d2) == walk(old(pool)@, rt, va2, d2));
                assert(table_at(p0, rt, va2, d2) is Some);
                lemma_map_preserves_disjoint_walk(p0, p1, rt, va, 3, va2, d2, 0);
            }
            assert forall|va2: u64|
                KERNEL_IMAGE_BASE <= va2 && (section.end@ <= section.start@ || va2 / 4096
                    < section.start@ / 4096 || va2 / 4096 > (section.end@ - 1) / 4096)
                    && #[trigger] table_at(old(pool)@, rt, va2, 3) is Some implies walk(
                p1,
                rt,
                va2,
                3,
            ) == walk(old(pool)@, rt, va2, 3) by {
                assert(walk(p0, rt, va2, 3) == walk(old(pool)@, rt, va2, 3));
                assert(table_at(p0, rt, va2, 3) is Some);
                assert(section.start@ / 4096 <= va / 4096) by {
                    vstd::arithmetic::div_mod::lemma_div_is_ordered(section.start@ as int, va as int, 4096);
                }
                assert(va / 4096 <= (section.end@ - 1) / 4096) by {
                    vstd::arithmetic::div_mod::lemma_div_is_ordered(va as int, section.end@ - 1, 4096);
                }
                let d0 = lemma_image_pages_part(va2, va);
                lemma_map_preserves_disjoint_walk(p0, p1, rt, va, 3, va2, 3, d0);
            }
            k = k + 1;
        }
        va = va + PAGE_BYTES;
    }
    proof {
        assert forall|j: nat| section.start@ + 4096 * j < section.end@ implies image_page_mapped(
            pool@,
            rt,
            #[trigger] section_page(section, j),
            attrs,
        ) by {
            assert(j < k);
        }
    }
    Ok(())
}

/// Sections `a` and `b` share no page.
pub open spec fn pages_disjoint(a: ImageSection, b: ImageSection) -> bool {
    a.end@ <= a.start@ || b.end@ <= b.start@ || (a.end@ - 1) / 4096 < b.start@ / 4096 || (b.end@ - 1)
        / 4096 < a.start@ / 4096
}

/// No two sections of the layout share a page.
pub open spec fn layout_disjoint(l: ImageLayout) -> bool {
    &&& pages_disjoint(l.text, l.rodata)
    &&& pages_disjoint(l.text, l.data)
    &&& pages_disjoint(l.text, l.bss)
    &&& pages_disjoint(l.text, l.stack)
    &&& pages_disjoint(l.rodata, l.data)
    &&& pages_disjoint(l.rodata, l.bss)
    &&& pages_disjoint(l.rodata, l.stack)
    &&& pages_disjoint(l.data, l.bss)
    &&& pages_disjoint(l.data, l.stack)
    &&& pages_disjoint(l.bss, l.stack)
}

/// Every section mapped with its permissions: `.text` read-only and
/// kernel-executable, `.rodata` read-only, the rest read/write, none of
/// them but `.text` executable.
pub open spec fn image_mapped(p: PoolView, root: int, l: ImageLayout) -> bool {
    &&& section_mapped(p, root, l.text, normal_attrs(Access::KernelReadOnly, Executable::Kernel))
    &&& section_mapped(p, root, l.rodata, normal_attrs(Access::KernelReadOnly, Executable::Never))
    &&& section_mapped(p, root, l.data, normal_attrs(Access::KernelReadWrite, Executable::Never))
    &&& section_mapped(p, root, l.bss, normal_attrs(Access::KernelReadWrite, Executable::Never))
    &&& section_mapped(p, root, l.stack, normal_attrs(Access::KernelReadWrite, Executable::Never))
}

/// The attributes `normal_attrs` builds carry exactly the access and
/// execution policies they are given, on normal inner-shareable memory.
pub proof fn lemma_normal_attrs_fields(a: Access, x: Executable)
    ensures
        normal_attrs(a, x).access == a,
        normal_attrs(a, x).execute == x,
        normal_attrs(a, x).memory == MemoryAttr::Normal,
        normal_attrs(a, x).share == Shareability::InnerShareable,
{
}

/// In hardware terms: a page entry built from `normal_attrs(a, x)` holds
/// `a`'s access-permission field (bits 7:6), `x`'s execute-never bits, the
/// access flag, MAIR slot 0 and inner shareability.
pub proof fn lemma_normal_page_bits(pa: u64, a: Access, x: Executable)
    ensures
        page_raw(pa, normal_attrs(a, x)) & 0xC0 == access_bits(a),
        page_raw(pa, normal_attrs(a, x)) & (PXN | UXN) == executable_bits(x),
        page_raw(pa, normal_attrs(a, x)) & AF == AF,
        page_raw(pa, normal_attrs(a, x)) & 0x1C == 0,
        page_raw(pa, normal_attrs(a, x)) & 0x300 == 0x300,
{
    let ap = access_bits(a);
    let ex = executable_bits(x);
    assert(ap == 0 || ap == 0x40 || ap == 0x80 || ap == 0xC0);
    lemma_execute_never_bits(0);
    assert(ex == 0x0040_0000_0000_0000u64 || ex == 0x0020_0000_0000_0000u64 || ex
        == 0x0060_0000_0000_0000u64);
    assert(page_raw(pa, normal_attrs(a, x)) == ((pa & 0x0000_FFFF_FFFF_F000u64) | ((0u64 << 2u64)
        | ap | (3u64 << 8u64) | ex | 0x400u64) | 3u64));
    assert((((pa & 0x0000_FFFF_FFFF_F000u64) | ((0u64 << 2u64) | ap | (3u64 << 8u64) | ex
        | 0x400u64) | 3u64) & 0xC0u64) == ap && (((pa & 0x0000_FFFF_FFFF_F000u64) | ((0u64 << 2u64)
        | ap | (3u64 << 8u64) | ex | 0x400u64) | 3u64) & 0x0060_0000_0000_0000u64) == ex && (((pa
        & 0x0000_FFFF_FFFF_F000u64) | ((0u64 << 2u64) | ap | (3u64 << 8u64) | ex | 0x400u64)
        | 3u64) & 0x400u64) == 0x400u64 && (((pa & 0x0000_FFFF_FFFF_F000u64) | ((0u64 << 2u64)
        | ap | (3u64 << 8u64) | ex | 0x400u64) | 3u64) & 0x1Cu64) == 0 && (((pa
        & 0x0000_FFFF_FFFF_F000u64) | ((0u64 << 2u64) | ap | (3u64 << 8u64) | ex | 0x400u64)
        | 3u64) & 0x300u64) == 0x300u64) by (bit_vector)
        requires
            ap == 0 || ap == 0x40 || ap == 0x80 || ap == 0xC0,
            ex == 0x0040_0000_0000_0000u64 || ex == 0x0020_0000_0000_0000u64 || ex
                == 0x0060_0000_0000_0000u64,
    ;
}

/// Every page the image map installs carries its section's permissions:
/// `.text` pages are read-only at EL1 and the only ones EL1 may execute,
/// `.rodata` pages are read-only and never executable, `.data`, `.bss` and
/// stack pages are writable at EL1 and never executable; none of them is
/// accessible from EL0.
pub proof fn lemma_image_page_permissions(p: PoolView, root: int, l: ImageLayout, k: nat)
    requires
        image_mapped(p, root, l),
    ensures
        l.text.start@ + 4096 * k < l.text.end@ ==> (walk(p, root, section_page(l.text, k), 3) matches Some(e)
            && e & 0xC0 == AP_RO_EL1 && e & PXN == 0 && e & UXN == UXN),
        l.rodata.start@ + 4096 * k < l.rodata.end@ ==> (walk(p, root, section_page(l.rodata, k), 3) matches Some(e)
            && e & 0xC0 == AP_RO_EL1 && e & PXN == PXN && e & UXN == UXN),
        l.data.start@ + 4096 * k < l.data.end@ ==> (walk(p, root, section_page(l.data, k), 3) matches Some(e)
            && e & 0xC0 == AP_RW_EL1 && e & PXN == PXN && e & UXN == UXN),
        l.bss.start@ + 4096 * k < l.bss.end@ ==> (walk(p, root, section_page(l.bss, k), 3) matches Some(e)
            && e & 0xC0 == AP_RW_EL1 && e & PXN == PXN && e & UXN == UXN),
        l.stack.start@ + 4096 * k < l.stack.end@ ==> (walk(p, root, section_page(l.stack, k), 3) matches Some(e)
            && e & 0xC0 == AP_RW_EL1 && e & PXN == PXN && e & UXN == UXN),
{
    let ro = Access::KernelReadOnly;
    let rw = Access::KernelReadWrite;
    let ex = Executable::Kernel;
    let nx = Executable::Never;
    lemma_normal_page_bits(image_pa(section_page(l.text, k)), ro, ex);
    lemma_normal_page_bits(image_pa(section_page(l.rodata, k)), ro, nx);
    lemma_normal_page_bits(image_pa(section_page(l.data, k)), rw, nx);
    lemma_normal_page_bits(image_pa(section_page(l.bss, k)), rw, nx);
    lemma_normal_page_bits(image_pa(section_page(l.stack, k)), rw, nx);
    assert forall|e: u64| (e & (PXN | UXN)) == UXN implies e & PXN == 0 && e & UXN == UXN by {
        lemma_execute_never_bits(e);
    }
    assert forall|e: u64| (e & (PXN | UXN)) == (PXN | UXN) implies e & PXN == PXN && e & UXN == UXN by {
        lemma_execute_never_bits(e);
    }
}

/// The two execute-never bits, and what a word's pair of them says of each.
proof fn lemma_execute_never_bits(e: u64)
    by (bit_vector)
    ensures
        (PXN | UXN) == 0x0060_0000_0000_0000u64,
        PXN == 0x0020_0000_0000_0000u64,
        UXN == 0x0040_0000_0000_0000u64,
        (e & (PXN | UXN)) == UXN ==> (e & PXN) == 0 && (e & UXN) == UXN,
        (e & (PXN | UXN)) == (PXN | UXN) ==> (e & PXN) == PXN && (e & UXN) == UXN,
{
}

/// A mapped section stays mapped while another section that shares none of
/// its pages is mapped.
proof fn lemma_section_survives(
    p0: PoolView,
    p1: PoolView,
    root: int,
    a: ImageSection,
    attrs: LeafAttrs,
    b: ImageSection,
)
    requires
        section_mapped(p0, root, a, attrs),
        other_pages_kept(p0, p1, root, b),
        pages_disjoint(a, b),
        KERNEL_IMAGE_BASE <= a.start@,
    ensures
        section_mapped(p1, root, a, attrs),
{
    assert forall|k: nat| a.start@ + 4096 * k < a.end@ implies image_page_mapped(
        p1,
        root,
        #[trigger] section_page(a, k),
        attrs,
    ) by {
        let va = section_page(a, k);
        assert(image_page_mapped(p0, root, va, attrs));
        assert(table_at(p0, root, va, 3) is Some);
        assert(a.start@ / 4096 <= va / 4096) by {
            vstd::arithmetic::div_mod::lemma_div_is_ordered(a.start@ as int, va as int, 4096);
        }
        assert(va / 4096 <= (a.end@ - 1) / 4096) by {
            vstd::arithmetic::div_mod::lemma_div_is_ordered(va as int, a.end@ - 1, 4096);
        }
    }
}

/// Mapping outside the image region's entry keeps composing.
proof fn lemma_outside_kept_trans(p0: PoolView, p1: PoolView, p2: PoolView, root: int)
    requires
        outside_image_kept(p0, p1, root),
        outside_image_kept(p1, p2, root),
    ensures
        outside_image_kept(p0, p2, root),
{
    assert forall|va2: u64, d2: nat|
        d2 <= 3 && va_index(va2, depth_shift(0)) != 0x1FF && #[trigger] table_at(p0, root, va2, d2)
            is Some implies walk(p2, root, va2, d2) == walk(p0, root, va2, d2) by {
        assert(walk(p1, root, va2, d2) == walk(p0, root, va2, d2));
        assert(table_at(p1, root, va2, d2) is Some);
    }
}

/// Map the image sections: `.text` read-only and executable, `.rodata`
/// read-only, `.data`, `.bss` and the stack read/write; none of the last
/// four executable. Nothing outside the image region changes, and when no
/// two sections share a page and all map, every section ends up mapped
/// with its permissions.
pub fn build_image(pool: &mut PagePool, root: PhysAddr, layout: &ImageLayout) -> (r: Result<
    (),
    MapError,
>)
    requires
        pool_wf(old(pool)@),
        is_root(old(pool)@, root@),
        section_ok(layout.text),
        section_ok(layout.rodata),
        section_ok(layout.data),
        section_ok(layout.bss),
        section_ok(layout.stack),
    ensures
        pool_wf(final(pool)@),
        is_root(final(pool)@, root@),
        pa_table(final(pool)@, root@) == pa_table(old(pool)@, root@),
        r is Err ==> r == Err::<(), MapError>(MapError::BlockInTheWay) || r == Err::<(), MapError>(
            MapError::PoolExhausted,
        ),
        outside_image_kept(old(pool)@, final(pool)@, pa_table(old(pool)@, root@)),
        r is Ok && layout_disjoint(*layout) ==> image_mapped(
            final(pool)@,
            pa_table(old(pool)@, root@),
            *layout,
        ),
        // each refusal names a section with a page that could not be mapped
        r == Err::<(), MapError>(MapError::BlockInTheWay) ==> exists|i: int|
            0 <= i < 5 && section_blocked(
                final(pool)@,
                pa_table(old(pool)@, root@),
                #[trigger] layout_sections(*layout)[i],
            ),
        r == Err::<(), MapError>(MapError::PoolExhausted) ==> exists|i: int|
            0 <= i < 5 && section_outgrows_pool(
                final(pool)@,
                pa_table(old(pool)@, root@),
                #[trigger] layout_sections(*layout)[i],
            ),
{
    let ghost rt = pa_table(pool@, root@);
    let ghost p0 = pool@;
    let ta = text_attrs();
    let ra = rodata_attrs();
    let da = data_attrs();
    let r1 = map_section(pool, root, layout.text, ta);
    let ghost p1 = pool@;
    if r1.is_err() {
        proof {
            assert(layout_sections(*layout)[0] == layout.text);
        }
        return r1;
    }
    let r2 = map_section(pool, root, layout.rodata, ra);
    let ghost p2 = pool@;
    proof {
        lemma_outside_kept_trans(p0, p1, p2, rt);
    }
    if r2.is_err() {
        proof {
            assert(layout_sections(*layout)[1] == layout.rodata);
        }
        return r2;
    }
    let r3 = map_section(pool, root, layout.data, da);
    let ghost p3 = pool@;
    proof {
        lemma_outside_kept_trans(p0, p2, p3, rt);
    }
    if r3.is_err() {
        proof {
            assert(layout_sections(*layout)[2] == layout.data);
        }
        return r3;
    }
    let r4 = map_section(pool, root, layout.bss, da);
    let ghost p4 = pool@;
    proof {
        lemma_outside_kept_trans(p0, p3, p4, rt);
    }
    if r4.is_err() {
        proof {
            assert(layout_sections(*layout)[3] == layout.bss);
        }
        return r4;
    }
    let r5 = map_section(pool, root, layout.stack, da);
    proof {
        assert(layout_sections(*layout)[4] == layout.stack);
        let p5 = pool@;
        lemma_outside_kept_trans(p0, p4, p5, rt);
        if r5.is_ok() && layout_disjoint(*layout) {
            let l = *layout;
            let tx = normal_attrs(Access::KernelReadOnly, Executable::Kernel);
            let ro = normal_attrs(Access::KernelReadOnly, Executable::Never);
            let rw = normal_attrs(Access::KernelReadWrite, Executable::Never);
            lemma_section_survives(p1, p2, rt, l.text, tx, l.rodata);
            lemma_section_survives(p2, p3, rt, l.text, tx, l.data);
            lemma_section_survives(p3, p4, rt, l.text, tx, l.bss);
            lemma_section_survives(p4, p5, rt, l.text, tx, l.stack);
            lemma_section_survives(p2, p3, rt, l.rodata, ro, l.data);
            lemma_section_survives(p3, p4, rt, l.rodata, ro, l.bss);
            lemma_section_survives(p4, p5, rt, l.rodata, ro, l.stack);
            lemma_section_survives(p3, p4, rt, l.data, rw, l.bss);
            lemma_section_survives(p4, p5, rt, l.data, rw, l.stack);
            lemma_section_survives(p4, p5, rt, l.bss, rw, l.stack);
        }
    }
    r5
}

/// Block `k` of the greedy walk of region `r`.
pub open spec fn region_block(r: RamRegion, k: int) -> (nat, nat) {
    region_blocks(r.base@ as nat, (r.base@ + r.size) as nat)[k]
}

/// Number of blocks of the greedy walk of region `r`.
pub open spec fn region_block_count(r: RamRegion) -> nat {
    region_blocks(r.base@ as nat, (r.base@ + r.size) as nat).len()
}

/// Block `b` is mapped at its linear address with `attrs`.
pub open spec fn linear_mapped(p: PoolView, root: int, b: (nat, nat), attrs: LeafAttrs) -> bool {
    walk(p, root, (b.0 + KERNEL_LINEAR_BASE) as u64, b.1) == Some(block_raw(b.0 as u64, attrs))
}

/// No two regions share an address.
pub open spec fn regions_disjoint(rs: Seq<RamRegion>) -> bool {
    forall|i: int, j: int|
        0 <= i < rs.len() && 0 <= j < rs.len() && i != j ==> (#[trigger] rs[i]).base@ + rs[i].size
            <= (#[trigger] rs[j]).base@ || rs[j].base@ + rs[j].size <= rs[i].base@
}

/// Map every RAM region into the linear window, read/write and never
/// executable, stopping at the first refusal. When the regions are
/// disjoint and all of them map, every address of every region is mapped
/// at `pa + KERNEL_LINEAR_BASE` by the blocks the greedy walk chose.
pub fn build_linear(pool: &mut PagePool, root: PhysAddr, regions: &Vec<RamRegion>) -> (r: Result<
    (),
    MapError,
>)
    requires
        pool_wf(old(pool)@),
        is_root(old(pool)@, root@),
        forall|i: int|
            0 <= i < regions@.len() ==> (#[trigger] regions@[i]).base@ + regions@[i].size
                <= linear_span(),
    ensures
        pool_wf(final(pool)@),
        is_root(final(pool)@, root@),
        pa_table(final(pool)@, root@) == pa_table(old(pool)@, root@),
        r is Ok ==> forall|i: int|
            0 <= i < regions@.len() ==> region_tail(
                (#[trigger] regions@[i]).base@ as nat,
                (regions@[i].base@ + regions@[i].size) as nat,
            ) is None,
        r is Ok && regions_disjoint(regions@) ==> forall|i: int, k: int|
            0 <= i < regions@.len() && 0 <= k < region_block_count(regions@[i]) ==> linear_mapped(
                final(pool)@,
                pa_table(old(pool)@, root@),
                #[trigger] region_block(regions@[i], k),
                normal_attrs(Access::KernelReadWrite, Executable::Never),
            ),
        // each refusal names the region or block that caused it
        r matches Err(MapError::UnalignedTail { pa, remaining }) ==> exists|i: int|
            0 <= i < regions@.len() && region_tail(
                (#[trigger] regions@[i]).base@ as nat,
                (regions@[i].base@ + regions@[i].size) as nat,
            ) == Some((pa as nat, remaining as nat)),
        r == Err::<(), MapError>(MapError::BlockInTheWay) ==> exists|i: int, k: int|
            0 <= i < regions@.len() && 0 <= k < region_block_count(regions@[i]) && block_in_the_way(
                final(pool)@,
                pa_table(old(pool)@, root@),
                #[trigger] region_block(regions@[i], k),
            ),
        r == Err::<(), MapError>(MapError::PoolExhausted) ==> exists|i: int, k: int|
            0 <= i < regions@.len() && 0 <= k < region_block_count(regions@[i])
                && block_outgrows_pool(
                final(pool)@,
                pa_table(old(pool)@, root@),
                #[trigger] region_block(regions@[i], k),
            ),
{
    let mut i: usize = 0;
    let attrs = data_attrs();
    let ghost rt = pa_table(pool@, root@);
    while i < regions.len()
        invariant
            pool_wf(pool@),
            is_root(pool@, root@),
            pa_table(pool@, root@) == pa_table(old(pool)@, root@),
            i <= regions@.len(),
            forall|j: int|
                0 <= j < regions@.len() ==> (#[trigger] regions@[j]).base@ + regions@[j].size
                    <= linear_span(),
            forall|j: int|
                0 <= j < i ==> region_tail(
                    (#[trigger] regions@[j]).base@ as nat,
                    (regions@[j].base@ + regions@[j].size) as nat,
                ) is None,
            rt == pa_table(old(pool)@, root@),
            attrs == normal_attrs(Access::KernelReadWrite, Executable::Never),
            regions_disjoint(regions@) ==> forall|j: int, k: int|
                0 <= j < i && 0 <= k < region_block_count(regions@[j]) ==> linear_mapped(
                    pool@,
                    rt,
                    #[trigger] region_block(regions@[j], k),
                    attrs,
                ),
        decreases regions@.len() - i,
    {
        let r = regions[i];
        let ghost p0 = pool@;
        match map_region(pool, root, r.base, r.size, attrs) {
            Ok(()) => {},
            Err(e) => {
                proof {
                    let ri = regions@[i as int];
                    let blocks = region_blocks(ri.base@ as nat, (ri.base@ + ri.size) as nat);
                    if e == MapError::BlockInTheWay {
                        let k = choose|k: int|
                            0 <= k < blocks.len() && block_in_the_way(pool@, rt, #[trigger] blocks[k]);
                        assert(region_block(ri, k) == blocks[k]);
                    }
                    if e == MapError::PoolExhausted {
                        let k = choose|k: int|
                            0 <= k < blocks.len() && block_outgrows_pool(pool@, rt, #[trigger] blocks[k]);
                        assert(region_block(ri, k) == blocks[k]);
                    }
                }
                return Err(e);
            },
        }
        proof {
            let p1 = pool@;
            if regions_disjoint(regions@) {
                assert forall|j: int, k: int|
                    0 <= j < i + 1 && 0 <= k < region_block_count(regions@[j]) implies linear_mapped(
                    p1,
                    rt,
                    #[trigger] region_block(regions@[j], k),
                    attrs,
                ) by {
                    if j < i {
                        let rj = regions@[j];
                        lemma_region_blocks_tile(rj.base@ as nat, (rj.base@ + rj.size) as nat);
                        let b = region_block(rj, k);
                        assert(region_blocks(rj.base@ as nat, (rj.base@ + rj.size) as nat)[k] == b);
                        assert(linear_mapped(p0, rt, b, attrs));
                        assert(regions@[j].base@ + regions@[j].size <= regions@[i as int].base@
                            || regions@[i as int].base@ + regions@[i as int].size <= regions@[j].base@);
                        let vb = (b.0 + KERNEL_LINEAR_BASE) as u64;
                        assert(table_at(p0, rt, vb, b.1) is Some);
                        assert(walk(p1, rt, vb, b.1) == walk(p0, rt, vb, b.1));
                    }
                }
            }
        }
        i = i + 1;
    }
    Ok(())
}

/// Allocate a fresh root from the pool and build the kernel regime in it:
/// the linear map of `regions`, then the image sections. Returns the root's
/// physical address for `TTBR1_EL1`.
pub fn build(pool: &mut PagePool, regions: &Vec<RamRegion>, layout: &ImageLayout) -> (r: Result<
    PhysAddr,
    MapError,
>)
    requires
        pool_wf(old(pool)@),
        forall|i: int|
            0 <= i < regions@.len() ==> (#[trigger] regions@[i]).base@ + regions@[i].size
                <= linear_span(),
        section_ok(layout.text),
        section_ok(layout.rodata),
        section_ok(layout.data),
        section_ok(layout.bss),
        section_ok(layout.stack),
    ensures
        pool_wf(final(pool)@),
        r matches Ok(root) ==> is_root(final(pool)@, root@),
        old(pool)@.used >= POOL_PAGES ==> r == Err::<PhysAddr, MapError>(MapError::PoolExhausted),
        r is Ok ==> forall|i: int|
            0 <= i < regions@.len() ==> region_tail(
                (#[trigger] regions@[i]).base@ as nat,
                (regions@[i].base@ + regions@[i].size) as nat,
            ) is None,
        // disjoint RAM regions: every address at `pa + KERNEL_LINEAR_BASE`
        r matches Ok(root) ==> (regions_disjoint(regions@) ==> forall|i: int, k: int|
            0 <= i < regions@.len() && 0 <= k < region_block_count(regions@[i]) ==> linear_mapped(
                final(pool)@,
                pa_table(final(pool)@, root@),
                #[trigger] region_block(regions@[i], k),
                normal_attrs(Access::KernelReadWrite, Executable::Never),
            )),
        // sections that share no page: each with its permissions
        r matches Ok(root) ==> (layout_disjoint(*layout) ==> image_mapped(
            final(pool)@,
            pa_table(final(pool)@, root@),
            *layout,
        )),
        // each refusal names its cause; the root is the pool's next table
        r matches Err(MapError::UnalignedTail { pa, remaining }) ==> exists|i: int|
            0 <= i < regions@.len() && region_tail(
                (#[trigger] regions@[i]).base@ as nat,
                (regions@[i].base@ + regions@[i].size) as nat,
            ) == Some((pa as nat, remaining as nat)),
        r == Err::<PhysAddr, MapError>(MapError::BlockInTheWay) ==> (exists|i: int, k: int|
            0 <= i < regions@.len() && 0 <= k < region_block_count(regions@[i]) && block_in_the_way(
                final(pool)@,
                old(pool)@.used as int,
                #[trigger] region_block(regions@[i], k),
            )) || (exists|i: int|
            0 <= i < 5 && section_blocked(
                final(pool)@,
                old(pool)@.used as int,
                #[trigger] layout_sections(*layout)[i],
            )),
        r == Err::<PhysAddr, MapError>(MapError::PoolExhausted) ==> old(pool)@.used >= POOL_PAGES
            || (exists|i: int, k: int|
            0 <= i < regions@.len() && 0 <= k < region_block_count(regions@[i])
                && block_outgrows_pool(
                final(pool)@,
                old(pool)@.used as int,
                #[trigger] region_block(regions@[i], k),
            )) || (exists|i: int|
            0 <= i < 5 && section_outgrows_pool(
                final(pool)@,
                old(pool)@.used as int,
                #[trigger] layout_sections(*layout)[i],
            )),
{
    if pool.used() >= POOL_PAGES {
        return Err(MapError::PoolExhausted);
    }
    let ghost u0 = pool@.used;
    let root = pool.alloc_page();
    let ghost rt = pa_table(pool@, root@);
    proof {
        assert(rt == u0) by (nonlinear_arith)
            requires
                rt == (root@ - pool@.base) / 4096,
                root@ == pool@.base + u0 * 4096,
        ;
    }
    match build_linear(pool, root, regions) {
        Ok(()) => {},
        Err(e) => {
            return Err(e);
        },
    }
    let ghost p1 = pool@;
    match build_image(pool, root, layout) {
        Ok(()) => {},
        Err(e) => {
            return Err(e);
        },
    }
    proof {
        let p2 = pool@;
        if regions_disjoint(regions@) {
            let rw = normal_attrs(Access::KernelReadWrite, Executable::Never);
            assert forall|i: int, k: int|
                0 <= i < regions@.len() && 0 <= k < region_block_count(regions@[i]) implies linear_mapped(
                p2,
                rt,
                #[trigger] region_block(regions@[i], k),
                rw,
            ) by {
                let ri = regions@[i];
                lemma_region_blocks_tile(ri.base@ as nat, (ri.base@ + ri.size) as nat);
                let b = region_block(ri, k);
                assert(region_blocks(ri.base@ as nat, (ri.base@ + ri.size) as nat)[k] == b);
                assert(linear_mapped(p1, rt, b, rw));
                let va = (b.0 + KERNEL_LINEAR_BASE) as u64;
                lemma_linear_top_entry(b.0 as u64);
                assert(table_at(p1, rt, va, b.1) is Some);
            }
        }
    }
    Ok(root)
}

} // verus!
