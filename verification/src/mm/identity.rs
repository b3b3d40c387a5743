//! Identity mapping (VA == PA) for early MMU bring-up.
//!
//! Turning the MMU on only stops being a foot-gun if the instruction after
//! the switch translates to the same physical address it occupied before.
//! An identity map guarantees that for every region still needed:
//!   - RAM `0x4000_0000` .. `0x47FF_FFFF` (128 MiB) in 2 MiB blocks at L2,
//!     read/write and kernel-executable;
//!   - the PL011 UART, one 4 KiB Device-nGnRE page at `0x0900_0000`.

use vstd::prelude::*;

use crate::arch::mm::{va_index, PhysAddr, VirtAddr};
use crate::mm::attrs::MemoryAttr;
use crate::mm::page_table::{
    block_raw, depth_shift, is_root, lemma_map_keeps_path, lemma_map_preserves_disjoint_walk,
    lemma_needed_none_when_walk_exists, lemma_same_prefix_same_table, lemma_table_at_level,
    lemma_va_index_bound, page_raw, pa_table, pool_wf, slot, table_at, walk, Access, Executable,
    LeafAttrs, Level, PagePool, Shareability, POOL_PAGES, lemma_invalid_entry_inert,
    entry_table, lemma_table_or_page_valid,
};

verus! {

/// Physical base of the QEMU `virt` RAM region.
pub const RAM_BASE: usize = 0x4000_0000;

/// Size of the identity-mapped RAM (128 MiB, QEMU `-m 128M`).
pub const RAM_SIZE: usize = 0x0800_0000;

/// PL011 UART base address.
pub const UART_BASE: usize = 0x0900_0000;

/// Block size used at level 2 when covering RAM.
pub const BLOCK_2MB: usize = 0x20_0000;

/// Number of 2 MiB blocks covering the identity-mapped RAM.
pub const RAM_BLOCKS: usize = 64;

/// Normal kernel RAM: read/write at EL1, executable at EL1, inner
/// shareable.
pub open spec fn kernel_ram_attrs() -> LeafAttrs {
    LeafAttrs {
        memory: MemoryAttr::Normal,
        access: Access::KernelReadWrite,
        share: Shareability::InnerShareable,
        execute: Executable::Kernel,
    }
}

/// The PL011 register window: Device-nGnRE, never executable.
pub open spec fn device_uart_attrs() -> LeafAttrs {
    LeafAttrs {
        memory: MemoryAttr::DeviceNGNRE,
        access: Access::KernelReadWrite,
        share: Shareability::NonShareable,
        execute: Executable::Never,
    }
}

fn kernel_ram() -> (r: LeafAttrs)
    ensures
        r == kernel_ram_attrs(),
{
    LeafAttrs {
        memory: MemoryAttr::Normal,
        access: Access::KernelReadWrite,
        share: Shareability::InnerShareable,
        execute: Executable::Kernel,
    }
}

fn device_uart() -> (r: LeafAttrs)
    ensures
        r == device_uart_attrs(),
{
    LeafAttrs {
        memory: MemoryAttr::DeviceNGNRE,
        access: Access::KernelReadWrite,
        share: Shareability::NonShareable,
        execute: Executable::Never,
    }
}

/// Address of the `k`-th 2 MiB RAM block.
pub open spec fn ram_block(k: int) -> u64 {
    (RAM_BASE + k * BLOCK_2MB) as u64
}

/// The walk indices of the `k`-th RAM block: L0 entry 0, L1 entry 1, L2
/// entry `k`.
proof fn lemma_ram_block_indices(k: u64)
    requires
        k < 64,
    ensures
        va_index(ram_block(k as int), depth_shift(0)) == 0,
        va_index(ram_block(k as int), depth_shift(1)) == 1,
        va_index(ram_block(k as int), depth_shift(2)) == k,
{
    let v = ram_block(k as int);
    assert(v == 0x4000_0000 + k * 0x20_0000);
    assert((v >> 39u64) & 0x1FF == 0 && (v >> 30u64) & 0x1FF == 1 && (v >> 21u64) & 0x1FF == k)
        by (bit_vector)
        requires
            k < 64,
            v == 0x4000_0000u64 + k * 0x20_0000u64,
    ;
}

/// The walk indices of the UART page: 0, 0, 72, 0.
proof fn lemma_uart_indices()
    ensures
        va_index(UART_BASE as u64, depth_shift(0)) == 0,
        va_index(UART_BASE as u64, depth_shift(1)) == 0,
        va_index(UART_BASE as u64, depth_shift(2)) == 72,
        va_index(UART_BASE as u64, depth_shift(3)) == 0,
{
    assert((0x0900_0000u64 >> 39u64) & 0x1FF == 0 && (0x0900_0000u64 >> 30u64) & 0x1FF == 0
        && (0x0900_0000u64 >> 21u64) & 0x1FF == 72 && (0x0900_0000u64 >> 12u64) & 0x1FF == 0)
        by (bit_vector);
}

/// Allocate a fresh root table, install every identity mapping the kernel
/// needs to survive turning the MMU on, and return the root's physical
/// address for `TTBR0_EL1`. Five frames come from the pool: the root, one
/// L1 and one L2 table for RAM, and one L2 and one L3 table for the UART.
pub fn build(pool: &mut PagePool) -> (root: PhysAddr)
    requires
        pool_wf(old(pool)@),
        old(pool)@.used + 5 <= POOL_PAGES,
    ensures
        pool_wf(final(pool)@),
        is_root(final(pool)@, root@),
        final(pool)@.used == old(pool)@.used + 5,
        forall|k: int|
            0 <= k < RAM_BLOCKS ==> walk(
                final(pool)@,
                pa_table(final(pool)@, root@),
                #[trigger] ram_block(k),
                2,
            ) == Some(block_raw(ram_block(k), kernel_ram_attrs())),
        walk(final(pool)@, pa_table(final(pool)@, root@), UART_BASE as u64, 3) == Some(
            page_raw(UART_BASE as u64, device_uart_attrs()),
        ),
{
    let root = pool.alloc_page();
    proof {
        let p = pool@;
        let rt = pa_table(p, root@);
        assert forall|i: int| 0 <= i < 512 implies #[trigger] slot(p, rt, i) == 0 by {
            assert(old(pool)@.slots[rt * 512 + i] == 0);
        }
    }
    map_ram(pool, root);
    map_uart(pool, root);
    root
}

/// Identity-map the QEMU virt RAM region in 2 MiB blocks at level 2, into
/// an empty root.
fn map_ram(pool: &mut PagePool, root: PhysAddr)
    requires
        pool_wf(old(pool)@),
        is_root(old(pool)@, root@),
        pa_table(old(pool)@, root@) == old(pool)@.used - 1,
        old(pool)@.used + 4 <= POOL_PAGES,
        forall|i: int| 0 <= i < 512 ==> #[trigger] slot(old(pool)@, pa_table(old(pool)@, root@), i) == 0,
    ensures
        pool_wf(final(pool)@),
        is_root(final(pool)@, root@),
        pa_table(final(pool)@, root@) == pa_table(old(pool)@, root@),
        final(pool)@.used == old(pool)@.used + 2,
        forall|k: int|
            0 <= k < RAM_BLOCKS ==> walk(
                final(pool)@,
                pa_table(final(pool)@, root@),
                #[trigger] ram_block(k),
                2,
            ) == Some(block_raw(ram_block(k), kernel_ram_attrs())),
        table_at(final(pool)@, pa_table(final(pool)@, root@), ram_block(0), 1) matches Some(t1)
            && forall|i: int| 0 <= i < 512 && i != 1 ==> #[trigger] slot(final(pool)@, t1, i) == 0,
{
    let ghost rt = pa_table(pool@, root@);
    let ghost u0 = pool@.used;
    let attrs = kernel_ram();
    let mut k: usize = 0;
    while k < RAM_BLOCKS
        invariant
            pool_wf(pool@),
            is_root(pool@, root@),
            pa_table(pool@, root@) == rt,
            pool@.base == old(pool)@.base,
            rt == u0 - 1,
            u0 + 4 <= POOL_PAGES,
            attrs == kernel_ram_attrs(),
            k <= RAM_BLOCKS,
            k == 0 ==> pool@.used == u0 && forall|i: int| 0 <= i < 512 ==> #[trigger] slot(pool@, rt, i) == 0,
            k > 0 ==> pool@.used == u0 + 2,
            k > 0 ==> (table_at(pool@, rt, ram_block(0), 1) matches Some(t1) && forall|i: int|
                0 <= i < 512 && i != 1 ==> #[trigger] slot(pool@, t1, i) == 0),
            forall|j: int|
                0 <= j < k ==> walk(pool@, rt, #[trigger] ram_block(j), 2) == Some(
                    block_raw(ram_block(j), kernel_ram_attrs()),
                ),
        decreases RAM_BLOCKS - k,
    {
        let ghost p0 = pool@;
        let pa = RAM_BASE + k * BLOCK_2MB;
        let ghost va = ram_block(k as int);
        proof {
            lemma_ram_block_indices(k as u64);
            lemma_ram_block_indices(0);
            if k == 0 {
                lemma_invalid_entry_inert();
                assert(slot(p0, rt, 0) == 0);
            } else {
                assert(walk(p0, rt, ram_block(0), 2) is Some);
                assert forall|d2: nat| d2 < 2 implies #[trigger] va_index(va, depth_shift(d2))
                    == va_index(ram_block(0), depth_shift(d2)) by {
                    if d2 == 0 {
                    } else {
                        assert(d2 == 1);
                    }
                }
                lemma_same_prefix_same_table(p0, rt, va, ram_block(0), 2);
                lemma_needed_none_when_walk_exists(p0, rt, va, 0, 2);
            }
        }
        pool.map(root, VirtAddr::new(pa), PhysAddr::new(pa), Level::L2, attrs);
        proof {
            let p1 = pool@;
            assert(va == pa as u64);
            // earlier blocks keep their entries
            assert forall|j: int| 0 <= j < k + 1 implies walk(p1, rt, #[trigger] ram_block(j), 2)
                == Some(block_raw(ram_block(j), kernel_ram_attrs())) by {
                if j < k {
                    lemma_ram_block_indices(j as u64);
                    lemma_map_preserves_disjoint_walk(p0, p1, rt, va, 2, ram_block(j), 2, 2);
                }
            }
            if k == 0 {
                // the L1 table came fresh from the pool
                lemma_table_at_level(p1, rt, va, 1);
                let t1 = table_at(p1, rt, va, 1)->0;
                assert(table_at(p0, rt, va, 1) is None);
                assert forall|i: int| 0 <= i < 512 && i != 1 implies #[trigger] slot(p1, t1, i) == 0 by {
                    if slot(p1, t1, i) != 0 {
                        assert(i == va_index(va, depth_shift(p1.levels[t1])));
                    }
                }
            } else {
                lemma_map_keeps_path(p0, p1, rt, va, 2, ram_block(0), 2, 2, 1);
                lemma_table_at_level(p0, rt, ram_block(0), 1);
                let t1 = table_at(p0, rt, ram_block(0), 1)->0;
                assert forall|i: int| 0 <= i < 512 && i != 1 implies #[trigger] slot(p1, t1, i) == 0 by {
                    if slot(p1, t1, i) != slot(p0, t1, i) {
                        assert(i == va_index(va, depth_shift(p0.levels[t1])));
                    }
                }
            }
        }
        k = k + 1;
    }
}

/// Identity-map the PL011 UART as a single 4 KiB device page at level 3.
fn map_uart(pool: &mut PagePool, root: PhysAddr)
    requires
        pool_wf(old(pool)@),
        is_root(old(pool)@, root@),
        old(pool)@.used + 2 <= POOL_PAGES,
        forall|k: int|
            0 <= k < RAM_BLOCKS ==> walk(
                old(pool)@,
                pa_table(old(pool)@, root@),
                #[trigger] ram_block(k),
                2,
            ) == Some(block_raw(ram_block(k), kernel_ram_attrs())),
        table_at(old(pool)@, pa_table(old(pool)@, root@), ram_block(0), 1) matches Some(t1)
            && forall|i: int| 0 <= i < 512 && i != 1 ==> #[trigger] slot(old(pool)@, t1, i) == 0,
    ensures
        pool_wf(final(pool)@),
        is_root(final(pool)@, root@),
        pa_table(final(pool)@, root@) == pa_table(old(pool)@, root@),
        final(pool)@.used == old(pool)@.used + 2,
        forall|k: int|
            0 <= k < RAM_BLOCKS ==> walk(
                final(pool)@,
                pa_table(final(pool)@, root@),
                #[trigger] ram_block(k),
                2,
            ) == Some(block_raw(ram_block(k), kernel_ram_attrs())),
        walk(final(pool)@, pa_table(final(pool)@, root@), UART_BASE as u64, 3) == Some(
            page_raw(UART_BASE as u64, device_uart_attrs()),
        ),
{
    let ghost p0 = pool@;
    let ghost rt = pa_table(p0, root@);
    let ghost uva = UART_BASE as u64;
    proof {
        lemma_uart_indices();
        lemma_ram_block_indices(0);
        let t1 = table_at(p0, rt, ram_block(0), 1)->0;
        assert(walk(p0, rt, ram_block(0), 2) is Some);
        let e0 = slot(p0, rt, 0);
        assert(table_at(p0, rt, ram_block(0), 0) == Some(rt));
        assert(table_at(p0, rt, uva, 0) == Some(rt));
        assert(depth_shift(0) == 39);
        assert(e0 == slot(p0, rt, va_index(ram_block(0), depth_shift(0)) as int));
        assert(e0 == slot(p0, rt, va_index(uva, depth_shift(0)) as int));
        assert(table_at(p0, rt, ram_block(0), 1) == Some(entry_table(p0, e0)));
        lemma_table_or_page_valid(e0);
        lemma_invalid_entry_inert();
        assert(slot(p0, t1, 0) == 0);
        assert(table_at(p0, rt, uva, 1) == Some(t1));
        assert(crate::mm::page_table::tables_needed(p0, t1, uva, 1, 3) == Some(2nat));
        assert(crate::mm::page_table::tables_needed(p0, rt, uva, 0, 3) == Some(2nat));
    }
    pool.map(
        root,
        VirtAddr::new(UART_BASE),
        PhysAddr::new(UART_BASE),
        Level::L3,
        device_uart(),
    );
    proof {
        let p1 = pool@;
        assert forall|k: int| 0 <= k < RAM_BLOCKS implies walk(p1, rt, #[trigger] ram_block(k), 2)
            == Some(block_raw(ram_block(k), kernel_ram_attrs())) by {
            lemma_ram_block_indices(k as u64);
            lemma_map_preserves_disjoint_walk(p0, p1, rt, uva, 3, ram_block(k), 2, 2);
        }
    }
}

} // verus!
