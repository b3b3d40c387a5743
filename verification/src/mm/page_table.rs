//! 4-level page-table types for 4 KiB granule, 48-bit virtual addresses.
//!
//! Each table holds 512 entries; an entry is a 64-bit word with a
//! hardware-defined bit layout. Bits 1:0 pick the entry kind:
//!
//! ```text
//!   00  invalid
//!   01  block  (1 GiB at L1, 2 MiB at L2; not valid at L0 or L3)
//!   11  table  (at L0..L2)  /  page  (at L3 only)
//! ```
//!
//! The public API takes typed parameters ([`Level`], [`Access`],
//! [`Shareability`], [`Executable`], [`LeafAttrs`]) so call sites cannot
//! cross-wire bit fields; the constants name the raw bits.

use vstd::prelude::*;

use crate::arch::mm::{level_depth, level_shift, va_index, PhysAddr, VirtAddr};
use crate::mm::attrs::{attr_index, MemoryAttr};
use crate::mm::types::shareability_bits;

pub use crate::arch::mm::Level;
pub use crate::mm::types::Shareability;

verus! {

/// Bit 0 — the entry is in use. A zero here makes the MMU treat the entry
/// as invalid regardless of the other bits.
pub const VALID_BIT: u64 = 1;

/// Bit 1 — distinguishes a table/page descriptor from a block.
pub const TABLE_BIT: u64 = 2;

/// Zero word: every bit clear, entry is invalid.
pub const TYPE_INVALID: u64 = 0;

/// `0b01` — valid block entry (L1 and L2 only).
pub const TYPE_BLOCK: u64 = 1;

/// `0b11` — valid table descriptor (at L0..L2) or 4 KiB page (at L3).
pub const TYPE_TABLE_OR_PAGE: u64 = 3;

/// Position of the 3-bit `AttrIndx` field (a slot index into `MAIR_EL1`).
pub const ATTR_INDX_SHIFT: u64 = 2;

/// Position of the access-permission field (bits 7:6).
pub const AP_SHIFT: u64 = 6;

/// Read/write at EL1, no EL0 access. Default for kernel data.
pub const AP_RW_EL1: u64 = 0x00;

/// Read/write at both EL0 and EL1.
pub const AP_RW_EL0_EL1: u64 = 0x40;

/// Read-only at EL1, no EL0. For kernel `.text` and `.rodata`.
pub const AP_RO_EL1: u64 = 0x80;

/// Read-only at both EL0 and EL1.
pub const AP_RO_EL0_EL1: u64 = 0xC0;

/// Position of the shareability field (bits 9:8).
pub const SH_SHIFT: u64 = 8;

pub const SH_NON_SHAREABLE: u64 = 0x000;

pub const SH_OUTER_SHAREABLE: u64 = 0x200;

/// Default for kernel mappings on SMP.
pub const SH_INNER_SHAREABLE: u64 = 0x300;

/// Access flag. Must be 1, otherwise the first access takes an access
/// fault; page usage is not tracked, so it is always set.
pub const AF: u64 = 0x400;

/// Mask isolating the output-address bits 47:12 of an entry.
pub const OUTPUT_ADDR_MASK: u64 = 0x0000_FFFF_FFFF_F000;

/// Privileged eXecute Never — EL1 cannot fetch instructions here.
pub const PXN: u64 = 0x0020_0000_0000_0000;

/// Unprivileged eXecute Never — EL0 cannot fetch instructions here.
pub const UXN: u64 = 0x0040_0000_0000_0000;

/// Access permissions for a leaf entry (block or page).
#[derive(Debug, Copy, Clone, PartialEq, Eq, Structural)]
pub enum Access {
    /// EL1 read/write, EL0 has no access at all. Default for kernel data.
    KernelReadWrite,
    /// EL1 read-only, EL0 has no access. For `.text` and `.rodata`.
    KernelReadOnly,
    /// Both EL0 and EL1 read/write.
    SharedReadWrite,
    /// Both EL0 and EL1 read-only.
    SharedReadOnly,
}

/// The pre-shifted AP field of an access policy.
pub open spec fn access_bits(a: Access) -> u64 {
    match a {
        Access::KernelReadWrite => AP_RW_EL1,
        Access::KernelReadOnly => AP_RO_EL1,
        Access::SharedReadWrite => AP_RW_EL0_EL1,
        Access::SharedReadOnly => AP_RO_EL0_EL1,
    }
}

impl Access {
    /// Pre-shifted AP field ready to OR into an entry.
    pub fn bits(self) -> (r: u64)
        ensures
            r == access_bits(self),
    {
        match self {
            Access::KernelReadWrite => AP_RW_EL1,
            Access::KernelReadOnly => AP_RO_EL1,
            Access::SharedReadWrite => AP_RW_EL0_EL1,
            Access::SharedReadOnly => AP_RO_EL0_EL1,
        }
    }
}

/// Who, if anyone, may fetch instructions from the mapped region. Each
/// variant sets the bits that block execution at the other levels.
#[derive(Debug, Copy, Clone, PartialEq, Eq, Structural)]
pub enum Executable {
    /// EL1 may execute, EL0 may not.
    Kernel,
    /// EL0 may execute, EL1 may not.
    User,
    /// Neither may execute. All data, MMIO, stacks.
    Never,
}

/// The execute-never bits of an execution policy.
pub open spec fn executable_bits(e: Executable) -> u64 {
    match e {
        Executable::Kernel => UXN,
        Executable::User => PXN,
        Executable::Never => PXN | UXN,
    }
}

impl Executable {
    pub fn bits(self) -> (r: u64)
        ensures
            r == executable_bits(self),
    {
        match self {
            Executable::Kernel => UXN,
            Executable::User => PXN,
            Executable::Never => PXN | UXN,
        }
    }
}

/// Bundle of attributes applied to a block or page entry.
#[derive(Debug, Copy, Clone, PartialEq, Eq, Structural)]
pub struct LeafAttrs {
    pub memory: MemoryAttr,
    pub access: Access,
    pub share: Shareability,
    pub execute: Executable,
}

/// Every attribute field composed into one pre-shifted pattern, with the
/// access flag set.
pub open spec fn leaf_bits(a: LeafAttrs) -> u64 {
    (attr_index(a.memory) << ATTR_INDX_SHIFT) | access_bits(a.access) | (shareability_bits(a.share)
        << SH_SHIFT) | executable_bits(a.execute) | AF
}

impl LeafAttrs {
    /// Compose every typed field into one pre-shifted bit pattern. `AF` is
    /// always set.
    pub fn bits(self) -> (r: u64)
        ensures
            r == leaf_bits(self),
    {
        (self.memory.index() << ATTR_INDX_SHIFT) | self.access.bits() | (self.share.bits()
            << SH_SHIFT) | self.execute.bits() | AF
    }
}

/// The raw word of a table descriptor for `next`.
pub open spec fn table_raw(next: u64) -> u64 {
    (next & OUTPUT_ADDR_MASK) | TYPE_TABLE_OR_PAGE
}

/// The raw word of a block entry mapping `pa`.
pub open spec fn block_raw(pa: u64, a: LeafAttrs) -> u64 {
    (pa & OUTPUT_ADDR_MASK) | leaf_bits(a) | TYPE_BLOCK
}

/// The raw word of a 4 KiB page entry mapping `pa`.
pub open spec fn page_raw(pa: u64, a: LeafAttrs) -> u64 {
    (pa & OUTPUT_ADDR_MASK) | leaf_bits(a) | TYPE_TABLE_OR_PAGE
}

/// Whether a raw word has its valid bit set.
pub open spec fn raw_valid(e: u64) -> bool {
    e & VALID_BIT != 0
}

/// Whether a raw word is a table descriptor (or, at L3, a page).
pub open spec fn raw_table_or_page(e: u64) -> bool {
    e & TYPE_TABLE_OR_PAGE == TYPE_TABLE_OR_PAGE
}

/// Whether a raw word is a valid block entry.
pub open spec fn raw_block(e: u64) -> bool {
    raw_valid(e) && e & TABLE_BIT == 0
}

/// An address the output field carries unchanged: 4 KiB aligned and below
/// 2^48.
pub open spec fn encodable(pa: u64) -> bool {
    pa & !OUTPUT_ADDR_MASK == 0
}

/// One page-table entry: a 64-bit word with the hardware-defined layout.
#[derive(Debug, Copy, Clone, PartialEq, Eq, Structural)]
pub struct Entry(u64);

impl View for Entry {
    type V = u64;

    closed spec fn view(&self) -> u64 {
        self.0
    }
}

impl Entry {
    /// An invalid (zeroed) entry; the MMU follows nothing here.
    pub fn invalid() -> (r: Self)
        ensures
            r@ == TYPE_INVALID,
    {
        Self(TYPE_INVALID)
    }

    /// A table descriptor pointing at the next-level table. The address is
    /// masked to its output bits before being installed.
    pub fn table(next: PhysAddr) -> (r: Self)
        ensures
            r@ == table_raw(next@),
    {
        Self((next.as_u64() & OUTPUT_ADDR_MASK) | TYPE_TABLE_OR_PAGE)
    }

    /// A block entry mapping `pa` at `level` with `attrs`. Blocks exist
    /// only at L1 (1 GiB) and L2 (2 MiB).
    pub fn block(pa: PhysAddr, level: Level, attrs: LeafAttrs) -> (r: Self)
        requires
            level == Level::L1 || level == Level::L2,
        ensures
            r@ == block_raw(pa@, attrs),
    {
        Self((pa.as_u64() & OUTPUT_ADDR_MASK) | attrs.bits() | TYPE_BLOCK)
    }

    /// A 4 KiB page entry at L3 mapping `pa` with `attrs`.
    pub fn page(pa: PhysAddr, attrs: LeafAttrs) -> (r: Self)
        ensures
            r@ == page_raw(pa@, attrs),
    {
        Self((pa.as_u64() & OUTPUT_ADDR_MASK) | attrs.bits() | TYPE_TABLE_OR_PAGE)
    }

    /// An entry holding exactly the given word.
    pub fn from_raw(raw: u64) -> (r: Self)
        ensures
            r@ == raw,
    {
        Self(raw)
    }

    /// Raw 64-bit value.
    pub fn raw(self) -> (r: u64)
        ensures
            r == self@,
    {
        self.0
    }

    /// Bit 0 — entry is valid, the MMU will follow it.
    pub fn is_valid(self) -> (r: bool)
        ensures
            r == raw_valid(self@),
    {
        self.0 & VALID_BIT != 0
    }

    /// `0b11` — table descriptor at L0..L2, or 4 KiB page at L3.
    pub fn is_table_or_page(self) -> (r: bool)
        ensures
            r == raw_table_or_page(self@),
    {
        self.0 & TYPE_TABLE_OR_PAGE == TYPE_TABLE_OR_PAGE
    }

    /// `0b01` — valid block entry.
    pub fn is_block(self) -> (r: bool)
        ensures
            r == raw_block(self@),
    {
        self.is_valid() && (self.0 & TABLE_BIT == 0)
    }

    /// Physical address held in the output-address field.
    pub fn output_addr(self) -> (r: PhysAddr)
        ensures
            r@ == self@ & OUTPUT_ADDR_MASK,
    {
        PhysAddr::from_u64(self.0 & OUTPUT_ADDR_MASK)
    }
}

/// The leaf attribute bits never reach the type bits' neighbour `TABLE_BIT`
/// nor the output-address field.
proof fn lemma_leaf_bits_shape(a: LeafAttrs)
    ensures
        leaf_bits(a) & OUTPUT_ADDR_MASK == 0,
        leaf_bits(a) & TYPE_TABLE_OR_PAGE == 0,
{
    let m = attr_index(a.memory);
    let ac = access_bits(a.access);
    let sh = shareability_bits(a.share);
    let x = executable_bits(a.execute);
    assert(m < 4);
    assert(ac == 0 || ac == 0x40 || ac == 0x80 || ac == 0xC0);
    assert(sh == 0 || sh == 2 || sh == 3);
    assert(x == 0x0040_0000_0000_0000 || x == 0x0020_0000_0000_0000 || x == 0x0060_0000_0000_0000)
        by (bit_vector)
        requires
            x == 0x0040_0000_0000_0000u64 || x == 0x0020_0000_0000_0000u64 || x
                == 0x0020_0000_0000_0000u64 | 0x0040_0000_0000_0000u64,
    ;
    assert(((m << 2u64) | ac | (sh << 8u64) | x | 0x400u64) & 0x0000_FFFF_FFFF_F000u64 == 0
        && ((m << 2u64) | ac | (sh << 8u64) | x | 0x400u64) & 3u64 == 0) by (bit_vector)
        requires
            m < 4,
            ac == 0 || ac == 0x40 || ac == 0x80 || ac == 0xC0,
            sh == 0 || sh == 2 || sh == 3,
            x == 0x0040_0000_0000_0000 || x == 0x0020_0000_0000_0000 || x == 0x0060_0000_0000_0000,
    ;
}

/// Encoding round trips: each constructor's output field gives back an
/// encodable address, and the type predicates read back the kind that was
/// built — a block is never a table/page and vice versa.
pub proof fn lemma_entry_round_trip(pa: u64, a: LeafAttrs)
    ensures
        encodable(pa) ==> table_raw(pa) & OUTPUT_ADDR_MASK == pa,
        encodable(pa) ==> page_raw(pa, a) & OUTPUT_ADDR_MASK == pa,
        encodable(pa) ==> block_raw(pa, a) & OUTPUT_ADDR_MASK == pa,
        raw_valid(table_raw(pa)),
        raw_table_or_page(table_raw(pa)),
        !raw_block(table_raw(pa)),
        raw_valid(page_raw(pa, a)),
        raw_table_or_page(page_raw(pa, a)),
        !raw_block(page_raw(pa, a)),
        raw_valid(block_raw(pa, a)),
        raw_block(block_raw(pa, a)),
        !raw_table_or_page(block_raw(pa, a)),
{
    lemma_leaf_bits_shape(a);
    let l = leaf_bits(a);
    assert({
        &&& pa & !0x0000_FFFF_FFFF_F000u64 == 0 ==> ((pa & 0x0000_FFFF_FFFF_F000u64) | 3u64)
            & 0x0000_FFFF_FFFF_F000u64 == pa
        &&& ((pa & 0x0000_FFFF_FFFF_F000u64) | 3u64) & 1u64 != 0
        &&& ((pa & 0x0000_FFFF_FFFF_F000u64) | 3u64) & 3u64 == 3u64
        &&& ((pa & 0x0000_FFFF_FFFF_F000u64) | 3u64) & 2u64 != 0
        &&& pa & !0x0000_FFFF_FFFF_F000u64 == 0 ==> ((pa & 0x0000_FFFF_FFFF_F000u64) | l | 3u64)
            & 0x0000_FFFF_FFFF_F000u64 == pa
        &&& ((pa & 0x0000_FFFF_FFFF_F000u64) | l | 3u64) & 1u64 != 0
        &&& ((pa & 0x0000_FFFF_FFFF_F000u64) | l | 3u64) & 3u64 == 3u64
        &&& ((pa & 0x0000_FFFF_FFFF_F000u64) | l | 3u64) & 2u64 != 0
        &&& pa & !0x0000_FFFF_FFFF_F000u64 == 0 ==> ((pa & 0x0000_FFFF_FFFF_F000u64) | l | 1u64)
            & 0x0000_FFFF_FFFF_F000u64 == pa
        &&& ((pa & 0x0000_FFFF_FFFF_F000u64) | l | 1u64) & 1u64 != 0
        &&& ((pa & 0x0000_FFFF_FFFF_F000u64) | l | 1u64) & 2u64 == 0
        &&& ((pa & 0x0000_FFFF_FFFF_F000u64) | l | 1u64) & 3u64 != 3u64
    }) by (bit_vector)
        requires
            l & 0x0000_FFFF_FFFF_F000u64 == 0,
            l & 3u64 == 0,
    ;
}

/// A 4 KiB-aligned address below 2^48 is carried unchanged by the output
/// field.
pub proof fn lemma_aligned_encodable(pa: u64)
    requires
        pa % 4096 == 0,
        pa < 0x1_0000_0000_0000,
    ensures
        encodable(pa),
{
    assert(pa & !0x0000_FFFF_FFFF_F000u64 == 0) by (bit_vector)
        requires
            pa % 4096 == 0,
            pa < 0x1_0000_0000_0000u64,
    ;
}

/// The invalid entry is inert: no valid bit, no address, no kind.
pub proof fn lemma_invalid_entry_inert()
    ensures
        !raw_valid(TYPE_INVALID),
        TYPE_INVALID & OUTPUT_ADDR_MASK == 0,
        !raw_block(TYPE_INVALID),
        !raw_table_or_page(TYPE_INVALID),
{
    assert(0u64 & 1u64 == 0 && 0u64 & 0x0000_FFFF_FFFF_F000u64 == 0 && 0u64 & 3u64 == 0)
        by (bit_vector);
}

/// Entries in one translation table.
pub const TABLE_ENTRIES: usize = 512;

/// One 4 KiB translation table: 512 entries.
pub struct PageTable {
    pub entries: Vec<Entry>,
}

impl PageTable {
    /// A table of invalid entries, as a fresh zeroed frame holds.
    pub fn zeroed() -> (r: Self)
        ensures
            r.entries@.len() == TABLE_ENTRIES,
            forall|i: int| 0 <= i < TABLE_ENTRIES ==> (#[trigger] r.entries@[i])@ == TYPE_INVALID,
    {
        let mut entries: Vec<Entry> = Vec::new();
        let mut i: usize = 0;
        while i < TABLE_ENTRIES
            invariant
                i <= TABLE_ENTRIES,
                entries@.len() == i,
                forall|k: int| 0 <= k < i ==> (#[trigger] entries@[k])@ == TYPE_INVALID,
            decreases TABLE_ENTRIES - i,
        {
            entries.push(Entry::invalid());
            i = i + 1;
        }
        Self { entries }
    }

    /// The entry that `va` selects at `level`.
    pub fn entry_at(&self, va: VirtAddr, level: Level) -> (r: Entry)
        requires
            self.entries@.len() == TABLE_ENTRIES,
        ensures
            va_index(va@, level_shift(level)) < TABLE_ENTRIES,
            r == self.entries@[va_index(va@, level_shift(level)) as int],
    {
        self.entries[level.index_in(va)]
    }

    /// Mutable handle to the entry that `va` selects at `level`.
    pub fn entry_at_mut(&mut self, va: VirtAddr, level: Level) -> (r: &mut Entry)
        requires
            old(self).entries@.len() == TABLE_ENTRIES,
        ensures
            va_index(va@, level_shift(level)) < TABLE_ENTRIES,
            *r == old(self).entries@[va_index(va@, level_shift(level)) as int],
            final(self).entries@.len() == TABLE_ENTRIES,
            final(self).entries@ == old(self).entries@.update(
                va_index(va@, level_shift(level)) as int,
                *final(r),
            ),
    {
        let i = level.index_in(va);
        &mut self.entries[i]
    }
}

/// Frames in the boot-time pool that hosts translation tables.
pub const POOL_PAGES: usize = 32;

/// Entries in the whole pool (`POOL_PAGES` tables of `TABLE_ENTRIES`).
pub const POOL_SLOTS: usize = 16384;

/// The boot-time pool of zeroed frames that hosts translation tables,
/// handed out bump-style and never freed. Table `t` lives at physical
/// address `base + t * 4096`; `used` tables have been handed out.
pub struct PagePool {
    base: u64,
    slots: Vec<Entry>,
    used: usize,
    /// The depth (0 for a root) at which each handed-out table sits.
    levels: Ghost<Seq<nat>>,
    /// The slot `(table, index)` whose descriptor owns each handed-out
    /// table; `(-1, -1)` for a root.
    parents: Ghost<Seq<(int, int)>>,
}

/// The pool's abstract state: the raw entries of every frame, the number
/// of frames handed out and the depth of each.
pub struct PoolView {
    pub base: u64,
    pub used: nat,
    pub slots: Seq<u64>,
    pub levels: Seq<nat>,
    pub parents: Seq<(int, int)>,
}

impl View for PagePool {
    type V = PoolView;

    closed spec fn view(&self) -> PoolView {
        PoolView {
            base: self.base,
            used: self.used as nat,
            slots: self.slots@.map_values(|e: Entry| e@),
            levels: self.levels@,
            parents: self.parents@,
        }
    }
}

/// Entry `i` of pool table `t`.
pub open spec fn slot(p: PoolView, t: int, i: int) -> u64 {
    p.slots[t * 512 + i]
}

/// Bit position of the VA index consumed at depth `d`.
pub open spec fn depth_shift(d: nat) -> u64 {
    (39 - 9 * d) as u64
}

/// The pool table a table descriptor points at.
pub open spec fn entry_table(p: PoolView, e: u64) -> int {
    ((e & OUTPUT_ADDR_MASK) - p.base) / 4096
}

/// A table descriptor in slot `i` of table `t` points at a handed-out
/// table one level deeper, whose owning slot it is.
pub open spec fn table_link(p: PoolView, t: int, i: int, e: u64) -> bool {
    &&& p.base <= e & OUTPUT_ADDR_MASK
    &&& 0 <= entry_table(p, e) < p.used
    &&& p.levels[entry_table(p, e)] == p.levels[t] + 1
    &&& p.parents[entry_table(p, e)] == (t, i)
}

/// Pool well-formedness: the frames fit the output-address field, frames
/// not yet handed out are zero, and every table descriptor above the last
/// level links to a handed-out table one level deeper.
pub open spec fn pool_wf(p: PoolView) -> bool {
    &&& p.base % 4096 == 0
    &&& p.base + POOL_PAGES * 4096 <= 0x1_0000_0000_0000
    &&& p.slots.len() == POOL_SLOTS
    &&& p.used <= POOL_PAGES
    &&& p.levels.len() == p.used
    &&& p.parents.len() == p.used
    &&& forall|t: int| 0 <= t < p.used ==> #[trigger] p.levels[t] <= 3
    &&& forall|k: int| p.used * 512 <= k < POOL_SLOTS ==> #[trigger] p.slots[k] == 0
    &&& forall|t: int, i: int|
        0 <= t < p.used && 0 <= i < 512 && p.levels[t] < 3 && raw_table_or_page(
            #[trigger] slot(p, t, i),
        ) ==> table_link(p, t, i, slot(p, t, i))
}

/// The pool table a walk of `va` from `root` reaches at depth `d`, if the
/// descriptors above it are tables.
pub open spec fn table_at(p: PoolView, root: int, va: u64, d: nat) -> Option<int>
    decreases d,
{
    if d == 0 {
        if 0 <= root < p.used {
            Some(root)
        } else {
            None
        }
    } else {
        match table_at(p, root, va, (d - 1) as nat) {
            Some(t) => {
                let e = slot(p, t, va_index(va, depth_shift((d - 1) as nat)) as int);
                if raw_table_or_page(e) && 0 <= entry_table(p, e) < p.used {
                    Some(entry_table(p, e))
                } else {
                    None
                }
            },
            None => None,
        }
    }
}

/// The entry a walk of `va` from `root` reads at depth `d`.
pub open spec fn walk(p: PoolView, root: int, va: u64, d: nat) -> Option<u64> {
    match table_at(p, root, va, d) {
        Some(t) => Some(slot(p, t, va_index(va, depth_shift(d)) as int)),
        None => None,
    }
}

/// How many fresh tables a walk of `va` from table `t` at depth `d` down to
/// depth `target` needs; `None` when a block entry stands in the way.
pub open spec fn tables_needed(p: PoolView, t: int, va: u64, d: nat, target: nat) -> Option<nat>
    decreases target - d,
{
    if d >= target {
        Some(0)
    } else {
        let e = slot(p, t, va_index(va, depth_shift(d)) as int);
        if !raw_valid(e) {
            Some((target - d) as nat)
        } else if raw_table_or_page(e) {
            tables_needed(p, entry_table(p, e), va, d + 1, target)
        } else {
            None
        }
    }
}

/// The pool table at physical address `pa`.
pub open spec fn pa_table(p: PoolView, pa: u64) -> int {
    (pa - p.base) / 4096
}

/// `pa` is a handed-out root table of the pool.
pub open spec fn is_root(p: PoolView, pa: u64) -> bool {
    &&& p.base <= pa
    &&& (pa - p.base) % 4096 == 0
    &&& 0 <= pa_table(p, pa) < p.used
    &&& p.levels[pa_table(p, pa)] == 0
}

/// The leaf entry installed for `pa` at `target`: a page at L3, a block
/// above.
pub open spec fn leaf_raw(pa: u64, target: Level, a: LeafAttrs) -> u64 {
    if target == Level::L3 {
        page_raw(pa, a)
    } else {
        block_raw(pa, a)
    }
}

/// What `map` of `va` from `root` may change in a table handed out before
/// it: only a table on `va`'s walk, at the depth `L` it sits at, only the
/// entry `va` selects there, only for `L <= target`, and above `target`
/// only an invalid entry.
pub open spec fn map_frame(old: PoolView, new: PoolView, root: int, va: u64, target: nat) -> bool {
    &&& new.base == old.base
    &&& old.used <= new.used
    &&& new.levels.subrange(0, old.used as int) == old.levels
    &&& new.parents.subrange(0, old.used as int) == old.parents
    &&& forall|t: int, i: int|
        0 <= t < old.used && 0 <= i < 512 && #[trigger] slot(new, t, i) != slot(old, t, i) ==> {
            &&& i == va_index(va, depth_shift(old.levels[t]))
            &&& old.levels[t] <= target
            &&& (old.levels[t] < target ==> !raw_valid(slot(old, t, i)))
            &&& table_at(new, root, va, old.levels[t]) == Some(t)
        }
}

/// A walk reaches, at depth `d`, a table sitting at depth `d`.
pub proof fn lemma_table_at_level(p: PoolView, root: int, va: u64, d: nat)
    requires
        pool_wf(p),
        0 <= root < p.used,
        p.levels[root] == 0,
        d <= 3,
    ensures
        table_at(p, root, va, d) matches Some(t) ==> 0 <= t < p.used && p.levels[t] == d,
    decreases d,
{
    if d > 0 {
        lemma_table_at_level(p, root, va, (d - 1) as nat);
        if let Some(t) = table_at(p, root, va, (d - 1) as nat) {
            let i = va_index(va, depth_shift((d - 1) as nat)) as int;
            lemma_va_index_bound(va, depth_shift((d - 1) as nat));
            let e = slot(p, t, i);
            if raw_table_or_page(e) && 0 <= entry_table(p, e) < p.used {
                assert(table_link(p, t, i, e));
            }
        }
    }
}

/// The VA index at any depth is a table slot.
pub proof fn lemma_va_index_bound(va: u64, s: u64)
    ensures
        va_index(va, s) < 512,
{
    assert((va >> s) & 0x1FF < 512) by (bit_vector);
}

/// A walk down to depth `d` reads only tables above depth `d`, so it is
/// unaffected by changes confined to tables at depth `d` or below.
pub proof fn lemma_table_at_stable(p: PoolView, q: PoolView, root: int, va: u64, d: nat)
    requires
        pool_wf(p),
        0 <= root < p.used,
        p.levels[root] == 0,
        d <= 3,
        p.base == q.base,
        p.used <= q.used,
        table_at(p, root, va, d) is Some,
        forall|t: int, i: int|
            0 <= t < p.used && 0 <= i < 512 && p.levels[t] < d ==> #[trigger] slot(q, t, i) == slot(
                p,
                t,
                i,
            ),
    ensures
        table_at(q, root, va, d) == table_at(p, root, va, d),
    decreases d,
{
    if d > 0 {
        let d1 = (d - 1) as nat;
        lemma_table_at_stable(p, q, root, va, d1);
        lemma_table_at_level(p, root, va, d1);
        let t = table_at(p, root, va, d1)->0;
        let i = va_index(va, depth_shift(d1)) as int;
        lemma_va_index_bound(va, depth_shift(d1));
        assert(slot(q, t, i) == slot(p, t, i));
    }
}

impl PagePool {
    /// A pool of `POOL_PAGES` zeroed frames starting at `base`, none handed
    /// out.
    pub fn new(base: PhysAddr) -> (r: Self)
        requires
            base@ % 4096 == 0,
            base@ + POOL_PAGES * 4096 <= 0x1_0000_0000_0000,
        ensures
            pool_wf(r@),
            r@.base == base@,
            r@.used == 0,
    {
        let mut slots: Vec<Entry> = Vec::new();
        let mut k: usize = 0;
        while k < POOL_SLOTS
            invariant
                k <= POOL_SLOTS,
                slots@.len() == k,
                forall|j: int| 0 <= j < k ==> (#[trigger] slots@[j])@ == 0,
            decreases POOL_SLOTS - k,
        {
            slots.push(Entry::invalid());
            k = k + 1;
        }
        let r = Self {
            base: base.as_u64(),
            slots,
            used: 0,
            levels: Ghost(Seq::empty()),
            parents: Ghost(Seq::empty()),
        };
        r
    }

    /// Physical address of the pool's first frame.
    pub fn base(&self) -> (r: PhysAddr)
        ensures
            r@ == self@.base,
    {
        PhysAddr::from_u64(self.base)
    }

    /// Number of frames handed out so far.
    pub fn used(&self) -> (r: usize)
        ensures
            r == self@.used,
    {
        self.used
    }

    /// Hand out the next zeroed frame as a table at depth `level`.
    fn alloc_table(&mut self, Ghost(level): Ghost<nat>, Ghost(parent): Ghost<(int, int)>) -> (r:
        PhysAddr)
        requires
            pool_wf(old(self)@),
            old(self)@.used < POOL_PAGES,
            level <= 3,
        ensures
            pool_wf(final(self)@),
            final(self)@.base == old(self)@.base,
            final(self)@.slots == old(self)@.slots,
            final(self)@.used == old(self)@.used + 1,
            final(self)@.levels == old(self)@.levels.push(level),
            final(self)@.parents == old(self)@.parents.push(parent),
            r@ == old(self)@.base + old(self)@.used * 4096,
            r@ % 4096 == 0,
            r@ < 0x1_0000_0000_0000,
    {
        let idx = self.used;
        self.used = idx + 1;
        self.levels = Ghost(self.levels@.push(level));
        self.parents = Ghost(self.parents@.push(parent));
        let pa = self.base + (idx as u64) * 4096;
        proof {
            let p = self@;
            assert forall|t: int| 0 <= t < p.used implies #[trigger] p.levels[t] <= 3 by {
                if t < idx {
                    assert(p.levels[t] == old(self)@.levels[t]);
                }
            }
            assert forall|k: int| p.used * 512 <= k < POOL_SLOTS implies #[trigger] p.slots[k]
                == 0 by {
                assert(old(self)@.slots[k] == 0);
            }
            assert forall|t: int, i: int|
                0 <= t < p.used && 0 <= i < 512 && p.levels[t] < 3 && raw_table_or_page(
                    #[trigger] slot(p, t, i),
                ) implies table_link(p, t, i, slot(p, t, i)) by {
                if t == idx {
                    assert(old(self)@.slots[t * 512 + i] == 0);
                    lemma_invalid_entry_inert();
                } else {
                    assert(slot(p, t, i) == slot(old(self)@, t, i));
                    assert(table_link(old(self)@, t, i, slot(p, t, i)));
                    assert(p.parents[entry_table(p, slot(p, t, i))] == old(self)@.parents[entry_table(
                        p,
                        slot(p, t, i),
                    )]);
                }
            }
            assert((idx * 4096) % 4096 == 0) by (nonlinear_arith);
        }
        PhysAddr::from_u64(pa)
    }

    /// Hand out the next zeroed frame, to serve as the root of a new
    /// translation regime. The pool never takes frames back.
    pub fn alloc_page(&mut self) -> (r: PhysAddr)
        requires
            pool_wf(old(self)@),
            old(self)@.used < POOL_PAGES,
        ensures
            pool_wf(final(self)@),
            final(self)@.base == old(self)@.base,
            final(self)@.slots == old(self)@.slots,
            final(self)@.used == old(self)@.used + 1,
            final(self)@.levels == old(self)@.levels.push(0),
            final(self)@.parents == old(self)@.parents.push((-1int, -1int)),
            r@ == old(self)@.base + old(self)@.used * 4096,
            is_root(final(self)@, r@),
    {
        let r = self.alloc_table(Ghost(0), Ghost((-1int, -1int)));
        proof {
            let p = self@;
            let u = old(self)@.used;
            assert(r@ - p.base == u * 4096);
            assert((u * 4096) % 4096 == 0) by (nonlinear_arith);
            assert((u * 4096) / 4096 == u) by (nonlinear_arith);
        }
        r
    }

    /// Entry `index` of the table at `table`.
    pub fn entry(&self, table: PhysAddr, index: usize) -> (r: Entry)
        requires
            pool_wf(self@),
            self@.base <= table@,
            pa_table(self@, table@) < self@.used,
            index < TABLE_ENTRIES,
        ensures
            r@ == slot(self@, pa_table(self@, table@), index as int),
    {
        let t = ((table.as_u64() - self.base) / 4096) as usize;
        self.slots[t * 512 + index]
    }

    /// Set entry `index` of pool table `t`.
    fn set_slot(&mut self, t: usize, index: usize, e: Entry)
        requires
            old(self)@.slots.len() == POOL_SLOTS,
            t < POOL_PAGES,
            index < TABLE_ENTRIES,
        ensures
            final(self)@ == (PoolView {
                slots: old(self)@.slots.update(t * 512 + index, e@),
                ..old(self)@
            }),
    {
        self.slots.set(t * 512 + index, e);
        proof {
            assert(self@.slots =~= old(self)@.slots.update(t * 512 + index, e@));
        }
    }
}

/// Each level's index shift is the depth shift of its depth.
pub proof fn lemma_level_shift_depth(l: Level)
    ensures
        level_shift(l) == depth_shift(level_depth(l)),
        level_depth(l) <= 3,
{
}

impl PagePool {
    /// Install a leaf mapping `va -> pa` at `target` in the translation
    /// regime rooted at `root`, taking fresh tables from the pool for every
    /// invalid entry on the way down. `target` is L1 or L2 (block entry,
    /// 1 GiB / 2 MiB) or L3 (page entry, 4 KiB); the walk must not meet an
    /// existing block above `target`.
    #[verifier::rlimit(60)]
    #[verifier::spinoff_prover]
    pub fn map(&mut self, root: PhysAddr, va: VirtAddr, pa: PhysAddr, target: Level, attrs: LeafAttrs)
        requires
            pool_wf(old(self)@),
            is_root(old(self)@, root@),
            target != Level::L0,
            tables_needed(old(self)@, pa_table(old(self)@, root@), va@, 0, level_depth(target)) matches Some(
                n,
            ) && old(self)@.used + n <= POOL_PAGES,
        ensures
            pool_wf(final(self)@),
            is_root(final(self)@, root@),
            pa_table(final(self)@, root@) == pa_table(old(self)@, root@),
            map_frame(old(self)@, final(self)@, pa_table(old(self)@, root@), va@, level_depth(target)),
            walk(final(self)@, pa_table(old(self)@, root@), va@, level_depth(target)) == Some(
                leaf_raw(pa@, target, attrs),
            ),
            final(self)@.used == old(self)@.used + tables_needed(
                old(self)@,
                pa_table(old(self)@, root@),
                va@,
                0,
                level_depth(target),
            )->0,
            // fresh tables hold nothing but the entries on `va`'s path
            forall|t: int, i: int|
                old(self)@.used <= t < final(self)@.used && 0 <= i < 512 && #[trigger] slot(
                    final(self)@,
                    t,
                    i,
                ) != 0 ==> i == va_index(va@, depth_shift(final(self)@.levels[t])),
            // where the path was missing, it now runs through fresh tables
            forall|d: nat|
                d <= level_depth(target) && #[trigger] table_at(
                    old(self)@,
                    pa_table(old(self)@, root@),
                    va@,
                    d,
                ) is None ==> reaches_fresh(
                    final(self)@,
                    pa_table(old(self)@, root@),
                    va@,
                    d,
                    old(self)@.used,
                ),
    {
        let leaf = if target == Level::L3 {
            Entry::page(pa, attrs)
        } else {
            Entry::block(pa, target, attrs)
        };
        let ghost p0 = self@;
        let ghost root_t = pa_table(p0, root@);
        let ghost tgt = level_depth(target);
        let ghost n0 = tables_needed(p0, root_t, va@, 0, tgt)->0;
        proof {
            lemma_level_shift_depth(target);
            lemma_entry_round_trip(pa@, attrs);
        }
        let mut cur: usize = ((root.as_u64() - self.base) / 4096) as usize;
        let mut level = Level::L0;
        while level != target
            invariant
                pool_wf(self@),
                pool_wf(p0),
                self@.base == p0.base,
                1 <= tgt <= 3,
                tgt == level_depth(target),
                level_depth(level) <= tgt,
                leaf@ == leaf_raw(pa@, target, attrs),
                is_root(p0, root@),
                root_t == pa_table(p0, root@),
                is_root(self@, root@),
                pa_table(self@, root@) == root_t,
                cur < self@.used,
                self@.levels[cur as int] == level_depth(level),
                table_at(self@, root_t, va@, level_depth(level)) == Some(cur as int),
                tables_needed(self@, cur as int, va@, level_depth(level), tgt) is Some,
                self@.used + tables_needed(self@, cur as int, va@, level_depth(level), tgt)->0
                    == p0.used + n0,
                p0.used + n0 <= POOL_PAGES,
                p0.used <= self@.used,
                self@.levels.subrange(0, p0.used as int) == p0.levels,
                forall|t: int, i: int|
                    0 <= t < p0.used && 0 <= i < 512 && #[trigger] slot(self@, t, i) != slot(
                        p0,
                        t,
                        i,
                    ) ==> {
                        &&& i == va_index(va@, depth_shift(p0.levels[t]))
                        &&& p0.levels[t] < level_depth(level)
                        &&& !raw_valid(slot(p0, t, i))
                        &&& table_at(self@, root_t, va@, p0.levels[t]) == Some(t)
                    },
                self@.parents.subrange(0, p0.used as int) == p0.parents,
                forall|t: int, i: int|
                    p0.used <= t < self@.used && 0 <= i < 512 && #[trigger] slot(self@, t, i) != 0
                        ==> i == va_index(va@, depth_shift(self@.levels[t])) && self@.levels[t]
                        < level_depth(level),
                forall|d2: nat|
                    d2 <= level_depth(level) && #[trigger] table_at(p0, root_t, va@, d2) is None
                        ==> reaches_fresh(self@, root_t, va@, d2, p0.used),
                cur < p0.used ==> table_at(p0, root_t, va@, level_depth(level)) == Some(cur as int),
            decreases tgt - level_depth(level),
        {
            let ghost d = level_depth(level);
            let ghost p1 = self@;
            proof {
                lemma_level_shift_depth(level);
                assert(d < tgt) by {
                    if d == tgt {
                        assert(level == target);
                    }
                }
            }
            let idx = level.index_in(va);
            let e = self.slots[cur * 512 + idx];
            assert(e@ == slot(p1, cur as int, idx as int));
            let next: usize;
            if !e.is_valid() {
                let npa = self.alloc_table(Ghost(d + 1), Ghost((cur as int, idx as int)));
                let ghost p2 = self@;
                let ghost u = p1.used;
                next = self.used - 1;
                let te = Entry::table(npa);
                self.set_slot(cur, idx, te);
                proof {
                    let p3 = self@;
                    lemma_aligned_encodable(npa@);
                    lemma_entry_round_trip(npa@, attrs);
                    assert(npa@ - p3.base == u * 4096);
                    assert((u * 4096) / 4096 == u) by (nonlinear_arith);
                    assert(entry_table(p3, te@) == u);
                    assert(slot(p3, cur as int, idx as int) == te@);
                    assert forall|t: int, i: int| 0 <= t < p1.used && 0 <= i < 512 && !(t == cur
                        && i == idx) implies #[trigger] slot(p3, t, i) == slot(p1, t, i) by {
                        assert(t * 512 + i != cur * 512 + idx);
                    }
                    assert forall|i: int| 0 <= i < 512 implies #[trigger] slot(p3, u as int, i)
                        == 0 by {
                        assert(p1.slots[u * 512 + i] == 0);
                        assert(u * 512 + i != cur * 512 + idx);
                    }
                    lemma_invalid_entry_inert();
                    // well-formedness of the updated pool
                    assert forall|t: int| 0 <= t < p3.used implies #[trigger] p3.levels[t] <= 3 by {
                        if t < u {
                            assert(p3.levels[t] == p1.levels[t]);
                        }
                    }
                    assert forall|k: int| p3.used * 512 <= k < POOL_SLOTS implies #[trigger] p3.slots[k]
                        == 0 by {
                        assert(p1.slots[k] == 0);
                    }
                    assert forall|t: int, i: int|
                        0 <= t < p3.used && 0 <= i < 512 && p3.levels[t] < 3 && raw_table_or_page(
                            #[trigger] slot(p3, t, i),
                        ) implies table_link(p3, t, i, slot(p3, t, i)) by {
                        if t == cur && i == idx {
                        } else if t == u {
                        } else {
                            assert(slot(p3, t, i) == slot(p1, t, i));
                            assert(table_link(p1, t, i, slot(p1, t, i)));
                            assert(p3.levels[t] == p1.levels[t]);
                        }
                    }
                    assert(pool_wf(p3));
                    // the walk now reaches the fresh table
                    lemma_table_at_stable(p1, p3, root_t, va@, d);
                    assert(table_at(p3, root_t, va@, d + 1) == Some(u as int));
                    // what remains to be built below it
                    if d + 1 < tgt {
                        let j = va_index(va@, depth_shift(d + 1));
                        lemma_va_index_bound(va@, depth_shift(d + 1));
                        assert(slot(p3, u as int, j as int) == 0);
                        assert(tables_needed(p3, u as int, va@, d + 1, tgt) == Some(
                            (tgt - d - 1) as nat,
                        ));
                    }
                    assert(tables_needed(p1, cur as int, va@, d, tgt) == Some((tgt - d) as nat));
                    // only invalid entries at depth d changed
                    assert forall|t: int, i: int|
                        0 <= t < p0.used && 0 <= i < 512 && #[trigger] slot(p3, t, i) != slot(
                            p0,
                            t,
                            i,
                        ) implies {
                        &&& i == va_index(va@, depth_shift(p0.levels[t]))
                        &&& p0.levels[t] < d + 1
                        &&& !raw_valid(slot(p0, t, i))
                        &&& table_at(p3, root_t, va@, p0.levels[t]) == Some(t)
                    } by {
                        assert(p0.levels[t] == p1.levels[t]) by {
                            assert(p1.levels.subrange(0, p0.used as int)[t] == p1.levels[t]);
                        }
                        if t == cur && i == idx {
                            if slot(p1, t, i) != slot(p0, t, i) {
                                assert(p0.levels[t] < d);
                            }
                        } else {
                            assert(slot(p3, t, i) == slot(p1, t, i));
                            lemma_table_at_stable(p1, p3, root_t, va@, p0.levels[t]);
                        }
                    }
                    assert(self@.parents.subrange(0, p0.used as int) =~= p0.parents) by {
                        assert(p1.parents.subrange(0, p0.used as int) == p0.parents);
                    }
                    assert(self@.levels.subrange(0, p0.used as int) =~= p0.levels) by {
                        assert(p1.levels.subrange(0, p0.used as int) == p0.levels);
                    }
                    assert(self@.levels[u as int] == d + 1);
                    // fresh tables: only path entries set
                    assert forall|t: int, i: int|
                        p0.used <= t < p3.used && 0 <= i < 512 && #[trigger] slot(p3, t, i) != 0
                            implies i == va_index(va@, depth_shift(p3.levels[t])) && p3.levels[t]
                        < d + 1 by {
                        if t == u {
                        } else if t == cur && i == idx {
                            assert(p3.levels[t] == d);
                        } else {
                            assert(slot(p3, t, i) == slot(p1, t, i));
                            assert(p3.levels[t] == p1.levels[t]);
                        }
                    }
                    assert forall|d2: nat|
                        d2 <= d + 1 && #[trigger] table_at(p0, root_t, va@, d2) is None implies reaches_fresh(p3, root_t, va@, d2, p0.used) by {
                        if d2 <= d {
                            lemma_table_at_prefix(p1, root_t, va@, d, d2);
                            lemma_table_at_stable(p1, p3, root_t, va@, d2);
                        }
                    }
                }
            } else {
                proof {
                    if cur >= p0.used {
                        assert(slot(p1, cur as int, idx as int) == 0);
                        lemma_invalid_entry_inert();
                    }
                    assert(raw_table_or_page(e@));
                    assert(table_link(p1, cur as int, idx as int, e@));
                    assert(slot(p1, cur as int, idx as int) == slot(p0, cur as int, idx as int));
                    assert(table_link(p0, cur as int, idx as int, e@)) by {
                        lemma_table_at_level(p0, root_t, va@, d);
                    }
                }
                next = ((e.output_addr().as_u64() - self.base) / 4096) as usize;
                proof {
                    assert(next == entry_table(p1, e@));
                    assert(table_at(p1, root_t, va@, d + 1) == Some(next as int));
                    assert(table_at(p0, root_t, va@, d + 1) == Some(next as int));
                }
            }
            cur = next;
            level = level.next_level();
        }
        let ghost p5 = self@;
        proof {
            lemma_level_shift_depth(level);
            assert(level_depth(level) == tgt) by {
                assert(level == target);
            }
        }
        let idx = target.index_in(va);
        self.set_slot(cur, idx, leaf);
        proof {
            let p6 = self@;
            assert forall|t: int, i: int| 0 <= t < p5.used && 0 <= i < 512 && !(t == cur && i
                == idx) implies #[trigger] slot(p6, t, i) == slot(p5, t, i) by {
                assert(t * 512 + i != cur * 512 + idx);
            }
            assert(slot(p6, cur as int, idx as int) == leaf@);
            assert forall|k: int| p6.used * 512 <= k < POOL_SLOTS implies #[trigger] p6.slots[k]
                == 0 by {
                assert(p5.slots[k] == 0);
            }
            assert forall|t: int, i: int|
                0 <= t < p6.used && 0 <= i < 512 && p6.levels[t] < 3 && raw_table_or_page(
                    #[trigger] slot(p6, t, i),
                ) implies table_link(p6, t, i, slot(p6, t, i)) by {
                if t == cur && i == idx {
                    assert(tgt < 3);
                    assert(target != Level::L3);
                } else {
                    assert(slot(p6, t, i) == slot(p5, t, i));
                    assert(table_link(p5, t, i, slot(p5, t, i)));
                }
            }
            assert(pool_wf(p6));
            lemma_table_at_stable(p5, p6, root_t, va@, tgt);
            assert forall|t: int, i: int|
                0 <= t < p0.used && 0 <= i < 512 && #[trigger] slot(p6, t, i) != slot(
                    p0,
                    t,
                    i,
                ) implies {
                &&& i == va_index(va@, depth_shift(p0.levels[t]))
                &&& p0.levels[t] <= tgt
                &&& (p0.levels[t] < tgt ==> !raw_valid(slot(p0, t, i)))
                &&& table_at(p6, root_t, va@, p0.levels[t]) == Some(t)
            } by {
                assert(p0.levels[t] == p5.levels[t]) by {
                    assert(p5.levels.subrange(0, p0.used as int)[t] == p5.levels[t]);
                }
                if t == cur && i == idx {
                } else {
                    assert(slot(p6, t, i) == slot(p5, t, i));
                    lemma_table_at_stable(p5, p6, root_t, va@, p0.levels[t]);
                }
            }
            assert(map_frame(p0, p6, root_t, va@, tgt));
            assert forall|t: int, i: int|
                p0.used <= t < p6.used && 0 <= i < 512 && #[trigger] slot(p6, t, i) != 0 implies i
                == va_index(va@, depth_shift(p6.levels[t])) by {
                if t == cur && i == idx {
                } else {
                    assert(slot(p6, t, i) == slot(p5, t, i));
                }
            }
            assert forall|d2: nat|
                d2 <= tgt && #[trigger] table_at(p0, root_t, va@, d2) is None implies reaches_fresh(p6, root_t, va@, d2, p0.used) by {
                lemma_table_at_prefix(p5, root_t, va@, tgt, d2);
                lemma_table_at_stable(p5, p6, root_t, va@, d2);
            }
        }
    }
}

/// A table/page descriptor is valid.
pub proof fn lemma_table_or_page_valid(e: u64)
    ensures
        raw_table_or_page(e) ==> raw_valid(e),
{
    assert(e & 3u64 == 3u64 ==> e & 1u64 != 0) by (bit_vector);
}


/// A walk that reaches depth `d` passes every shallower depth.
pub proof fn lemma_table_at_prefix(p: PoolView, root: int, va: u64, d: nat, d2: nat)
    requires
        d2 <= d,
        table_at(p, root, va, d) is Some,
    ensures
        table_at(p, root, va, d2) is Some,
    decreases d - d2,
{
    if d2 < d {
        lemma_table_at_prefix(p, root, va, (d - 1) as nat, d2);
    }
}

/// A walk of `va` from `root` reaches, at depth `d`, a table handed out
/// at or after position `first`.
pub open spec fn reaches_fresh(p: PoolView, root: int, va: u64, d: nat, first: nat) -> bool {
    match table_at(p, root, va, d) {
        Some(t) => t >= first,
        None => false,
    }
}

/// Two addresses that select the same entries above depth `d` reach the
/// same table at depth `d`.
pub proof fn lemma_same_prefix_same_table(p: PoolView, root: int, va: u64, va2: u64, d: nat)
    requires
        forall|d2: nat| d2 < d ==> #[trigger] va_index(va, depth_shift(d2)) == va_index(va2, depth_shift(d2)),
    ensures
        table_at(p, root, va, d) == table_at(p, root, va2, d),
    decreases d,
{
    if d > 0 {
        lemma_same_prefix_same_table(p, root, va, va2, (d - 1) as nat);
        assert(va_index(va, depth_shift((d - 1) as nat)) == va_index(va2, depth_shift((d - 1) as nat)));
    }
}

/// Where the walk already reaches `target` through table descriptors, a
/// `map` needs no fresh table.
pub proof fn lemma_needed_none_when_walk_exists(p: PoolView, root: int, va: u64, d: nat, target: nat)
    requires
        d <= target,
        table_at(p, root, va, target) is Some,
    ensures
        table_at(p, root, va, d) is Some,
        tables_needed(p, table_at(p, root, va, d)->0, va, d, target) == Some(0nat),
    decreases target - d,
{
    lemma_table_at_prefix(p, root, va, target, d);
    if d < target {
        lemma_needed_none_when_walk_exists(p, root, va, d + 1, target);
        let t = table_at(p, root, va, d)->0;
        let e = slot(p, t, va_index(va, depth_shift(d)) as int);
        lemma_table_or_page_valid(e);
        assert(table_at(p, root, va, d + 1) == Some(entry_table(p, e)));
    }
}

impl crate::mm::types::FrameAllocator for PagePool {
    open spec fn can_alloc(&self) -> bool {
        pool_wf(self@) && self@.used < POOL_PAGES
    }

    /// The pool's next table, as [`PagePool::alloc_page`] hands it out.
    fn alloc_page(&mut self) -> (r: PhysAddr)
        ensures
            pool_wf(final(self)@),
            final(self)@.used == old(self)@.used + 1,
            r@ == old(self)@.base + old(self)@.used * 4096,
            is_root(final(self)@, r@),
    {
        let ghost b = self@.base;
        let ghost u = self@.used;
        let r = PagePool::alloc_page(self);
        proof {
            assert((b + u * 4096) % 4096 == 0) by (nonlinear_arith)
                requires
                    b % 4096 == 0,
            ;
        }
        r
    }
}

/// Why a mapping could not be installed.
#[derive(Debug, Clone, Copy, PartialEq, Eq, Structural)]
pub enum MapError {
    /// The walk met an existing block entry above the target level;
    /// splitting a block is not supported during bring-up.
    BlockInTheWay,
    /// The pool has no frame left for an intermediate table.
    PoolExhausted,
    /// A region's remainder at `pa` fits neither a 1 GiB nor a 2 MiB block.
    UnalignedTail { pa: u64, remaining: u64 },
}

impl PagePool {
    /// How many fresh tables mapping `va` at `target` from `root` would take;
    /// `None` when an existing block stands in the way.
    pub fn tables_needed_for(&self, root: PhysAddr, va: VirtAddr, target: Level) -> (r: Option<usize>)
        requires
            pool_wf(self@),
            is_root(self@, root@),
        ensures
            r matches Some(n) ==> tables_needed(
                self@,
                pa_table(self@, root@),
                va@,
                0,
                level_depth(target),
            ) == Some(n as nat),
            r is None ==> tables_needed(self@, pa_table(self@, root@), va@, 0, level_depth(target))
                is None,
    {
        let ghost p = self@;
        let ghost root_t = pa_table(p, root@);
        let ghost tgt = level_depth(target);
        proof {
            lemma_level_shift_depth(target);
        }
        let mut cur: usize = ((root.as_u64() - self.base) / 4096) as usize;
        let mut level = Level::L0;
        let mut depth: usize = 0;
        while level != target
            invariant
                pool_wf(p),
                p == self@,
                tgt == level_depth(target),
                tgt <= 3,
                depth == level_depth(level),
                depth <= tgt,
                is_root(p, root@),
                root_t == pa_table(p, root@),
                cur < p.used,
                p.levels[cur as int] == depth,
                tables_needed(p, root_t, va@, 0, tgt) == tables_needed(p, cur as int, va@, depth as nat, tgt),
            decreases tgt - depth,
        {
            proof {
                lemma_level_shift_depth(level);
                assert(depth < tgt) by {
                    if depth == tgt {
                        assert(level == target);
                    }
                }
            }
            let idx = level.index_in(va);
            let e = self.slots[cur * 512 + idx];
            assert(e@ == slot(p, cur as int, idx as int));
            if !e.is_valid() {
                return Some(tgt_depth(target) - depth);
            }
            if !e.is_table_or_page() {
                return None;
            }
            proof {
                assert(table_link(p, cur as int, idx as int, e@));
            }
            cur = ((e.output_addr().as_u64() - self.base) / 4096) as usize;
            level = level.next_level();
            depth = depth + 1;
        }
        proof {
            assert(depth == tgt) by {
                assert(level == target);
            }
        }
        Some(0)
    }

    /// [`PagePool::map`], refusing instead of installing when the walk meets
    /// a block above `target` or the pool cannot supply the tables needed;
    /// nothing changes on refusal.
    pub fn try_map(
        &mut self,
        root: PhysAddr,
        va: VirtAddr,
        pa: PhysAddr,
        target: Level,
        attrs: LeafAttrs,
    ) -> (r: Result<(), MapError>)
        requires
            pool_wf(old(self)@),
            is_root(old(self)@, root@),
            target != Level::L0,
        ensures
            pool_wf(final(self)@),
            is_root(final(self)@, root@),
            pa_table(final(self)@, root@) == pa_table(old(self)@, root@),
            r == Err::<(), MapError>(MapError::BlockInTheWay) <==> tables_needed(
                old(self)@,
                pa_table(old(self)@, root@),
                va@,
                0,
                level_depth(target),
            ) is None,
            r == Err::<(), MapError>(MapError::PoolExhausted) <==> (tables_needed(
                old(self)@,
                pa_table(old(self)@, root@),
                va@,
                0,
                level_depth(target),
            ) matches Some(n) && old(self)@.used + n > POOL_PAGES),
            r is Err ==> final(self)@ == old(self)@,
            r is Err ==> r == Err::<(), MapError>(MapError::BlockInTheWay) || r == Err::<(), MapError>(
                MapError::PoolExhausted,
            ),
            r is Ok ==> map_frame(old(self)@, final(self)@, pa_table(old(self)@, root@), va@, level_depth(target)),
            r is Ok ==> walk(final(self)@, pa_table(old(self)@, root@), va@, level_depth(target))
                == Some(leaf_raw(pa@, target, attrs)),
    {
        match self.tables_needed_for(root, va, target) {
            None => Err(MapError::BlockInTheWay),
            Some(n) => {
                if n > POOL_PAGES - self.used {
                    Err(MapError::PoolExhausted)
                } else {
                    self.map(root, va, pa, target, attrs);
                    Ok(())
                }
            },
        }
    }
}

/// Numeric depth of a level.
fn tgt_depth(l: Level) -> (r: usize)
    ensures
        r == level_depth(l),
{
    match l {
        Level::L0 => 0,
        Level::L1 => 1,
        Level::L2 => 2,
        Level::L3 => 3,
    }
}

/// In a tree of tables, two walks that reach the same table at depth `d`
/// came down through the same entries: the addresses agree on every index
/// above `d`.
pub proof fn lemma_same_table_same_prefix(p: PoolView, root: int, va: u64, va2: u64, d: nat)
    requires
        pool_wf(p),
        0 <= root < p.used,
        p.levels[root] == 0,
        d <= 3,
        table_at(p, root, va, d) is Some,
        table_at(p, root, va, d) == table_at(p, root, va2, d),
    ensures
        forall|d2: nat| d2 < d ==> #[trigger] va_index(va, depth_shift(d2)) == va_index(va2, depth_shift(d2)),
    decreases d,
{
    if d > 0 {
        let d1 = (d - 1) as nat;
        let t = table_at(p, root, va, d1)->0;
        let t2 = table_at(p, root, va2, d1)->0;
        lemma_table_at_level(p, root, va, d1);
        lemma_table_at_level(p, root, va2, d1);
        let i = va_index(va, depth_shift(d1)) as int;
        let i2 = va_index(va2, depth_shift(d1)) as int;
        lemma_va_index_bound(va, depth_shift(d1));
        lemma_va_index_bound(va2, depth_shift(d1));
        assert(table_link(p, t, i, slot(p, t, i)));
        assert(table_link(p, t2, i2, slot(p, t2, i2)));
        assert(t == t2 && i == i2);
        lemma_same_table_same_prefix(p, root, va, va2, d1);
        assert forall|d2: nat| d2 < d implies #[trigger] va_index(va, depth_shift(d2)) == va_index(
            va2,
            depth_shift(d2),
        ) by {
            if d2 < d1 {
            }
        }
    }
}

/// Down to depth `d`, the walk of `va2` visits after a `map` of `va` the
/// tables it visited before, when `va2` and `va` part at a depth `d0` no
/// deeper than either target.
pub proof fn lemma_map_keeps_path(
    old: PoolView,
    new: PoolView,
    root: int,
    va: u64,
    target: nat,
    va2: u64,
    tgt2: nat,
    d0: nat,
    d: nat,
)
    requires
        pool_wf(old),
        pool_wf(new),
        0 <= root < old.used,
        old.levels[root] == 0,
        target <= 3,
        tgt2 <= 3,
        d <= tgt2,
        d0 <= target,
        d0 <= tgt2,
        va_index(va2, depth_shift(d0)) != va_index(va, depth_shift(d0)),
        map_frame(old, new, root, va, target),
        table_at(old, root, va2, d) is Some,
    ensures
        table_at(new, root, va2, d) == table_at(old, root, va2, d),
    decreases d,
{
    if d > 0 {
        let d1 = (d - 1) as nat;
        lemma_map_keeps_path(old, new, root, va, target, va2, tgt2, d0, d1);
        lemma_table_at_level(old, root, va2, d1);
        let t = table_at(old, root, va2, d1)->0;
        let i = va_index(va2, depth_shift(d1)) as int;
        lemma_va_index_bound(va2, depth_shift(d1));
        let e = slot(old, t, i);
        assert(raw_table_or_page(e));
        lemma_table_or_page_valid(e);
        if slot(new, t, i) != e {
            // the slot lies on va's walk at depth d1, so both walks agree
            // down to and including d1 ...
            assert(old.levels[t] == d1);
            assert(table_at(new, root, va, d1) == Some(t));
            lemma_same_table_same_prefix(new, root, va, va2, d1);
            assert(new.levels[root] == 0) by {
                assert(new.levels.subrange(0, old.used as int)[root] == new.levels[root]);
            }
            // ... which d0 forbids, unless d1 == target, which d1 < tgt2 and
            // validity forbid
            if d0 <= d1 {
                if d0 < d1 {
                    assert(va_index(va, depth_shift(d0)) == va_index(va2, depth_shift(d0)));
                }
            }
            assert(d1 == target);
        }
    }
}

/// Mapping `va` at depth `target` leaves intact the walk of any address
/// `va2` to depth `tgt2` that already reached it, when the two addresses
/// select different entries at some depth `d0` no deeper than either
/// target — that is, when the two leaves cover disjoint address ranges.
pub proof fn lemma_map_preserves_disjoint_walk(
    old: PoolView,
    new: PoolView,
    root: int,
    va: u64,
    target: nat,
    va2: u64,
    tgt2: nat,
    d0: nat,
)
    requires
        pool_wf(old),
        pool_wf(new),
        0 <= root < old.used,
        old.levels[root] == 0,
        target <= 3,
        tgt2 <= 3,
        d0 <= target,
        d0 <= tgt2,
        va_index(va2, depth_shift(d0)) != va_index(va, depth_shift(d0)),
        map_frame(old, new, root, va, target),
        table_at(old, root, va2, tgt2) is Some,
    ensures
        walk(new, root, va2, tgt2) == walk(old, root, va2, tgt2),
{
    lemma_map_keeps_path(old, new, root, va, target, va2, tgt2, d0, tgt2);
    lemma_table_at_level(old, root, va2, tgt2);
    let t = table_at(old, root, va2, tgt2)->0;
    let i = va_index(va2, depth_shift(tgt2)) as int;
    lemma_va_index_bound(va2, depth_shift(tgt2));
    if slot(new, t, i) != slot(old, t, i) {
        assert(old.levels[t] == tgt2);
        assert(table_at(new, root, va, tgt2) == Some(t));
        assert(new.levels[root] == 0) by {
            assert(new.levels.subrange(0, old.used as int)[root] == new.levels[root]);
        }
        lemma_same_table_same_prefix(new, root, va, va2, tgt2);
        if d0 < tgt2 {
            assert(va_index(va, depth_shift(d0)) == va_index(va2, depth_shift(d0)));
        }
    }
}

} // verus!
