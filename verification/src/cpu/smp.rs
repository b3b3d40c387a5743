//! SMP bring-up decisions: which CPUs are online, the numbering of the
//! secondaries found in the device tree, and their boot stacks.
//!
//! The primary CPU walks the device tree's `cpus` node; for each CPU it
//! asks [`BringUp::next`] what to do, and then performs the outside work
//! itself (filling the CPU's control block, issuing `CPU_ON`, waiting for
//! it to come online).

use vstd::prelude::*;
use vstd::arithmetic::power2::pow2;

use crate::arch::mm::PhysAddr;
use crate::cpu::psci::PsciError;
use crate::cpu::types::{CpuId, Mpidr, MPIDR_MASK};
use crate::dtb::{dtb_cpu_ids, dtb_cpus};
use crate::dtb_format::dtb_well_formed;
use crate::mm::buddy::{alloc_view, lemma_alloc_in_range, pa_of_pfn, BuddyAllocator};
use crate::mm::frame::PAGE_SIZE;
use crate::mm::layout::{pa_to_linear_va, KERNEL_LINEAR_BASE};
use crate::mm::slab::buddy_in_window;

verus! {

/// Most CPUs the kernel is built for.
pub const MAX_CPUS: usize = 16;

/// Bytes of each secondary CPU's boot stack.
pub const STACK_SIZE: usize = 0x1_0000;

/// Buddy order of a boot stack: 16 pages, 64 KiB.
pub const STACK_ORDER: u8 = 4;

/// Per-CPU control block.
#[derive(Debug, Clone, Copy)]
pub struct CpuData {
    pub cpu_id: CpuId,
    pub mpidr: Mpidr,
}

/// Data block handed to a secondary CPU through the PSCI `ctx` argument:
/// the address of its control block, its stack top, and the kernel
/// translation root.
#[derive(Debug, Clone, Copy)]
pub struct SecondaryBootData {
    pub cpu_data_ptr: u64,
    pub stack_top: usize,
    pub ttbr1_root: usize,
}

/// Errors that stop SMP bring-up.
#[derive(Debug, Clone, Copy, PartialEq, Eq, Structural)]
pub enum BringUpError {
    /// The firmware reports more CPUs than `MAX_CPUS`.
    TooManyCpus,
    /// PSCI rejected `CPU_ON` for a particular CPU.
    Psci(Mpidr, PsciError),
    OutOfMemory,
}

/// The set of online CPUs, one bit per logical CPU.
#[derive(Debug, Clone, Copy)]
pub struct Smp {
    online: u64,
}

impl View for Smp {
    type V = u64;

    closed spec fn view(&self) -> u64 {
        self.online
    }
}

/// The bit standing for CPU `cpu`.
pub open spec fn cpu_bit(cpu: u32) -> u64 {
    1u64 << cpu
}

/// Whether CPU `cpu` is in the online set `mask`.
pub open spec fn mask_has(mask: u64, cpu: u32) -> bool {
    mask & cpu_bit(cpu) != 0
}

impl Smp {
    /// No CPU online.
    pub fn new() -> (r: Self)
        ensures
            r@ == 0,
    {
        Self { online: 0 }
    }

    /// The bit that marks `cpu` online.
    pub fn online_bit(cpu: CpuId) -> (r: u64)
        requires
            cpu@ < 64,
        ensures
            r == cpu_bit(cpu@),
    {
        1u64 << cpu.raw()
    }

    /// Mark `cpu` online.
    pub fn mark_online(&mut self, cpu: CpuId)
        requires
            cpu@ < 64,
        ensures
            final(self)@ == old(self)@ | cpu_bit(cpu@),
    {
        self.online = self.online | Self::online_bit(cpu);
    }

    /// Whether `cpu` has been marked online.
    pub fn is_online(&self, cpu: CpuId) -> (r: bool)
        requires
            cpu@ < 64,
        ensures
            r == mask_has(self@, cpu@),
    {
        self.online & Self::online_bit(cpu) != 0
    }
}

/// Marking a CPU online makes it online and leaves every other CPU as it
/// was.
pub proof fn lemma_mark_online(mask: u64, cpu: u32, other: u32)
    requires
        cpu < 64,
        other < 64,
    ensures
        mask_has(mask | cpu_bit(cpu), cpu),
        other != cpu ==> mask_has(mask | cpu_bit(cpu), other) == mask_has(mask, other),
        !mask_has(0, other),
{
    assert((mask | (1u64 << cpu)) & (1u64 << cpu) != 0 && (other != cpu ==> (((mask | (1u64
        << cpu)) & (1u64 << other) != 0) == (mask & (1u64 << other) != 0))) && (0u64 & (1u64
        << other) == 0)) by (bit_vector)
        requires
            cpu < 64,
            other < 64,
    ;
}

/// What to do with the next CPU listed in the device tree.
#[derive(Debug, Clone, Copy, PartialEq, Eq, Structural)]
pub enum BringUpStep {
    /// It is the primary, already running.
    Skip,
    /// Start it under this logical number.
    Start(CpuId),
    /// Stop bring-up with this error.
    Fail(BringUpError),
}

/// Bring-up progress: the primary's identity and the next logical number
/// to hand out.
#[derive(Debug, Clone, Copy)]
pub struct BringUp {
    primary: Mpidr,
    next_idx: u32,
}

impl BringUp {
    /// Start numbering secondaries after the primary, CPU 0.
    pub fn new(primary: Mpidr) -> (r: Self)
        ensures
            r.spec_primary() == primary,
            r.spec_next() == 1,
    {
        Self { primary, next_idx: 1 }
    }

    pub closed spec fn spec_primary(&self) -> Mpidr {
        self.primary
    }

    pub closed spec fn spec_next(&self) -> u32 {
        self.next_idx
    }

    /// Decide for the CPU `mpidr` listed next: skip the primary; past
    /// `MAX_CPUS` logical CPUs, fail; otherwise start it as the next logical
    /// CPU.
    pub fn next(&mut self, mpidr: Mpidr) -> (r: BringUpStep)
        requires
            old(self).spec_next() <= MAX_CPUS,
        ensures
            final(self).spec_primary() == old(self).spec_primary(),
            final(self).spec_next() <= MAX_CPUS,
            mpidr == old(self).spec_primary() ==> r == BringUpStep::Skip && final(self).spec_next()
                == old(self).spec_next(),
            mpidr != old(self).spec_primary() && old(self).spec_next() >= MAX_CPUS ==> r
                == BringUpStep::Fail(BringUpError::TooManyCpus) && final(self).spec_next()
                == old(self).spec_next(),
            mpidr != old(self).spec_primary() && old(self).spec_next() < MAX_CPUS ==> (r matches BringUpStep::Start(c) && c@ == old(self).spec_next() && final(self).spec_next()
                == old(self).spec_next() + 1),
    {
        if mpidr == self.primary {
            return BringUpStep::Skip;
        }
        if self.next_idx as usize >= MAX_CPUS {
            return BringUpStep::Fail(BringUpError::TooManyCpus);
        }
        let cpu = CpuId::new(self.next_idx);
        self.next_idx = self.next_idx + 1;
        BringUpStep::Start(cpu)
    }
}

/// Top of a fresh boot stack: the end of a 64 KiB run of buddy pages,
/// by its linear-map address. `None` when the buddy has no such run.
pub fn alloc_stack(buddy: &mut BuddyAllocator) -> (r: Option<u64>)
    requires
        old(buddy).wf(),
        buddy_in_window(old(buddy)),
    ensures
        final(buddy).wf(),
        final(buddy)@ == alloc_view(old(buddy)@, STACK_ORDER as nat).0,
        final(buddy).spec_dram_base() == old(buddy).spec_dram_base(),
        final(buddy).spec_nr_frames() == old(buddy).spec_nr_frames(),
        r is None <==> alloc_view(old(buddy)@, STACK_ORDER as nat).1 is None,
        r matches Some(top) ==> top == pa_of_pfn(
            old(buddy).spec_dram_base() as nat,
            alloc_view(old(buddy)@, STACK_ORDER as nat).1->0 as nat,
        ) + KERNEL_LINEAR_BASE + STACK_SIZE,
{
    proof {
        old(buddy).lemma_wf_facts();
        lemma_alloc_in_range(old(buddy)@, STACK_ORDER as nat);
    }
    match buddy.alloc_pages(STACK_ORDER) {
        Some(pa) => {
            proof {
                let b = alloc_view(old(buddy)@, STACK_ORDER as nat).1->0;
                let db = old(buddy).spec_dram_base();
                let nr = old(buddy).spec_nr_frames();
                assert(pa@ + PAGE_SIZE <= db + nr * PAGE_SIZE) by (nonlinear_arith)
                    requires
                        pa@ == db + b * PAGE_SIZE,
                        b < nr,
                ;
            }
            let va = pa_to_linear_va(pa).as_u64();
            Some(va + STACK_SIZE as u64)
        },
        None => None,
    }
}

/// The CPUs the device-tree blob lists under `/cpus`, in order, each as the
/// affinity value of its first `reg` id. `None` when the blob has no
/// readable `/cpus` node.
pub fn cpus_from_dtb(blob: &[u8]) -> (r: Option<Vec<Mpidr>>)
    requires
        dtb_well_formed(blob@),
    ensures
        r is None <==> dtb_cpu_ids(blob@) is None,
        r matches Some(v) ==> v@.len() == dtb_cpu_ids(blob@)->0.len() && forall|i: int|
            0 <= i < v@.len() ==> (#[trigger] v@[i])@ == dtb_cpu_ids(blob@)->0[i] & MPIDR_MASK,
{
    let ids = match dtb_cpus(blob) {
        Some(ids) => ids,
        None => {
            return None;
        },
    };
    let mut out: Vec<Mpidr> = Vec::new();
    let mut i: usize = 0;
    while i < ids.len()
        invariant
            i <= ids@.len(),
            out@.len() == i,
            forall|j: int| 0 <= j < i ==> (#[trigger] out@[j])@ == ids@[j] & MPIDR_MASK,
        decreases ids@.len() - i,
    {
        out.push(Mpidr::new(ids[i]));
        i = i + 1;
    }
    Some(out)
}

} // verus!
