use preon::arch::mm::PhysAddr;
use preon::cpu::psci::{Method, Psci, PsciCall, PsciError};
use preon::cpu::smp::{alloc_stack, BringUp, BringUpError, BringUpStep, Smp, MAX_CPUS, STACK_SIZE};
use preon::cpu::types::{CpuId, Mpidr};
use preon::mm::buddy::{BuddyAllocator, Pfn as RelPfn};
use preon::mm::layout::KERNEL_LINEAR_BASE;

#[test]
fn mpidr_keeps_affinity_bits() {
    assert_eq!(Mpidr::new(0x8000_0001).raw(), 0x1);
    assert_eq!(Mpidr::new(0xFF12_3456_789A).raw(), 0x12_0056_789A);
    assert_eq!(Mpidr::new(0x1_0000_0000).raw(), 0x1_0000_0000);
    assert_ne!(Mpidr::new(0x1_0000_0001), Mpidr::new(0x1));
    assert_eq!(Mpidr::new(0xFFFF_FFFF_FFFF_FFFF).raw(), 0xFF_00FF_FFFF);
    assert_eq!(Mpidr::new(Mpidr::new(0x8100_0203).raw()), Mpidr::new(0x8100_0203));
}

#[test]
fn cpu_ids() {
    assert_eq!(CpuId::primary().raw(), 0);
    assert_eq!(CpuId::new(5).as_usize(), 5);
    assert_eq!(CpuId::new(5).raw(), 5);
}

#[test]
fn psci_error_codes() {
    assert_eq!(PsciError::from_code(-1), PsciError::NotSupported);
    assert_eq!(PsciError::from_code(-2), PsciError::InvalidParameters);
    assert_eq!(PsciError::from_code(-3), PsciError::Denied);
    assert_eq!(PsciError::from_code(-4), PsciError::AlreadyOn);
    assert_eq!(PsciError::from_code(-5), PsciError::OnPending);
    assert_eq!(PsciError::from_code(-6), PsciError::InternalFailure);
    assert_eq!(PsciError::from_code(-7), PsciError::NotPresent);
    assert_eq!(PsciError::from_code(-8), PsciError::Disabled);
    assert_eq!(PsciError::from_code(-9), PsciError::InvalidAddress);
    assert_eq!(PsciError::from_code(-10), PsciError::Unknown(-10));
    assert_eq!(PsciError::from_code(7), PsciError::Unknown(7));
}

#[test]
fn psci_method_names() {
    assert_eq!(Method::from_name(b"hvc"), Some(Method::Hvc));
    assert_eq!(Method::from_name(b"smc"), Some(Method::Smc));
    assert_eq!(Method::from_name(b"svc"), None);
    assert_eq!(Method::from_name(b"hvc0"), None);
    assert_eq!(Method::from_name(b""), None);
}

#[test]
fn psci_from_props() {
    let p = Psci::from_props(Some(&b"smc"[..]), Some(0xC400_0003)).unwrap();
    assert_eq!(p.method, Method::Smc);
    assert_eq!(p.cpu_on_id, 0xC400_0003);
    assert!(Psci::from_props(None, Some(1)).is_none());
    assert!(Psci::from_props(Some(&b"hvc"[..]), None).is_none());
    assert!(Psci::from_props(Some(&b"foo"[..]), Some(1)).is_none());
    let wide = Psci::from_props(Some(&b"hvc"[..]), Some(0x1_C400_0003)).unwrap();
    assert_eq!(wide.cpu_on_id, 0xC400_0003);
}

#[test]
fn psci_cpu_on_request_and_result() {
    let p = Psci { method: Method::Hvc, cpu_on_id: 0xC400_0003 };
    let call = p.cpu_on_request(Mpidr::new(0x8000_0002), 0x4008_0000, 0x4100_0000);
    assert_eq!(
        call,
        PsciCall { method: Method::Hvc, fn_id: 0xC400_0003, a1: 2, a2: 0x4008_0000, a3: 0x4100_0000 }
    );
    assert_eq!(Psci::cpu_on_result(0), Ok(()));
    assert_eq!(Psci::cpu_on_result(-4), Err(PsciError::AlreadyOn));
    assert_eq!(Psci::cpu_on_result(-42), Err(PsciError::Unknown(-42)));
}

#[test]
fn online_mask() {
    let mut smp = Smp::new();
    assert!(!smp.is_online(CpuId::new(0)));
    smp.mark_online(CpuId::new(3));
    assert!(smp.is_online(CpuId::new(3)));
    assert!(!smp.is_online(CpuId::new(2)));
    smp.mark_online(CpuId::new(63));
    assert!(smp.is_online(CpuId::new(63)));
    assert!(smp.is_online(CpuId::new(3)));
    assert_eq!(Smp::online_bit(CpuId::new(5)), 1 << 5);
}

#[test]
fn bring_up_numbers_secondaries() {
    let primary = Mpidr::new(0x0);
    let mut b = BringUp::new(primary);
    assert_eq!(b.next(Mpidr::new(0x0)), BringUpStep::Skip);
    assert_eq!(b.next(Mpidr::new(0x1)), BringUpStep::Start(CpuId::new(1)));
    assert_eq!(b.next(Mpidr::new(0x2)), BringUpStep::Start(CpuId::new(2)));
    assert_eq!(b.next(Mpidr::new(0x8000_0000)), BringUpStep::Skip);
}

#[test]
fn bring_up_stops_past_max_cpus() {
    let mut b = BringUp::new(Mpidr::new(0x100));
    for i in 1..MAX_CPUS as u64 {
        assert_eq!(b.next(Mpidr::new(i)), BringUpStep::Start(CpuId::new(i as u32)));
    }
    assert_eq!(b.next(Mpidr::new(0x9999)), BringUpStep::Fail(BringUpError::TooManyCpus));
    assert_eq!(b.next(Mpidr::new(0x100)), BringUpStep::Skip);
}

#[test]
fn stack_allocation() {
    let mut buddy = BuddyAllocator::new(PhysAddr::from_u64(0x4000_0000), 32);
    assert_eq!(alloc_stack(&mut buddy), None);
    buddy.free_range(RelPfn::new_unchecked(0), 32);
    let top = alloc_stack(&mut buddy).unwrap();
    assert_eq!(top, KERNEL_LINEAR_BASE + 0x4000_0000 + STACK_SIZE as u64);
    assert_eq!(buddy.free_frames(), 16);
}
