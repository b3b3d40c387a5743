//! Kernel address-space layout — the linear map, the image region, and the
//! physical ↔ virtual conversions.

use vstd::prelude::*;

use crate::arch::mm::{PhysAddr, VirtAddr};

verus! {

/// Addresses are 64-bit values (the width of `usize` on the target).

/// Base of the linear map: every physical address is visible at
/// `pa + KERNEL_LINEAR_BASE` as Normal cacheable RW+NX memory.
pub const KERNEL_LINEAR_BASE: u64 = 0xFFFF_8000_0000_0000;

/// Base of the kernel image region (`.text`/`.rodata`/`.data`/`.bss`/stack).
/// Under KASLR this is the nominal base; the live base is [`image_va_base`].
pub const KERNEL_IMAGE_BASE: u64 = 0xFFFF_FFFF_8000_0000;

/// Base of the device (MMIO) region, Device-nGnRE RW+NX. A fixed VA, never
/// subject to a KASLR slide.
pub const KERNEL_DEVICE_BASE: u64 = 0xFFFF_C000_0000_0000;

/// Physical load address of the kernel image (start of `.text`).
pub const PHYS_LOAD_BASE: u64 = 0x4008_0000;

/// Physical base of the 1 GiB region the image lives in (image VA 0 maps
/// here).
pub const IMAGE_PA_BASE: u64 = 0x4000_0000;

/// Physical address of `.text` within the image region.
pub const IMAGE_TEXT_PA: u64 = 0x4010_0000;

/// Map a physical address into the linear region.
pub fn pa_to_linear_va(pa: PhysAddr) -> (r: VirtAddr)
    requires
        pa@ < KERNEL_LINEAR_BASE,
        pa@ + KERNEL_LINEAR_BASE <= u64::MAX,
    ensures
        r@ == pa@ + KERNEL_LINEAR_BASE,
{
    VirtAddr::from_u64(pa.as_u64() + KERNEL_LINEAR_BASE)
}

/// Inverse of [`pa_to_linear_va`]. The upper bound is the device base, so a
/// device VA can never be misread as linear.
pub fn linear_va_to_pa(va: VirtAddr) -> (r: PhysAddr)
    requires
        KERNEL_LINEAR_BASE <= va@ < KERNEL_DEVICE_BASE,
    ensures
        r@ == va@ - KERNEL_LINEAR_BASE,
{
    PhysAddr::from_u64(va.as_u64() - KERNEL_LINEAR_BASE)
}

/// Recover the physical address backing an image VA, through the live image
/// base.
pub fn image_va_to_pa(va: VirtAddr) -> (r: PhysAddr)
    requires
        KERNEL_IMAGE_BASE <= va@,
    ensures
        r@ == va@ - KERNEL_IMAGE_BASE + IMAGE_PA_BASE,
{
    PhysAddr::from_u64(va.as_u64() - image_va_base() + IMAGE_PA_BASE)
}

/// Map a physical MMIO address into the device region.
pub fn pa_to_device_va(pa: PhysAddr) -> (r: VirtAddr)
    requires
        pa@ < KERNEL_DEVICE_BASE,
        pa@ + KERNEL_DEVICE_BASE <= u64::MAX,
    ensures
        r@ == pa@ + KERNEL_DEVICE_BASE,
{
    VirtAddr::from_u64(pa.as_u64() + KERNEL_DEVICE_BASE)
}

/// The live image base — the one place a future KASLR slide is added.
fn image_va_base() -> (r: u64)
    ensures
        r == KERNEL_IMAGE_BASE,
{
    KERNEL_IMAGE_BASE
}

/// The linear window `[LINEAR_BASE, DEVICE_BASE)` round-trips: any physical
/// address below its span maps into the window, and maps back to itself.
pub proof fn lemma_linear_round_trip(pa: int)
    requires
        0 <= pa < KERNEL_DEVICE_BASE - KERNEL_LINEAR_BASE,
    ensures
        KERNEL_LINEAR_BASE <= pa + KERNEL_LINEAR_BASE < KERNEL_DEVICE_BASE,
        (pa + KERNEL_LINEAR_BASE) - KERNEL_LINEAR_BASE == pa,
{
}

/// A device VA of any address within one L0 slot (512 GiB) stays inside
/// `[DEVICE_BASE, IMAGE_BASE)`, so an MMIO VA can never be read back as
/// linear.
pub proof fn lemma_device_map_in_window(pa: int)
    requires
        0 <= pa < 0x80_0000_0000,
    ensures
        KERNEL_DEVICE_BASE <= pa + KERNEL_DEVICE_BASE < KERNEL_IMAGE_BASE,
{
}

/// Image addresses never underflow: every VA at or above the image base maps
/// at or above the image PA base.
pub proof fn lemma_image_map_no_underflow(va: int)
    requires
        KERNEL_IMAGE_BASE <= va,
    ensures
        va - KERNEL_IMAGE_BASE + IMAGE_PA_BASE >= IMAGE_PA_BASE,
{
}

/// The regions are ordered: linear below device below image.
pub proof fn lemma_region_ordering()
    ensures
        KERNEL_LINEAR_BASE < KERNEL_DEVICE_BASE < KERNEL_IMAGE_BASE,
        IMAGE_PA_BASE <= PHYS_LOAD_BASE < IMAGE_TEXT_PA,
{
}

} // verus!
