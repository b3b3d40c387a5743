//! Page size and the boot-time bump frame allocator's arithmetic.

use vstd::prelude::*;

verus! {

/// Page size in bytes. 4 KiB granule — must match the granule programmed in
/// `TCR_EL1`.
pub const PAGE_SIZE: usize = 4096;

} // verus!
