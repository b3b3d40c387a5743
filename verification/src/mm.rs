//! Physical and virtual memory: the allocator stack (bootmem, buddy, slab),
//! page tables, and the kernel address-space layout.

pub mod attrs;
pub mod bootmem;
pub mod buddy;
pub mod frame;
pub mod handoff;
pub mod identity;
pub mod kernel_map;
pub mod layout;
pub mod page_table;
pub mod ram;
pub mod slab;
pub mod tcr;
pub mod types;
