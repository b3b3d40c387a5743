//! Preon kernel core: the pure logic of an AArch64 microkernel — register
//! decoders, address arithmetic, page-table descriptors, and the physical
//! memory allocators — with its behaviour stated and proved.
#![allow(unused_imports)]

pub mod arch;
pub mod builtin;
pub mod cpu;
pub mod dtb;
pub mod dtb_format;
pub mod exceptions;
pub mod mm;
