//! Architecture primitives for AArch64: the ISA expressed as types, with no
//! kernel policy attached.

pub mod exceptions;
pub mod mm;
pub mod reg;
