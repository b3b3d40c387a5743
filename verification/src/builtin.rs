//! Device-facing building blocks: MMIO access modes and the PL011 UART's
//! register map and flag words.

pub mod mmio;
pub mod uart;
