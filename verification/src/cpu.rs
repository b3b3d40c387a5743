//! SMP bring-up, the PSCI client, and per-CPU identity types.

pub mod psci;
pub mod smp;
pub mod types;
