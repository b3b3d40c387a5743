//! Access-mode markers for typed MMIO register handles: a handle whose mode
//! is not [`Readable`] cannot be read, one that is not [`Writable`] cannot
//! be written.

use vstd::prelude::*;

verus! {

/// Access-mode marker: register can be read.
pub struct ReadOnly;

/// Access-mode marker: register can be written.
pub struct WriteOnly;

/// Access-mode marker: register supports both read and write.
pub struct ReadWrite;

/// Satisfied by access modes that permit reads.
pub trait Readable {}

impl Readable for ReadOnly {}

impl Readable for ReadWrite {}

/// Satisfied by access modes that permit writes.
pub trait Writable {}

impl Writable for WriteOnly {}

impl Writable for ReadWrite {}

} // verus!
