//! PL011 UART register map and flag words for the QEMU `virt` machine
//! (ARM PrimeCell UART PL011 TRM, DDI 0183).
//!
//! Each register's bit field has its own newtype flag word, so unrelated
//! bit patterns cannot be combined by accident.

use vstd::prelude::*;

use crate::mm::layout::KERNEL_DEVICE_BASE;

verus! {

/// Physical address of the PL011 register block on QEMU `virt`.
pub const UART_PA: u64 = 0x0900_0000;

/// Virtual address of the UART in the kernel device region.
pub const UART_BASE: u64 = 0xFFFF_C000_0900_0000;

/// The UART's virtual address is its physical address placed in the
/// device region.
pub proof fn lemma_uart_base_in_device_region()
    ensures
        UART_BASE == KERNEL_DEVICE_BASE + UART_PA,
{
}

/// Data Register: the low byte on write is sent, on read the next received
/// byte with error bits above it.
pub const UART_DR: u64 = 0x000;

/// Receive Status / Error Clear.
pub const UART_RSR: u64 = 0x004;

/// Flag Register (status).
pub const UART_FR: u64 = 0x018;

/// IrDA Low-Power Counter.
pub const UART_ILPR: u64 = 0x020;

/// Integer Baud Rate Divisor.
pub const UART_IBRD: u64 = 0x024;

/// Fractional Baud Rate Divisor.
pub const UART_FBRD: u64 = 0x028;

/// Line Control.
pub const UART_LCRH: u64 = 0x02C;

/// Control.
pub const UART_CR: u64 = 0x030;

/// Interrupt FIFO Level Select.
pub const UART_IFLS: u64 = 0x034;

/// Interrupt Mask Set/Clear.
pub const UART_IMSC: u64 = 0x038;

/// Raw Interrupt Status.
pub const UART_RIS: u64 = 0x03C;

/// Masked Interrupt Status.
pub const UART_MIS: u64 = 0x040;

/// Interrupt Clear.
pub const UART_ICR: u64 = 0x044;

/// DMA Control.
pub const UART_DMACR: u64 = 0x048;

/// `FrFlags`: Clear To Send (modem).
pub const FR_CTS: u32 = 0x1;

/// `FrFlags`: Data Set Ready (modem).
pub const FR_DSR: u32 = 0x2;

/// `FrFlags`: Data Carrier Detect (modem).
pub const FR_DCD: u32 = 0x4;

/// `FrFlags`: Transmitter busy: shift register still has data.
pub const FR_BUSY: u32 = 0x8;

/// `FrFlags`: Receive FIFO empty.
pub const FR_RXFE: u32 = 0x10;

/// `FrFlags`: Transmit FIFO full.
pub const FR_TXFF: u32 = 0x20;

/// `FrFlags`: Receive FIFO full.
pub const FR_RXFF: u32 = 0x40;

/// `FrFlags`: Transmit FIFO empty.
pub const FR_TXFE: u32 = 0x80;

/// `FrFlags`: Ring Indicator (modem).
pub const FR_RI: u32 = 0x100;

/// Flag Register (0x018) bits.
#[derive(Debug, Copy, Clone, PartialEq, Eq, Structural)]
pub struct FrFlags(u32);

impl View for FrFlags {
    type V = u32;

    closed spec fn view(&self) -> u32 {
        self.0
    }
}

impl FrFlags {
    /// No bit set.
    pub fn none() -> (r: Self)
        ensures
            r@ == 0,
    {
        Self(0)
    }

    pub fn raw(self) -> (r: u32)
        ensures
            r == self@,
    {
        self.0
    }

    pub fn from_raw(raw: u32) -> (r: Self)
        ensures
            r@ == raw,
    {
        Self(raw)
    }

    /// Whether every bit of `other` is set here.
    pub fn contains(self, other: Self) -> (r: bool)
        ensures
            r == (self@ & other@ == other@),
    {
        (self.0 & other.0) == other.0
    }

    /// The bits set in either word.
    pub fn union(self, rhs: Self) -> (r: Self)
        ensures
            r@ == self@ | rhs@,
    {
        Self(self.0 | rhs.0)
    }

    /// The bits set in both words.
    pub fn intersection(self, rhs: Self) -> (r: Self)
        ensures
            r@ == self@ & rhs@,
    {
        Self(self.0 & rhs.0)
    }
}

impl core::ops::BitOr for FrFlags {
    type Output = Self;

    /// `a | b`: the bits set in either word.
    fn bitor(self, rhs: Self) -> (r: Self)
        ensures
            r@ == self@ | rhs@,
    {
        self.union(rhs)
    }
}

impl vstd::std_specs::ops::BitOrSpecImpl for FrFlags {
    open spec fn obeys_bitor_spec() -> bool {
        true
    }

    open spec fn bitor_req(self, rhs: Self) -> bool {
        true
    }

    closed spec fn bitor_spec(self, rhs: Self) -> Self {
        FrFlags(self.0 | rhs.0)
    }
}

impl core::ops::BitAnd for FrFlags {
    type Output = Self;

    /// `a & b`: the bits set in both words.
    fn bitand(self, rhs: Self) -> (r: Self)
        ensures
            r@ == self@ & rhs@,
    {
        self.intersection(rhs)
    }
}

impl vstd::std_specs::ops::BitAndSpecImpl for FrFlags {
    open spec fn obeys_bitand_spec() -> bool {
        true
    }

    open spec fn bitand_req(self, rhs: Self) -> bool {
        true
    }

    closed spec fn bitand_spec(self, rhs: Self) -> Self {
        FrFlags(self.0 & rhs.0)
    }
}

/// `LcrhFlags`: Send break (TX held low).
pub const LCRH_BRK: u32 = 0x1;

/// `LcrhFlags`: Parity enable.
pub const LCRH_PEN: u32 = 0x2;

/// `LcrhFlags`: Even parity select.
pub const LCRH_EPS: u32 = 0x4;

/// `LcrhFlags`: Two stop bits.
pub const LCRH_STP2: u32 = 0x8;

/// `LcrhFlags`: FIFOs enable.
pub const LCRH_FEN: u32 = 0x10;

/// `LcrhFlags`: Sticky parity select.
pub const LCRH_SPS: u32 = 0x80;

/// `LcrhFlags`: word length 5 bits (`WLEN = 0b00`).
pub const LCRH_WLEN_5: u32 = 0x00;

/// `LcrhFlags`: word length 6 bits.
pub const LCRH_WLEN_6: u32 = 0x20;

/// `LcrhFlags`: word length 7 bits.
pub const LCRH_WLEN_7: u32 = 0x40;

/// `LcrhFlags`: word length 8 bits.
pub const LCRH_WLEN_8: u32 = 0x60;

/// Line Control Register (0x02C) bits.
#[derive(Debug, Copy, Clone, PartialEq, Eq, Structural)]
pub struct LcrhFlags(u32);

impl View for LcrhFlags {
    type V = u32;

    closed spec fn view(&self) -> u32 {
        self.0
    }
}

impl LcrhFlags {
    /// No bit set.
    pub fn none() -> (r: Self)
        ensures
            r@ == 0,
    {
        Self(0)
    }

    pub fn raw(self) -> (r: u32)
        ensures
            r == self@,
    {
        self.0
    }

    pub fn from_raw(raw: u32) -> (r: Self)
        ensures
            r@ == raw,
    {
        Self(raw)
    }

    /// Whether every bit of `other` is set here.
    pub fn contains(self, other: Self) -> (r: bool)
        ensures
            r == (self@ & other@ == other@),
    {
        (self.0 & other.0) == other.0
    }

    /// The bits set in either word.
    pub fn union(self, rhs: Self) -> (r: Self)
        ensures
            r@ == self@ | rhs@,
    {
        Self(self.0 | rhs.0)
    }

    /// The bits set in both words.
    pub fn intersection(self, rhs: Self) -> (r: Self)
        ensures
            r@ == self@ & rhs@,
    {
        Self(self.0 & rhs.0)
    }
}

impl core::ops::BitOr for LcrhFlags {
    type Output = Self;

    /// `a | b`: the bits set in either word.
    fn bitor(self, rhs: Self) -> (r: Self)
        ensures
            r@ == self@ | rhs@,
    {
        self.union(rhs)
    }
}

impl vstd::std_specs::ops::BitOrSpecImpl for LcrhFlags {
    open spec fn obeys_bitor_spec() -> bool {
        true
    }

    open spec fn bitor_req(self, rhs: Self) -> bool {
        true
    }

    closed spec fn bitor_spec(self, rhs: Self) -> Self {
        LcrhFlags(self.0 | rhs.0)
    }
}

impl core::ops::BitAnd for LcrhFlags {
    type Output = Self;

    /// `a & b`: the bits set in both words.
    fn bitand(self, rhs: Self) -> (r: Self)
        ensures
            r@ == self@ & rhs@,
    {
        self.intersection(rhs)
    }
}

impl vstd::std_specs::ops::BitAndSpecImpl for LcrhFlags {
    open spec fn obeys_bitand_spec() -> bool {
        true
    }

    open spec fn bitand_req(self, rhs: Self) -> bool {
        true
    }

    closed spec fn bitand_spec(self, rhs: Self) -> Self {
        LcrhFlags(self.0 & rhs.0)
    }
}

/// `CrFlags`: UART enable (master switch).
pub const CR_UARTEN: u32 = 0x1;

/// `CrFlags`: IrDA SIR enable.
pub const CR_SIREN: u32 = 0x2;

/// `CrFlags`: IrDA low-power mode.
pub const CR_SIRLP: u32 = 0x4;

/// `CrFlags`: Loopback enable.
pub const CR_LBE: u32 = 0x80;

/// `CrFlags`: Transmit enable.
pub const CR_TXE: u32 = 0x100;

/// `CrFlags`: Receive enable.
pub const CR_RXE: u32 = 0x200;

/// `CrFlags`: Data Terminal Ready (modem).
pub const CR_DTR: u32 = 0x400;

/// `CrFlags`: Request To Send (modem).
pub const CR_RTS: u32 = 0x800;

/// `CrFlags`: User-defined output 1.
pub const CR_OUT1: u32 = 0x1000;

/// `CrFlags`: User-defined output 2.
pub const CR_OUT2: u32 = 0x2000;

/// `CrFlags`: Hardware RTS flow control.
pub const CR_RTSEN: u32 = 0x4000;

/// `CrFlags`: Hardware CTS flow control.
pub const CR_CTSEN: u32 = 0x8000;

/// Control Register (0x030) bits.
#[derive(Debug, Copy, Clone, PartialEq, Eq, Structural)]
pub struct CrFlags(u32);

impl View for CrFlags {
    type V = u32;

    closed spec fn view(&self) -> u32 {
        self.0
    }
}

impl CrFlags {
    /// No bit set.
    pub fn none() -> (r: Self)
        ensures
            r@ == 0,
    {
        Self(0)
    }

    pub fn raw(self) -> (r: u32)
        ensures
            r == self@,
    {
        self.0
    }

    pub fn from_raw(raw: u32) -> (r: Self)
        ensures
            r@ == raw,
    {
        Self(raw)
    }

    /// Whether every bit of `other` is set here.
    pub fn contains(self, other: Self) -> (r: bool)
        ensures
            r == (self@ & other@ == other@),
    {
        (self.0 & other.0) == other.0
    }

    /// The bits set in either word.
    pub fn union(self, rhs: Self) -> (r: Self)
        ensures
            r@ == self@ | rhs@,
    {
        Self(self.0 | rhs.0)
    }

    /// The bits set in both words.
    pub fn intersection(self, rhs: Self) -> (r: Self)
        ensures
            r@ == self@ & rhs@,
    {
        Self(self.0 & rhs.0)
    }
}

impl core::ops::BitOr for CrFlags {
    type Output = Self;

    /// `a | b`: the bits set in either word.
    fn bitor(self, rhs: Self) -> (r: Self)
        ensures
            r@ == self@ | rhs@,
    {
        self.union(rhs)
    }
}

impl vstd::std_specs::ops::BitOrSpecImpl for CrFlags {
    open spec fn obeys_bitor_spec() -> bool {
        true
    }

    open spec fn bitor_req(self, rhs: Self) -> bool {
        true
    }

    closed spec fn bitor_spec(self, rhs: Self) -> Self {
        CrFlags(self.0 | rhs.0)
    }
}

impl core::ops::BitAnd for CrFlags {
    type Output = Self;

    /// `a & b`: the bits set in both words.
    fn bitand(self, rhs: Self) -> (r: Self)
        ensures
            r@ == self@ & rhs@,
    {
        self.intersection(rhs)
    }
}

impl vstd::std_specs::ops::BitAndSpecImpl for CrFlags {
    open spec fn obeys_bitand_spec() -> bool {
        true
    }

    open spec fn bitand_req(self, rhs: Self) -> bool {
        true
    }

    closed spec fn bitand_spec(self, rhs: Self) -> Self {
        CrFlags(self.0 & rhs.0)
    }
}

/// `InterruptFlags`: Ring indicator modem interrupt.
pub const INT_RIM: u32 = 0x1;

/// `InterruptFlags`: CTS modem interrupt.
pub const INT_CTSM: u32 = 0x2;

/// `InterruptFlags`: DCD modem interrupt.
pub const INT_DCDM: u32 = 0x4;

/// `InterruptFlags`: DSR modem interrupt.
pub const INT_DSRM: u32 = 0x8;

/// `InterruptFlags`: Receive interrupt.
pub const INT_RX: u32 = 0x10;

/// `InterruptFlags`: Transmit interrupt.
pub const INT_TX: u32 = 0x20;

/// `InterruptFlags`: Receive timeout.
pub const INT_RT: u32 = 0x40;

/// `InterruptFlags`: Framing error.
pub const INT_FE: u32 = 0x80;

/// `InterruptFlags`: Parity error.
pub const INT_PE: u32 = 0x100;

/// `InterruptFlags`: Break error.
pub const INT_BE: u32 = 0x200;

/// `InterruptFlags`: Overrun error.
pub const INT_OE: u32 = 0x400;

/// Interrupt mask / status / clear bits (IMSC / RIS / MIS / ICR).
#[derive(Debug, Copy, Clone, PartialEq, Eq, Structural)]
pub struct InterruptFlags(u32);

impl View for InterruptFlags {
    type V = u32;

    closed spec fn view(&self) -> u32 {
        self.0
    }
}

impl InterruptFlags {
    /// No bit set.
    pub fn none() -> (r: Self)
        ensures
            r@ == 0,
    {
        Self(0)
    }

    pub fn raw(self) -> (r: u32)
        ensures
            r == self@,
    {
        self.0
    }

    pub fn from_raw(raw: u32) -> (r: Self)
        ensures
            r@ == raw,
    {
        Self(raw)
    }

    /// Whether every bit of `other` is set here.
    pub fn contains(self, other: Self) -> (r: bool)
        ensures
            r == (self@ & other@ == other@),
    {
        (self.0 & other.0) == other.0
    }

    /// The bits set in either word.
    pub fn union(self, rhs: Self) -> (r: Self)
        ensures
            r@ == self@ | rhs@,
    {
        Self(self.0 | rhs.0)
    }

    /// The bits set in both words.
    pub fn intersection(self, rhs: Self) -> (r: Self)
        ensures
            r@ == self@ & rhs@,
    {
        Self(self.0 & rhs.0)
    }
}

impl core::ops::BitOr for InterruptFlags {
    type Output = Self;

    /// `a | b`: the bits set in either word.
    fn bitor(self, rhs: Self) -> (r: Self)
        ensures
            r@ == self@ | rhs@,
    {
        self.union(rhs)
    }
}

impl vstd::std_specs::ops::BitOrSpecImpl for InterruptFlags {
    open spec fn obeys_bitor_spec() -> bool {
        true
    }

    open spec fn bitor_req(self, rhs: Self) -> bool {
        true
    }

    closed spec fn bitor_spec(self, rhs: Self) -> Self {
        InterruptFlags(self.0 | rhs.0)
    }
}

impl core::ops::BitAnd for InterruptFlags {
    type Output = Self;

    /// `a & b`: the bits set in both words.
    fn bitand(self, rhs: Self) -> (r: Self)
        ensures
            r@ == self@ & rhs@,
    {
        self.intersection(rhs)
    }
}

impl vstd::std_specs::ops::BitAndSpecImpl for InterruptFlags {
    open spec fn obeys_bitand_spec() -> bool {
        true
    }

    open spec fn bitand_req(self, rhs: Self) -> bool {
        true
    }

    closed spec fn bitand_spec(self, rhs: Self) -> Self {
        InterruptFlags(self.0 & rhs.0)
    }
}

/// A word contains itself and every part of it, and a union contains both
/// of its sides.
pub proof fn lemma_flags_contain(a: u32, b: u32)
    ensures
        a & a == a,
        (a | b) & a == a,
        (a | b) & b == b,
        (a & b) & (a & b) == a & b,
        a & 0 == 0,
{
    assert(a & a == a && (a | b) & a == a && (a | b) & b == b && (a & b) & (a & b) == a & b && a
        & 0 == 0) by (bit_vector);
}

/// Whether the transmitter can take a byte: the TX FIFO is not full.
pub fn tx_ready(fr: FrFlags) -> (r: bool)
    ensures
        r == (fr@ & FR_TXFF != FR_TXFF),
{
    !fr.contains(FrFlags::from_raw(FR_TXFF))
}

/// The data-register word that sends byte `b`.
pub fn data_word(b: u8) -> (r: u32)
    ensures
        r == b,
{
    b as u32
}

} // verus!
