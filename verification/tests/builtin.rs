use preon::builtin::uart::{
    data_word, tx_ready, CrFlags, FrFlags, InterruptFlags, LcrhFlags, CR_RXE, CR_TXE, CR_UARTEN,
    FR_BUSY, FR_TXFF, INT_OE, INT_RX, LCRH_FEN, LCRH_WLEN_8, UART_BASE, UART_FR, UART_PA,
};
use preon::mm::layout::KERNEL_DEVICE_BASE;

#[test]
fn uart_base_is_device_mapping_of_pa() {
    assert_eq!(UART_BASE, KERNEL_DEVICE_BASE + UART_PA);
    assert_eq!(UART_FR, 0x18);
}

#[test]
fn flag_words_combine() {
    let cr = CrFlags::from_raw(CR_UARTEN).union(CrFlags::from_raw(CR_TXE)).union(CrFlags::from_raw(CR_RXE));
    assert_eq!(cr.raw(), 0x301);
    assert!(cr.contains(CrFlags::from_raw(CR_TXE)));
    assert!(!cr.contains(CrFlags::from_raw(0x400)));
    assert!(cr.contains(CrFlags::none()));
    assert_eq!(cr.intersection(CrFlags::from_raw(CR_TXE)).raw(), CR_TXE);
    let lcrh = LcrhFlags::from_raw(LCRH_FEN).union(LcrhFlags::from_raw(LCRH_WLEN_8));
    assert_eq!(lcrh.raw(), 0x70);
    let ints = InterruptFlags::from_raw(INT_RX).union(InterruptFlags::from_raw(INT_OE));
    assert!(ints.contains(InterruptFlags::from_raw(INT_OE)));
    assert_eq!(ints.intersection(InterruptFlags::none()).raw(), 0);
}

#[test]
fn transmitter_readiness() {
    assert!(tx_ready(FrFlags::none()));
    assert!(tx_ready(FrFlags::from_raw(FR_BUSY)));
    assert!(!tx_ready(FrFlags::from_raw(FR_TXFF)));
    assert!(!tx_ready(FrFlags::from_raw(FR_TXFF | FR_BUSY)));
    assert_eq!(data_word(b'A'), 0x41);
}

#[test]
fn flag_operators_match_the_methods() {
    let cr = CrFlags::from_raw(CR_UARTEN) | CrFlags::from_raw(CR_TXE) | CrFlags::from_raw(CR_RXE);
    assert_eq!(cr.raw(), 0x301);
    assert_eq!((cr & CrFlags::from_raw(CR_TXE)).raw(), CR_TXE);
    assert_eq!((cr & CrFlags::none()).raw(), 0);
    let fr = FrFlags::from_raw(FR_BUSY) | FrFlags::from_raw(FR_TXFF);
    assert_eq!(fr, FrFlags::from_raw(FR_BUSY | FR_TXFF));
    assert_eq!(fr & FrFlags::from_raw(FR_TXFF), FrFlags::from_raw(FR_TXFF));
    let lcrh = LcrhFlags::from_raw(LCRH_FEN) | LcrhFlags::from_raw(LCRH_WLEN_8);
    assert_eq!(lcrh, LcrhFlags::from_raw(LCRH_FEN).union(LcrhFlags::from_raw(LCRH_WLEN_8)));
    let ints = InterruptFlags::from_raw(INT_RX) | InterruptFlags::from_raw(INT_OE);
    assert_eq!((ints & InterruptFlags::from_raw(INT_RX)).raw(), INT_RX);
}
