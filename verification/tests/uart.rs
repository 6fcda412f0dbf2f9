use freelist_alloc::uart::Uart;

#[test]
fn uart_keeps_base_address() {
    let u = Uart::new(0x1000_0000);
    assert_eq!(u.base_address, 0x1000_0000);
}
