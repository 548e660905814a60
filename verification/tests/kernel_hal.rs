use theos::kernel::hal::gic::install_exception_vector;
use theos::kernel::hal::uart::{init, write_str, UartWriter};

#[test]
fn uart_sends_crlf_for_newlines() {
    init();
    assert_eq!(write_str("a\nb\n"), b"a\r\nb\r\n".to_vec());
}

#[test]
fn uart_plain_text_unchanged() {
    assert_eq!(write_str("[boot] ok"), b"[boot] ok".to_vec());
    assert_eq!(write_str(""), Vec::<u8>::new());
    let _w = UartWriter;
}

#[test]
fn uart_existing_cr_is_kept() {
    assert_eq!(write_str("x\r\n"), b"x\r\r\n".to_vec());
}

#[test]
fn exception_vector_stub_returns() {
    install_exception_vector();
}
