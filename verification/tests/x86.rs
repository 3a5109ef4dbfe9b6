use libazo::x86::x86_filter;

#[test]
fn test_no_e8_e9_unchanged() {
    let mut buf = vec![0x90, 0x90, 0x90, 0x90, 0x90, 0x90];
    let before = buf.clone();
    x86_filter(&mut buf);
    assert_eq!(buf, before);
}

#[test]
fn test_too_short() {
    let mut buf = vec![0xE8, 0x01, 0x02, 0x03];
    let before = buf.clone();
    x86_filter(&mut buf);
    assert_eq!(buf, before);
}

#[test]
fn test_empty() {
    let mut buf: Vec<u8> = vec![];
    x86_filter(&mut buf);
    assert!(buf.is_empty());
}

#[test]
fn test_e8_at_position_zero() {
    let mut buf = vec![0xE8, 0x05, 0x00, 0x00, 0x00, 0x90];
    x86_filter(&mut buf);
    assert_eq!(buf, vec![0xE8, 0x05, 0x00, 0x00, 0x00, 0x90]);
}

#[test]
fn test_e8_at_nonzero_position() {
    let mut buf = vec![0x90, 0x90, 0x90, 0x90, 0x90, 0xE8, 0x0A, 0x00, 0x00, 0x00];
    x86_filter(&mut buf);
    assert_eq!(
        buf,
        vec![0x90, 0x90, 0x90, 0x90, 0x90, 0xE8, 0x05, 0x00, 0x00, 0x00]
    );
}

#[test]
fn test_e9_jmp() {
    let mut buf = vec![0x90, 0x90, 0x90, 0x90, 0x90, 0xE9, 0x0A, 0x00, 0x00, 0x00];
    x86_filter(&mut buf);
    assert_eq!(
        buf,
        vec![0x90, 0x90, 0x90, 0x90, 0x90, 0xE9, 0x05, 0x00, 0x00, 0x00]
    );
}

#[test]
fn test_e8_high_byte_not_00_or_ff_skipped() {
    let mut buf = vec![0xE8, 0x05, 0x00, 0x00, 0x01, 0x90];
    let before = buf.clone();
    x86_filter(&mut buf);
    assert_eq!(buf, before);
}

#[test]
fn test_negative_address() {
    let mut buf = vec![0xE8, 0x10, 0x00, 0x00, 0xFF, 0x90];
    x86_filter(&mut buf);
    assert_eq!(buf, vec![0xE8, 0x10, 0x00, 0x00, 0xFF, 0x90]);
}

#[test]
fn x86_backward_target_sign_extends() {
    // At position 16, target 0x00000004 gives displacement -12: bit 24 set,
    // so the top byte becomes 0xFF.
    let mut buf = vec![0x90; 16];
    buf.extend_from_slice(&[0xE8, 0x04, 0x00, 0x00, 0x00, 0x90]);
    x86_filter(&mut buf);
    assert_eq!(&buf[16..21], &[0xE8, 0xF4, 0xFF, 0xFF, 0xFF]);
}

#[test]
fn x86_forward_target_clears_top_byte() {
    // At position 1, target 0xFF000003 minus 1 is 0xFF000002: bit 24 set.
    let mut buf = vec![0x00, 0xE9, 0x03, 0x00, 0x00, 0xFF];
    x86_filter(&mut buf);
    assert_eq!(buf, vec![0x00, 0xE9, 0x02, 0x00, 0x00, 0xFF]);
    // Target 0x00FFFFFF at position 0 keeps its low 24 bits; bit 24 clear.
    let mut buf = vec![0xE8, 0xFF, 0xFF, 0xFF, 0x00, 0x00];
    x86_filter(&mut buf);
    assert_eq!(buf, vec![0xE8, 0xFF, 0xFF, 0xFF, 0x00, 0x00]);
}

#[test]
fn x86_instruction_consumes_five_bytes() {
    // The E8 at 1 lies inside the operand of the E8 at 0 and is skipped.
    let mut buf = vec![0xE8, 0xE8, 0x00, 0x00, 0x00, 0x00, 0x00];
    x86_filter(&mut buf);
    assert_eq!(buf, vec![0xE8, 0xE8, 0x00, 0x00, 0x00, 0x00, 0x00]);
    let mut buf = vec![0x90, 0xE8, 0x07, 0x00, 0x00, 0x00, 0x90];
    x86_filter(&mut buf);
    assert_eq!(buf, vec![0x90, 0xE8, 0x06, 0x00, 0x00, 0x00, 0x90]);
}
