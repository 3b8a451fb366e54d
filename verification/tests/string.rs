use nobility::bin_decode::NbtString;

#[test]
fn test_string_debug_malformed() {
    let data: Vec<u8> = vec![
        0x66, 0x6F, 0x6F, 0x20, 0x62, 0x61, 0x72, 0x22, 0x20, 0x00, 0x20, 0xC0,
    ];
    let string = NbtString::new(&data);

    let formatted = string.debug_string();
    assert_eq!(formatted, "\"foo bar\\\" \\0 \\xC0\"");
}

#[test]
fn test_string_debug_valid() {
    let data: Vec<u8> = vec![0x61, 0x62, 0x63];
    let string = NbtString::new(&data);
    assert_eq!(string.debug_string(), "\"abc\"");
}

#[test]
fn test_string_debug_control_bytes() {
    let data: Vec<u8> = vec![0x09, 0x0A, 0x0D, 0x5C, 0x27, 0x01, 0x1F, 0x7F, 0xC1];
    let string = NbtString::new(&data);
    assert_eq!(
        string.debug_string(),
        "\"\\t\\n\\r\\\\\\'\\u{1}\\u{1f}\\u{7f}\\xC1\""
    );
}

#[test]
fn test_decode_modified_nul() {
    // The two-byte modified-UTF-8 form decodes to the NUL character;
    // the raw bytes are left as they are.
    let data: Vec<u8> = vec![0xC0, 0x80];
    let string = NbtString::new(&data);
    assert_eq!(string.as_bytes(), &[0xC0, 0x80]);
    assert_eq!(string.decode().unwrap(), "\u{0}");
}

#[test]
fn test_decode_invalid_fails() {
    let data: Vec<u8> = vec![0xC0];
    let string = NbtString::new(&data);
    assert!(string.decode().is_err());
}
