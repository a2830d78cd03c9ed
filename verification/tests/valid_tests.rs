use dupscan::valid::is_valid_utf8_exec;

fn agrees_with_std(bytes: &[u8]) {
    let v = bytes.to_vec();
    assert_eq!(is_valid_utf8_exec(&v), std::str::from_utf8(bytes).is_ok());
}

#[test]
fn empty_and_ascii_are_text() {
    agrees_with_std(b"");
    agrees_with_std(b"plain name.txt");
    assert!(is_valid_utf8_exec(&b"plain".to_vec()));
}

#[test]
fn multibyte_sequences_are_text() {
    // two-, three- and four-byte encodings
    agrees_with_std(&[0xC3, 0xA9]);
    agrees_with_std(&[0xE2, 0x82, 0xAC]);
    agrees_with_std(&[0xF0, 0x9F, 0x98, 0x80]);
    agrees_with_std("mélange-€-😀".as_bytes());
}

#[test]
fn malformed_sequences_are_not_text() {
    // lone continuation byte
    agrees_with_std(&[0x80]);
    // overlong encoding
    agrees_with_std(&[0xC0, 0x80]);
    agrees_with_std(&[0xE0, 0x80, 0x80]);
    // surrogate range
    agrees_with_std(&[0xED, 0xA0, 0x80]);
    // truncated sequences
    agrees_with_std(&[0xC3]);
    agrees_with_std(&[0xE2, 0x82]);
    agrees_with_std(&[0xF0, 0x9F, 0x98]);
    // beyond the last scalar value
    agrees_with_std(&[0xF4, 0x90, 0x80, 0x80]);
    // stray bytes never valid anywhere
    agrees_with_std(&[0xFE]);
    agrees_with_std(&[0xFF]);
    // a bad byte in the middle of sound text
    agrees_with_std(&[0x61, 0xC3, 0x20, 0x62]);
}
