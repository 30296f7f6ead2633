use tiracompress::HuffmanCode;

// Make sure that unused bits are scrubbed during construction.
#[test]
fn test_equal() {
    let a = HuffmanCode::new(3, 0b_101);
    let b = HuffmanCode::new(3, 0b_101);
    assert_eq!(a, b);

    let a = HuffmanCode::new(3, 0b_101);
    let b = HuffmanCode::new(3, 0b_1101);
    assert_eq!(a, b);

    let a = HuffmanCode::new(2, 0b_101);
    let b = HuffmanCode::new(2, 0b_1101);
    assert_eq!(a, b);
}

/// Just make sure it prints right.
#[test]
fn test_display() {
    let code = HuffmanCode::new(3, 0b_101);
    assert_eq!(&code.to_string(), "101");

    let code = HuffmanCode::new(4, 0b_101);
    assert_eq!(&code.to_string(), "0101");

    let code = HuffmanCode::new(5, 0b_101);
    assert_eq!(&code.to_string(), "00101");

    let code = HuffmanCode::new(2, 0b_101);
    assert_eq!(&code.to_string(), "01");

    let code = HuffmanCode::new(2, 0b_11);
    assert_eq!(&code.to_string(), "11");
}

#[test]
fn normalization_clears_high_bits() {
    let a = HuffmanCode::new(3, 0b_1111_1010);
    let b = HuffmanCode::new(3, 0b_010);
    assert_eq!(a, b);
    assert_eq!(a.code(), 0b_010);
    assert_eq!(a.len(), 3);
    assert_ne!(HuffmanCode::new(3, 0b_101), HuffmanCode::new(4, 0b_101));
    let full = HuffmanCode::new(32, 0xdead_beef);
    assert_eq!(full.code(), 0xdead_beef);
}

#[test]
fn code_write_read_round_trip() {
    let c = HuffmanCode::new(13, 0x1abc);
    let mut out = vec![9u8];
    c.write(&mut out);
    assert_eq!(out, vec![9, 13, 0x00, 0x00, 0x1a, 0xbc]);
    assert_eq!(HuffmanCode::read(&out, 1), Some(c));
    assert_eq!(HuffmanCode::read(&out, 2), None);
}

#[test]
fn code_read_rejects_bad_input() {
    // length zero
    assert_eq!(HuffmanCode::read(&[0, 0, 0, 0, 0], 0), None);
    // length beyond 32
    assert_eq!(HuffmanCode::read(&[33, 0, 0, 0, 1], 0), None);
    // pattern bits set beyond the length
    assert_eq!(HuffmanCode::read(&[2, 0, 0, 0, 0b_111], 0), None);
    // too short
    assert_eq!(HuffmanCode::read(&[2, 0, 0], 0), None);
    assert_eq!(
        HuffmanCode::read(&[2, 0, 0, 0, 0b_11], 0),
        Some(HuffmanCode::new(2, 0b_11))
    );
}
