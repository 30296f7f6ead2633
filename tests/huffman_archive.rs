use tiracompress::{HuffmanArchive, HuffmanError};

fn round_trip(input: &[u8]) {
    let archive = HuffmanArchive::compress(input).unwrap();
    assert_eq!(archive.decompress().unwrap(), input.to_vec());
}

#[test]
fn round_trip_samples() {
    round_trip(b"What a nice day to write unit tests.");
    round_trip(&[7, 7, 7]);
    round_trip(&[1, 2, 3, 4]);
    round_trip(&[0]);
    let all: Vec<u8> = (0..=255u8).chain(0..=255u8).chain(0..100u8).collect();
    round_trip(&all);
}

#[test]
fn compress_is_deterministic() {
    let input = b"abracadabra, abracadabra";
    let a = HuffmanArchive::compress(input).unwrap();
    let b = HuffmanArchive::compress(input).unwrap();
    assert_eq!(a.codes.codes, b.codes.codes);
    assert_eq!(a.compressed_data, b.compressed_data);
    assert_eq!(a.padding, b.padding);
}

#[test]
fn empty_input() {
    let a = HuffmanArchive::compress(&[]).unwrap();
    assert_eq!(a.codes.num_entries(), 0);
    assert!(a.compressed_data.is_empty());
    assert_eq!(a.padding, 0);
    assert_eq!(a.decompress().unwrap(), Vec::<u8>::new());
}

#[test]
fn payload_and_padding() {
    // 1 -> 00, 2 -> 01, 3 -> 10, 4 -> 11: eight bits, no padding.
    let a = HuffmanArchive::compress(&[1, 2, 3, 4]).unwrap();
    assert_eq!(a.compressed_data, vec![0b_0001_1011]);
    assert_eq!(a.padding, 0);
    // Three one-bit codes: five padding bits.
    let a = HuffmanArchive::compress(&[7, 7, 7]).unwrap();
    assert_eq!(a.compressed_data, vec![0]);
    assert_eq!(a.padding, 5);
    assert_eq!(a.decompress().unwrap(), vec![7, 7, 7]);
    // 1 -> 0, 4 -> 10, 2 -> 110, 3 -> 111: ten bits, six padding bits.
    let a = HuffmanArchive::compress(&[1, 2, 3, 4, 1]).unwrap();
    assert_eq!(a.compressed_data.len(), 2);
    assert_eq!(a.padding, 6);
}

#[test]
fn decompress_rejects_bad_padding() {
    let mut a = HuffmanArchive::compress(&[7, 7, 7]).unwrap();
    a.padding = 8;
    assert_eq!(a.decompress(), Err(HuffmanError::Malformed));
}

#[test]
fn decompress_rejects_truncated_payload() {
    // Codes of length two; a payload with one data bit reaches no code.
    let mut a = HuffmanArchive::compress(&[1, 2, 3, 4]).unwrap();
    a.padding = 7;
    assert_eq!(a.decompress(), Err(HuffmanError::BadPayload));
}

#[test]
fn layout_of_single_symbol() {
    let a = HuffmanArchive::compress(&[7, 7, 7]).unwrap();
    assert_eq!(a.to_bytes(), vec![1, 7, 1, 0, 0, 0, 0, 5, 0]);
}

#[test]
fn layout_of_empty_input() {
    let a = HuffmanArchive::compress(&[]).unwrap();
    let bytes = a.to_bytes();
    assert_eq!(bytes, vec![0, 0]);
    let back = HuffmanArchive::from_bytes(&bytes).unwrap();
    assert_eq!(back.decompress().unwrap(), Vec::<u8>::new());
}

#[test]
fn layout_round_trip() {
    let input = b"What a nice day to write unit tests.";
    let a = HuffmanArchive::compress(input).unwrap();
    let bytes = a.to_bytes();
    assert_eq!(bytes[0], 17);
    assert_eq!(bytes.len(), 1 + 17 * 6 + 1 + a.compressed_data.len());
    let back = HuffmanArchive::from_bytes(&bytes).unwrap();
    assert_eq!(back.codes.codes, a.codes.codes);
    assert_eq!(back.compressed_data, a.compressed_data);
    assert_eq!(back.padding, a.padding);
    assert_eq!(back.decompress().unwrap(), input.to_vec());
}

#[test]
fn layout_with_every_byte_value() {
    let input: Vec<u8> = (0..=255u8).collect();
    let a = HuffmanArchive::compress(&input).unwrap();
    let bytes = a.to_bytes();
    assert_eq!(bytes[0], 0);
    let back = HuffmanArchive::from_bytes(&bytes).unwrap();
    assert_eq!(back.codes.num_entries(), 256);
    assert_eq!(back.decompress().unwrap(), input);
}

#[test]
fn from_bytes_rejects_malformed() {
    assert!(matches!(HuffmanArchive::from_bytes(&[]), Err(HuffmanError::Malformed)));
    assert!(matches!(HuffmanArchive::from_bytes(&[1]), Err(HuffmanError::Malformed)));
    // One entry declared, not enough bytes for it.
    assert!(matches!(HuffmanArchive::from_bytes(&[1, 7, 1, 0]), Err(HuffmanError::Malformed)));
    // Code length zero.
    assert!(matches!(
        HuffmanArchive::from_bytes(&[1, 7, 0, 0, 0, 0, 0, 0]),
        Err(HuffmanError::Malformed)
    ));
    // Entries out of order.
    assert!(matches!(
        HuffmanArchive::from_bytes(&[2, 9, 1, 0, 0, 0, 1, 3, 1, 0, 0, 0, 0, 0]),
        Err(HuffmanError::Malformed)
    ));
}
