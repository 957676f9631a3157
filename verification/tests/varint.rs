use udoc::common::{decode_size, decode_size_as_usize, encode_size, peek_decode_size, u64_to_usize};
use udoc::reader::Reader;

fn roundtrip(value: u64) -> (Vec<u8>, usize) {
    let (bytes, length) = encode_size(value);
    let encoded = bytes[..length].to_vec();
    let mut reader = Reader::new(&encoded);
    assert_eq!(decode_size(&mut reader), Some(value));
    assert_eq!(reader.remaining(), 0);
    (encoded, length)
}

#[test]
fn varint_zero_is_one_zero_byte() {
    let (encoded, length) = roundtrip(0);
    assert_eq!(length, 1);
    assert_eq!(encoded, vec![0x00]);
}

#[test]
fn varint_63_fits_one_byte() {
    let (encoded, length) = roundtrip(63);
    assert_eq!(length, 1);
    assert_eq!(encoded, vec![0xFC]);
}

#[test]
fn varint_64_takes_two_bytes() {
    let (encoded, length) = roundtrip(64);
    assert_eq!(length, 2);
    assert_eq!(encoded, vec![0x01, 0x01]);
}

#[test]
fn varint_16383_fits_two_bytes() {
    let (encoded, length) = roundtrip(16383);
    assert_eq!(length, 2);
    assert_eq!(encoded, vec![0xFD, 0xFF]);
}

#[test]
fn varint_16384_takes_four_bytes() {
    let (encoded, length) = roundtrip(16384);
    assert_eq!(length, 4);
    assert_eq!(encoded, vec![0x02, 0x00, 0x01, 0x00]);
}

#[test]
fn varint_width_boundaries_roundtrip() {
    let (_, l1) = roundtrip((1 << 30) - 1);
    assert_eq!(l1, 4);
    let (_, l2) = roundtrip(1 << 30);
    assert_eq!(l2, 8);
    let (_, l3) = roundtrip((1 << 62) - 1);
    assert_eq!(l3, 8);
}

#[test]
fn decoder_accepts_wider_than_minimal() {
    // the value 5 written in the two-byte class: (5 << 2) | 1 = 21
    let wide = vec![21u8, 0x00];
    let mut reader = Reader::new(&wide);
    assert_eq!(decode_size(&mut reader), Some(5));
    assert_eq!(reader.remaining(), 0);
}

#[test]
fn decode_size_fails_on_truncated_input() {
    // class tag 3 asks for eight bytes; only two are there
    let short = vec![0x03u8, 0x00];
    let mut reader = Reader::new(&short);
    assert_eq!(decode_size(&mut reader), None);
    assert_eq!(reader.remaining(), 2);
}

#[test]
fn decode_size_fails_on_empty_input() {
    let empty: Vec<u8> = vec![];
    let mut reader = Reader::new(&empty);
    assert_eq!(decode_size(&mut reader), None);
}

#[test]
fn peek_decode_size_leaves_reader_alone() {
    let (bytes, length) = encode_size(300);
    let encoded = bytes[..length].to_vec();
    let reader = Reader::new(&encoded);
    assert_eq!(peek_decode_size(&reader), Some((300, 2)));
    assert_eq!(reader.remaining(), encoded.len());
}

#[test]
fn u64_to_usize_accepts_small_values() {
    assert_eq!(u64_to_usize(12345), Some(12345usize));
}

#[test]
fn decode_size_as_usize_advances() {
    let (bytes, length) = encode_size(77);
    let encoded = bytes[..length].to_vec();
    let mut reader = Reader::new(&encoded);
    assert_eq!(decode_size_as_usize(&mut reader), Some(77usize));
    assert!(reader.empty());
}
