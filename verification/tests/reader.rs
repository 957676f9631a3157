use udoc::reader::Reader;

#[test]
fn reader_walks_bytes_one_by_one() {
    let data = vec![10u8, 20, 30];
    let mut reader = Reader::new(&data);
    assert_eq!(reader.remaining(), 3);
    assert!(reader.has_some());
    assert!(!reader.empty());
    assert_eq!(reader.next(), Some(&10u8));
    assert_eq!(reader.next(), Some(&20u8));
    assert_eq!(reader.next(), Some(&30u8));
    assert_eq!(reader.next(), None);
    assert!(reader.empty());
}

#[test]
fn reader_peek_does_not_consume() {
    let data = vec![1u8, 2, 3];
    let reader = Reader::new(&data);
    assert_eq!(reader.peek(0), Some(&1u8));
    assert_eq!(reader.peek(2), Some(&3u8));
    assert_eq!(reader.peek(3), None);
    assert_eq!(reader.remaining(), 3);
}

#[test]
fn reader_next_n_slices_and_advances() {
    let data = vec![5u8, 6, 7, 8];
    let mut reader = Reader::new(&data);
    assert!(reader.has_n(4));
    assert!(!reader.has_n(5));
    assert_eq!(reader.peek_n(2), Some(&data[0..2]));
    assert_eq!(reader.next_n(2), Some(&data[0..2]));
    assert_eq!(reader.rest(), &data[2..]);
    assert_eq!(reader.next_n(3), None);
    assert_eq!(reader.next_n(2), Some(&data[2..4]));
}

#[test]
fn reader_unsigned_le_reads() {
    let data = vec![0x01u8, 0x02, 0x03, 0x04, 0x05, 0x06, 0x07, 0x08];
    let mut reader = Reader::new(&data);
    assert_eq!(reader.next_u8_le(), Some(0x01));
    assert_eq!(reader.next_u16_le(), Some(0x0302));
    assert_eq!(reader.next_u32_le(), Some(0x07060504));
    let mut reader64 = Reader::new(&data);
    assert_eq!(reader64.next_u64_le(), Some(0x0807060504030201));
}

#[test]
fn reader_signed_le_reads() {
    let data = vec![0xFFu8, 0xFF, 0x80, 0x7F];
    let mut reader = Reader::new(&data);
    assert_eq!(reader.next_i8_le(), Some(-1));
    assert_eq!(reader.next_i16_le(), Some(0x80FF_u16 as i16));
    let data16 = vec![0xFEu8, 0xFF];
    let mut r16 = Reader::new(&data16);
    assert_eq!(r16.next_i16_le(), Some(-2));
    let data32 = vec![0x00u8, 0x00, 0x00, 0x80];
    let mut r32 = Reader::new(&data32);
    assert_eq!(r32.next_i32_le(), Some(i32::MIN));
    let data64 = vec![0xFFu8; 8];
    let mut r64 = Reader::new(&data64);
    assert_eq!(r64.next_i64_le(), Some(-1i64));
}

#[test]
fn reader_fixed_arrays() {
    let data = vec![9u8, 8, 7, 6];
    let mut reader = Reader::new(&data);
    assert_eq!(reader.next_bytes::<2>(), Some([9u8, 8]));
    assert_eq!(reader.next_bytes_le::<2>(), Some([7u8, 6]));
    assert_eq!(reader.next_bytes::<1>(), None);
}

#[test]
fn reader_reads_fail_without_consuming() {
    let data = vec![1u8, 2];
    let mut reader = Reader::new(&data);
    assert_eq!(reader.next_u32_le(), None);
    assert_eq!(reader.remaining(), 2);
    assert_eq!(reader.next_u16_le(), Some(0x0201));
}

#[test]
fn peek_next_n_matches_peek_n() {
    let data = vec![4u8, 5, 6];
    let reader = Reader::new(&data);
    assert_eq!(reader.peek_next_n(2), Some(&data[0..2]));
    assert_eq!(reader.peek_next_n(4), None);
    assert_eq!(reader.remaining(), 3);
}
