use udoc::decoder::{decode_value, ListDecoder, Payload};
use udoc::encoder::Encoder;
use udoc::reader::Reader;
use udoc::validate;

#[test]
fn raw_encoder_builds_a_list() {
    let mut encoder = Encoder::new(8, true);
    encoder.append_byte(0x15);
    encoder.begin_size();
    encoder.append_size(2);
    encoder.append_byte(0x03);
    encoder.append_byte(0x02);
    encoder.end_size();
    let bytes = encoder.build().unwrap();
    // list scope: size 3, count 2, true, false
    assert_eq!(bytes, vec![0x15, 0x0C, 0x08, 0x03, 0x02]);
    assert_eq!(validate(&bytes), Ok(()));
}

#[test]
fn compaction_removes_placeholder_padding() {
    let mut wide = Encoder::new(8, true);
    wide.append_byte(0x15);
    wide.begin_size();
    wide.append_size(1);
    wide.append_byte(0x01);
    wide.end_size();
    let compact = wide.build().unwrap();

    let mut narrow = Encoder::new(1, true);
    narrow.append_byte(0x15);
    narrow.begin_size();
    narrow.append_size(1);
    narrow.append_byte(0x01);
    narrow.end_size();
    let small = narrow.build().unwrap();

    // padding width never shows in the compacted output
    assert_eq!(compact, small);
    assert_eq!(compact, vec![0x15, 0x08, 0x04, 0x01]);
}

#[test]
fn uncompressed_build_keeps_full_width_sizes() {
    let mut encoder = Encoder::new(2, false);
    encoder.append_byte(0x15);
    encoder.begin_size();
    encoder.append_size(1);
    encoder.append_byte(0x01);
    encoder.end_size();
    let bytes = encoder.build().unwrap();
    // the scope size 2 is written in the full two-byte class: (2 << 2) | 1
    assert_eq!(bytes, vec![0x15, 0x09, 0x00, 0x04, 0x01]);
    assert_eq!(validate(&bytes), Ok(()));
    let mut reader = Reader::new(&bytes);
    let value = decode_value(&mut reader).unwrap();
    match value.payload {
        Payload::List(body) => {
            let mut elements = ListDecoder::new(body).unwrap();
            assert_eq!(elements.remaining(), 1);
            let element = elements.next().unwrap();
            assert!(matches!(element.payload, Payload::Null));
            assert!(elements.check_error().is_ok());
        },
        _ => panic!("expected a list payload"),
    }
}

#[test]
fn append_symbol_writes_tagged_prefix() {
    let mut encoder = Encoder::new(8, true);
    encoder.append_symbol(b"ab");
    let bytes = encoder.build().unwrap();
    // (2 << 1 | 1) = 5 encoded as (5 << 2) = 0x14, then the bytes
    assert_eq!(bytes, vec![0x14, 0x61, 0x62]);
}

#[test]
fn size_reports_logical_bytes() {
    let mut encoder = Encoder::new(8, true);
    encoder.append(b"xyz");
    assert_eq!(encoder.size(), 3);
    let mut scoped = Encoder::new(8, true);
    scoped.begin_size();
    scoped.append_byte(0);
    scoped.end_size();
    // a closed scope counts its minimal size byte plus its content
    assert_eq!(scoped.size(), 2);
}

#[test]
fn build_append_extends_a_sink() {
    let mut encoder = Encoder::new(8, true);
    encoder.append_byte(0x01);
    let mut sink = vec![0xEEu8];
    encoder.build_append(&mut sink).unwrap();
    assert_eq!(sink, vec![0xEE, 0x01]);
}

#[test]
fn nested_scopes_compact_in_order() {
    let mut encoder = Encoder::new(8, true);
    encoder.append_byte(0x15);
    encoder.begin_size();
    encoder.append_size(1);
    encoder.append_byte(0x15);
    encoder.begin_size();
    encoder.append_size(1);
    encoder.append_byte(0x01);
    encoder.end_size();
    encoder.end_size();
    let bytes = encoder.build().unwrap();
    assert_eq!(bytes, vec![0x15, 0x14, 0x04, 0x15, 0x08, 0x04, 0x01]);
    assert_eq!(validate(&bytes), Ok(()));
}
