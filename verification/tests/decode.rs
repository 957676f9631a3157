use udoc::decoder::{decode_value, ListDecoder, Payload, TagSymbol};
use udoc::reader::Reader;
use udoc::wire_type::WireType;
use udoc::{validate, ValidateError};

#[test]
fn null_root_decodes_and_validates() {
    let bytes = vec![0x01u8];
    assert_eq!(validate(&bytes), Ok(()));
    let mut reader = Reader::new(&bytes);
    let value = decode_value(&mut reader).unwrap();
    assert_eq!(value.ty, WireType::Null);
    assert!(!value.has_tags);
    assert!(!value.has_kind);
    assert!(matches!(value.payload, Payload::Null));
    assert!(reader.empty());
}

#[test]
fn booleans_decode() {
    let mut rt = Reader::new(&[0x03u8][..]);
    let vt = decode_value(&mut rt).unwrap();
    assert_eq!(vt.ty, WireType::BoolTrue);
    assert!(matches!(vt.payload, Payload::Bool(true)));

    let mut rf = Reader::new(&[0x02u8][..]);
    let vf = decode_value(&mut rf).unwrap();
    assert_eq!(vf.ty, WireType::BoolFalse);
    assert!(matches!(vf.payload, Payload::Bool(false)));
}

#[test]
fn nat8_255_decodes() {
    let bytes = vec![0x04u8, 0xFF];
    assert_eq!(validate(&bytes), Ok(()));
    let mut reader = Reader::new(&bytes);
    let value = decode_value(&mut reader).unwrap();
    assert_eq!(value.ty, WireType::Nat8);
    assert!(matches!(value.payload, Payload::Nat8(255)));
}

#[test]
fn string_hi_decodes() {
    let bytes = vec![0x13u8, 0x08, 0x68, 0x69];
    assert_eq!(validate(&bytes), Ok(()));
    let mut reader = Reader::new(&bytes);
    let value = decode_value(&mut reader).unwrap();
    assert_eq!(value.ty, WireType::String);
    match value.payload {
        Payload::String(s) => assert_eq!(s, b"hi"),
        _ => panic!("expected a string payload"),
    }
    assert!(reader.empty());
}

#[test]
fn empty_list_compact_form_decodes() {
    let bytes = vec![0x15u8, 0x00];
    assert_eq!(validate(&bytes), Ok(()));
    let mut reader = Reader::new(&bytes);
    let value = decode_value(&mut reader).unwrap();
    assert_eq!(value.ty, WireType::List);
    match value.payload {
        Payload::List(body) => {
            let mut elements = ListDecoder::new(body).unwrap();
            assert_eq!(elements.remaining(), 0);
            assert!(elements.next().is_none());
            assert!(elements.check_error().is_ok());
        },
        _ => panic!("expected a list payload"),
    }
}

#[test]
fn map_style_object_decodes_via_tags() {
    // {"a": null} as Null + tags: one pair, symbol "a", value null
    let bytes = vec![0x81u8, 0x10, 0x04, 0x0C, 0x61, 0x01];
    assert_eq!(validate(&bytes), Ok(()));
    let mut reader = Reader::new(&bytes);
    let value = decode_value(&mut reader).unwrap();
    assert_eq!(value.ty, WireType::Null);
    assert!(value.has_tags);
    let mut tags = value.tags().unwrap();
    assert_eq!(tags.remaining(), 1);
    let (symbol, inner) = tags.next().unwrap();
    match symbol {
        TagSymbol::Bytes(name) => assert_eq!(name, b"a"),
    }
    assert_eq!(inner.ty, WireType::Null);
    assert!(tags.next().is_none());
    assert!(tags.check_error().is_ok());
    assert!(reader.empty());
}

#[test]
fn numeric_payloads_decode() {
    let mut r16 = Reader::new(&[0x05u8, 0x34, 0x12][..]);
    assert!(matches!(decode_value(&mut r16).unwrap().payload, Payload::Nat16(0x1234)));
    let mut r32 = Reader::new(&[0x06u8, 1, 0, 0, 0][..]);
    assert!(matches!(decode_value(&mut r32).unwrap().payload, Payload::Nat32(1)));
    let mut r64 = Reader::new(&[0x07u8, 2, 0, 0, 0, 0, 0, 0, 0][..]);
    assert!(matches!(decode_value(&mut r64).unwrap().payload, Payload::Nat64(2)));
    let mut i8r = Reader::new(&[0x08u8, 0xFF][..]);
    assert!(matches!(decode_value(&mut i8r).unwrap().payload, Payload::Int8(-1)));
    let mut i64r = Reader::new(&[0x0Bu8, 0xFF, 0xFF, 0xFF, 0xFF, 0xFF, 0xFF, 0xFF, 0xFF][..]);
    assert!(matches!(decode_value(&mut i64r).unwrap().payload, Payload::Int64(-1)));
}

#[test]
fn float_payloads_carry_bits() {
    let bits = 1.5f64.to_bits();
    let mut bytes = vec![0x0Du8];
    bytes.extend_from_slice(&bits.to_le_bytes());
    let mut reader = Reader::new(&bytes);
    match decode_value(&mut reader).unwrap().payload {
        Payload::Float64(stored) => assert_eq!(f64::from_bits(stored), 1.5),
        _ => panic!("expected a float payload"),
    }
}

#[test]
fn decimal_payloads_keep_raw_bytes() {
    let bytes = vec![0x0Eu8, 1, 2, 3, 4];
    let mut reader = Reader::new(&bytes);
    match decode_value(&mut reader).unwrap().payload {
        Payload::Decimal32(raw) => assert_eq!(raw, [1, 2, 3, 4]),
        _ => panic!("expected a decimal payload"),
    }
}

#[test]
fn invalid_wire_type_is_rejected() {
    // code 22 is outside the table
    let bytes = vec![22u8];
    let mut reader = Reader::new(&bytes);
    assert!(decode_value(&mut reader).is_none());
    assert_eq!(validate(&bytes), Err(ValidateError::Invalid));
    let zero = vec![0u8];
    assert_eq!(validate(&zero), Err(ValidateError::Invalid));
}

#[test]
fn reserved_kind_flag_is_rejected() {
    let bytes = vec![0x41u8];
    let mut reader = Reader::new(&bytes);
    assert!(decode_value(&mut reader).is_none());
    assert_eq!(validate(&bytes), Err(ValidateError::Invalid));
}

#[test]
fn invalid_utf8_string_is_rejected() {
    let bytes = vec![0x13u8, 0x04, 0xFF];
    let mut reader = Reader::new(&bytes);
    assert!(decode_value(&mut reader).is_none());
    assert_eq!(validate(&bytes), Err(ValidateError::Invalid));
}

#[test]
fn overlong_scalar_is_rejected() {
    // 0xC0 0x80 is an overlong encoding of NUL
    let bytes = vec![0x13u8, 0x08, 0xC0, 0x80];
    assert_eq!(validate(&bytes), Err(ValidateError::Invalid));
}

#[test]
fn trailing_data_is_its_own_error() {
    let bytes = vec![0x01u8, 0x00];
    assert_eq!(validate(&bytes), Err(ValidateError::TrailingData));
}

#[test]
fn truncated_value_is_rejected() {
    let bytes = vec![0x04u8];
    assert_eq!(validate(&bytes), Err(ValidateError::Invalid));
}

#[test]
fn tags_shorter_than_announced_are_rejected() {
    // tags region announces two pairs but holds too few bytes
    let bytes = vec![0x81u8, 0x0C, 0x08, 0x00, 0x00];
    assert_eq!(validate(&bytes), Err(ValidateError::Invalid));
}

#[test]
fn list_with_trailing_bytes_inside_is_rejected() {
    // list body: count 1, a null, and one stray byte
    let bytes = vec![0x15u8, 0x0C, 0x04, 0x01, 0x00];
    assert_eq!(validate(&bytes), Err(ValidateError::Invalid));
}

#[test]
fn reserved_symbol_form_is_rejected() {
    // a tag symbol whose low bit is clear is the undefined form
    // tags: count 1, symbol varint value 2 (low bit clear), then null
    let bytes = vec![0x81u8, 0x0C, 0x04, 0x08, 0x01];
    assert_eq!(validate(&bytes), Err(ValidateError::Invalid));
}

#[test]
fn tags_absent_means_zero_pairs() {
    let bytes = vec![0x01u8];
    let mut reader = Reader::new(&bytes);
    let value = decode_value(&mut reader).unwrap();
    assert!(!value.has_tags);
    let mut tags = value.tags().unwrap();
    assert_eq!(tags.remaining(), 0);
    assert!(tags.next().is_none());
    assert!(tags.check_error().is_ok());
}

#[test]
fn empty_tags_payload_is_an_empty_object() {
    let bytes = vec![0x81u8, 0x00];
    assert_eq!(validate(&bytes), Ok(()));
    let mut reader = Reader::new(&bytes);
    let value = decode_value(&mut reader).unwrap();
    assert!(value.has_tags);
    let tags = value.tags().unwrap();
    assert_eq!(tags.remaining(), 0);
    assert!(tags.check_error().is_ok());
}

#[test]
fn symbol_payload_decodes_plain() {
    // a Symbol payload is a plain size-prefixed byte string
    let bytes = vec![0x14u8, 0x08, 0x61, 0x62];
    assert_eq!(validate(&bytes), Ok(()));
    let mut reader = Reader::new(&bytes);
    match decode_value(&mut reader).unwrap().payload {
        Payload::Symbol(s) => assert_eq!(s, b"ab"),
        _ => panic!("expected a symbol payload"),
    }
}

#[test]
fn bytes_payload_decodes_plain() {
    let bytes = vec![0x12u8, 0x0C, 1, 2, 3];
    assert_eq!(validate(&bytes), Ok(()));
    let mut reader = Reader::new(&bytes);
    match decode_value(&mut reader).unwrap().payload {
        Payload::Bytes(b) => assert_eq!(b, &[1, 2, 3]),
        _ => panic!("expected a bytes payload"),
    }
}
