use udoc::doc::{decode_doc, encode_doc, Doc};
use udoc::encoder::{Encoder, Error};
use udoc::validate;

fn sample_tree() -> Doc {
    Doc::Object(vec![
        (b"name".to_vec(), Doc::Text(b"udoc".to_vec())),
        (b"ok".to_vec(), Doc::Bool(true)),
        (b"nothing".to_vec(), Doc::Null),
        (b"pi".to_vec(), Doc::Float64(3.25f64.to_bits())),
        (
            b"items".to_vec(),
            Doc::Array(vec![
                Doc::Float64(1.0f64.to_bits()),
                Doc::Text(String::from("z\u{00e9}").into_bytes()),
                Doc::Array(vec![]),
                Doc::Object(vec![]),
            ]),
        ),
    ])
}

#[test]
fn encode_null_gives_one_byte() {
    assert_eq!(encode_doc(&Doc::Null, 8, true).unwrap(), vec![0x01]);
}

#[test]
fn encode_booleans() {
    assert_eq!(encode_doc(&Doc::Bool(true), 8, true).unwrap(), vec![0x03]);
    assert_eq!(encode_doc(&Doc::Bool(false), 8, true).unwrap(), vec![0x02]);
}

#[test]
fn encode_empty_containers_compactly() {
    assert_eq!(encode_doc(&Doc::Array(vec![]), 8, true).unwrap(), vec![0x15, 0x00]);
    assert_eq!(encode_doc(&Doc::Object(vec![]), 8, true).unwrap(), vec![0x81, 0x00]);
}

#[test]
fn encode_single_pair_object() {
    let tree = Doc::Object(vec![(b"a".to_vec(), Doc::Null)]);
    let bytes = encode_doc(&tree, 8, true).unwrap();
    assert_eq!(bytes, vec![0x81, 0x10, 0x04, 0x0C, 0x61, 0x01]);
}

#[test]
fn encoded_trees_validate() {
    let bytes = encode_doc(&sample_tree(), 8, true).unwrap();
    assert_eq!(validate(&bytes), Ok(()));
}

#[test]
fn decode_undoes_encode() {
    let tree = sample_tree();
    let bytes = encode_doc(&tree, 8, true).unwrap();
    let back = decode_doc(&bytes).unwrap();
    // the decoded tree re-encodes to the same bytes
    assert_eq!(encode_doc(&back, 8, true).unwrap(), bytes);
    match back {
        Doc::Object(pairs) => {
            assert_eq!(pairs.len(), 5);
            assert_eq!(pairs[0].0, b"name".to_vec());
            assert!(matches!(&pairs[0].1, Doc::Text(t) if t == b"udoc"));
            assert!(matches!(pairs[1].1, Doc::Bool(true)));
            assert!(matches!(pairs[2].1, Doc::Null));
            assert!(matches!(pairs[3].1, Doc::Float64(bits) if f64::from_bits(bits) == 3.25));
        },
        _ => panic!("expected an object back"),
    }
}

#[test]
fn every_width_and_mode_agree() {
    // small enough for every scope body to fit even the one-byte class
    let tree = Doc::Object(vec![
        (b"a".to_vec(), Doc::Bool(true)),
        (
            b"b".to_vec(),
            Doc::Array(vec![Doc::Null, Doc::Text(b"x".to_vec())]),
        ),
    ]);
    let reference = encode_doc(&tree, 8, true).unwrap();
    for &width in &[1usize, 2, 4, 8] {
        for &compress in &[true, false] {
            let bytes = encode_doc(&tree, width, compress).unwrap();
            assert_eq!(validate(&bytes), Ok(()));
            let back = decode_doc(&bytes).unwrap();
            assert_eq!(encode_doc(&back, 8, true).unwrap(), reference);
            if compress {
                let padded = encode_doc(&tree, width, false).unwrap();
                assert!(bytes.len() <= padded.len());
            }
        }
    }
}

#[test]
fn reencoding_a_decoded_buffer_is_stable() {
    let bytes = encode_doc(&sample_tree(), 2, false).unwrap();
    let decoded = decode_doc(&bytes).unwrap();
    let reencoded = encode_doc(&decoded, 4, true).unwrap();
    assert_eq!(validate(&reencoded), Ok(()));
    let again = decode_doc(&reencoded).unwrap();
    assert_eq!(encode_doc(&again, 4, true).unwrap(), reencoded);
}

#[test]
fn decode_rejects_non_json_shapes() {
    // a Nat8 payload has no tree shape
    assert!(decode_doc(&[0x04u8, 0x07]).is_err());
}

#[test]
fn decode_rejects_trailing_bytes() {
    assert!(decode_doc(&[0x01u8, 0x01]).is_err());
}

#[test]
fn narrow_slots_overflow_and_latch() {
    // sixteen one-byte nulls outgrow a one-byte slot class (max 63 is fine,
    // so grow past 63 content bytes)
    let big = Doc::Array((0..100).map(|_| Doc::Null).collect());
    match encode_doc(&big, 1, true) {
        Err(Error::SizeOverflow) => {},
        _ => panic!("a hundred elements cannot fit a one-byte size class"),
    }
}

#[test]
fn overflow_latches_for_good() {
    let mut encoder = Encoder::new(1, true);
    encoder.begin_size();
    let filler = vec![0u8; 200];
    encoder.append(&filler);
    encoder.end_size();
    // whatever happens after, the build must fail
    encoder.append_byte(0x01);
    assert!(matches!(encoder.build(), Err(Error::SizeOverflow)));
}

#[test]
fn build_append_reports_overflow_and_keeps_sink() {
    let mut encoder = Encoder::new(1, false);
    encoder.begin_size();
    let filler = vec![0u8; 200];
    encoder.append(&filler);
    encoder.end_size();
    let mut sink = vec![0xAAu8];
    assert!(matches!(encoder.build_append(&mut sink), Err(Error::SizeOverflow)));
    assert_eq!(sink, vec![0xAA]);
}

#[test]
fn trailing_garbage_after_good_tree_fails() {
    let mut bytes = encode_doc(&sample_tree(), 8, true).unwrap();
    bytes.push(0x00);
    assert_eq!(validate(&bytes), Err(udoc::ValidateError::TrailingData));
}

#[test]
fn prefixes_of_good_trees_fail() {
    let bytes = encode_doc(&sample_tree(), 8, true).unwrap();
    for cut in 0..bytes.len() {
        assert!(validate(&bytes[..cut]).is_err());
    }
}
