//! udoc: a self-describing, length-prefixed, tagged binary wire format with a
//! verified codec. The crate provides the variable-width size (varint) codec,
//! a zero-copy byte reader, a recursive zero-copy value decoder, a
//! deferred-size encoder with a terminal compaction pass, and a structural
//! validator.

use vstd::prelude::*;

pub mod common;
pub mod encoder;
pub mod decoder;
pub mod doc;
pub mod reader;
pub mod utf8;
pub mod wire_type;

use crate::decoder::{
    decode_value, items_wf, lemma_tags_wf_empty, lemma_val_parse_bounds, list_head_count,
    list_head_some, list_head_w, list_wf, pairs_wf, spec_payload_len, tag_sym_len, tag_sym_some,
    tags_wf, val_parse, val_wf, wire_wf, ListDecoder, Payload, PayloadModel, TagDecoder, Value,
};
use crate::reader::Reader;
use crate::utf8::validate_utf8;

verus! {

/// How a buffer fails validation.
#[derive(Debug, Clone, Copy, PartialEq, Eq, Structural)]
pub enum ValidateError {
    /// The buffer does not hold a well-formed value: a bad wire-type code,
    /// a reserved feature, a truncated region, an overlong count, or string
    /// bytes that are not UTF-8.
    Invalid,
    /// A well-formed value ends before the buffer does.
    TrailingData,
}

/// Walks the pairs of an open tags region, validating each value in
/// full, and demands a clean end: exactly the announced pairs, no bytes
/// left over. `bound` dominates the region and grounds the recursion.
fn check_tag_pairs<'val>(tags: TagDecoder<'val>, Ghost(bound): Ghost<nat>) -> (r: Result<(), ()>)
    requires
        tags.wf(),
        !tags.failed(),
        tags.inner().len() < bound,
    ensures
        r is Ok <==> pairs_wf(tags.inner(), tags.count()),
    decreases bound, 0int,
{
    let mut td = tags;
    while td.remaining() > 0
        invariant
            td.wf(),
            !td.failed(),
            td.inner().len() <= tags.inner().len(),
            tags.inner().len() < bound,
            pairs_wf(tags.inner(), tags.count()) <==> pairs_wf(td.inner(), td.count()),
        decreases td.count(),
    {
        let ghost inner0 = td.inner();
        let ghost k = td.count();
        match td.next() {
            Some((_symbol, inner_value)) => {
                proof {
                    let rest = inner0.subrange(tag_sym_len(inner0) as int, inner0.len() as int);
                    lemma_val_parse_bounds(rest);
                }
                match _validate(&inner_value) {
                    Ok(()) => {},
                    Err(()) => {
                        proof {
                            lemma_inner_not_wf(inner0, k, inner_value);
                        }
                        return Err(());
                    },
                }
                proof {
                    lemma_inner_wf(inner0, k, inner_value, td.inner());
                }
            },
            None => {
                proof {
                    assert(!pairs_wf(inner0, k));
                }
                return Err(());
            },
        }
    }
    let ghost inner_end = td.inner();
    let r = td.check_error();
    proof {
        if inner_end.len() == 0 {
            assert(inner_end =~= Seq::<u8>::empty());
            assert(pairs_wf(inner_end, 0));
        } else {
            assert(!pairs_wf(inner_end, 0));
        }
    }
    r
}

/// Walks the elements of an open list body, validating each in full, and
/// demands a clean end: exactly the announced elements, no bytes left over.
fn check_list_items<'val>(elements: ListDecoder<'val>, Ghost(bound): Ghost<nat>) -> (r: Result<
    (),
    (),
>)
    requires
        elements.wf(),
        !elements.failed(),
        elements.inner().len() < bound,
    ensures
        r is Ok <==> items_wf(elements.inner(), elements.count()),
    decreases bound, 0int,
{
    let mut ld = elements;
    while ld.remaining() > 0
        invariant
            ld.wf(),
            !ld.failed(),
            ld.inner().len() <= elements.inner().len(),
            elements.inner().len() < bound,
            items_wf(elements.inner(), elements.count()) <==> items_wf(ld.inner(), ld.count()),
        decreases ld.count(),
    {
        let ghost inner0 = ld.inner();
        let ghost k = ld.count();
        match ld.next() {
            Some(inner_value) => {
                proof {
                    lemma_val_parse_bounds(inner0);
                }
                match _validate(&inner_value) {
                    Ok(()) => {},
                    Err(()) => {
                        proof {
                            lemma_item_not_wf(inner0, k, inner_value);
                        }
                        return Err(());
                    },
                }
                proof {
                    lemma_item_wf(inner0, k, inner_value, ld.inner());
                }
            },
            None => {
                proof {
                    assert(!items_wf(inner0, k));
                }
                return Err(());
            },
        }
    }
    let ghost inner_end = ld.inner();
    let r = ld.check_error();
    proof {
        if inner_end.len() == 0 {
            assert(inner_end =~= Seq::<u8>::empty());
            assert(items_wf(inner_end, 0));
        } else {
            assert(!items_wf(inner_end, 0));
        }
    }
    r
}

/// Checks one value for recursive well-formedness: its tags pairs and list
/// elements are walked in full, every announced entry must be present and
/// none may be left over, and string payloads must be valid UTF-8.
pub fn _validate(value: &Value) -> (r: Result<(), ()>)
    ensures
        r is Ok <==> {
            &&& value.has_tags ==> tags_wf(value.tags@)
            &&& match value.payload@ {
                PayloadModel::List(b) => list_wf(b),
                PayloadModel::String(b) => vstd::utf8::valid_utf8(b),
                _ => true,
            }
        },
    decreases value.tags@.len() + spec_payload_len(value.payload@), 1int,
{
    if value.has_tags {
        let tags = match value.tags() {
            Some(tags) => tags,
            None => {
                return Err(());
            },
        };
        if tags.remaining() == 0 {
            let ghost inner_end = tags.inner();
            match tags.check_error() {
                Ok(()) => {
                    proof {
                        assert(inner_end =~= Seq::<u8>::empty());
                        assert(pairs_wf(inner_end, 0));
                    }
                },
                Err(()) => {
                    proof {
                        assert(!pairs_wf(inner_end, 0));
                    }
                    return Err(());
                },
            }
        } else {
            proof {
                assert(list_head_count(value.tags@) > 0);
                assert(value.tags@.len() > 0);
                assert(list_head_w(value.tags@) >= 1);
            }
            match check_tag_pairs(
                tags,
                Ghost(value.tags@.len() + spec_payload_len(value.payload@)),
            ) {
                Ok(()) => {},
                Err(()) => {
                    return Err(());
                },
            }
        }
    } else {
        proof {
            lemma_tags_wf_empty();
        }
    }
    match value.payload {
        Payload::String(bytes) => {
            if !validate_utf8(bytes) {
                return Err(());
            }
        },
        Payload::List(body) => {
            let elements = match ListDecoder::new(body) {
                Some(elements) => elements,
                None => {
                    return Err(());
                },
            };
            if elements.remaining() == 0 {
                let ghost inner_end = elements.inner();
                match elements.check_error() {
                    Ok(()) => {
                        proof {
                            assert(inner_end =~= Seq::<u8>::empty());
                            assert(items_wf(inner_end, 0));
                        }
                    },
                    Err(()) => {
                        proof {
                            assert(!items_wf(inner_end, 0));
                        }
                        return Err(());
                    },
                }
            } else {
                proof {
                    assert(list_head_count(body@) > 0);
                    assert(body@.len() > 0);
                    assert(list_head_w(body@) >= 1);
                }
                match check_list_items(
                    elements,
                    Ghost(value.tags@.len() + spec_payload_len(value.payload@)),
                ) {
                    Ok(()) => {},
                    Err(()) => {
                        return Err(());
                    },
                }
            }
        },
        _ => {},
    }
    Ok(())
}

/// A decoded value whose innards check out is well formed at its place in
/// the byte stream: ties one `_validate` result back into `pairs_wf`.
proof fn lemma_inner_wf(inner0: Seq<u8>, k: nat, v: Value, new_inner: Seq<u8>)
    requires
        k > 0,
        tag_sym_some(inner0),
        ({
            let rest = inner0.subrange(tag_sym_len(inner0) as int, inner0.len() as int);
            &&& val_parse(rest) is Some
            &&& ({
                let m = val_parse(rest)->Some_0;
                &&& v.has_tags == m.has_tags
                &&& v.tags@ == m.tags
                &&& v.payload@ == m.payload
                &&& new_inner == rest.subrange(m.len as int, rest.len() as int)
            })
        }),
        v.has_tags ==> tags_wf(v.tags@),
        match v.payload@ {
            PayloadModel::List(b) => list_wf(b),
            PayloadModel::String(b) => vstd::utf8::valid_utf8(b),
            _ => true,
        },
    ensures
        pairs_wf(inner0, k) <==> pairs_wf(new_inner, (k - 1) as nat),
{
    let rest = inner0.subrange(tag_sym_len(inner0) as int, inner0.len() as int);
    let m = val_parse(rest)->Some_0;
    lemma_val_wf_of_checked(rest, v);
}

/// A decoded value whose innards fail `_validate` is not well formed, so
/// the whole pair sequence is not.
proof fn lemma_inner_not_wf(inner0: Seq<u8>, k: nat, v: Value)
    requires
        k > 0,
        tag_sym_some(inner0),
        ({
            let rest = inner0.subrange(tag_sym_len(inner0) as int, inner0.len() as int);
            &&& val_parse(rest) is Some
            &&& ({
                let m = val_parse(rest)->Some_0;
                &&& v.has_tags == m.has_tags
                &&& v.tags@ == m.tags
                &&& v.payload@ == m.payload
            })
        }),
        !({
            &&& v.has_tags ==> tags_wf(v.tags@)
            &&& match v.payload@ {
                PayloadModel::List(b) => list_wf(b),
                PayloadModel::String(b) => vstd::utf8::valid_utf8(b),
                _ => true,
            }
        }),
    ensures
        !pairs_wf(inner0, k),
{
    let rest = inner0.subrange(tag_sym_len(inner0) as int, inner0.len() as int);
    lemma_val_wf_of_checked(rest, v);
}

/// Same as `lemma_inner_wf`, for list elements.
proof fn lemma_item_wf(inner0: Seq<u8>, k: nat, v: Value, new_inner: Seq<u8>)
    requires
        k > 0,
        val_parse(inner0) is Some,
        ({
            let m = val_parse(inner0)->Some_0;
            &&& v.has_tags == m.has_tags
            &&& v.tags@ == m.tags
            &&& v.payload@ == m.payload
            &&& new_inner == inner0.subrange(m.len as int, inner0.len() as int)
        }),
        v.has_tags ==> tags_wf(v.tags@),
        match v.payload@ {
            PayloadModel::List(b) => list_wf(b),
            PayloadModel::String(b) => vstd::utf8::valid_utf8(b),
            _ => true,
        },
    ensures
        items_wf(inner0, k) <==> items_wf(new_inner, (k - 1) as nat),
{
    lemma_val_wf_of_checked(inner0, v);
}

/// Same as `lemma_inner_not_wf`, for list elements.
proof fn lemma_item_not_wf(inner0: Seq<u8>, k: nat, v: Value)
    requires
        k > 0,
        val_parse(inner0) is Some,
        ({
            let m = val_parse(inner0)->Some_0;
            &&& v.has_tags == m.has_tags
            &&& v.tags@ == m.tags
            &&& v.payload@ == m.payload
        }),
        !({
            &&& v.has_tags ==> tags_wf(v.tags@)
            &&& match v.payload@ {
                PayloadModel::List(b) => list_wf(b),
                PayloadModel::String(b) => vstd::utf8::valid_utf8(b),
                _ => true,
            }
        }),
    ensures
        !items_wf(inner0, k),
{
    lemma_val_wf_of_checked(inner0, v);
}

/// A parsed value is well formed exactly when the checks `_validate` makes
/// on its decoded view pass: the tags region is well formed (trivially so
/// when the flag is clear and the region empty), a list payload is well
/// formed, and string payloads were already checked by the parse itself.
proof fn lemma_val_wf_of_checked(s: Seq<u8>, v: Value)
    requires
        val_parse(s) is Some,
        ({
            let m = val_parse(s)->Some_0;
            &&& v.has_tags == m.has_tags
            &&& v.tags@ == m.tags
            &&& v.payload@ == m.payload
        }),
    ensures
        val_wf(s) <==> {
            &&& v.has_tags ==> tags_wf(v.tags@)
            &&& match v.payload@ {
                PayloadModel::List(b) => list_wf(b),
                PayloadModel::String(b) => vstd::utf8::valid_utf8(b),
                _ => true,
            }
        },
{
    let m = val_parse(s)->Some_0;
    if !m.has_tags {
        lemma_tags_wf_empty();
        assert(m.tags == Seq::<u8>::empty());
    }
    match m.payload {
        PayloadModel::String(b) => {
            assert(crate::decoder::string_payload_ok(b)) by {
                lemma_string_payload(s, b);
            }
            assert(vstd::utf8::valid_utf8(b)) by {
                reveal(crate::decoder::string_payload_ok);
            }
        },
        _ => {},
    }
}

/// A parsed string payload passed the UTF-8 check inside the parse.
proof fn lemma_string_payload(s: Seq<u8>, b: Seq<u8>)
    requires
        val_parse(s) is Some,
        (val_parse(s)->Some_0).payload == PayloadModel::String(b),
    ensures
        crate::decoder::string_payload_ok(b),
{
}

/// Checks that a buffer holds exactly one well-formed value: decodes the
/// root, walks it recursively, and demands that nothing follows it.
pub fn validate(buffer: &[u8]) -> (r: Result<(), ValidateError>)
    ensures
        r is Ok <==> wire_wf(buffer@),
        r == Err::<(), ValidateError>(ValidateError::TrailingData) <==> (val_wf(buffer@)
            && (val_parse(buffer@)->Some_0).len < buffer@.len()),
{
    let mut reader = Reader::new(buffer);
    proof {
        assert(reader.remaining_seq() =~= buffer@);
    }
    let value = match decode_value(&mut reader) {
        Some(value) => value,
        None => {
            return Err(ValidateError::Invalid);
        },
    };
    proof {
        lemma_val_parse_bounds(buffer@);
    }
    match _validate(&value) {
        Ok(()) => {},
        Err(()) => {
            proof {
                lemma_val_wf_of_checked(buffer@, value);
            }
            return Err(ValidateError::Invalid);
        },
    }
    proof {
        lemma_val_wf_of_checked(buffer@, value);
    }
    if reader.has_some() {
        return Err(ValidateError::TrailingData);
    }
    Ok(())
}

} // verus!
