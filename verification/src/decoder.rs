//! The zero-copy value decoder. A value is one header byte, an optional
//! tags region, and a payload whose shape the header's wire-type code picks.
//! Decoded values borrow the source buffer; list elements and tag pairs stay
//! unparsed until the matching iterator walks them.

use vstd::prelude::*;
use vstd::utf8::valid_utf8;
use crate::common::{
    decode_size, decode_size_as_usize, size_dec_some, size_dec_val, size_dec_w, size_width_of,
    u64_to_usize,
};
use crate::reader::Reader;
use crate::utf8::validate_utf8;
use crate::wire_type::{WireType, WIRE_TYPE_MAX, WIRE_TYPE_MIN};

verus! {

// ---------------------------------------------------------------------------
// The mathematical model of the wire format: what one value at the front of
// a byte sequence parses to, without recursing into tags or list elements.
// ---------------------------------------------------------------------------

/// The wire-type code stored in the low five bits of a header byte.
pub open spec fn spec_code(h: u8) -> u8 {
    h % 32
}

/// The kind flag: bit 6 of the header byte.
pub open spec fn spec_has_kind(h: u8) -> bool {
    (h / 64) % 2 == 1
}

/// The tags flag: bit 7 of the header byte.
pub open spec fn spec_has_tags(h: u8) -> bool {
    h / 128 == 1
}

/// A size-prefixed byte region parses at the front of `t`: a varint, whose
/// value fits this machine, followed by that many bytes.
pub open spec fn var_bytes_some(t: Seq<u8>) -> bool {
    &&& size_dec_some(t)
    &&& size_dec_val(t) <= usize::MAX
    &&& size_dec_w(t) + size_dec_val(t) <= t.len()
}

/// The bytes of the size-prefixed region at the front of `t`.
pub open spec fn var_bytes_val(t: Seq<u8>) -> Seq<u8> {
    t.subrange(size_dec_w(t) as int, (size_dec_w(t) + size_dec_val(t)) as int)
}

/// How many bytes the size-prefixed region occupies, prefix included.
pub open spec fn var_bytes_len(t: Seq<u8>) -> nat {
    size_dec_w(t) + size_dec_val(t)
}

/// A tag symbol parses at the front of `t`: a varint whose low bit is set
/// (the inline-bytes form; a clear low bit is reserved and does not parse),
/// the rest of the value being the byte length.
pub open spec fn tag_sym_some(t: Seq<u8>) -> bool {
    &&& size_dec_some(t)
    &&& size_dec_val(t) % 2 == 1
    &&& size_dec_val(t) / 2 <= usize::MAX
    &&& size_dec_w(t) + size_dec_val(t) / 2 <= t.len()
}

/// The symbol bytes at the front of `t`.
pub open spec fn tag_sym_val(t: Seq<u8>) -> Seq<u8> {
    t.subrange(size_dec_w(t) as int, (size_dec_w(t) + size_dec_val(t) / 2) as int)
}

/// How many bytes the symbol occupies, prefix included.
pub open spec fn tag_sym_len(t: Seq<u8>) -> nat {
    size_dec_w(t) + size_dec_val(t) / 2
}

/// The leading count of a list or tags body: an empty body means zero
/// entries, otherwise a varint count that fits this machine.
pub open spec fn list_head_some(t: Seq<u8>) -> bool {
    t.len() == 0 || (size_dec_some(t) && size_dec_val(t) <= usize::MAX)
}

/// The entry count announced at the front of a list or tags body.
pub open spec fn list_head_count(t: Seq<u8>) -> nat {
    if t.len() == 0 {
        0
    } else {
        size_dec_val(t)
    }
}

/// How many bytes that count occupies.
pub open spec fn list_head_w(t: Seq<u8>) -> nat {
    if t.len() == 0 {
        0
    } else {
        size_dec_w(t)
    }
}

/// Whether a string payload's bytes are well-formed UTF-8. Opaque so that
/// reasoning about the wire structure does not drag the UTF-8 grammar in;
/// proofs about string contents reveal it.
#[verifier::opaque]
pub open spec fn string_payload_ok(b: Seq<u8>) -> bool {
    valid_utf8(b)
}

/// The payload of a value, as mathematical data. Byte-string payloads are
/// sequences into the source; `Float32`/`Float64` carry the raw IEEE-754
/// bits read little-endian.
pub enum PayloadModel {
    Null,
    Bool(bool),
    Nat(Seq<u8>),
    Nat8(u8),
    Nat16(u16),
    Nat32(u32),
    Nat64(u64),
    Int(Seq<u8>),
    Int8(i8),
    Int16(i16),
    Int32(i32),
    Int64(i64),
    Float32(u32),
    Float64(u64),
    Decimal32(Seq<u8>),
    Decimal64(Seq<u8>),
    Bytes(Seq<u8>),
    String(Seq<u8>),
    Symbol(Seq<u8>),
    List(Seq<u8>),
}

/// The length of the byte region a payload borrows from the source; zero
/// for payloads carried by value.
pub open spec fn spec_payload_len(pm: PayloadModel) -> nat {
    match pm {
        PayloadModel::Nat(b) => b.len(),
        PayloadModel::Int(b) => b.len(),
        PayloadModel::Bytes(b) => b.len(),
        PayloadModel::String(b) => b.len(),
        PayloadModel::Symbol(b) => b.len(),
        PayloadModel::List(b) => b.len(),
        _ => 0,
    }
}

/// What a payload of the given wire type parses to at the front of `t`, and
/// how many bytes it takes. Fixed-width payloads read exactly their width;
/// size-prefixed payloads read a varint and that many bytes; a `String`
/// payload must also be valid UTF-8.
pub open spec fn payload_parse(wt: WireType, t: Seq<u8>) -> Option<(PayloadModel, nat)> {
    match wt {
        WireType::Null => Some((PayloadModel::Null, 0nat)),
        WireType::BoolFalse => Some((PayloadModel::Bool(false), 0nat)),
        WireType::BoolTrue => Some((PayloadModel::Bool(true), 0nat)),
        WireType::Nat8 => if t.len() >= 1 {
            Some((PayloadModel::Nat8(crate::reader::le_val(t.subrange(0, 1)) as u8), 1nat))
        } else {
            None
        },
        WireType::Nat16 => if t.len() >= 2 {
            Some((PayloadModel::Nat16(crate::reader::le_val(t.subrange(0, 2)) as u16), 2nat))
        } else {
            None
        },
        WireType::Nat32 => if t.len() >= 4 {
            Some((PayloadModel::Nat32(crate::reader::le_val(t.subrange(0, 4)) as u32), 4nat))
        } else {
            None
        },
        WireType::Nat64 => if t.len() >= 8 {
            Some((PayloadModel::Nat64(crate::reader::le_val(t.subrange(0, 8)) as u64), 8nat))
        } else {
            None
        },
        WireType::Int8 => if t.len() >= 1 {
            Some((PayloadModel::Int8(crate::reader::le_ival(t.subrange(0, 1)) as i8), 1nat))
        } else {
            None
        },
        WireType::Int16 => if t.len() >= 2 {
            Some((PayloadModel::Int16(crate::reader::le_ival(t.subrange(0, 2)) as i16), 2nat))
        } else {
            None
        },
        WireType::Int32 => if t.len() >= 4 {
            Some((PayloadModel::Int32(crate::reader::le_ival(t.subrange(0, 4)) as i32), 4nat))
        } else {
            None
        },
        WireType::Int64 => if t.len() >= 8 {
            Some((PayloadModel::Int64(crate::reader::le_ival(t.subrange(0, 8)) as i64), 8nat))
        } else {
            None
        },
        WireType::Float32 => if t.len() >= 4 {
            Some((PayloadModel::Float32(crate::reader::le_val(t.subrange(0, 4)) as u32), 4nat))
        } else {
            None
        },
        WireType::Float64 => if t.len() >= 8 {
            Some((PayloadModel::Float64(crate::reader::le_val(t.subrange(0, 8)) as u64), 8nat))
        } else {
            None
        },
        WireType::Decimal32 => if t.len() >= 4 {
            Some((PayloadModel::Decimal32(t.subrange(0, 4)), 4nat))
        } else {
            None
        },
        WireType::Decimal64 => if t.len() >= 8 {
            Some((PayloadModel::Decimal64(t.subrange(0, 8)), 8nat))
        } else {
            None
        },
        WireType::Nat => if var_bytes_some(t) {
            Some((PayloadModel::Nat(var_bytes_val(t)), var_bytes_len(t)))
        } else {
            None
        },
        WireType::Int => if var_bytes_some(t) {
            Some((PayloadModel::Int(var_bytes_val(t)), var_bytes_len(t)))
        } else {
            None
        },
        WireType::Bytes => if var_bytes_some(t) {
            Some((PayloadModel::Bytes(var_bytes_val(t)), var_bytes_len(t)))
        } else {
            None
        },
        WireType::Symbol => if var_bytes_some(t) {
            Some((PayloadModel::Symbol(var_bytes_val(t)), var_bytes_len(t)))
        } else {
            None
        },
        WireType::List => if var_bytes_some(t) {
            Some((PayloadModel::List(var_bytes_val(t)), var_bytes_len(t)))
        } else {
            None
        },
        WireType::String => if var_bytes_some(t) && string_payload_ok(var_bytes_val(t)) {
            Some((PayloadModel::String(var_bytes_val(t)), var_bytes_len(t)))
        } else {
            None
        },
    }
}

/// One value, shallow-parsed: its wire type, flags, raw tags bytes, payload,
/// and the total number of bytes it spans.
pub struct VParse {
    pub wt: WireType,
    pub has_tags: bool,
    pub tags: Seq<u8>,
    pub payload: PayloadModel,
    pub len: nat,
}

/// Parses one value at the front of `s`: header byte, optional tags region
/// (a size-prefixed blob, skipped, not recursed into), then the payload.
/// A set kind flag does not parse: the feature is reserved.
pub open spec fn val_parse(s: Seq<u8>) -> Option<VParse> {
    if s.len() == 0 {
        None
    } else {
        let h = s[0];
        if spec_code(h) < WIRE_TYPE_MIN || spec_code(h) > WIRE_TYPE_MAX {
            None
        } else if spec_has_kind(h) {
            None
        } else {
            let wt = WireType::from_code_spec(spec_code(h));
            let after = s.subrange(1, s.len() as int);
            if spec_has_tags(h) {
                if var_bytes_some(after) {
                    val_parse_at(s, wt, true, var_bytes_val(after), 1 + var_bytes_len(after))
                } else {
                    None
                }
            } else {
                val_parse_at(s, wt, false, Seq::empty(), 1)
            }
        }
    }
}

/// Finishes a value parse once the header and tags region are settled: the
/// payload starts at offset `p`.
pub open spec fn val_parse_at(
    s: Seq<u8>,
    wt: WireType,
    has_tags: bool,
    tags: Seq<u8>,
    p: nat,
) -> Option<VParse> {
    match payload_parse(wt, s.subrange(p as int, s.len() as int)) {
        Some(pp) => Some(
            VParse { wt, has_tags, tags, payload: pp.0, len: (p + pp.1) as nat },
        ),
        None => None,
    }
}

/// How far a parsed value reaches into the sequence, and how much of it the
/// tags region and a borrowed payload can make up: strictly less than the
/// whole, which grounds the recursion of the validator.
pub proof fn lemma_val_parse_bounds(s: Seq<u8>)
    requires
        val_parse(s) is Some,
    ensures
        ({
            let m = val_parse(s)->Some_0;
            &&& 1 <= m.len <= s.len()
            &&& m.tags.len() + spec_payload_len(m.payload) < m.len
        }),
{
    let h = s[0];
    let wt = WireType::from_code_spec(spec_code(h));
    let after = s.subrange(1, s.len() as int);
    let m = val_parse(s)->Some_0;
    if spec_has_tags(h) {
        let p = 1 + var_bytes_len(after);
        let t = s.subrange(p as int, s.len() as int);
        lemma_payload_parse_bounds(wt, t);
        assert(m.tags.len() == size_dec_val(after));
        assert(var_bytes_len(after) <= after.len());
        assert(size_dec_w(after) >= 1);
    } else {
        let t = s.subrange(1, s.len() as int);
        lemma_payload_parse_bounds(wt, t);
    }
}

/// A payload never reaches past the bytes offered to it, and a borrowed
/// payload region is strictly shorter than the payload span (the size
/// prefix comes first).
pub proof fn lemma_payload_parse_bounds(wt: WireType, t: Seq<u8>)
    requires
        payload_parse(wt, t) is Some,
    ensures
        ({
            let pp = payload_parse(wt, t)->Some_0;
            &&& pp.1 <= t.len()
            &&& spec_payload_len(pp.0) <= pp.1
            &&& spec_payload_len(pp.0) > 0 ==> spec_payload_len(pp.0) < pp.1
        }),
{
    let pp = payload_parse(wt, t)->Some_0;
    match wt {
        WireType::Nat | WireType::Int | WireType::Bytes | WireType::Symbol | WireType::List
            | WireType::String => {
            assert(size_dec_w(t) >= 1);
            assert(var_bytes_val(t).len() == size_dec_val(t));
        },
        _ => {},
    }
}

// ---------------------------------------------------------------------------
// The executable decoder.
// ---------------------------------------------------------------------------

/// A tag key. The wire format reserves a second, non-inline form; only
/// inline byte strings are defined.
pub enum TagSymbol<'val> {
    Bytes(&'val [u8]),
}

/// A decoded value: a borrowed view into the source buffer. `kind` and
/// `tags` are unparsed byte regions; `payload` matches the wire type.
pub struct Value<'val> {
    pub ty: WireType,
    pub has_kind: bool,
    pub has_tags: bool,
    pub kind: &'val [u8],
    pub tags: &'val [u8],
    pub payload: Payload<'val>,
}

/// A decoded payload. Byte-string payloads borrow the source buffer;
/// `Float32`/`Float64` carry raw IEEE-754 bits, little-endian, so that the
/// format's numeric identity is kept without floating-point arithmetic.
pub enum Payload<'val> {
    Null,
    Bool(bool),
    Nat(&'val [u8]),
    Nat8(u8),
    Nat16(u16),
    Nat32(u32),
    Nat64(u64),
    Int(&'val [u8]),
    Int8(i8),
    Int16(i16),
    Int32(i32),
    Int64(i64),
    Float32(u32),
    Float64(u64),
    Decimal32([u8; 4]),
    Decimal64([u8; 8]),
    Bytes(&'val [u8]),
    String(&'val [u8]),
    Symbol(&'val [u8]),
    List(&'val [u8]),
}

impl<'val> View for Payload<'val> {
    type V = PayloadModel;

    open spec fn view(&self) -> PayloadModel {
        match *self {
            Payload::Null => PayloadModel::Null,
            Payload::Bool(b) => PayloadModel::Bool(b),
            Payload::Nat(b) => PayloadModel::Nat(b@),
            Payload::Nat8(x) => PayloadModel::Nat8(x),
            Payload::Nat16(x) => PayloadModel::Nat16(x),
            Payload::Nat32(x) => PayloadModel::Nat32(x),
            Payload::Nat64(x) => PayloadModel::Nat64(x),
            Payload::Int(b) => PayloadModel::Int(b@),
            Payload::Int8(x) => PayloadModel::Int8(x),
            Payload::Int16(x) => PayloadModel::Int16(x),
            Payload::Int32(x) => PayloadModel::Int32(x),
            Payload::Int64(x) => PayloadModel::Int64(x),
            Payload::Float32(x) => PayloadModel::Float32(x),
            Payload::Float64(x) => PayloadModel::Float64(x),
            Payload::Decimal32(a) => PayloadModel::Decimal32(a@),
            Payload::Decimal64(a) => PayloadModel::Decimal64(a@),
            Payload::Bytes(b) => PayloadModel::Bytes(b@),
            Payload::String(b) => PayloadModel::String(b@),
            Payload::Symbol(b) => PayloadModel::Symbol(b@),
            Payload::List(b) => PayloadModel::List(b@),
        }
    }
}

/// Decodes a size-prefixed byte region: a varint length, then that many
/// bytes, borrowed.
pub fn decode_var_bytes<'val>(reader: &mut Reader<'val, u8>) -> (r: Option<&'val [u8]>)
    requires
        old(reader).wf(),
    ensures
        final(reader).wf(),
        final(reader).buf() == old(reader).buf(),
        match r {
            Some(b) => {
                &&& var_bytes_some(old(reader).remaining_seq())
                &&& b@ == var_bytes_val(old(reader).remaining_seq())
                &&& final(reader).pos() == old(reader).pos() + var_bytes_len(
                    old(reader).remaining_seq(),
                )
            },
            None => !var_bytes_some(old(reader).remaining_seq()),
        },
{
    let ghost rem = old(reader).remaining_seq();
    let size = match decode_size_as_usize(reader) {
        Some(size) => size,
        None => {
            return None;
        },
    };
    let r = reader.next_n(size);
    proof {
        if r is Some {
            let w = size_dec_w(rem) as int;
            let v = size_dec_val(rem) as int;
            assert(rem.subrange(w, w + v) =~= old(reader).buf().subrange(
                old(reader).pos() + w,
                old(reader).pos() + w + v,
            ));
        }
    }
    r
}

/// Decodes a tag symbol: a varint whose low bit distinguishes inline bytes
/// (set) from a reserved form (clear, a decode error), the remaining bits
/// giving the byte length.
pub fn decode_tag_symbol<'val>(reader: &mut Reader<'val, u8>) -> (r: Option<TagSymbol<'val>>)
    requires
        old(reader).wf(),
    ensures
        final(reader).wf(),
        final(reader).buf() == old(reader).buf(),
        match r {
            Some(sym) => {
                &&& tag_sym_some(old(reader).remaining_seq())
                &&& match sym {
                    TagSymbol::Bytes(b) => b@ == tag_sym_val(old(reader).remaining_seq()),
                }
                &&& final(reader).pos() == old(reader).pos() + tag_sym_len(
                    old(reader).remaining_seq(),
                )
            },
            None => !tag_sym_some(old(reader).remaining_seq()),
        },
{
    let ghost rem = old(reader).remaining_seq();
    let size = match decode_size(reader) {
        Some(size) => size,
        None => {
            return None;
        },
    };
    let is_bytes = size % 2 == 1;
    let size = size / 2;
    if is_bytes {
        let n = match u64_to_usize(size) {
            Some(n) => n,
            None => {
                return None;
            },
        };
        let r = reader.next_n(n);
        proof {
            if r is Some {
                let w = size_dec_w(rem) as int;
                let v = (size_dec_val(rem) / 2) as int;
                assert(rem.subrange(w, w + v) =~= old(reader).buf().subrange(
                    old(reader).pos() + w,
                    old(reader).pos() + w + v,
                ));
            }
        }
        match r {
            Some(b) => Some(TagSymbol::Bytes(b)),
            None => None,
        }
    } else {
        None
    }
}

/// Reads the leading count of a list or tags body: an empty body counts as
/// zero entries. Returns the count and a reader positioned after it.
pub fn decode_list<'val>(buffer: &'val [u8]) -> (r: Option<(usize, Reader<'val, u8>)>)
    ensures
        match r {
            Some((count, rdr)) => {
                &&& list_head_some(buffer@)
                &&& count == list_head_count(buffer@)
                &&& rdr.wf()
                &&& rdr.buf() == buffer@
                &&& rdr.pos() == list_head_w(buffer@)
            },
            None => !list_head_some(buffer@),
        },
{
    let mut reader = Reader::new(buffer);
    proof {
        assert(buffer@.subrange(0, buffer@.len() as int) =~= buffer@);
    }
    let count: usize = if reader.has_some() {
        match decode_size_as_usize(&mut reader) {
            Some(count) => count,
            None => {
                return None;
            },
        }
    } else {
        0
    };
    Some((count, reader))
}

/// Decodes the payload for a value of the given wire type.
pub fn decode_payload<'val>(ty: WireType, reader: &mut Reader<'val, u8>) -> (r: Option<
    Payload<'val>,
>)
    requires
        old(reader).wf(),
    ensures
        final(reader).wf(),
        final(reader).buf() == old(reader).buf(),
        match r {
            Some(p) => {
                &&& payload_parse(ty, old(reader).remaining_seq()) is Some
                &&& p@ == (payload_parse(ty, old(reader).remaining_seq())->Some_0).0
                &&& final(reader).pos() == old(reader).pos() + (payload_parse(
                    ty,
                    old(reader).remaining_seq(),
                )->Some_0).1
            },
            None => payload_parse(ty, old(reader).remaining_seq()) is None,
        },
{
    let ghost rem = old(reader).remaining_seq();
    proof {
        crate::reader::lemma_pow256_values();
        crate::reader::lemma_le_val_bound(rem.subrange(0, 1));
        crate::reader::lemma_le_val_bound(rem.subrange(0, 2));
        crate::reader::lemma_le_val_bound(rem.subrange(0, 4));
        crate::reader::lemma_le_val_bound(rem.subrange(0, 8));
        assert forall|k: int| 0 < k <= 8 && rem.len() >= k implies rem.subrange(0, k)
            =~= old(reader).buf().subrange(
            old(reader).pos() as int,
            old(reader).pos() + k,
        ) by {}
    }
    match ty {
        WireType::Null => Some(Payload::Null),
        WireType::BoolFalse => Some(Payload::Bool(false)),
        WireType::BoolTrue => Some(Payload::Bool(true)),
        WireType::Nat8 => match reader.next_u8_le() {
            Some(x) => Some(Payload::Nat8(x)),
            None => None,
        },
        WireType::Nat16 => match reader.next_u16_le() {
            Some(x) => Some(Payload::Nat16(x)),
            None => None,
        },
        WireType::Nat32 => match reader.next_u32_le() {
            Some(x) => Some(Payload::Nat32(x)),
            None => None,
        },
        WireType::Nat64 => match reader.next_u64_le() {
            Some(x) => Some(Payload::Nat64(x)),
            None => None,
        },
        WireType::Int8 => match reader.next_i8_le() {
            Some(x) => Some(Payload::Int8(x)),
            None => None,
        },
        WireType::Int16 => match reader.next_i16_le() {
            Some(x) => Some(Payload::Int16(x)),
            None => None,
        },
        WireType::Int32 => match reader.next_i32_le() {
            Some(x) => Some(Payload::Int32(x)),
            None => None,
        },
        WireType::Int64 => match reader.next_i64_le() {
            Some(x) => Some(Payload::Int64(x)),
            None => None,
        },
        WireType::Float32 => match reader.next_u32_le() {
            Some(x) => Some(Payload::Float32(x)),
            None => None,
        },
        WireType::Float64 => match reader.next_u64_le() {
            Some(x) => Some(Payload::Float64(x)),
            None => None,
        },
        WireType::Decimal32 => match reader.next_bytes::<4>() {
            Some(a) => Some(Payload::Decimal32(a)),
            None => None,
        },
        WireType::Decimal64 => match reader.next_bytes::<8>() {
            Some(a) => Some(Payload::Decimal64(a)),
            None => None,
        },
        WireType::Nat => match decode_var_bytes(reader) {
            Some(b) => Some(Payload::Nat(b)),
            None => None,
        },
        WireType::Int => match decode_var_bytes(reader) {
            Some(b) => Some(Payload::Int(b)),
            None => None,
        },
        WireType::Bytes => match decode_var_bytes(reader) {
            Some(b) => Some(Payload::Bytes(b)),
            None => None,
        },
        WireType::Symbol => match decode_var_bytes(reader) {
            Some(b) => Some(Payload::Symbol(b)),
            None => None,
        },
        WireType::List => match decode_var_bytes(reader) {
            Some(b) => Some(Payload::List(b)),
            None => None,
        },
        WireType::String => match decode_var_bytes(reader) {
            Some(b) => {
                proof {
                    reveal(string_payload_ok);
                }
                if validate_utf8(b) {
                    Some(Payload::String(b))
                } else {
                    None
                }
            },
            None => None,
        },
    }
}

/// Decodes one value at the reader: header byte, wire type from the low
/// five bits (codes outside the table are an error), a reserved kind flag
/// that must be clear, an optional skipped tags region, then the payload.
/// Advances past exactly the value's bytes.
pub fn decode_value<'rdr>(reader: &mut Reader<'rdr, u8>) -> (r: Option<Value<'rdr>>)
    requires
        old(reader).wf(),
    ensures
        final(reader).wf(),
        final(reader).buf() == old(reader).buf(),
        match r {
            Some(v) => {
                &&& val_parse(old(reader).remaining_seq()) is Some
                &&& ({
                    let m = val_parse(old(reader).remaining_seq())->Some_0;
                    &&& v.ty == m.wt
                    &&& !v.has_kind
                    &&& v.has_tags == m.has_tags
                    &&& v.kind@ == Seq::<u8>::empty()
                    &&& v.tags@ == m.tags
                    &&& v.payload@ == m.payload
                    &&& final(reader).pos() == old(reader).pos() + m.len
                })
            },
            None => val_parse(old(reader).remaining_seq()) is None,
        },
{
    let ghost rem = old(reader).remaining_seq();
    let header = match reader.next_u8_le() {
        Some(h) => h,
        None => {
            proof {
                assert(rem.len() == 0);
            }
            return None;
        },
    };
    proof {
        assert(rem.subrange(0, 1) =~= old(reader).buf().subrange(
            old(reader).pos() as int,
            old(reader).pos() as int + 1,
        ));
        assert(rem[0] == header);
    }
    let code = header % 32;
    if code < WIRE_TYPE_MIN || code > WIRE_TYPE_MAX {
        return None;
    }
    let ty = match WireType::from_code(code) {
        Some(ty) => ty,
        None => {
            return None;
        },
    };
    let has_kind = (header / 64) % 2 == 1;
    let has_tags = header / 128 == 1;
    if has_kind {
        return None;
    }
    let empty: &'rdr [u8] = match reader.peek_n(0) {
        Some(e) => e,
        None => {
            return None;
        },
    };
    proof {
        assert(empty@ =~= Seq::<u8>::empty());
        assert(rem.subrange(1, rem.len() as int) =~= old(reader).buf().subrange(
            old(reader).pos() as int + 1,
            old(reader).buf().len() as int,
        ));
    }
    let ghost after = rem.subrange(1, rem.len() as int);
    let mut tags: &'rdr [u8] = empty;
    let ghost mut payload_off: nat = 1;
    if has_tags {
        let size = match decode_size_as_usize(reader) {
            Some(size) => size,
            None => {
                return None;
            },
        };
        tags = match reader.next_n(size) {
            Some(t) => t,
            None => {
                return None;
            },
        };
        proof {
            let w = size_dec_w(after) as int;
            let v = size_dec_val(after) as int;
            assert(after.subrange(w, w + v) =~= old(reader).buf().subrange(
                old(reader).pos() + 1 + w,
                old(reader).pos() + 1 + w + v,
            ));
            assert(tags@ == var_bytes_val(after));
        }
        proof {
            payload_off = 1 + var_bytes_len(after);
        }
    }
    proof {
        assert(rem.subrange(payload_off as int, rem.len() as int) =~= old(reader).buf().subrange(
            old(reader).pos() + payload_off as int,
            old(reader).buf().len() as int,
        ));
    }
    let payload = match decode_payload(ty, reader) {
        Some(p) => p,
        None => {
            return None;
        },
    };
    Some(Value { ty, has_kind: false, has_tags, kind: empty, tags, payload })
}

impl<'val> Value<'val> {
    /// Opens the tags region for iteration.
    pub fn tags(&self) -> (r: Option<TagDecoder<'val>>)
        ensures
            match r {
                Some(d) => {
                    &&& list_head_some(self.tags@)
                    &&& self.tags@.len() - list_head_w(self.tags@) >= 2 * list_head_count(
                        self.tags@,
                    )
                    &&& d.wf()
                    &&& !d.failed()
                    &&& d.count() == list_head_count(self.tags@)
                    &&& d.inner() == self.tags@.subrange(
                        list_head_w(self.tags@) as int,
                        self.tags@.len() as int,
                    )
                },
                None => !list_head_some(self.tags@) || self.tags@.len() - list_head_w(self.tags@)
                    < 2 * list_head_count(self.tags@),
            },
    {
        TagDecoder::new(self.tags)
    }
}

// ---------------------------------------------------------------------------
// Recursive well-formedness of the wire format, as the validator checks it.
// ---------------------------------------------------------------------------

/// One well-formed value at the front of `s`: it parses, its tags region is
/// a well-formed tag sequence, and a list payload is a well-formed list body.
pub open spec fn val_wf(s: Seq<u8>) -> bool
    decreases s.len(), 0int,
    via val_wf_dec
{
    &&& val_parse(s) is Some
    &&& tags_wf((val_parse(s)->Some_0).tags)
    &&& match (val_parse(s)->Some_0).payload {
        PayloadModel::List(b) => list_wf(b),
        _ => true,
    }
}

/// A well-formed tags region: a leading count (or nothing, meaning zero),
/// at least two bytes per announced pair, and that many well-formed pairs
/// filling the region exactly.
pub open spec fn tags_wf(t: Seq<u8>) -> bool
    decreases t.len(), 2int,
{
    &&& list_head_some(t)
    &&& t.len() - list_head_w(t) >= 2 * list_head_count(t)
    &&& pairs_wf(t.subrange(list_head_w(t) as int, t.len() as int), list_head_count(t))
}

/// `n` well-formed (symbol, value) pairs filling `r` exactly.
pub open spec fn pairs_wf(r: Seq<u8>, n: nat) -> bool
    decreases r.len(), 1int,
    via pairs_wf_dec
{
    if n == 0 {
        r.len() == 0
    } else {
        &&& tag_sym_some(r)
        &&& ({
            let rest = r.subrange(tag_sym_len(r) as int, r.len() as int);
            &&& val_parse(rest) is Some
            &&& val_wf(rest)
            &&& pairs_wf(
                rest.subrange((val_parse(rest)->Some_0).len as int, rest.len() as int),
                (n - 1) as nat,
            )
        })
    }
}

/// A well-formed list body: a leading count (or nothing, meaning zero), at
/// least one byte per announced element, and that many well-formed values
/// filling the body exactly.
pub open spec fn list_wf(b: Seq<u8>) -> bool
    decreases b.len(), 2int,
{
    &&& list_head_some(b)
    &&& b.len() - list_head_w(b) >= list_head_count(b)
    &&& items_wf(b.subrange(list_head_w(b) as int, b.len() as int), list_head_count(b))
}

/// `n` well-formed values filling `r` exactly.
pub open spec fn items_wf(r: Seq<u8>, n: nat) -> bool
    decreases r.len(), 1int,
    via items_wf_dec
{
    if n == 0 {
        r.len() == 0
    } else {
        &&& val_parse(r) is Some
        &&& val_wf(r)
        &&& items_wf(
            r.subrange((val_parse(r)->Some_0).len as int, r.len() as int),
            (n - 1) as nat,
        )
    }
}

#[via_fn]
proof fn val_wf_dec(s: Seq<u8>) {
    if val_parse(s) is Some {
        lemma_val_parse_bounds(s);
    }
}

#[via_fn]
proof fn pairs_wf_dec(r: Seq<u8>, n: nat) {
    if n > 0 && tag_sym_some(r) {
        let rest = r.subrange(tag_sym_len(r) as int, r.len() as int);
        if val_parse(rest) is Some {
            lemma_val_parse_bounds(rest);
        }
    }
}

#[via_fn]
proof fn items_wf_dec(r: Seq<u8>, n: nat) {
    if n > 0 && val_parse(r) is Some {
        lemma_val_parse_bounds(r);
    }
}

/// A whole buffer is well-formed when one well-formed value fills it
/// exactly.
pub open spec fn wire_wf(s: Seq<u8>) -> bool {
    &&& val_wf(s)
    &&& (val_parse(s)->Some_0).len == s.len()
}

/// The empty tags region carries zero tags and is well formed.
pub proof fn lemma_tags_wf_empty()
    ensures
        tags_wf(Seq::<u8>::empty()),
{
    let t = Seq::<u8>::empty();
    assert(t.subrange(0, 0) =~= t);
    assert(pairs_wf(t.subrange(0, 0), 0));
}

// ---------------------------------------------------------------------------
// A parse never looks past the value it spans: bytes appended after a
// parsed value change nothing, which pins down framing.
// ---------------------------------------------------------------------------

/// Appending bytes after a decodable varint changes nothing about it.
proof fn lemma_size_dec_extend(t: Seq<u8>, g: Seq<u8>)
    requires
        size_dec_some(t),
    ensures
        size_dec_some(t + g),
        size_dec_val(t + g) == size_dec_val(t),
        size_dec_w(t + g) == size_dec_w(t),
{
    assert((t + g)[0] == t[0]);
    let w = size_width_of(t[0]) as int;
    assert((t + g).subrange(0, w) =~= t.subrange(0, w));
}

/// Appending bytes after a parsed size-prefixed region changes nothing
/// about it.
proof fn lemma_var_bytes_extend(t: Seq<u8>, g: Seq<u8>)
    requires
        var_bytes_some(t),
    ensures
        var_bytes_some(t + g),
        var_bytes_val(t + g) == var_bytes_val(t),
        var_bytes_len(t + g) == var_bytes_len(t),
{
    lemma_size_dec_extend(t, g);
    let w = size_dec_w(t) as int;
    let v = size_dec_val(t) as int;
    assert((t + g).subrange(w, w + v) =~= t.subrange(w, w + v));
}

/// Appending bytes after a parsed payload changes nothing about it.
#[verifier::rlimit(100)]
#[verifier::spinoff_prover]
proof fn lemma_payload_parse_extend(wt: WireType, t: Seq<u8>, g: Seq<u8>)
    requires
        payload_parse(wt, t) is Some,
    ensures
        payload_parse(wt, t + g) == payload_parse(wt, t),
{
    match wt {
        WireType::Nat8 | WireType::Int8 => {
            assert((t + g).subrange(0, 1) =~= t.subrange(0, 1));
        },
        WireType::Nat16 | WireType::Int16 => {
            assert((t + g).subrange(0, 2) =~= t.subrange(0, 2));
        },
        WireType::Nat32 | WireType::Int32 | WireType::Float32 | WireType::Decimal32 => {
            assert((t + g).subrange(0, 4) =~= t.subrange(0, 4));
        },
        WireType::Nat64 | WireType::Int64 | WireType::Float64 | WireType::Decimal64 => {
            assert((t + g).subrange(0, 8) =~= t.subrange(0, 8));
        },
        WireType::Nat | WireType::Int | WireType::Bytes | WireType::Symbol | WireType::List
            | WireType::String => {
            lemma_var_bytes_extend(t, g);
        },
        _ => {},
    }
}

/// Appending bytes after a parsed value changes nothing about it: a value
/// is framed by its own contents.
pub proof fn lemma_val_parse_extend(s: Seq<u8>, g: Seq<u8>)
    requires
        val_parse(s) is Some,
    ensures
        val_parse(s + g) == val_parse(s),
{
    let u = s + g;
    assert(u[0] == s[0]);
    let h = s[0];
    let wt = WireType::from_code_spec(spec_code(h));
    let after_s = s.subrange(1, s.len() as int);
    let after_u = u.subrange(1, u.len() as int);
    assert(after_u =~= after_s + g);
    if spec_has_tags(h) {
        lemma_var_bytes_extend(after_s, g);
        let p = 1 + var_bytes_len(after_s) as int;
        assert(u.subrange(p, u.len() as int) =~= s.subrange(p, s.len() as int) + g);
        lemma_payload_parse_extend(wt, s.subrange(p, s.len() as int), g);
    } else {
        assert(u.subrange(1, u.len() as int) =~= s.subrange(1, s.len() as int) + g);
        lemma_payload_parse_extend(wt, s.subrange(1, s.len() as int), g);
    }
}

/// A well-formed buffer followed by anything still parses as the same
/// value and leaves the extra bytes dangling: the validator reports them
/// as trailing data.
pub proof fn lemma_trailing_data(b: Seq<u8>, g: Seq<u8>)
    requires
        wire_wf(b),
        g.len() > 0,
    ensures
        val_wf(b + g),
        (val_parse(b + g)->Some_0).len < (b + g).len(),
{
    lemma_val_parse_extend(b, g);
}

/// No proper prefix of a well-formed buffer is recursively well formed:
/// the validator rejects it, and not merely for trailing data.
pub proof fn lemma_prefix_not_wf(b: Seq<u8>, n: int)
    requires
        wire_wf(b),
        0 <= n < b.len(),
    ensures
        !val_wf(b.subrange(0, n)),
{
    let p = b.subrange(0, n);
    if val_wf(p) {
        lemma_val_parse_bounds(p);
        let g = b.subrange(n, b.len() as int);
        assert(p + g =~= b);
        lemma_val_parse_extend(p, g);
        assert((val_parse(b)->Some_0).len <= n);
        assert((val_parse(b)->Some_0).len == b.len());
    }
}

// ---------------------------------------------------------------------------
// The two lazy iterators: tag pairs and list elements.
// ---------------------------------------------------------------------------

/// Walks the pairs of a tags region: a leading count, then that many
/// (symbol, value) pairs. The first decode failure latches and ends the
/// iteration; `check_error` tells a clean exhaustion from a latched error
/// or leftover bytes.
pub struct TagDecoder<'val> {
    remaining: usize,
    reader: Reader<'val, u8>,
    error: bool,
}

impl<'val> TagDecoder<'val> {
    /// How many pairs are still announced.
    pub closed spec fn count(&self) -> nat {
        self.remaining as nat
    }

    /// The bytes not yet consumed.
    pub closed spec fn inner(&self) -> Seq<u8> {
        self.reader.remaining_seq()
    }

    /// Whether a decode failure has latched.
    pub closed spec fn failed(&self) -> bool {
        self.error
    }

    pub closed spec fn wf(&self) -> bool {
        self.reader.wf()
    }

    /// Opens a tags region: reads the count and demands at least two bytes
    /// per announced pair, the least any pair can occupy.
    pub fn new(tags: &'val [u8]) -> (r: Option<TagDecoder<'val>>)
        ensures
            match r {
                Some(d) => {
                    &&& list_head_some(tags@)
                    &&& tags@.len() - list_head_w(tags@) >= 2 * list_head_count(tags@)
                    &&& d.wf()
                    &&& !d.failed()
                    &&& d.count() == list_head_count(tags@)
                    &&& d.inner() == tags@.subrange(list_head_w(tags@) as int, tags@.len() as int)
                },
                None => !list_head_some(tags@) || tags@.len() - list_head_w(tags@) < 2
                    * list_head_count(tags@),
            },
    {
        let (remaining, reader) = match decode_list(tags) {
            Some(x) => x,
            None => {
                return None;
            },
        };
        let rem_bytes = reader.remaining();
        if (rem_bytes as u128) < 2 * (remaining as u128) {
            return None;
        }
        Some(TagDecoder { remaining, reader, error: false })
    }

    /// Reports a clean end: no latched error, no pair still announced, no
    /// byte left over. Anything else is a malformed tags region.
    pub fn check_error(self) -> (r: Result<(), ()>)
        requires
            self.wf(),
        ensures
            r is Ok <==> (!self.failed() && self.count() == 0 && self.inner().len() == 0),
    {
        if self.error || self.remaining > 0 || self.reader.has_some() {
            return Err(());
        }
        Ok(())
    }

    /// How many pairs are still announced.
    pub fn remaining(&self) -> (n: usize)
        ensures
            n == self.count(),
    {
        self.remaining
    }

    /// Decodes the next (symbol, value) pair, or reports exhaustion. A
    /// decode failure latches into the iterator and stops it.
    pub fn next(&mut self) -> (r: Option<(TagSymbol<'val>, Value<'val>)>)
        requires
            old(self).wf(),
        ensures
            final(self).wf(),
            match r {
                Some(p) => {
                    &&& old(self).count() > 0
                    &&& tag_sym_some(old(self).inner())
                    &&& match p.0 {
                        TagSymbol::Bytes(b) => b@ == tag_sym_val(old(self).inner()),
                    }
                    &&& ({
                        let rest = old(self).inner().subrange(
                            tag_sym_len(old(self).inner()) as int,
                            old(self).inner().len() as int,
                        );
                        &&& val_parse(rest) is Some
                        &&& ({
                            let m = val_parse(rest)->Some_0;
                            &&& p.1.ty == m.wt
                            &&& !p.1.has_kind
                            &&& p.1.has_tags == m.has_tags
                            &&& p.1.kind@ == Seq::<u8>::empty()
                            &&& p.1.tags@ == m.tags
                            &&& p.1.payload@ == m.payload
                            &&& final(self).inner() == rest.subrange(m.len as int, rest.len() as int)
                        })
                    })
                    &&& final(self).count() == old(self).count() - 1
                    &&& final(self).failed() == old(self).failed()
                },
                None => {
                    ||| {
                        &&& old(self).count() == 0
                        &&& final(self).count() == old(self).count()
                        &&& final(self).inner() == old(self).inner()
                        &&& final(self).failed() == old(self).failed()
                    }
                    ||| {
                        &&& old(self).count() > 0
                        &&& (!tag_sym_some(old(self).inner()) || val_parse(
                            old(self).inner().subrange(
                                tag_sym_len(old(self).inner()) as int,
                                old(self).inner().len() as int,
                            ),
                        ) is None)
                        &&& final(self).failed()
                        &&& final(self).count() == old(self).count()
                    }
                },
            },
    {
        if self.remaining > 0 {
            let ghost inner0 = self.reader.remaining_seq();
            let symbol = match decode_tag_symbol(&mut self.reader) {
                Some(symbol) => symbol,
                None => {
                    self.error = true;
                    return None;
                },
            };
            proof {
                assert(self.reader.remaining_seq() =~= inner0.subrange(
                    tag_sym_len(inner0) as int,
                    inner0.len() as int,
                ));
            }
            let value = match decode_value(&mut self.reader) {
                Some(value) => value,
                None => {
                    self.error = true;
                    return None;
                },
            };
            proof {
                let rest = inner0.subrange(tag_sym_len(inner0) as int, inner0.len() as int);
                let m = val_parse(rest)->Some_0;
                assert(self.reader.remaining_seq() =~= rest.subrange(
                    m.len as int,
                    rest.len() as int,
                ));
            }
            self.remaining = self.remaining - 1;
            return Some((symbol, value));
        }
        None
    }
}

/// Walks the elements of a list body: a leading count, then that many
/// values. The first decode failure latches and ends the iteration.
pub struct ListDecoder<'val> {
    remaining: usize,
    reader: Reader<'val, u8>,
    error: bool,
}

impl<'val> ListDecoder<'val> {
    /// How many elements are still announced.
    pub closed spec fn count(&self) -> nat {
        self.remaining as nat
    }

    /// The bytes not yet consumed.
    pub closed spec fn inner(&self) -> Seq<u8> {
        self.reader.remaining_seq()
    }

    /// Whether a decode failure has latched.
    pub closed spec fn failed(&self) -> bool {
        self.error
    }

    pub closed spec fn wf(&self) -> bool {
        self.reader.wf()
    }

    /// Opens a list body: reads the count and demands at least one byte per
    /// announced element, the least any value can occupy.
    pub fn new(payload: &'val [u8]) -> (r: Option<ListDecoder<'val>>)
        ensures
            match r {
                Some(d) => {
                    &&& list_head_some(payload@)
                    &&& payload@.len() - list_head_w(payload@) >= list_head_count(payload@)
                    &&& d.wf()
                    &&& !d.failed()
                    &&& d.count() == list_head_count(payload@)
                    &&& d.inner() == payload@.subrange(
                        list_head_w(payload@) as int,
                        payload@.len() as int,
                    )
                },
                None => !list_head_some(payload@) || payload@.len() - list_head_w(payload@)
                    < list_head_count(payload@),
            },
    {
        let (remaining, reader) = match decode_list(payload) {
            Some(x) => x,
            None => {
                return None;
            },
        };
        if reader.remaining() < remaining {
            return None;
        }
        Some(ListDecoder { remaining, reader, error: false })
    }

    /// Reports a clean end: no latched error, no element still announced,
    /// no byte left over. Anything else is a malformed list body.
    pub fn check_error(self) -> (r: Result<(), ()>)
        requires
            self.wf(),
        ensures
            r is Ok <==> (!self.failed() && self.count() == 0 && self.inner().len() == 0),
    {
        if self.error || self.remaining > 0 || self.reader.has_some() {
            return Err(());
        }
        Ok(())
    }

    /// How many elements are still announced.
    pub fn remaining(&self) -> (n: usize)
        ensures
            n == self.count(),
    {
        self.remaining
    }

    /// Decodes the next element, or reports exhaustion. A decode failure
    /// latches into the iterator and stops it.
    pub fn next(&mut self) -> (r: Option<Value<'val>>)
        requires
            old(self).wf(),
        ensures
            final(self).wf(),
            match r {
                Some(v) => {
                    &&& old(self).count() > 0
                    &&& val_parse(old(self).inner()) is Some
                    &&& ({
                        let m = val_parse(old(self).inner())->Some_0;
                        &&& v.ty == m.wt
                        &&& !v.has_kind
                        &&& v.has_tags == m.has_tags
                        &&& v.kind@ == Seq::<u8>::empty()
                        &&& v.tags@ == m.tags
                        &&& v.payload@ == m.payload
                        &&& final(self).inner() == old(self).inner().subrange(
                            m.len as int,
                            old(self).inner().len() as int,
                        )
                    })
                    &&& final(self).count() == old(self).count() - 1
                    &&& final(self).failed() == old(self).failed()
                },
                None => {
                    ||| {
                        &&& old(self).count() == 0
                        &&& final(self).count() == old(self).count()
                        &&& final(self).inner() == old(self).inner()
                        &&& final(self).failed() == old(self).failed()
                    }
                    ||| {
                        &&& old(self).count() > 0
                        &&& val_parse(old(self).inner()) is None
                        &&& final(self).failed()
                        &&& final(self).count() == old(self).count()
                    }
                },
            },
    {
        if self.remaining > 0 {
            let ghost inner0 = self.reader.remaining_seq();
            let value = match decode_value(&mut self.reader) {
                Some(value) => value,
                None => {
                    self.error = true;
                    return None;
                },
            };
            proof {
                let m = val_parse(inner0)->Some_0;
                assert(self.reader.remaining_seq() =~= inner0.subrange(
                    m.len as int,
                    inner0.len() as int,
                ));
            }
            self.remaining = self.remaining - 1;
            return Some(value);
        }
        None
    }
}

} // verus!
