//! The variable-width size (varint) codec: an unsigned value below `2^62` is
//! shifted left by two bits, the low two bits hold a class tag picking a
//! width of 1, 2, 4 or 8 bytes, and the result is written little-endian in
//! that width. The encoder picks the smallest width that fits; the decoder
//! accepts any of the four widths.

use vstd::prelude::*;
use crate::reader::{le_val, pow256, Reader};
use vstd::arithmetic::div_mod::{
    lemma_fundamental_div_mod, lemma_fundamental_div_mod_converse_div,
    lemma_fundamental_div_mod_converse_mod, lemma_mod_mod,
};

verus! {

/// Sizes at or above this ceiling (`2^62`) cannot be encoded.
pub const SIZE_CEILING: u64 = 0x4000_0000_0000_0000;

/// Little-endian bytes of `x`, truncated or zero-padded to `n` bytes.
pub open spec fn le_bytes(x: nat, n: nat) -> Seq<u8>
    decreases n,
{
    if n == 0 {
        Seq::empty()
    } else {
        seq![(x % 256) as u8] + le_bytes(x / 256, (n - 1) as nat)
    }
}

pub proof fn lemma_le_bytes_len(x: nat, n: nat)
    ensures
        le_bytes(x, n).len() == n,
    decreases n,
{
    if n > 0 {
        lemma_le_bytes_len(x / 256, (n - 1) as nat);
    }
}

/// The first bytes of a little-endian encoding encode the same value in a
/// smaller width.
pub proof fn lemma_le_bytes_prefix(x: nat, n: nat, m: nat)
    requires
        m <= n,
    ensures
        le_bytes(x, n).subrange(0, m as int) == le_bytes(x, m),
    decreases m,
{
    lemma_le_bytes_len(x, n);
    lemma_le_bytes_len(x, m);
    if m == 0 {
        assert(le_bytes(x, n).subrange(0, 0) =~= le_bytes(x, 0));
    } else {
        lemma_le_bytes_prefix(x / 256, (n - 1) as nat, (m - 1) as nat);
        lemma_le_bytes_len(x / 256, (n - 1) as nat);
        lemma_le_bytes_len(x / 256, (m - 1) as nat);
        assert(le_bytes(x, n).subrange(0, m as int) =~= le_bytes(x, m));
    }
}

/// Bytes beyond the width that the value fits in are zero.
pub proof fn lemma_le_bytes_zero_above(x: nat, n: nat, m: nat)
    requires
        m <= n,
        x < pow256(m),
    ensures
        forall|j: int| m <= j < n ==> #[trigger] le_bytes(x, n)[j] == 0,
    decreases n,
{
    lemma_le_bytes_len(x, n);
    if n > 0 {
        if m == 0 {
            assert(x == 0);
            assert(0nat % 256 == 0);
            assert(0nat / 256 == 0);
            lemma_le_bytes_zero_above(0, (n - 1) as nat, 0);
            assert forall|j: int| 0 <= j < n implies #[trigger] le_bytes(x, n)[j] == 0 by {
                lemma_le_bytes_len(0, (n - 1) as nat);
                if j > 0 {
                    assert(le_bytes(x, n)[j] == le_bytes(0, (n - 1) as nat)[j - 1]);
                }
            }
        } else {
            assert(x / 256 < pow256((m - 1) as nat)) by (nonlinear_arith)
                requires
                    x < 256 * pow256((m - 1) as nat),
            ;
            lemma_le_bytes_zero_above(x / 256, (n - 1) as nat, (m - 1) as nat);
            assert forall|j: int| m <= j < n implies #[trigger] le_bytes(x, n)[j] == 0 by {
                lemma_le_bytes_len(x / 256, (n - 1) as nat);
                assert(le_bytes(x, n)[j] == le_bytes(x / 256, (n - 1) as nat)[j - 1]);
            }
        }
    }
}

/// Writing a value little-endian and reading it back is the identity, as
/// long as the value fits in the width.
pub proof fn lemma_le_bytes_val(x: nat, n: nat)
    requires
        x < pow256(n),
    ensures
        le_val(le_bytes(x, n)) == x,
    decreases n,
{
    lemma_le_bytes_len(x, n);
    if n == 0 {
        assert(le_val(le_bytes(x, n)) == 0);
    } else {
        assert(x / 256 < pow256((n - 1) as nat)) by (nonlinear_arith)
            requires
                x < 256 * pow256((n - 1) as nat),
        ;
        lemma_le_bytes_val(x / 256, (n - 1) as nat);
        lemma_le_bytes_len(x / 256, (n - 1) as nat);
        let s = le_bytes(x, n);
        assert(s[0] == x % 256);
        assert(s.subrange(1, s.len() as int) =~= le_bytes(x / 256, (n - 1) as nat));
        assert(le_val(s) == x % 256 + 256 * (x / 256));
        lemma_fundamental_div_mod(x as int, 256);
    }
}

/// The width of the varint class that the encoder picks for `v`: the
/// smallest of 1, 2, 4 and 8 bytes in which `4 * v` plus the tag fits.
pub open spec fn size_enc_len(v: nat) -> nat {
    if v < 0x40 {
        1
    } else if v < 0x4000 {
        2
    } else if v < 0x4000_0000 {
        4
    } else {
        8
    }
}

/// The class tag stored in the low two bits for a given width.
pub open spec fn size_class(w: nat) -> nat {
    if w == 1 {
        0
    } else if w == 2 {
        1
    } else if w == 4 {
        2
    } else {
        3
    }
}

/// The varint encoding of `v` in exactly `w` bytes (`w` one of 1, 2, 4, 8).
pub open spec fn size_enc_w(v: nat, w: nat) -> Seq<u8> {
    le_bytes(4 * v + size_class(w), w)
}

/// The varint encoding of `v` in the smallest width that fits.
pub open spec fn size_enc(v: nat) -> Seq<u8> {
    size_enc_w(v, size_enc_len(v))
}

/// The encoding of a symbol: a varint length prefix with the inline-bytes
/// bit set in its lowest position, then the symbol's bytes.
pub open spec fn sym_enc(s: Seq<u8>) -> Seq<u8> {
    size_enc(2 * s.len() + 1) + s
}

/// Whether a varint can be decoded from the front of `s`: there is a first
/// byte, and the width its class tag announces is available.
pub open spec fn size_dec_some(s: Seq<u8>) -> bool {
    s.len() >= 1 && size_width_of(s[0]) <= s.len()
}

/// The width announced by the class tag in the low two bits of the first
/// byte.
pub open spec fn size_width_of(b: u8) -> nat {
    if b % 4 == 0 {
        1
    } else if b % 4 == 1 {
        2
    } else if b % 4 == 2 {
        4
    } else {
        8
    }
}

/// The value a varint at the front of `s` decodes to.
pub open spec fn size_dec_val(s: Seq<u8>) -> nat {
    le_val(s.subrange(0, size_width_of(s[0]) as int)) / 4
}

/// The number of bytes a varint at the front of `s` occupies.
pub open spec fn size_dec_w(s: Seq<u8>) -> nat {
    size_width_of(s[0])
}

/// A value encoded in any admissible width decodes back to itself, whatever
/// follows the encoding.
pub proof fn lemma_size_enc_w_dec(v: nat, w: nat, rest: Seq<u8>)
    requires
        w == 1 || w == 2 || w == 4 || w == 8,
        4 * v + 3 < pow256(w),
    ensures
        size_enc_w(v, w).len() == w,
        size_dec_some(size_enc_w(v, w) + rest),
        size_dec_w(size_enc_w(v, w) + rest) == w,
        size_dec_val(size_enc_w(v, w) + rest) == v,
{
    let c = size_class(w);
    let x = 4 * v + c;
    let enc = size_enc_w(v, w);
    let s = enc + rest;
    lemma_le_bytes_len(x, w);
    assert(enc[0] == x % 256);
    assert(s[0] == enc[0]);
    lemma_mod_mod(x as int, 4, 64);
    assert(x % 4 == c) by {
        lemma_fundamental_div_mod_converse_mod(x as int, 4, v as int, c as int);
    }
    assert((x % 256) % 4 == c);
    assert(s[0] % 4 == c);
    assert(size_width_of(s[0]) == w);
    assert(s.subrange(0, w as int) =~= enc);
    lemma_le_bytes_val(x, w);
    assert(le_val(enc) == x);
    assert(x / 4 == v) by {
        lemma_fundamental_div_mod_converse_div(x as int, 4, v as int, c as int);
    }
}

/// The round trip of the size codec: decoding an encoding, in minimal or in
/// any wider admissible width, gives the value back; and the width the
/// encoder picks is the smallest class that holds the value.
pub proof fn lemma_size_codec_roundtrip(v: nat, rest: Seq<u8>)
    requires
        v < SIZE_CEILING,
    ensures
        size_enc(v).len() == size_enc_len(v),
        size_dec_some(size_enc(v) + rest),
        size_dec_w(size_enc(v) + rest) == size_enc_len(v),
        size_dec_val(size_enc(v) + rest) == v,
        size_enc_len(v) > 1 ==> v >= 0x40,
        size_enc_len(v) > 2 ==> v >= 0x4000,
        size_enc_len(v) > 4 ==> v >= 0x4000_0000,
    decreases v,
{
    crate::reader::lemma_pow256_values();
    lemma_size_enc_w_dec(v, size_enc_len(v), rest);
}

/// Encodes `value` as a varint: picks the smallest class width that fits,
/// shifts the value up by two bits and stores the class tag in the low two.
/// Returns the bytes, little-endian in a zero-padded 8-byte array, and the
/// chosen width.
pub fn encode_size(value: u64) -> (r: ([u8; 8], usize))
    requires
        value < SIZE_CEILING,
    ensures
        r.0@.len() == 8,
        r.1 == size_enc_len(value as nat),
        r.0@.subrange(0, r.1 as int) == size_enc(value as nat),
        forall|j: int| r.1 <= j < 8 ==> r.0@[j] == 0,
{
    let (tag, length): (u64, usize) = if value < 0x40 {
        (0, 1)
    } else if value < 0x4000 {
        (1, 2)
    } else if value < 0x4000_0000 {
        (2, 4)
    } else {
        (3, 8)
    };
    let x: u64 = value * 4 + tag;
    let ghost x0 = x as nat;
    let mut bytes = [0u8; 8];
    let mut rest: u64 = x;
    let mut i: usize = 0;
    proof {
        lemma_le_bytes_len(x0, 8);
        assert(bytes@.subrange(0, 0).len() == 0);
        assert(le_bytes(x0, 8) == bytes@.subrange(0, 0) + le_bytes(x0, 8)) by {
            assert(bytes@.subrange(0, 0) + le_bytes(x0, 8) =~= le_bytes(x0, 8));
        }
    }
    while i < 8
        invariant
            i <= 8,
            bytes@.len() == 8,
            le_bytes(x0, 8) == bytes@.subrange(0, i as int) + le_bytes(rest as nat, (8 - i) as nat),
        decreases 8 - i,
    {
        let b: u8 = (rest % 256) as u8;
        let ghost pre = bytes@;
        let ghost pre_rest = rest as nat;
        bytes[i] = b;
        rest = rest / 256;
        proof {
            assert(le_bytes(pre_rest, (8 - i) as nat) == seq![(pre_rest % 256) as u8] + le_bytes(
                pre_rest / 256,
                (7 - i) as nat,
            ));
            lemma_le_bytes_len(pre_rest / 256, (7 - i) as nat);
            assert(bytes@.subrange(0, i + 1) =~= pre.subrange(0, i as int) + seq![b]);
            assert(bytes@.subrange(0, i + 1) + le_bytes(rest as nat, (7 - i) as nat) =~= pre.subrange(
                0,
                i as int,
            ) + le_bytes(pre_rest, (8 - i) as nat));
        }
        i = i + 1;
    }
    proof {
        assert(le_bytes(rest as nat, 0).len() == 0);
        assert(bytes@ =~= bytes@.subrange(0, 8) + le_bytes(rest as nat, 0));
        assert(bytes@ == le_bytes(x0, 8));
        crate::reader::lemma_pow256_values();
        assert(x0 < pow256(length as nat));
        lemma_le_bytes_prefix(x0, 8, length as nat);
        assert(bytes@.subrange(0, length as int) == le_bytes(x0, length as nat));
        assert(size_enc(value as nat) == le_bytes(x0, length as nat));
        lemma_le_bytes_zero_above(x0, 8, length as nat);
    }
    (bytes, length)
}

/// Writes a 64-bit value as its eight little-endian bytes.
pub fn encode_u64_le(x: u64) -> (r: [u8; 8])
    ensures
        r@ == le_bytes(x as nat, 8),
{
    let ghost x0 = x as nat;
    let mut bytes = [0u8; 8];
    let mut rest: u64 = x;
    let mut i: usize = 0;
    proof {
        lemma_le_bytes_len(x0, 8);
        assert(bytes@.subrange(0, 0) + le_bytes(x0, 8) =~= le_bytes(x0, 8));
    }
    while i < 8
        invariant
            i <= 8,
            bytes@.len() == 8,
            le_bytes(x0, 8) == bytes@.subrange(0, i as int) + le_bytes(rest as nat, (8 - i) as nat),
        decreases 8 - i,
    {
        let b: u8 = (rest % 256) as u8;
        let ghost pre = bytes@;
        let ghost pre_rest = rest as nat;
        bytes[i] = b;
        rest = rest / 256;
        proof {
            assert(le_bytes(pre_rest, (8 - i) as nat) == seq![(pre_rest % 256) as u8] + le_bytes(
                pre_rest / 256,
                (7 - i) as nat,
            ));
            lemma_le_bytes_len(pre_rest / 256, (7 - i) as nat);
            assert(bytes@.subrange(0, i + 1) =~= pre.subrange(0, i as int) + seq![b]);
            assert(bytes@.subrange(0, i + 1) + le_bytes(rest as nat, (7 - i) as nat) =~= pre.subrange(
                0,
                i as int,
            ) + le_bytes(pre_rest, (8 - i) as nat));
        }
        i = i + 1;
    }
    proof {
        assert(le_bytes(rest as nat, 0).len() == 0);
        assert(bytes@ =~= bytes@.subrange(0, 8) + le_bytes(rest as nat, 0));
    }
    bytes
}

/// Decodes one varint from the reader: the low two bits of the first byte
/// pick the width, that many bytes are read little-endian, and the value is
/// the result shifted down by two bits. Consumes nothing on failure.
pub fn decode_size(reader: &mut Reader<u8>) -> (r: Option<u64>)
    requires
        old(reader).wf(),
    ensures
        final(reader).wf(),
        final(reader).buf() == old(reader).buf(),
        match r {
            Some(v) => {
                &&& size_dec_some(old(reader).remaining_seq())
                &&& v as nat == size_dec_val(old(reader).remaining_seq())
                &&& v < SIZE_CEILING
                &&& final(reader).pos() == old(reader).pos() + size_dec_w(
                    old(reader).remaining_seq(),
                )
            },
            None => {
                &&& !size_dec_some(old(reader).remaining_seq())
                &&& final(reader).pos() == old(reader).pos()
            },
        },
{
    let ghost rem = old(reader).remaining_seq();
    let first: u8 = match reader.peek(0) {
        Some(b) => *b,
        None => {
            proof {
                assert(rem.len() == 0);
            }
            return None;
        },
    };
    proof {
        assert(rem[0] == old(reader).buf()[old(reader).pos() as int]);
    }
    let raw: u64 = match first % 4 {
        0 => match reader.next_u8_le() {
            Some(x) => x as u64,
            None => {
                return None;
            },
        },
        1 => match reader.next_u16_le() {
            Some(x) => x as u64,
            None => {
                return None;
            },
        },
        2 => match reader.next_u32_le() {
            Some(x) => x as u64,
            None => {
                return None;
            },
        },
        _ => match reader.next_u64_le() {
            Some(x) => x,
            None => {
                return None;
            },
        },
    };
    proof {
        let w = size_width_of(rem[0]) as int;
        assert(rem.subrange(0, w) =~= old(reader).buf().subrange(
            old(reader).pos() as int,
            old(reader).pos() as int + w,
        ));
        crate::reader::lemma_pow256_values();
        crate::reader::lemma_le_val_bound(rem.subrange(0, w));
        crate::reader::lemma_pow256_monotonic(size_width_of(rem[0]), 8);
        assert((raw as nat) / 4 < SIZE_CEILING) by (nonlinear_arith)
            requires
                (raw as nat) < 0x1_0000_0000_0000_0000,
        ;
    }
    Some(raw / 4)
}

/// Decodes one varint without moving the reader: reports the value and how
/// many bytes it occupies.
pub fn peek_decode_size(reader: &Reader<u8>) -> (r: Option<(u64, usize)>)
    requires
        reader.wf(),
    ensures
        match r {
            Some((v, w)) => {
                &&& size_dec_some(reader.remaining_seq())
                &&& v as nat == size_dec_val(reader.remaining_seq())
                &&& v < SIZE_CEILING
                &&& w == size_dec_w(reader.remaining_seq())
            },
            None => !size_dec_some(reader.remaining_seq()),
        },
{
    let mut probe = *reader;
    let before = probe.remaining();
    match decode_size(&mut probe) {
        Some(size) => {
            let after = probe.remaining();
            Some((size, before - after))
        },
        None => None,
    }
}

/// Narrows a decoded 64-bit size to `usize`; sizes beyond the address space
/// cannot index this machine's buffers.
pub fn u64_to_usize(value: u64) -> (r: Option<usize>)
    ensures
        match r {
            Some(x) => value <= usize::MAX && x as u64 == value,
            None => value > usize::MAX,
        },
{
    if value <= usize::MAX as u64 {
        Some(value as usize)
    } else {
        None
    }
}

/// Decodes one varint and narrows it to `usize`.
pub fn decode_size_as_usize(reader: &mut Reader<u8>) -> (r: Option<usize>)
    requires
        old(reader).wf(),
    ensures
        final(reader).wf(),
        final(reader).buf() == old(reader).buf(),
        match r {
            Some(v) => {
                &&& size_dec_some(old(reader).remaining_seq())
                &&& size_dec_val(old(reader).remaining_seq()) <= usize::MAX
                &&& v as nat == size_dec_val(old(reader).remaining_seq())
                &&& final(reader).pos() == old(reader).pos() + size_dec_w(
                    old(reader).remaining_seq(),
                )
            },
            None => {
                &&& !size_dec_some(old(reader).remaining_seq()) || size_dec_val(
                    old(reader).remaining_seq(),
                ) > usize::MAX
            },
        },
{
    match decode_size(reader) {
        Some(v) => u64_to_usize(v),
        None => None,
    }
}

} // verus!
