//! An executable UTF-8 validator, proved equivalent to the mathematical
//! definition of UTF-8 validity in `vstd::utf8`. String payloads on the wire
//! must pass it.

use vstd::prelude::*;
use vstd::utf8::{
    partial_valid_partial_invalid_utf8, partial_valid_utf8, partial_valid_utf8_extend, valid_utf8,
};

verus! {

/// Decides whether `bytes` is a well-formed UTF-8 encoding: every scalar is
/// encoded in its shortest form and no surrogate values appear.
pub fn validate_utf8(bytes: &[u8]) -> (r: bool)
    ensures
        r == valid_utf8(bytes@),
{
    let n = bytes.len();
    let mut i: usize = 0;
    proof {
        assert(bytes@.subrange(0, 0).len() == 0);
    }
    while i < n
        invariant
            i <= n,
            n == bytes@.len(),
            partial_valid_utf8(bytes@, i as int),
        decreases n - i,
    {
        let ghost t = bytes@.subrange(i as int, n as int);
        let b0 = *vstd::slice::slice_index_get(bytes, i);
        proof {
            assert(t[0] == b0);
        }
        let width: usize = if b0 < 0x80 {
            proof {
                assert(vstd::utf8::valid_first_scalar(t));
                assert(vstd::utf8::length_of_first_scalar(t) == 1);
            }
            1
        } else if b0 < 0xc0 {
            proof {
                lemma_reject(bytes@, i as int);
            }
            return false;
        } else if b0 < 0xe0 {
            if i + 1 >= n {
                proof {
                    lemma_reject(bytes@, i as int);
                }
                return false;
            }
            let b1 = *vstd::slice::slice_index_get(bytes, i + 1);
            proof {
                assert(t[1] == b1);
            }
            if !(0x80 <= b1 && b1 < 0xc0) {
                proof {
                    lemma_reject(bytes@, i as int);
                }
                return false;
            }
            let cp: u32 = (((b0 & 0x1f) as u32) << 6u32) | ((b1 & 0x3f) as u32);
            proof {
                assert(cp == vstd::utf8::codepoint_width_2(b0, b1));
                assert(vstd::utf8::decode_first_codepoint(t) == cp);
                assert(vstd::utf8::length_of_first_codepoint(t) == 2);
                assert(cp < 0xd800) by (bit_vector)
                    requires
                        cp == (((b0 & 0x1f) as u32) << 6u32) | ((b1 & 0x3f) as u32),
                ;
            }
            if cp < 0x80 {
                proof {
                    lemma_reject(bytes@, i as int);
                }
                return false;
            }
            proof {
                assert(vstd::utf8::valid_first_scalar(t));
            }
            2
        } else if b0 < 0xf0 {
            if n - i <= 2 {
                proof {
                    lemma_reject(bytes@, i as int);
                }
                return false;
            }
            let b1 = *vstd::slice::slice_index_get(bytes, i + 1);
            let b2 = *vstd::slice::slice_index_get(bytes, i + 2);
            proof {
                assert(t[1] == b1);
                assert(t[2] == b2);
            }
            if !(0x80 <= b1 && b1 < 0xc0) || !(0x80 <= b2 && b2 < 0xc0) {
                proof {
                    lemma_reject(bytes@, i as int);
                }
                return false;
            }
            let cp: u32 = (((b0 & 0x0f) as u32) << 12u32) | (((b1 & 0x3f) as u32) << 6u32) | ((b2
                & 0x3f) as u32);
            proof {
                assert(cp == vstd::utf8::codepoint_width_3(b0, b1, b2));
                assert(vstd::utf8::decode_first_codepoint(t) == cp);
                assert(vstd::utf8::length_of_first_codepoint(t) == 3);
            }
            if cp < 0x800 || (0xd800 <= cp && cp <= 0xdfff) {
                proof {
                    lemma_reject(bytes@, i as int);
                }
                return false;
            }
            proof {
                assert(vstd::utf8::valid_first_scalar(t));
            }
            3
        } else if b0 < 0xf8 {
            if n - i <= 3 {
                proof {
                    lemma_reject(bytes@, i as int);
                }
                return false;
            }
            let b1 = *vstd::slice::slice_index_get(bytes, i + 1);
            let b2 = *vstd::slice::slice_index_get(bytes, i + 2);
            let b3 = *vstd::slice::slice_index_get(bytes, i + 3);
            proof {
                assert(t[1] == b1);
                assert(t[2] == b2);
                assert(t[3] == b3);
            }
            if !(0x80 <= b1 && b1 < 0xc0) || !(0x80 <= b2 && b2 < 0xc0) || !(0x80 <= b3 && b3
                < 0xc0) {
                proof {
                    lemma_reject(bytes@, i as int);
                }
                return false;
            }
            let cp: u32 = (((b0 & 0x07) as u32) << 18u32) | (((b1 & 0x3f) as u32) << 12u32) | (((b2
                & 0x3f) as u32) << 6u32) | ((b3 & 0x3f) as u32);
            proof {
                assert(cp == vstd::utf8::codepoint_width_4(b0, b1, b2, b3));
                assert(vstd::utf8::decode_first_codepoint(t) == cp);
                assert(vstd::utf8::length_of_first_codepoint(t) == 4);
            }
            if cp < 0x10000 || cp > 0x10ffff {
                proof {
                    lemma_reject(bytes@, i as int);
                }
                return false;
            }
            proof {
                assert(vstd::utf8::valid_first_scalar(t));
            }
            4
        } else {
            proof {
                lemma_reject(bytes@, i as int);
            }
            return false;
        };
        proof {
            partial_valid_utf8_extend(bytes@, i as int);
            assert(vstd::utf8::length_of_first_scalar(t) == width);
        }
        i = i + width;
    }
    proof {
        assert(bytes@.subrange(0, n as int) =~= bytes@);
    }
    true
}

/// If the suffix starting at `i` does not begin with a well-formed scalar,
/// the whole sequence is not valid UTF-8.
proof fn lemma_reject(bytes: Seq<u8>, i: int)
    requires
        0 <= i < bytes.len(),
        partial_valid_utf8(bytes, i),
        !vstd::utf8::valid_first_scalar(bytes.subrange(i, bytes.len() as int)),
    ensures
        !valid_utf8(bytes),
{
    let t = bytes.subrange(i, bytes.len() as int);
    assert(t.len() > 0);
    assert(!valid_utf8(t));
    partial_valid_partial_invalid_utf8(bytes, i);
}

} // verus!
