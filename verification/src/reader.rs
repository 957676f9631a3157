//! A cursor over a borrowed slice, with zero-copy subslice extraction and
//! little-endian primitive reads. All reads either consume exactly the bytes
//! they return or leave the cursor untouched and report `None`.

use vstd::prelude::*;

verus! {

/// Value of a byte sequence read as a little-endian unsigned integer.
pub open spec fn le_val(s: Seq<u8>) -> nat
    decreases s.len(),
{
    if s.len() == 0 {
        0
    } else {
        (s[0] + 256 * le_val(s.subrange(1, s.len() as int))) as nat
    }
}

/// 256 raised to the power `n`: the number of values a little-endian
/// integer of `n` bytes can take.
pub open spec fn pow256(n: nat) -> nat
    decreases n,
{
    if n == 0 {
        1
    } else {
        256 * pow256((n - 1) as nat)
    }
}

/// A little-endian integer of `n` bytes is below `pow256(n)`.
pub proof fn lemma_le_val_bound(s: Seq<u8>)
    ensures
        le_val(s) < pow256(s.len()),
    decreases s.len(),
{
    if s.len() > 0 {
        lemma_le_val_bound(s.subrange(1, s.len() as int));
    }
}

/// A cursor over a borrowed slice. The cursor never runs past the end.
#[derive(Clone, Copy)]
pub struct Reader<'rdr, T> {
    buffer: &'rdr [T],
    cursor: usize,
}

impl<'rdr, T> Reader<'rdr, T> {
    /// The whole underlying slice, as a sequence.
    pub closed spec fn buf(&self) -> Seq<T> {
        self.buffer@
    }

    /// The cursor: how many items have been consumed.
    pub closed spec fn pos(&self) -> nat {
        self.cursor as nat
    }

    /// The cursor stays within the slice.
    pub open spec fn wf(&self) -> bool {
        self.pos() <= self.buf().len()
    }

    /// The items not yet consumed.
    pub open spec fn remaining_seq(&self) -> Seq<T> {
        self.buf().subrange(self.pos() as int, self.buf().len() as int)
    }

    pub fn new(buffer: &'rdr [T]) -> (r: Reader<'rdr, T>)
        ensures
            r.wf(),
            r.buf() == buffer@,
            r.pos() == 0,
    {
        Reader { buffer, cursor: 0 }
    }

    pub fn remaining(&self) -> (n: usize)
        requires
            self.wf(),
        ensures
            n == self.buf().len() - self.pos(),
    {
        self.buffer.len() - self.cursor
    }

    pub fn rest(&self) -> (s: &'rdr [T])
        requires
            self.wf(),
        ensures
            s@ == self.remaining_seq(),
    {
        vstd::slice::slice_subrange(self.buffer, self.cursor, self.buffer.len())
    }

    pub fn empty(&self) -> (r: bool)
        requires
            self.wf(),
        ensures
            r == (self.pos() == self.buf().len()),
    {
        !self.has_some()
    }

    pub fn has_some(&self) -> (r: bool)
        requires
            self.wf(),
        ensures
            r == (self.pos() < self.buf().len()),
    {
        self.cursor < self.buffer.len()
    }

    pub fn peek(&self, offset: usize) -> (r: Option<&'rdr T>)
        requires
            self.wf(),
        ensures
            match r {
                Some(t) => {
                    &&& self.pos() + offset < self.buf().len()
                    &&& *t == self.buf()[self.pos() + offset]
                },
                None => self.pos() + offset >= self.buf().len(),
            },
    {
        if offset < self.buffer.len() - self.cursor {
            Some(vstd::slice::slice_index_get(self.buffer, self.cursor + offset))
        } else {
            None
        }
    }

    pub fn next(&mut self) -> (r: Option<&'rdr T>)
        requires
            old(self).wf(),
        ensures
            final(self).wf(),
            final(self).buf() == old(self).buf(),
            match r {
                Some(t) => {
                    &&& old(self).pos() < old(self).buf().len()
                    &&& *t == old(self).buf()[old(self).pos() as int]
                    &&& final(self).pos() == old(self).pos() + 1
                },
                None => {
                    &&& old(self).pos() == old(self).buf().len()
                    &&& final(self).pos() == old(self).pos()
                },
            },
    {
        if self.cursor < self.buffer.len() {
            let result = vstd::slice::slice_index_get(self.buffer, self.cursor);
            self.cursor = self.cursor + 1;
            Some(result)
        } else {
            None
        }
    }

    pub fn has_n(&self, n: usize) -> (r: bool)
        requires
            self.wf(),
        ensures
            r == (self.pos() + n <= self.buf().len()),
    {
        n <= self.buffer.len() - self.cursor
    }

    pub fn peek_n(&self, n: usize) -> (r: Option<&'rdr [T]>)
        requires
            self.wf(),
        ensures
            match r {
                Some(s) => {
                    &&& self.pos() + n <= self.buf().len()
                    &&& s@ == self.buf().subrange(self.pos() as int, self.pos() as int + n)
                },
                None => self.pos() + n > self.buf().len(),
            },
    {
        let total = self.buffer.len();
        if n <= total - self.cursor {
            Some(vstd::slice::slice_subrange(self.buffer, self.cursor, self.cursor + n))
        } else {
            None
        }
    }

    /// Another name for `peek_n`, kept for callers that pair it with
    /// `next_n`.
    pub fn peek_next_n(&self, n: usize) -> (r: Option<&'rdr [T]>)
        requires
            self.wf(),
        ensures
            match r {
                Some(s) => {
                    &&& self.pos() + n <= self.buf().len()
                    &&& s@ == self.buf().subrange(self.pos() as int, self.pos() as int + n)
                },
                None => self.pos() + n > self.buf().len(),
            },
    {
        self.peek_n(n)
    }

    pub fn next_n(&mut self, n: usize) -> (r: Option<&'rdr [T]>)
        requires
            old(self).wf(),
        ensures
            final(self).wf(),
            final(self).buf() == old(self).buf(),
            match r {
                Some(s) => {
                    &&& old(self).pos() + n <= old(self).buf().len()
                    &&& s@ == old(self).buf().subrange(old(self).pos() as int, old(self).pos() as int + n)
                    &&& final(self).pos() == old(self).pos() + n
                },
                None => {
                    &&& old(self).pos() + n > old(self).buf().len()
                    &&& final(self).pos() == old(self).pos()
                },
            },
    {
        let total = self.buffer.len();
        if n <= total - self.cursor {
            let result = vstd::slice::slice_subrange(self.buffer, self.cursor, self.cursor + n);
            self.cursor = self.cursor + n;
            Some(result)
        } else {
            None
        }
    }
}

impl<'rdr> Reader<'rdr, u8> {
    /// Reads `n <= 8` bytes as one little-endian unsigned integer.
    fn read_le(&mut self, n: usize) -> (r: Option<u64>)
        requires
            old(self).wf(),
            n <= 8,
        ensures
            final(self).wf(),
            final(self).buf() == old(self).buf(),
            match r {
                Some(x) => {
                    &&& old(self).pos() + n <= old(self).buf().len()
                    &&& x as nat == le_val(
                        old(self).buf().subrange(old(self).pos() as int, old(self).pos() + n),
                    )
                    &&& final(self).pos() == old(self).pos() + n
                },
                None => {
                    &&& old(self).pos() + n > old(self).buf().len()
                    &&& final(self).pos() == old(self).pos()
                },
            },
    {
        let bytes = match self.next_n(n) {
            Some(bytes) => bytes,
            None => {
                return None;
            },
        };
        let ghost s = bytes@;
        let mut acc: u64 = 0;
        let mut i: usize = n;
        proof {
            assert(s.subrange(n as int, n as int).len() == 0);
        }
        while i > 0
            invariant
                i <= n,
                n <= 8,
                s.len() == n,
                s == bytes@,
                acc as nat == le_val(s.subrange(i as int, n as int)),
            decreases i,
        {
            i = i - 1;
            let b = *vstd::slice::slice_index_get(bytes, i);
            proof {
                let tail = s.subrange(i + 1, n as int);
                let whole = s.subrange(i as int, n as int);
                assert(whole[0] == s[i as int]);
                assert(whole.subrange(1, whole.len() as int) == tail);
                assert(le_val(whole) == s[i as int] + 256 * le_val(tail));
                lemma_le_val_bound(tail);
                lemma_pow256_monotonic((n - i - 1) as nat, 7);
                lemma_pow256_values();
                assert(acc < 0x0100_0000_0000_0000);
            }
            acc = acc * 256 + (b as u64);
        }
        proof {
            assert(s.subrange(0, n as int) == s);
        }
        Some(acc)
    }

    pub fn next_u8_le(&mut self) -> (r: Option<u8>)
        requires
            old(self).wf(),
        ensures
            final(self).wf(),
            final(self).buf() == old(self).buf(),
            match r {
                Some(x) => {
                    &&& old(self).pos() + 1 <= old(self).buf().len()
                    &&& x as nat == le_val(
                        old(self).buf().subrange(old(self).pos() as int, old(self).pos() as int + 1),
                    )
                    &&& final(self).pos() == old(self).pos() + 1
                },
                None => {
                    &&& old(self).pos() + 1 > old(self).buf().len()
                    &&& final(self).pos() == old(self).pos()
                },
            },
    {
        let r = self.read_le(1);
        match r {
            Some(x) => {
                proof {
                    lemma_le_val_bound(
                        old(self).buf().subrange(old(self).pos() as int, old(self).pos() as int + 1),
                    );
                    lemma_pow256_values();
                }
                Some(x as u8)
            },
            None => None,
        }
    }

    pub fn next_u16_le(&mut self) -> (r: Option<u16>)
        requires
            old(self).wf(),
        ensures
            final(self).wf(),
            final(self).buf() == old(self).buf(),
            match r {
                Some(x) => {
                    &&& old(self).pos() + 2 <= old(self).buf().len()
                    &&& x as nat == le_val(
                        old(self).buf().subrange(old(self).pos() as int, old(self).pos() as int + 2),
                    )
                    &&& final(self).pos() == old(self).pos() + 2
                },
                None => {
                    &&& old(self).pos() + 2 > old(self).buf().len()
                    &&& final(self).pos() == old(self).pos()
                },
            },
    {
        let r = self.read_le(2);
        match r {
            Some(x) => {
                proof {
                    lemma_le_val_bound(
                        old(self).buf().subrange(old(self).pos() as int, old(self).pos() as int + 2),
                    );
                    lemma_pow256_values();
                }
                Some(x as u16)
            },
            None => None,
        }
    }

    pub fn next_u32_le(&mut self) -> (r: Option<u32>)
        requires
            old(self).wf(),
        ensures
            final(self).wf(),
            final(self).buf() == old(self).buf(),
            match r {
                Some(x) => {
                    &&& old(self).pos() + 4 <= old(self).buf().len()
                    &&& x as nat == le_val(
                        old(self).buf().subrange(old(self).pos() as int, old(self).pos() as int + 4),
                    )
                    &&& final(self).pos() == old(self).pos() + 4
                },
                None => {
                    &&& old(self).pos() + 4 > old(self).buf().len()
                    &&& final(self).pos() == old(self).pos()
                },
            },
    {
        let r = self.read_le(4);
        match r {
            Some(x) => {
                proof {
                    lemma_le_val_bound(
                        old(self).buf().subrange(old(self).pos() as int, old(self).pos() as int + 4),
                    );
                    lemma_pow256_values();
                }
                Some(x as u32)
            },
            None => None,
        }
    }

    pub fn next_u64_le(&mut self) -> (r: Option<u64>)
        requires
            old(self).wf(),
        ensures
            final(self).wf(),
            final(self).buf() == old(self).buf(),
            match r {
                Some(x) => {
                    &&& old(self).pos() + 8 <= old(self).buf().len()
                    &&& x as nat == le_val(
                        old(self).buf().subrange(old(self).pos() as int, old(self).pos() as int + 8),
                    )
                    &&& final(self).pos() == old(self).pos() + 8
                },
                None => {
                    &&& old(self).pos() + 8 > old(self).buf().len()
                    &&& final(self).pos() == old(self).pos()
                },
            },
    {
        self.read_le(8)
    }
}

/// Value of a byte sequence read as a little-endian two's complement integer.
pub open spec fn le_ival(s: Seq<u8>) -> int {
    if 2 * le_val(s) < pow256(s.len()) {
        le_val(s) as int
    } else {
        le_val(s) - pow256(s.len())
    }
}

impl<'rdr> Reader<'rdr, u8> {
    pub fn next_i8_le(&mut self) -> (r: Option<i8>)
        requires
            old(self).wf(),
        ensures
            final(self).wf(),
            final(self).buf() == old(self).buf(),
            match r {
                Some(x) => {
                    &&& old(self).pos() + 1 <= old(self).buf().len()
                    &&& x as int == le_ival(
                        old(self).buf().subrange(old(self).pos() as int, old(self).pos() as int + 1),
                    )
                    &&& final(self).pos() == old(self).pos() + 1
                },
                None => {
                    &&& old(self).pos() + 1 > old(self).buf().len()
                    &&& final(self).pos() == old(self).pos()
                },
            },
    {
        proof {
            lemma_pow256_values();
        }
        match self.next_u8_le() {
            Some(u) => {
                if u < 0x80 {
                    Some(u as i8)
                } else {
                    Some(((u as i16) - 0x100) as i8)
                }
            },
            None => None,
        }
    }

    pub fn next_i16_le(&mut self) -> (r: Option<i16>)
        requires
            old(self).wf(),
        ensures
            final(self).wf(),
            final(self).buf() == old(self).buf(),
            match r {
                Some(x) => {
                    &&& old(self).pos() + 2 <= old(self).buf().len()
                    &&& x as int == le_ival(
                        old(self).buf().subrange(old(self).pos() as int, old(self).pos() as int + 2),
                    )
                    &&& final(self).pos() == old(self).pos() + 2
                },
                None => {
                    &&& old(self).pos() + 2 > old(self).buf().len()
                    &&& final(self).pos() == old(self).pos()
                },
            },
    {
        proof {
            lemma_pow256_values();
        }
        match self.next_u16_le() {
            Some(u) => {
                if u < 0x8000 {
                    Some(u as i16)
                } else {
                    Some(((u as i32) - 0x10000) as i16)
                }
            },
            None => None,
        }
    }

    pub fn next_i32_le(&mut self) -> (r: Option<i32>)
        requires
            old(self).wf(),
        ensures
            final(self).wf(),
            final(self).buf() == old(self).buf(),
            match r {
                Some(x) => {
                    &&& old(self).pos() + 4 <= old(self).buf().len()
                    &&& x as int == le_ival(
                        old(self).buf().subrange(old(self).pos() as int, old(self).pos() as int + 4),
                    )
                    &&& final(self).pos() == old(self).pos() + 4
                },
                None => {
                    &&& old(self).pos() + 4 > old(self).buf().len()
                    &&& final(self).pos() == old(self).pos()
                },
            },
    {
        proof {
            lemma_pow256_values();
        }
        match self.next_u32_le() {
            Some(u) => {
                if u < 0x8000_0000 {
                    Some(u as i32)
                } else {
                    Some(((u as i64) - 0x1_0000_0000) as i32)
                }
            },
            None => None,
        }
    }

    pub fn next_i64_le(&mut self) -> (r: Option<i64>)
        requires
            old(self).wf(),
        ensures
            final(self).wf(),
            final(self).buf() == old(self).buf(),
            match r {
                Some(x) => {
                    &&& old(self).pos() + 8 <= old(self).buf().len()
                    &&& x as int == le_ival(
                        old(self).buf().subrange(old(self).pos() as int, old(self).pos() as int + 8),
                    )
                    &&& final(self).pos() == old(self).pos() + 8
                },
                None => {
                    &&& old(self).pos() + 8 > old(self).buf().len()
                    &&& final(self).pos() == old(self).pos()
                },
            },
    {
        proof {
            lemma_pow256_values();
        }
        match self.next_u64_le() {
            Some(u) => {
                if u < 0x8000_0000_0000_0000 {
                    Some(u as i64)
                } else {
                    Some(((u as i128) - 0x1_0000_0000_0000_0000) as i64)
                }
            },
            None => None,
        }
    }

    /// Reads the next `N` bytes into a fixed-size array, in buffer order.
    pub fn next_bytes<const N: usize>(&mut self) -> (r: Option<[u8; N]>)
        requires
            old(self).wf(),
            N <= 8,
        ensures
            final(self).wf(),
            final(self).buf() == old(self).buf(),
            match r {
                Some(a) => {
                    &&& old(self).pos() + N <= old(self).buf().len()
                    &&& a@ == old(self).buf().subrange(old(self).pos() as int, old(self).pos() as int + N)
                    &&& final(self).pos() == old(self).pos() + N
                },
                None => {
                    &&& old(self).pos() + N > old(self).buf().len()
                    &&& final(self).pos() == old(self).pos()
                },
            },
    {
        match self.next_n(N) {
            Some(s) => {
                let mut bytes = [0u8; N];
                let mut i: usize = 0;
                while i < N
                    invariant
                        i <= N,
                        s@.len() == N,
                        bytes@.len() == N,
                        forall|j: int| 0 <= j < i ==> bytes@[j] == s@[j],
                    decreases N - i,
                {
                    bytes[i] = *vstd::slice::slice_index_get(s, i);
                    i = i + 1;
                }
                proof {
                    assert(bytes@ =~= s@);
                }
                Some(bytes)
            },
            None => None,
        }
    }

    /// Reads the next `N` bytes, to be interpreted as a little-endian
    /// integer: the byte at the lowest address is the least significant.
    pub fn next_bytes_le<const N: usize>(&mut self) -> (r: Option<[u8; N]>)
        requires
            old(self).wf(),
            N <= 8,
        ensures
            final(self).wf(),
            final(self).buf() == old(self).buf(),
            match r {
                Some(a) => {
                    &&& old(self).pos() + N <= old(self).buf().len()
                    &&& a@ == old(self).buf().subrange(old(self).pos() as int, old(self).pos() as int + N)
                    &&& final(self).pos() == old(self).pos() + N
                },
                None => {
                    &&& old(self).pos() + N > old(self).buf().len()
                    &&& final(self).pos() == old(self).pos()
                },
            },
    {
        self.next_bytes::<N>()
    }
}

/// `pow256` is monotonic in the exponent.
pub proof fn lemma_pow256_monotonic(a: nat, b: nat)
    requires
        a <= b,
    ensures
        pow256(a) <= pow256(b),
    decreases b,
{
    if a < b {
        lemma_pow256_monotonic(a, (b - 1) as nat);
        assert(pow256(b) == 256 * pow256((b - 1) as nat));
    }
}

/// The concrete weights of the byte positions used by the primitive reads.
pub proof fn lemma_pow256_values()
    ensures
        pow256(0) == 1,
        pow256(1) == 0x100,
        pow256(2) == 0x10000,
        pow256(4) == 0x1_0000_0000,
        pow256(7) == 0x0100_0000_0000_0000,
        pow256(8) == 0x1_0000_0000_0000_0000,
{
    reveal_with_fuel(pow256, 9);
}

} // verus!
