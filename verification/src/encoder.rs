//! The encoder with deferred sizes. Container payloads are written into a
//! working buffer with fixed-width placeholder slots where their sizes
//! belong; closing a scope back-patches its slot with the true size. In
//! compacting mode the placeholders hold minimal varints padded with zeros
//! and a terminal pass drops the padding, guided by a log of placeholder
//! offsets; otherwise the placeholders hold full-width varints and the
//! buffer is the output as it stands.

use vstd::prelude::*;
use crate::common::{
    size_dec_some, size_dec_val, size_dec_w, size_enc, size_enc_len, size_enc_w, size_width_of,
    encode_size, peek_decode_size, SIZE_CEILING,
};
use crate::reader::Reader;

verus! {

/// What the encoder can fail with: a scope's size did not fit its
/// placeholder, or a size was beyond what the format can carry.
#[derive(Debug, Clone, PartialEq, Eq, Structural)]
pub enum Error {
    SizeOverflow,
}

// ---------------------------------------------------------------------------
// The model of a partially built buffer: a region of raw bytes interrupted
// by closed placeholder slots. Each slot is `w` bytes wide and holds a
// varint in its first bytes; compaction keeps the varint and drops the rest
// of the slot.
// ---------------------------------------------------------------------------

/// The closed placeholder slots at `offs` lie in order inside the region
/// `[from, to)` of `b`, a full slot width apart, and each holds a varint
/// that fits its slot.
pub open spec fn phs_wf(b: Seq<u8>, offs: Seq<int>, w: nat, from: int, to: int) -> bool
    decreases offs.len(),
{
    if offs.len() == 0 {
        0 <= from <= to <= b.len()
    } else {
        let o = offs[0];
        &&& 0 <= from <= o
        &&& o + w <= to <= b.len()
        &&& size_width_of(b[o]) <= w
        &&& phs_wf(b, offs.drop_first(), w, o + w, to)
    }
}

/// The region `[from, to)` of `b` with every placeholder slot shrunk to
/// the varint it holds: raw bytes are kept, and of each `w`-byte slot only
/// the leading varint survives.
pub open spec fn compact_region(b: Seq<u8>, offs: Seq<int>, w: nat, from: int, to: int) -> Seq<u8>
    recommends
        phs_wf(b, offs, w, from, to),
    decreases offs.len(),
{
    if offs.len() == 0 {
        b.subrange(from, to)
    } else {
        let o = offs[0];
        b.subrange(from, o) + b.subrange(o, o + size_width_of(b[o]) as int) + compact_region(
            b,
            offs.drop_first(),
            w,
            o + w,
            to,
        )
    }
}

/// Two buffers that agree on a region compact it to the same bytes.
pub proof fn lemma_compact_frame(
    b1: Seq<u8>,
    b2: Seq<u8>,
    offs: Seq<int>,
    w: nat,
    from: int,
    to: int,
)
    requires
        phs_wf(b1, offs, w, from, to),
        to <= b2.len(),
        forall|j: int| from <= j < to ==> b1[j] == b2[j],
    ensures
        phs_wf(b2, offs, w, from, to),
        compact_region(b2, offs, w, from, to) == compact_region(b1, offs, w, from, to),
    decreases offs.len(),
{
    if offs.len() == 0 {
        assert(b1.subrange(from, to) =~= b2.subrange(from, to));
    } else {
        let o = offs[0];
        assert(b1[o] == b2[o]);
        lemma_compact_frame(b1, b2, offs.drop_first(), w, o + w, to);
        assert(b1.subrange(from, o) =~= b2.subrange(from, o));
        assert(b1.subrange(o, o + size_width_of(b1[o]) as int) =~= b2.subrange(
            o,
            o + size_width_of(b2[o]) as int,
        ));
    }
}

/// Extending the region beyond its placeholders appends the new raw bytes
/// to the compacted form.
pub proof fn lemma_compact_extend(b: Seq<u8>, offs: Seq<int>, w: nat, from: int, to: int, to2: int)
    requires
        phs_wf(b, offs, w, from, to),
        to <= to2 <= b.len(),
    ensures
        phs_wf(b, offs, w, from, to2),
        compact_region(b, offs, w, from, to2) == compact_region(b, offs, w, from, to)
            + b.subrange(to, to2),
    decreases offs.len(),
{
    if offs.len() == 0 {
        assert(b.subrange(from, to2) =~= b.subrange(from, to) + b.subrange(to, to2));
    } else {
        let o = offs[0];
        lemma_compact_extend(b, offs.drop_first(), w, o + w, to, to2);
        assert(compact_region(b, offs, w, from, to2) =~= compact_region(b, offs, w, from, to)
            + b.subrange(to, to2));
    }
}

/// Placing one more slot at `o` between two well-placed runs splits the
/// compacted region around the varint that the slot holds.
pub proof fn lemma_compact_split(
    b: Seq<u8>,
    offs1: Seq<int>,
    offs2: Seq<int>,
    o: int,
    w: nat,
    from: int,
    to: int,
)
    requires
        phs_wf(b, offs1, w, from, o),
        phs_wf(b, offs2, w, o + w, to),
        size_width_of(b[o]) <= w,
        0 <= o,
        o + w <= to <= b.len(),
    ensures
        phs_wf(b, offs1 + seq![o] + offs2, w, from, to),
        compact_region(b, offs1 + seq![o] + offs2, w, from, to) == compact_region(
            b,
            offs1,
            w,
            from,
            o,
        ) + b.subrange(o, o + size_width_of(b[o]) as int) + compact_region(b, offs2, w, o + w, to),
    decreases offs1.len(),
{
    let whole = offs1 + seq![o] + offs2;
    if offs1.len() == 0 {
        assert(whole =~= seq![o] + offs2);
        assert(whole[0] == o);
        assert(whole.drop_first() =~= offs2);
        assert(compact_region(b, whole, w, from, to) == b.subrange(from, o) + b.subrange(
            o,
            o + size_width_of(b[o]) as int,
        ) + compact_region(b, offs2, w, o + w, to));
    } else {
        let p = offs1[0];
        lemma_compact_split(b, offs1.drop_first(), offs2, o, w, p + w, to);
        assert(whole[0] == p);
        assert(whole.drop_first() =~= offs1.drop_first() + seq![o] + offs2);
        assert(compact_region(b, whole, w, from, to) =~= compact_region(b, offs1, w, from, o)
            + b.subrange(o, o + size_width_of(b[o]) as int) + compact_region(
            b,
            offs2,
            w,
            o + w,
            to,
        ));
    }
}

/// A compacted region is never longer than the region itself.
pub proof fn lemma_compact_len(b: Seq<u8>, offs: Seq<int>, w: nat, from: int, to: int)
    requires
        phs_wf(b, offs, w, from, to),
    ensures
        compact_region(b, offs, w, from, to).len() <= to - from,
    decreases offs.len(),
{
    if offs.len() > 0 {
        let o = offs[0];
        lemma_compact_len(b, offs.drop_first(), w, o + w, to);
    }
}

// ---------------------------------------------------------------------------
// The offsets log: for each placeholder, in order of creation, the varint
// of its distance to the one before.
// ---------------------------------------------------------------------------

/// The log bytes for slots at `offs`, each encoded as the minimal varint
/// of its offset's delta to `prev`.
pub open spec fn log_bytes(offs: Seq<int>, prev: int) -> Seq<u8>
    decreases offs.len(),
{
    if offs.len() == 0 {
        Seq::empty()
    } else {
        size_enc((offs[0] - prev) as nat) + log_bytes(offs.drop_first(), offs[0])
    }
}

/// The deltas in the log are encodable and, after the first, at least a
/// slot width apart: the slot before was skipped in full.
pub open spec fn log_ok(offs: Seq<int>, prev: int, first: bool, w: nat) -> bool
    decreases offs.len(),
{
    if offs.len() == 0 {
        true
    } else {
        let o = offs[0];
        &&& o >= prev + (if first {
            0int
        } else {
            w as int
        })
        &&& o - prev < SIZE_CEILING
        &&& log_ok(offs.drop_first(), o, false, w)
    }
}

/// Appending one slot to the log appends one delta varint.
pub proof fn lemma_log_snoc(offs: Seq<int>, prev: int, o: int)
    ensures
        log_bytes(offs.push(o), prev) == log_bytes(offs, prev) + size_enc(
            (o - (if offs.len() == 0 {
                prev
            } else {
                offs.last()
            })) as nat,
        ),
    decreases offs.len(),
{
    if offs.len() == 0 {
        assert(offs.push(o)[0] == o);
        assert(offs.push(o).drop_first() =~= Seq::<int>::empty());
        assert(log_bytes(offs.push(o).drop_first(), o) =~= Seq::<u8>::empty());
        assert(log_bytes(offs.push(o), prev) =~= size_enc((o - prev) as nat));
        assert(log_bytes(offs, prev) + size_enc((o - prev) as nat) =~= size_enc((o - prev) as nat));
    } else {
        lemma_log_snoc(offs.drop_first(), offs[0], o);
        assert(offs.push(o).drop_first() =~= offs.drop_first().push(o));
        assert(offs.push(o)[0] == offs[0]);
        assert((offs.drop_first().len() == 0 ==> offs.drop_first().push(o).last() == o));
        assert(log_bytes(offs.push(o), prev) =~= log_bytes(offs, prev) + size_enc(
            (o - offs.last()) as nat,
        ));
    }
}

/// Appending one in-order slot keeps the log well formed.
pub proof fn lemma_log_ok_snoc(offs: Seq<int>, prev: int, first: bool, w: nat, o: int)
    requires
        log_ok(offs, prev, first, w),
        offs.len() == 0 ==> o >= prev + (if first {
            0int
        } else {
            w as int
        }) && o - prev < SIZE_CEILING,
        offs.len() > 0 ==> o >= offs.last() + w && o - offs.last() < SIZE_CEILING,
    ensures
        log_ok(offs.push(o), prev, first, w),
    decreases offs.len(),
{
    if offs.len() == 0 {
        assert(offs.push(o)[0] == o);
        assert(offs.push(o).drop_first() =~= Seq::<int>::empty());
        assert(log_ok(offs.push(o).drop_first(), o, false, w));
        assert(log_ok(offs.push(o), prev, first, w));
    } else {
        assert(offs.drop_first().len() == 0 ==> offs[0] == offs.last());
        assert(offs.drop_first().len() > 0 ==> offs.drop_first().last() == offs.last());
        lemma_log_ok_snoc(offs.drop_first(), offs[0], false, w, o);
        assert(offs.push(o)[0] == offs[0]);
        assert(offs.push(o).drop_first() =~= offs.drop_first().push(o));
        assert(log_ok(offs.push(o), prev, first, w));
    }
}

/// A log with no bytes logs no slots.
pub proof fn lemma_log_bytes_empty(offs: Seq<int>, prev: int)
    requires
        log_bytes(offs, prev).len() == 0,
    ensures
        offs.len() == 0,
{
    if offs.len() > 0 {
        crate::common::lemma_le_bytes_len(
            4 * ((offs[0] - prev) as nat) + crate::common::size_class(
                size_enc_len((offs[0] - prev) as nat),
            ),
            size_enc_len((offs[0] - prev) as nat),
        );
    }
}

// ---------------------------------------------------------------------------
// The interleaving of closed and still-open placeholder slots, in creation
// order: the closed slots of each scope, with each open scope's own slot
// between its parent's and its own.
// ---------------------------------------------------------------------------

/// All placeholder slots in creation order, given each scope's closed
/// slots and the open slots separating the scopes.
pub open spec fn interleave_phs(closed: Seq<Seq<int>>, opens: Seq<int>) -> Seq<int>
    recommends
        opens.len() + 1 == closed.len(),
    decreases closed.len(),
{
    if closed.len() <= 1 {
        if closed.len() == 0 {
            Seq::empty()
        } else {
            closed[0]
        }
    } else {
        closed[0] + seq![opens[0]] + interleave_phs(closed.drop_first(), opens.drop_first())
    }
}

/// One open size scope: where its placeholder slot starts in the buffer,
/// and how many logical bytes it has gathered so far.
struct Sizer {
    offset: usize,
    size: usize,
}

/// The encoder. `scopes()` is its abstract state: the logical bytes of
/// every open scope, outermost first; closing a scope prepends its size to
/// its bytes and credits the whole to the scope around it.
pub struct Encoder {
    buffer: Vec<u8>,
    sizers: Vec<Sizer>,
    size_offsets: Vec<u8>,
    last_size_offset: usize,
    size_max_bytes: usize,
    compress_sizes: bool,
    size_overflow: bool,
    contents: Ghost<Seq<Seq<u8>>>,
    closed_slots: Ghost<Seq<Seq<int>>>,
}

impl Encoder {
    /// The logical bytes of each open scope, outermost first.
    pub closed spec fn scopes(&self) -> Seq<Seq<u8>> {
        self.contents@
    }

    /// How many scopes are open, the root included.
    pub open spec fn depth(&self) -> nat {
        self.scopes().len()
    }

    /// Whether a size overflow has latched: some scope's size did not fit.
    pub closed spec fn overflowed(&self) -> bool {
        self.size_overflow
    }

    /// The placeholder slot width.
    pub closed spec fn width(&self) -> nat {
        self.size_max_bytes as nat
    }

    /// Whether the build will run the compaction pass.
    pub closed spec fn compressing(&self) -> bool {
        self.compress_sizes
    }

    /// How many bytes the working buffer holds, padding included.
    pub closed spec fn physical_len(&self) -> nat {
        self.buffer@.len()
    }

    /// Where scope `i`'s own bytes start in the buffer: after its slot.
    spec fn start_of(&self, i: int) -> int {
        if i == 0 {
            0
        } else {
            self.sizers@[i].offset + self.size_max_bytes
        }
    }

    /// Where scope `i`'s bytes end: at the next scope's slot, or at the
    /// end of the buffer for the innermost scope.
    spec fn end_of(&self, i: int) -> int {
        if i == self.sizers@.len() - 1 {
            self.buffer@.len() as int
        } else {
            self.sizers@[i + 1].offset as int
        }
    }

    /// The open scopes' slot offsets, outermost first, root excluded.
    spec fn opens(&self) -> Seq<int> {
        Seq::new((self.sizers@.len() - 1) as nat, |i: int| self.sizers@[i + 1].offset as int)
    }

    /// Every placeholder slot, in creation order.
    spec fn all_slots(&self) -> Seq<int> {
        interleave_phs(self.closed_slots@, self.opens())
    }

    /// The representation of scope `i`: its region, its closed slots, its
    /// logical bytes as the compaction of the two, and its size counter.
    spec fn inv_scope(&self, i: int) -> bool {
        &&& self.start_of(i) <= self.end_of(i) <= self.buffer@.len()
        &&& phs_wf(
            self.buffer@,
            self.closed_slots@[i],
            self.width(),
            self.start_of(i),
            self.end_of(i),
        )
        &&& self.contents@[i] == compact_region(
            self.buffer@,
            self.closed_slots@[i],
            self.width(),
            self.start_of(i),
            self.end_of(i),
        )
        &&& self.sizers@[i].size == self.contents@[i].len()
        &&& !self.compress_sizes ==> self.closed_slots@[i].len() == 0
    }

    /// The full representation invariant, suspended once overflow latches:
    /// a failed build has nothing left to promise.
    spec fn inv_rep(&self) -> bool {
        &&& forall|i: int| 0 <= i < self.sizers@.len() ==> self.inv_scope(i)
        &&& self.compress_sizes ==> {
            &&& log_ok(self.all_slots(), 0, true, self.width())
            &&& self.size_offsets@ == log_bytes(self.all_slots(), 0)
            &&& self.last_size_offset as int == (if self.all_slots().len() == 0 {
                0int
            } else {
                self.all_slots().last()
            })
            &&& (self.all_slots().len() > 0 ==> self.last_size_offset + self.width()
                <= self.buffer@.len())
        }
    }

    /// Structural well-formedness; established by `new` and kept by every
    /// operation.
    pub closed spec fn wf(&self) -> bool {
        &&& self.sizers@.len() >= 1
        &&& self.sizers@.len() == self.contents@.len()
        &&& self.sizers@.len() == self.closed_slots@.len()
        &&& (self.size_max_bytes == 1 || self.size_max_bytes == 2 || self.size_max_bytes == 4
            || self.size_max_bytes == 8)
        &&& self.last_size_offset <= self.buffer@.len()
        &&& (!self.size_overflow ==> self.inv_rep())
    }

    /// A fresh encoder: placeholder slots `size_max_bytes` wide (one of 1,
    /// 2, 4 or 8), compacting at build time or not.
    pub fn new(size_max_bytes: usize, compress_sizes: bool) -> (r: Encoder)
        requires
            size_max_bytes == 1 || size_max_bytes == 2 || size_max_bytes == 4 || size_max_bytes
                == 8,
        ensures
            r.wf(),
            r.scopes() == seq![Seq::<u8>::empty()],
            !r.overflowed(),
            r.width() == size_max_bytes,
            r.compressing() == compress_sizes,
            r.physical_len() == 0,
    {
        let ghost c0: Seq<Seq<u8>> = seq![Seq::<u8>::empty()];
        let ghost s0: Seq<Seq<int>> = seq![Seq::<int>::empty()];
        let r = Encoder {
            buffer: Vec::new(),
            sizers: vec![Sizer { offset: 0, size: 0 }],
            size_offsets: Vec::new(),
            last_size_offset: 0,
            size_max_bytes,
            compress_sizes,
            size_overflow: false,
            contents: Ghost(c0),
            closed_slots: Ghost(s0),
        };
        proof {
            assert(r.contents@ =~= seq![Seq::<u8>::empty()]);
            assert(r.opens() =~= Seq::<int>::empty());
            assert(r.all_slots() == r.closed_slots@[0]);
            assert(r.buffer@.subrange(0, 0) =~= Seq::<u8>::empty());
            assert(r.inv_scope(0));
        }
        r
    }

    /// Credits `size` logical bytes to the innermost scope, saturating at
    /// the machine limit; saturation can only occur after overflow latched.
    fn commit_size(&mut self, size: usize)
        requires
            old(self).sizers@.len() >= 1,
        ensures
            ({
                let k = old(self).sizers@.len() - 1;
                let prior = old(self).sizers@[k as int].size;
                &&& final(self).sizers@ == old(self).sizers@.update(
                    k as int,
                    Sizer {
                        offset: old(self).sizers@[k as int].offset,
                        size: (if prior + size > usize::MAX {
                            usize::MAX as nat
                        } else {
                            (prior + size) as nat
                        }) as usize,
                    },
                )
                &&& final(self).buffer == old(self).buffer
                &&& final(self).size_offsets == old(self).size_offsets
                &&& final(self).last_size_offset == old(self).last_size_offset
                &&& final(self).size_max_bytes == old(self).size_max_bytes
                &&& final(self).compress_sizes == old(self).compress_sizes
                &&& final(self).size_overflow == old(self).size_overflow
                &&& final(self).contents == old(self).contents
                &&& final(self).closed_slots == old(self).closed_slots
            }),
    {
        let k = self.sizers.len() - 1;
        let slot = vstd::std_specs::vec::vec_index_mut(&mut self.sizers, k);
        if size > usize::MAX - slot.size {
            slot.size = usize::MAX;
        } else {
            slot.size = slot.size + size;
        }
    }

    /// Appends raw bytes to the innermost scope.
    pub fn append(&mut self, bytes: &[u8])
        requires
            old(self).wf(),
        ensures
            final(self).wf(),
            final(self).scopes() == old(self).scopes().update(
                old(self).depth() - 1,
                old(self).scopes().last() + bytes@,
            ),
            final(self).overflowed() == old(self).overflowed(),
            final(self).width() == old(self).width(),
            final(self).compressing() == old(self).compressing(),
            final(self).physical_len() == old(self).physical_len() + bytes@.len(),
    {
        let ghost pre = *old(self);
        proof {
            let k = pre.sizers@.len() - 1;
            if !pre.size_overflow {
                assert(pre.inv_scope(k as int));
                lemma_compact_len(
                    pre.buffer@,
                    pre.closed_slots@[k as int],
                    pre.width(),
                    pre.start_of(k as int),
                    pre.end_of(k as int),
                );
            }
        }
        self.buffer.extend_from_slice(bytes);
        let total = self.buffer.len();
        self.commit_size(bytes.len());
        proof {
            self.contents = Ghost(
                pre.contents@.update(
                    pre.contents@.len() - 1,
                    pre.contents@.last() + bytes@,
                ),
            );
            let k = pre.sizers@.len() - 1;
            assert(self.opens() =~= pre.opens());
            assert(self.all_slots() == pre.all_slots());
            assert(self.scopes() =~= old(self).scopes().update(
                old(self).depth() - 1,
                old(self).scopes().last() + bytes@,
            ));
            if !self.size_overflow {
                assert forall|i: int| 0 <= i < self.sizers@.len() implies self.inv_scope(i) by {
                    assert(pre.inv_scope(i));
                    lemma_compact_frame(
                        pre.buffer@,
                        self.buffer@,
                        pre.closed_slots@[i],
                        pre.width(),
                        pre.start_of(i),
                        pre.end_of(i),
                    );
                    if i == k {
                        lemma_compact_extend(
                            self.buffer@,
                            pre.closed_slots@[i],
                            pre.width(),
                            pre.start_of(i),
                            pre.end_of(i),
                            self.buffer@.len() as int,
                        );
                        assert(self.buffer@.subrange(
                            pre.buffer@.len() as int,
                            self.buffer@.len() as int,
                        ) =~= bytes@);
                    }
                }
            }
        }
    }

    /// Appends one byte to the innermost scope.
    pub fn append_byte(&mut self, byte: u8)
        requires
            old(self).wf(),
        ensures
            final(self).wf(),
            final(self).scopes() == old(self).scopes().update(
                old(self).depth() - 1,
                old(self).scopes().last() + seq![byte],
            ),
            final(self).overflowed() == old(self).overflowed(),
            final(self).width() == old(self).width(),
            final(self).compressing() == old(self).compressing(),
            final(self).physical_len() == old(self).physical_len() + 1,
    {
        let ghost pre = *old(self);
        proof {
            let k = pre.sizers@.len() - 1;
            if !pre.size_overflow {
                assert(pre.inv_scope(k as int));
                lemma_compact_len(
                    pre.buffer@,
                    pre.closed_slots@[k as int],
                    pre.width(),
                    pre.start_of(k as int),
                    pre.end_of(k as int),
                );
            }
        }
        self.buffer.push(byte);
        let total = self.buffer.len();
        self.commit_size(1);
        proof {
            self.contents = Ghost(
                pre.contents@.update(
                    pre.contents@.len() - 1,
                    pre.contents@.last() + seq![byte],
                ),
            );
            let k = pre.sizers@.len() - 1;
            assert(self.opens() =~= pre.opens());
            assert(self.all_slots() == pre.all_slots());
            assert(self.scopes() =~= old(self).scopes().update(
                old(self).depth() - 1,
                old(self).scopes().last() + seq![byte],
            ));
            if !self.size_overflow {
                assert forall|i: int| 0 <= i < self.sizers@.len() implies self.inv_scope(i) by {
                    assert(pre.inv_scope(i));
                    lemma_compact_frame(
                        pre.buffer@,
                        self.buffer@,
                        pre.closed_slots@[i],
                        pre.width(),
                        pre.start_of(i),
                        pre.end_of(i),
                    );
                    if i == k {
                        lemma_compact_extend(
                            self.buffer@,
                            pre.closed_slots@[i],
                            pre.width(),
                            pre.start_of(i),
                            pre.end_of(i),
                            self.buffer@.len() as int,
                        );
                        assert(self.buffer@.subrange(
                            pre.buffer@.len() as int,
                            self.buffer@.len() as int,
                        ) =~= seq![byte]);
                    }
                }
            }
        }
    }

    /// Appends a size, encoded as a minimal varint, to the innermost
    /// scope. A value at or above the ceiling cannot be encoded: the
    /// overflow latches and nothing is appended.
    pub fn append_size(&mut self, value: u64)
        requires
            old(self).wf(),
        ensures
            final(self).wf(),
            final(self).depth() == old(self).depth(),
            final(self).width() == old(self).width(),
            final(self).compressing() == old(self).compressing(),
            final(self).overflowed() == (old(self).overflowed() || value >= SIZE_CEILING),
            value < SIZE_CEILING ==> final(self).scopes() == old(self).scopes().update(
                old(self).depth() - 1,
                old(self).scopes().last() + size_enc(value as nat),
            ) && final(self).physical_len() == old(self).physical_len() + size_enc(
                value as nat,
            ).len(),
            value >= SIZE_CEILING ==> final(self).scopes() == old(self).scopes() && final(self).physical_len() == old(self).physical_len(),
    {
        if value >= SIZE_CEILING {
            self.size_overflow = true;
            return;
        }
        let (bytes, length) = encode_size(value);
        let part = vstd::slice::slice_subrange(bytes.as_slice(), 0, length);
        self.append(part);
    }

    /// Appends a symbol — a varint length prefix with the inline-bytes bit
    /// set, then the bytes — to the innermost scope. A symbol too long for
    /// the length to be encoded latches the overflow.
    pub fn append_symbol(&mut self, symbol: &[u8])
        requires
            old(self).wf(),
        ensures
            final(self).wf(),
            final(self).depth() == old(self).depth(),
            final(self).width() == old(self).width(),
            final(self).compressing() == old(self).compressing(),
            final(self).overflowed() == (old(self).overflowed() || 2 * symbol@.len() + 1
                >= SIZE_CEILING),
            2 * symbol@.len() + 1 < SIZE_CEILING ==> final(self).scopes() == old(self).scopes().update(
                old(self).depth() - 1,
                old(self).scopes().last() + crate::common::sym_enc(symbol@),
            ) && final(self).physical_len() == old(self).physical_len() + crate::common::sym_enc(
                symbol@,
            ).len(),
            2 * symbol@.len() + 1 >= SIZE_CEILING ==> final(self).scopes() == old(self).scopes()
                && final(self).physical_len() == old(self).physical_len(),
    {
        let len64 = symbol.len() as u64;
        if len64 >= SIZE_CEILING / 2 {
            self.size_overflow = true;
            return;
        }
        let ghost pre = *old(self);
        let value = len64 * 2 + 1;
        let (bytes, length) = encode_size(value);
        let part = vstd::slice::slice_subrange(bytes.as_slice(), 0, length);
        self.append(part);
        self.append(symbol);
        proof {
            let k = pre.contents@.len() - 1;
            assert(value as nat == 2 * symbol@.len() + 1);
            assert(self.scopes() =~~= pre.contents@.update(
                k,
                pre.contents@[k] + crate::common::sym_enc(symbol@),
            ));
        }
    }

    /// The root scope's logical size: what `build` will hand back, once
    /// every other scope is closed.
    pub fn size(&self) -> (n: usize)
        requires
            self.wf(),
            self.depth() == 1,
        ensures
            !self.overflowed() ==> n == self.scopes()[0].len(),
    {
        proof {
            if !self.size_overflow {
                assert(self.inv_scope(0));
            }
        }
        let slot = vstd::slice::slice_index_get(self.sizers.as_slice(), 0);
        slot.size
    }

    /// Appends the first `length` bytes of an encoded delta to the
    /// offsets log.
    fn push_log(&mut self, bytes: &[u8; 8], length: usize)
        requires
            length <= 8,
        ensures
            final(self).size_offsets@ == old(self).size_offsets@ + bytes@.subrange(
                0,
                length as int,
            ),
            final(self).buffer == old(self).buffer,
            final(self).sizers == old(self).sizers,
            final(self).last_size_offset == old(self).last_size_offset,
            final(self).size_max_bytes == old(self).size_max_bytes,
            final(self).compress_sizes == old(self).compress_sizes,
            final(self).size_overflow == old(self).size_overflow,
            final(self).contents == old(self).contents,
            final(self).closed_slots == old(self).closed_slots,
    {
        let ghost pre = *old(self);
        let mut i: usize = 0;
        while i < length
            invariant
                i <= length <= 8,
                self.size_offsets@ == pre.size_offsets@ + bytes@.subrange(0, i as int),
                self.buffer == pre.buffer,
                self.sizers == pre.sizers,
                self.last_size_offset == pre.last_size_offset,
                self.size_max_bytes == pre.size_max_bytes,
                self.compress_sizes == pre.compress_sizes,
                self.size_overflow == pre.size_overflow,
                self.contents == pre.contents,
                self.closed_slots == pre.closed_slots,
            decreases length - i,
        {
            let b = *vstd::array::array_index_get(bytes, i);
            self.size_offsets.push(b);
            proof {
                assert(self.size_offsets@ =~= pre.size_offsets@ + bytes@.subrange(0, i + 1));
            }
            i = i + 1;
        }
        proof {
            assert(pre.size_offsets@ + bytes@.subrange(0, 0) =~= pre.size_offsets@);
        }
    }

    /// Opens a size scope: reserves a placeholder slot of `width()` zero
    /// bytes at the current end of the buffer and, when compacting, logs
    /// the slot's distance to the one before.
    pub fn begin_size(&mut self)
        requires
            old(self).wf(),
        ensures
            final(self).wf(),
            final(self).scopes() == old(self).scopes().push(Seq::<u8>::empty()),
            final(self).width() == old(self).width(),
            final(self).compressing() == old(self).compressing(),
            final(self).physical_len() == old(self).physical_len() + old(self).width(),
            old(self).overflowed() ==> final(self).overflowed(),
            old(self).physical_len() < SIZE_CEILING ==> final(self).overflowed() == old(self).overflowed(),
    {
        let ghost pre = *old(self);
        let offset = self.buffer.len();
        let w = self.size_max_bytes;
        let mut j: usize = 0;
        while j < w
            invariant
                j <= w,
                self.buffer@.len() == pre.buffer@.len() + j,
                self.buffer@.subrange(0, pre.buffer@.len() as int) == pre.buffer@,
                forall|t: int|
                    pre.buffer@.len() <= t < self.buffer@.len() ==> self.buffer@[t] == 0,
                self.sizers == pre.sizers,
                self.size_offsets == pre.size_offsets,
                self.last_size_offset == pre.last_size_offset,
                self.size_max_bytes == pre.size_max_bytes,
                self.compress_sizes == pre.compress_sizes,
                self.size_overflow == pre.size_overflow,
                self.contents == pre.contents,
                self.closed_slots == pre.closed_slots,
            decreases w - j,
        {
            self.buffer.push(0);
            proof {
                assert(self.buffer@.subrange(0, pre.buffer@.len() as int) =~= pre.buffer@);
            }
            j = j + 1;
        }
        self.sizers.push(Sizer { offset, size: 0 });
        if self.compress_sizes {
            let delta64 = (offset - self.last_size_offset) as u64;
            if delta64 >= SIZE_CEILING {
                self.size_overflow = true;
            } else {
                let (bytes, length) = encode_size(delta64);
                self.push_log(&bytes, length);
                proof {
                    assert(bytes@.subrange(0, length as int) == size_enc(delta64 as nat));
                }
            }
            self.last_size_offset = offset;
        }
        proof {
            self.contents = Ghost(pre.contents@.push(Seq::<u8>::empty()));
            self.closed_slots = Ghost(pre.closed_slots@.push(Seq::<int>::empty()));
            let k = pre.sizers@.len() as int;
            assert(self.sizers@ == pre.sizers@.push(Sizer { offset, size: 0 }));
            assert(offset == pre.buffer@.len());
            assert(self.opens() =~= pre.opens().push(offset as int));
            lemma_interleave_snoc(pre.closed_slots@, pre.opens(), offset as int);
            assert(self.all_slots() == pre.all_slots().push(offset as int));
            if !self.size_overflow {
                assert(pre.inv_rep());
                assert forall|i: int| 0 <= i < self.sizers@.len() implies self.inv_scope(i) by {
                    if i < k {
                        assert(pre.inv_scope(i));
                        lemma_compact_frame(
                            pre.buffer@,
                            self.buffer@,
                            pre.closed_slots@[i],
                            pre.width(),
                            pre.start_of(i),
                            pre.end_of(i),
                        );
                        assert(self.start_of(i) == pre.start_of(i));
                        assert(self.end_of(i) == pre.end_of(i));
                    } else {
                        assert(self.closed_slots@[i].len() == 0);
                        assert(self.start_of(i) == offset + self.size_max_bytes);
                        assert(self.end_of(i) == self.buffer@.len() as int);
                        assert(self.contents@[i] =~= self.buffer@.subrange(
                            self.start_of(i),
                            self.end_of(i),
                        ));
                    }
                }
                if self.compress_sizes {
                    lemma_log_snoc(pre.all_slots(), 0, offset as int);
                    lemma_log_ok_snoc(pre.all_slots(), 0, true, pre.width(), offset as int);
                }
            }
            assert(self.scopes() =~~= old(self).scopes().push(Seq::<u8>::empty()));
        }
    }

    /// Writes the first `width()` bytes of an encoded size over the slot at
    /// `offset`: the minimal varint, zero-padded.
    fn patch_min(&mut self, offset: usize, bytes: &[u8; 8])
        requires
            old(self).size_max_bytes <= 8,
            offset + old(self).size_max_bytes <= old(self).buffer@.len(),
        ensures
            final(self).buffer@.len() == old(self).buffer@.len(),
            final(self).buffer@.subrange(
                offset as int,
                offset + old(self).size_max_bytes,
            ) == bytes@.subrange(0, old(self).size_max_bytes as int),
            forall|t: int|
                0 <= t < old(self).buffer@.len() && !(offset <= t < offset + old(
                    self,
                ).size_max_bytes) ==> final(self).buffer@[t] == old(self).buffer@[t],
            final(self).sizers == old(self).sizers,
            final(self).size_offsets == old(self).size_offsets,
            final(self).last_size_offset == old(self).last_size_offset,
            final(self).size_max_bytes == old(self).size_max_bytes,
            final(self).compress_sizes == old(self).compress_sizes,
            final(self).size_overflow == old(self).size_overflow,
            final(self).contents == old(self).contents,
            final(self).closed_slots == old(self).closed_slots,
    {
        let ghost pre = *old(self);
        let n = self.buffer.len();
        let w = self.size_max_bytes;
        let mut j: usize = 0;
        while j < w
            invariant
                j <= w <= 8,
                offset + w <= pre.buffer@.len(),
                offset + w <= usize::MAX,
                self.buffer@.len() == pre.buffer@.len(),
                forall|t: int|
                    0 <= t < pre.buffer@.len() && !(offset <= t < offset + j)
                        ==> self.buffer@[t] == pre.buffer@[t],
                forall|t: int|
                    offset <= t < offset + j ==> self.buffer@[t] == bytes@[t - offset],
                self.sizers == pre.sizers,
                self.size_offsets == pre.size_offsets,
                self.last_size_offset == pre.last_size_offset,
                self.size_max_bytes == pre.size_max_bytes,
                self.compress_sizes == pre.compress_sizes,
                self.size_overflow == pre.size_overflow,
                self.contents == pre.contents,
                self.closed_slots == pre.closed_slots,
            decreases w - j,
        {
            let b = *vstd::array::array_index_get(bytes, j);
            let slot = vstd::std_specs::vec::vec_index_mut(&mut self.buffer, offset + j);
            *slot = b;
            j = j + 1;
        }
        proof {
            assert(self.buffer@.subrange(offset as int, offset + w) =~= bytes@.subrange(
                0,
                w as int,
            ));
        }
    }

    /// Writes a size over the slot at `offset` as a varint of exactly the
    /// slot's width, so that the buffer is decodable as it stands.
    fn patch_full(&mut self, offset: usize, size: usize)
        requires
            old(self).size_max_bytes == 1 || old(self).size_max_bytes == 2 || old(
                self,
            ).size_max_bytes == 4 || old(self).size_max_bytes == 8,
            offset + old(self).size_max_bytes <= old(self).buffer@.len(),
            size_enc_len(size as nat) <= old(self).size_max_bytes,
            (size as nat) < SIZE_CEILING,
        ensures
            final(self).buffer@.len() == old(self).buffer@.len(),
            final(self).buffer@.subrange(
                offset as int,
                offset + old(self).size_max_bytes,
            ) == size_enc_w(size as nat, old(self).size_max_bytes as nat),
            forall|t: int|
                0 <= t < old(self).buffer@.len() && !(offset <= t < offset + old(
                    self,
                ).size_max_bytes) ==> final(self).buffer@[t] == old(self).buffer@[t],
            final(self).sizers == old(self).sizers,
            final(self).size_offsets == old(self).size_offsets,
            final(self).last_size_offset == old(self).last_size_offset,
            final(self).size_max_bytes == old(self).size_max_bytes,
            final(self).compress_sizes == old(self).compress_sizes,
            final(self).size_overflow == old(self).size_overflow,
            final(self).contents == old(self).contents,
            final(self).closed_slots == old(self).closed_slots,
    {
        let ghost pre = *old(self);
        let n = self.buffer.len();
        let w = self.size_max_bytes;
        let tag: u64 = if w == 1 {
            0
        } else if w == 2 {
            1
        } else if w == 4 {
            2
        } else {
            3
        };
        let mut x: u64 = (size as u64) * 4 + tag;
        let ghost x0 = x as nat;
        proof {
            crate::reader::lemma_pow256_values();
            crate::common::lemma_le_bytes_len(x0, w as nat);
            assert(x0 < crate::reader::pow256(w as nat));
            assert(self.buffer@.subrange(offset as int, offset as int) + crate::common::le_bytes(
                x0,
                w as nat,
            ) =~= crate::common::le_bytes(x0, w as nat));
        }
        let mut j: usize = 0;
        while j < w
            invariant
                j <= w <= 8,
                offset + w <= pre.buffer@.len(),
                offset + w <= usize::MAX,
                self.buffer@.len() == pre.buffer@.len(),
                forall|t: int|
                    0 <= t < pre.buffer@.len() && !(offset <= t < offset + j)
                        ==> self.buffer@[t] == pre.buffer@[t],
                crate::common::le_bytes(x0, w as nat) == self.buffer@.subrange(
                    offset as int,
                    offset + j,
                ) + crate::common::le_bytes(x as nat, (w - j) as nat),
                self.sizers == pre.sizers,
                self.size_offsets == pre.size_offsets,
                self.last_size_offset == pre.last_size_offset,
                self.size_max_bytes == pre.size_max_bytes,
                self.compress_sizes == pre.compress_sizes,
                self.size_overflow == pre.size_overflow,
                self.contents == pre.contents,
                self.closed_slots == pre.closed_slots,
            decreases w - j,
        {
            let ghost mid = self.buffer@;
            let ghost xj = x as nat;
            let b: u8 = (x % 256) as u8;
            let slot = vstd::std_specs::vec::vec_index_mut(&mut self.buffer, offset + j);
            *slot = b;
            x = x / 256;
            proof {
                assert(crate::common::le_bytes(xj, (w - j) as nat) == seq![(xj % 256) as u8]
                    + crate::common::le_bytes(xj / 256, (w - j - 1) as nat));
                crate::common::lemma_le_bytes_len(xj / 256, (w - j - 1) as nat);
                assert(self.buffer@.subrange(offset as int, offset + j + 1) =~= mid.subrange(
                    offset as int,
                    offset + j,
                ) + seq![b]);
                assert(crate::common::le_bytes(x0, w as nat) =~= self.buffer@.subrange(
                    offset as int,
                    offset + j + 1,
                ) + crate::common::le_bytes(x as nat, (w - j - 1) as nat));
            }
            j = j + 1;
        }
        proof {
            assert(crate::common::le_bytes(x as nat, 0).len() == 0);
            assert(crate::common::le_bytes(x0, w as nat) =~= self.buffer@.subrange(
                offset as int,
                offset + w,
            ));
        }
    }

    /// Scope regions are laid out in order: an outer scope's region ends
    /// no later than any inner scope's slot begins.
    proof fn lemma_region_order(&self, i: int, j: int)
        requires
            self.inv_rep(),
            self.sizers@.len() == self.contents@.len(),
            self.sizers@.len() == self.closed_slots@.len(),
            0 <= i < j < self.sizers@.len(),
        ensures
            self.end_of(i) <= self.sizers@[j].offset,
        decreases j - i,
    {
        assert(self.inv_scope(j - 1));
        if i + 1 == j {
        } else {
            self.lemma_region_order(i, j - 1);
            assert(self.end_of(j - 1) == self.buffer@.len() || self.end_of(j - 1)
                == self.sizers@[j].offset);
        }
    }

    /// Closes the innermost scope: back-patches its placeholder slot with
    /// its size and credits the whole — size bytes plus content — to the
    /// scope around it. A size that cannot be written latches the overflow.
    pub fn end_size(&mut self)
        requires
            old(self).wf(),
            old(self).depth() >= 2,
        ensures
            final(self).wf(),
            final(self).depth() == old(self).depth() - 1,
            final(self).width() == old(self).width(),
            final(self).compressing() == old(self).compressing(),
            final(self).physical_len() == old(self).physical_len(),
            ({
                let s = old(self).scopes();
                let child = s.last();
                let pk = s.len() - 2;
                let stamp = if old(self).compressing() {
                    size_enc(child.len())
                } else {
                    size_enc_w(child.len(), old(self).width())
                };
                final(self).scopes() == s.drop_last().update(pk as int, s[pk as int] + stamp + child)
            }),
            final(self).overflowed() == (old(self).overflowed() || old(
                self,
            ).scopes().last().len() >= SIZE_CEILING || size_enc_len(old(self).scopes().last().len())
                > old(self).width()),
    {
        let ghost pre = *old(self);
        let sizer = match self.sizers.pop() {
            Some(sizer) => sizer,
            None => {
                proof {
                    assert(false);
                }
                Sizer { offset: 0, size: 0 }
            },
        };
        let offset = sizer.offset;
        let size = sizer.size;
        let ghost pk = pre.contents@.len() - 2;
        let ghost child = pre.contents@.last();
        let ghost stamp: Seq<u8> = if pre.compress_sizes {
            size_enc(child.len())
        } else {
            size_enc_w(child.len(), pre.width())
        };
        proof {
            if !pre.size_overflow {
                assert(pre.inv_scope(pk + 1));
                assert(size == child.len());
            }
        }
        let overflow_now = if (size as u64) >= SIZE_CEILING {
            true
        } else {
            let (bytes8, length) = encode_size(size as u64);
            length > self.size_max_bytes
        };
        if overflow_now || self.size_overflow {
            self.size_overflow = true;
            proof {
                self.contents = Ghost(
                    pre.contents@.drop_last().update(pk, pre.contents@[pk] + stamp + child),
                );
                self.closed_slots = Ghost(
                    pre.closed_slots@.drop_last().update(
                        pk,
                        if pre.compress_sizes {
                            pre.closed_slots@[pk] + seq![offset as int]
                                + pre.closed_slots@.last()
                        } else {
                            pre.closed_slots@[pk]
                        },
                    ),
                );
            }
            return;
        }
        // From here on nothing has overflowed: the size is encodable and
        // fits the slot.
        let (bytes8, length) = encode_size(size as u64);
        proof {
            assert(pre.inv_scope(pk));
            assert(pre.inv_scope(pk + 1));
            crate::common::lemma_size_codec_roundtrip(size as nat, Seq::<u8>::empty());
        }
        if self.compress_sizes {
            self.patch_min(offset, &bytes8);
        } else {
            self.patch_full(offset, size);
        }
        let total = self.buffer.len();
        proof {
            let b = self.buffer@;
            let w = pre.width();
            let par_slots = pre.closed_slots@[pk];
            let child_slots = pre.closed_slots@.last();
            let b_par = pre.start_of(pk);
            let c_par = pre.contents@[pk];
            // The parent's region, below the slot, kept its bytes.
            lemma_compact_frame(pre.buffer@, b, par_slots, w, b_par, offset as int);
            // The child's region, above the slot, kept its bytes.
            lemma_compact_frame(
                pre.buffer@,
                b,
                child_slots,
                w,
                offset + w,
                pre.buffer@.len() as int,
            );
            if pre.compress_sizes {
                // The slot now holds the minimal varint of the child's
                // size, zero padded; splitting at it rebuilds the merged
                // scope's compacted bytes.
                assert(b.subrange(offset as int, offset + w) == bytes8@.subrange(0, w as int));
                assert(b.subrange(offset as int, offset + length as int) =~= size_enc(size as nat));
                assert(b[offset as int] == size_enc(size as nat)[0]);
                assert(size_width_of(b[offset as int]) == length);
                assert(b.subrange(offset as int, offset + size_width_of(b[offset as int]) as int)
                    == size_enc(size as nat));
                lemma_compact_split(
                    b,
                    par_slots,
                    child_slots,
                    offset as int,
                    w,
                    b_par,
                    b.len() as int,
                );
                self.contents = Ghost(
                    pre.contents@.drop_last().update(pk, c_par + stamp + child),
                );
                self.closed_slots = Ghost(
                    pre.closed_slots@.drop_last().update(
                        pk,
                        par_slots + seq![offset as int] + child_slots,
                    ),
                );
                assert(self.contents@[pk] == compact_region(
                    b,
                    self.closed_slots@[pk],
                    w,
                    b_par,
                    b.len() as int,
                ));
            } else {
                assert(par_slots.len() == 0);
                assert(child_slots.len() == 0);
                assert(b.subrange(offset as int, offset + w) == size_enc_w(size as nat, w));
                self.contents = Ghost(
                    pre.contents@.drop_last().update(pk, c_par + stamp + child),
                );
                self.closed_slots = Ghost(
                    pre.closed_slots@.drop_last().update(pk, par_slots),
                );
                assert(c_par + stamp + child =~= b.subrange(b_par, b.len() as int));
                assert(self.contents@[pk] == compact_region(
                    b,
                    self.closed_slots@[pk],
                    w,
                    b_par,
                    b.len() as int,
                ));
            }
            if pre.compress_sizes {
                assert(stamp.len() == length);
            } else {
                crate::common::lemma_le_bytes_len(
                    4 * (size as nat) + crate::common::size_class(w),
                    w,
                );
                assert(stamp.len() == w);
            }
            lemma_compact_len(b, self.closed_slots@[pk], w, b_par, b.len() as int);
            assert(self.contents@[pk].len() <= b.len());
            assert(self.contents@[pk].len() == c_par.len() + stamp.len() + child.len());
        }
        let add = if self.compress_sizes {
            length
        } else {
            self.size_max_bytes
        };
        let credit = if size > usize::MAX - add {
            usize::MAX
        } else {
            add + size
        };
        proof {
            assert(size <= usize::MAX - add) by {
                assert(pre.contents@[pk].len() + stamp.len() + child.len()
                    <= self.buffer@.len());
            }
        }
        self.commit_size(credit);
        proof {
            let w = pre.width();
            let k2 = self.sizers@.len() as int;
            assert(k2 == pre.sizers@.len() - 1);
            assert(self.sizers@[pk].offset == pre.sizers@[pk].offset);
            assert forall|i: int| 0 <= i < k2 implies self.inv_scope(i) by {
                assert(pre.inv_scope(i));
                if i < pk {
                    pre.lemma_region_order(i, pk + 1);
                    assert(pre.end_of(i) <= offset);
                    lemma_compact_frame(
                        pre.buffer@,
                        self.buffer@,
                        pre.closed_slots@[i],
                        w,
                        pre.start_of(i),
                        pre.end_of(i),
                    );
                    assert(self.start_of(i) == pre.start_of(i));
                    assert(self.end_of(i) == pre.end_of(i));
                }
            }
            if pre.compress_sizes {
                assert(self.opens() =~= pre.opens().drop_last());
                lemma_interleave_merge(pre.closed_slots@, pre.opens());
                assert(pre.opens().last() == offset as int);
                assert(self.closed_slots@ =~= pre.closed_slots@.subrange(
                    0,
                    pre.closed_slots@.len() - 2,
                ).push(
                    pre.closed_slots@[pk] + seq![offset as int] + pre.closed_slots@.last(),
                ));
                assert(self.all_slots() == pre.all_slots());
            } else {
                assert(self.opens() =~= pre.opens().drop_last());
                assert forall|i: int| 0 <= i < self.closed_slots@.len()
                    implies self.closed_slots@[i].len() == 0 by {
                    assert(pre.inv_scope(i));
                }
            }
            assert(self.scopes() =~~= pre.contents@.drop_last().update(
                pk,
                pre.contents@[pk] + stamp + child,
            ));
        }
    }

    /// The terminal compaction pass: walks the buffer and the offsets log
    /// together, copies raw bytes through, and of every placeholder slot
    /// keeps only the varint it holds. Appends exactly the root scope's
    /// logical bytes to `dest`.
    fn compress(&self, dest: &mut Vec<u8>)
        requires
            self.wf(),
            !self.overflowed(),
            self.compressing(),
            self.depth() == 1,
        ensures
            final(dest)@ == old(dest)@ + self.scopes()[0],
    {
        let size = self.size();
        let old_length = dest.len();
        dest.reserve(size);
        let ghost b = self.buffer@;
        let ghost w = self.width();
        let ghost slots = self.closed_slots@[0];
        let ghost goal = self.scopes()[0];
        proof {
            assert(self.inv_scope(0));
            assert(self.opens() =~= Seq::<int>::empty());
            assert(self.all_slots() == slots);
        }
        let blen = self.buffer.len();
        let mut buffer = Reader::new(self.buffer.as_slice());
        let mut offsets = Reader::new(self.size_offsets.as_slice());
        let mut first = true;
        let ghost mut j: int = 0;
        let w_exec = self.size_max_bytes;
        proof {
            assert(slots.subrange(0, slots.len() as int) =~= slots);
            assert(offsets.remaining_seq() =~= offsets.buf());
            assert(buffer.pos() == 0);
        }
        while offsets.has_some()
            invariant
                0 <= j <= slots.len(),
                b.len() <= usize::MAX,
                buffer.wf(),
                buffer.buf() == b,
                offsets.wf(),
                offsets.buf() == log_bytes(slots, 0),
                w == w_exec,
                w == self.width(),
                offsets.remaining_seq() == log_bytes(
                    slots.subrange(j, slots.len() as int),
                    if j == 0 {
                        0int
                    } else {
                        slots[j - 1]
                    },
                ),
                first == (j == 0),
                buffer.pos() as int == (if j == 0 {
                    0int
                } else {
                    slots[j - 1] + w
                }),
                phs_wf(b, slots.subrange(j, slots.len() as int), w, buffer.pos() as int, b.len() as int),
                log_ok(
                    slots.subrange(j, slots.len() as int),
                    if j == 0 {
                        0int
                    } else {
                        slots[j - 1]
                    },
                    j == 0,
                    w,
                ),
                dest@ + compact_region(
                    b,
                    slots.subrange(j, slots.len() as int),
                    w,
                    buffer.pos() as int,
                    b.len() as int,
                ) == old(dest)@ + goal,
            decreases slots.len() - j,
        {
            let ghost rest_slots = slots.subrange(j, slots.len() as int);
            let ghost prev: int = if j == 0 { 0int } else { slots[j - 1] };
            proof {
                if rest_slots.len() == 0 {
                    assert(offsets.remaining_seq().len() == 0);
                    assert(false);
                }
                assert(rest_slots[0] == slots[j]);
                let d = (slots[j] - prev) as nat;
                crate::common::lemma_size_codec_roundtrip(
                    d,
                    log_bytes(rest_slots.subrange(1, rest_slots.len() as int), slots[j]),
                );
                assert(rest_slots.drop_first() =~= slots.subrange(j + 1, slots.len() as int));
            }
            let ghost old_rem = offsets.remaining_seq();
            let ghost d = (slots[j] - prev) as nat;
            let ghost enc = size_enc(d);
            let ghost rest_log = log_bytes(slots.subrange(j + 1, slots.len() as int), slots[j]);
            let next_size_64 = match crate::common::decode_size(&mut offsets) {
                Some(v) => v,
                None => {
                    proof {
                        assert(false);
                    }
                    0
                },
            };
            proof {
                assert(old_rem == enc + rest_log);
                assert(size_dec_w(old_rem) == enc.len());
                assert(next_size_64 as int == slots[j] - prev);
                assert(slots[j] + w <= b.len());
                assert(offsets.remaining_seq() =~= old_rem.subrange(
                    enc.len() as int,
                    old_rem.len() as int,
                ));
                assert(old_rem.subrange(enc.len() as int, old_rem.len() as int) =~= rest_log);
                assert(next_size_64 <= b.len());
                if j != 0 {
                    assert(next_size_64 >= w);
                }
            }
            let mut next_size = next_size_64 as usize;
            if first {
                first = false;
            } else {
                next_size = next_size - w_exec;
            }
            let ghost dest_pre = dest@;
            let chunk = match buffer.next_n(next_size) {
                Some(c) => c,
                None => {
                    proof {
                        assert(false);
                    }
                    return;
                },
            };
            dest.extend_from_slice(chunk);
            let length = match peek_decode_size(&buffer) {
                Some((_value, length)) => length,
                None => {
                    proof {
                        assert(buffer.remaining_seq()[0] == b[slots[j]]);
                        assert(false);
                    }
                    return;
                },
            };
            proof {
                assert(buffer.remaining_seq()[0] == b[slots[j]]);
                assert(length == size_width_of(b[slots[j]]));
            }
            let varint = match buffer.peek_n(length) {
                Some(v) => v,
                None => {
                    proof {
                        assert(false);
                    }
                    return;
                },
            };
            dest.extend_from_slice(varint);
            match buffer.next_n(w_exec) {
                Some(_) => {},
                None => {
                    proof {
                        assert(false);
                    }
                    return;
                },
            };
            proof {
                let o = slots[j];
                assert(chunk@ =~= b.subrange(
                    if j == 0 {
                        0int
                    } else {
                        slots[j - 1] + w
                    },
                    o,
                ));
                assert(varint@ =~= b.subrange(o, o + size_width_of(b[o]) as int));
                assert(dest@ =~= dest_pre + chunk@ + varint@);
                j = j + 1;
                assert(slots.subrange(j, slots.len() as int) =~= rest_slots.drop_first());
                assert(dest@ + compact_region(
                    b,
                    slots.subrange(j, slots.len() as int),
                    w,
                    buffer.pos() as int,
                    b.len() as int,
                ) =~= old(dest)@ + goal);
            }
        }
        proof {
            assert(log_bytes(slots.subrange(j, slots.len() as int), if j == 0 {
                0int
            } else {
                slots[j - 1]
            }).len() == 0);
            lemma_log_bytes_empty(slots.subrange(j, slots.len() as int), if j == 0 {
                0int
            } else {
                slots[j - 1]
            });
        }
        let tail = buffer.rest();
        dest.extend_from_slice(tail);
        proof {
            assert(tail@ =~= b.subrange(buffer.pos() as int, b.len() as int));
            assert(compact_region(
                b,
                slots.subrange(j, slots.len() as int),
                w,
                buffer.pos() as int,
                b.len() as int,
            ) == b.subrange(buffer.pos() as int, b.len() as int));
            assert(final(dest)@ =~= old(dest)@ + goal);
        }
    }

    /// Finishes the build and hands the encoded bytes off, unless a size
    /// overflow latched anywhere along the way.
    pub fn build(self) -> (r: Result<Vec<u8>, Error>)
        requires
            self.wf(),
            self.depth() == 1,
        ensures
            match r {
                Ok(out) => !self.overflowed() && out@ == self.scopes()[0],
                Err(e) => self.overflowed() && e == Error::SizeOverflow,
            },
    {
        if self.size_overflow {
            return Err(Error::SizeOverflow);
        }
        if self.compress_sizes {
            let mut result = Vec::new();
            self.compress(&mut result);
            proof {
                assert(result@ =~= self.scopes()[0]);
            }
            Ok(result)
        } else {
            proof {
                assert(self.inv_scope(0));
                assert(self.contents@[0] =~= self.buffer@.subrange(0, self.buffer@.len() as int));
                assert(self.buffer@.subrange(0, self.buffer@.len() as int) =~= self.buffer@);
            }
            Ok(self.buffer)
        }
    }

    /// Appends the encoded bytes to a caller-supplied sink, unless a size
    /// overflow latched; the encoder stays usable.
    pub fn build_append(&self, dest: &mut Vec<u8>) -> (r: Result<(), Error>)
        requires
            self.wf(),
            self.depth() == 1,
        ensures
            match r {
                Ok(()) => !self.overflowed() && final(dest)@ == old(dest)@ + self.scopes()[0],
                Err(e) => self.overflowed() && e == Error::SizeOverflow && final(dest)@ == old(
                    dest,
                )@,
            },
    {
        if self.size_overflow {
            return Err(Error::SizeOverflow);
        }
        if self.compress_sizes {
            self.compress(dest);
        } else {
            proof {
                assert(self.inv_scope(0));
                assert(self.contents@[0] =~= self.buffer@.subrange(0, self.buffer@.len() as int));
                assert(self.buffer@.subrange(0, self.buffer@.len() as int) =~= self.buffer@);
            }
            dest.extend_from_slice(self.buffer.as_slice());
        }
        Ok(())
    }
}

/// Adding a scope adds its slot after every other.
pub proof fn lemma_interleave_snoc(closed: Seq<Seq<int>>, opens: Seq<int>, o: int)
    requires
        opens.len() + 1 == closed.len(),
    ensures
        interleave_phs(closed.push(Seq::<int>::empty()), opens.push(o)) == interleave_phs(
            closed,
            opens,
        ).push(o),
    decreases closed.len(),
{
    let closed2 = closed.push(Seq::<int>::empty());
    let opens2 = opens.push(o);
    if closed.len() == 1 {
        assert(closed2.len() == 2);
        assert(closed2[0] == closed[0]);
        assert(opens2[0] == o);
        assert(closed2.drop_first() =~= Seq::<Seq<int>>::empty().push(Seq::<int>::empty()));
        assert(closed2.drop_first().len() == 1);
        assert(interleave_phs(closed2.drop_first(), opens2.drop_first()) == closed2.drop_first()[0]);
        assert(closed2.drop_first()[0] =~= Seq::<int>::empty());
        assert(interleave_phs(closed2, opens2) =~= closed[0].push(o));
        assert(interleave_phs(closed, opens) == closed[0]);
    } else {
        lemma_interleave_snoc(closed.drop_first(), opens.drop_first(), o);
        assert(closed2.drop_first() =~= closed.drop_first().push(Seq::<int>::empty()));
        assert(opens2.drop_first() =~= opens.drop_first().push(o));
        assert(closed2[0] == closed[0]);
        assert(opens2[0] == opens[0]);
        assert(interleave_phs(closed2, opens2) =~= interleave_phs(closed, opens).push(o));
    }
}

/// Closing the innermost scope folds its slot and closed slots into its
/// parent without changing the overall order of slots.
pub proof fn lemma_interleave_merge(closed: Seq<Seq<int>>, opens: Seq<int>)
    requires
        closed.len() >= 2,
        opens.len() + 1 == closed.len(),
    ensures
        interleave_phs(
            closed.subrange(0, closed.len() - 2).push(
                closed[closed.len() - 2] + seq![opens.last()] + closed.last(),
            ),
            opens.drop_last(),
        ) == interleave_phs(closed, opens),
    decreases closed.len(),
{
    let k = closed.len() as int;
    let merged = closed.subrange(0, k - 2).push(closed[k - 2] + seq![opens.last()] + closed.last());
    if closed.len() == 2 {
        assert(merged.len() == 1);
        assert(merged[0] == closed[0] + seq![opens[0]] + closed[1]);
        assert(interleave_phs(closed, opens) == closed[0] + seq![opens[0]] + interleave_phs(
            closed.drop_first(),
            opens.drop_first(),
        ));
        assert(closed.drop_first().len() == 1);
        assert(interleave_phs(closed.drop_first(), opens.drop_first()) == closed[1]);
        assert(interleave_phs(merged, opens.drop_last()) == merged[0]);
    } else {
        lemma_interleave_merge(closed.drop_first(), opens.drop_first());
        assert(merged.drop_first() =~= closed.drop_first().subrange(0, k - 3).push(
            closed.drop_first()[k - 3] + seq![opens.drop_first().last()] + closed.drop_first().last(),
        ));
        assert(merged[0] == closed[0]);
        assert(opens.drop_last()[0] == opens[0]);
        assert(merged.len() >= 2);
        assert(opens.drop_last().drop_first() =~= opens.drop_first().drop_last());
        assert(interleave_phs(merged, opens.drop_last()) == merged[0] + seq![opens.drop_last()[0]]
            + interleave_phs(merged.drop_first(), opens.drop_last().drop_first()));
    }
}

} // verus!
