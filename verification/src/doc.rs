//! Schema-less document trees — the shape of JSON — and their codec over
//! the wire format: null, booleans, 64-bit floats carried as raw bits,
//! UTF-8 text, arrays, and objects with byte-string keys. Arrays ride the
//! `List` wire type; objects ride `Null` with tags, the format's canonical
//! map encoding.

use vstd::prelude::*;
use vstd::utf8::valid_utf8;
use crate::common::{le_bytes, size_enc, size_enc_len, size_enc_w, sym_enc, SIZE_CEILING};
use crate::decoder::{
    decode_value, items_wf, lemma_tags_wf_empty, lemma_val_parse_bounds, list_head_count,
    list_head_some, list_head_w, list_wf, pairs_wf, spec_payload_len, tag_sym_len, tag_sym_some,
    tag_sym_val, tags_wf, val_parse, val_wf, var_bytes_len, var_bytes_some, var_bytes_val,
    wire_wf, ListDecoder, Payload, PayloadModel, TagDecoder, Value,
};
use crate::encoder::Encoder;
use crate::reader::Reader;

verus! {

/// A document tree.
pub enum Doc {
    Null,
    Bool(bool),
    /// A 64-bit IEEE-754 number, carried as its raw little-endian bits.
    Float64(u64),
    /// UTF-8 text, carried as its bytes.
    Text(Vec<u8>),
    Array(Vec<Doc>),
    /// Key–value pairs in order; keys are byte strings.
    Object(Vec<(Vec<u8>, Doc)>),
}

/// A document tree as mathematical data.
pub enum DocModel {
    Null,
    Bool(bool),
    Float64(u64),
    Text(Seq<u8>),
    Array(Seq<DocModel>),
    Object(Seq<(Seq<u8>, DocModel)>),
}

/// The mathematical value of a document tree.
pub open spec fn doc_view(d: Doc) -> DocModel
    decreases d,
{
    match d {
        Doc::Null => DocModel::Null,
        Doc::Bool(b) => DocModel::Bool(b),
        Doc::Float64(bits) => DocModel::Float64(bits),
        Doc::Text(t) => DocModel::Text(t@),
        Doc::Array(v) => DocModel::Array(docs_view(v, 0)),
        Doc::Object(m) => DocModel::Object(pairs_view(m, 0)),
    }
}

/// The values of the elements of `v` from index `i` on.
pub open spec fn docs_view(v: Vec<Doc>, i: int) -> Seq<DocModel>
    decreases v, v.len() - i,
{
    if i < 0 || i >= v.len() {
        Seq::empty()
    } else {
        seq![doc_view(v[i])] + docs_view(v, i + 1)
    }
}

/// The values of the pairs of `m` from index `i` on.
pub open spec fn pairs_view(m: Vec<(Vec<u8>, Doc)>, i: int) -> Seq<(Seq<u8>, DocModel)>
    decreases m, m.len() - i,
{
    if i < 0 || i >= m.len() {
        Seq::empty()
    } else {
        seq![(m[i].0@, doc_view(m[i].1))] + pairs_view(m, i + 1)
    }
}

impl View for Doc {
    type V = DocModel;

    open spec fn view(&self) -> DocModel {
        doc_view(*self)
    }
}

/// A tree all of whose text payloads are valid UTF-8: the only trees the
/// wire format can carry, since the validator enforces UTF-8 strings.
#[verifier::opaque]
pub open spec fn doc_wf(d: DocModel) -> bool
    decreases d,
{
    match d {
        DocModel::Text(t) => valid_utf8(t),
        DocModel::Array(items) => forall|i: int|
            0 <= i < items.len() ==> doc_wf(#[trigger] items[i]),
        DocModel::Object(pairs) => forall|i: int|
            0 <= i < pairs.len() ==> doc_wf(#[trigger] (pairs[i].1)),
        _ => true,
    }
}

/// The body of a size scope on the wire: the size first — minimal varint
/// when compacting, a full `w`-wide varint otherwise — then the bytes.
pub open spec fn scope_enc(body: Seq<u8>, w: nat, c: bool) -> Seq<u8> {
    (if c {
        size_enc(body.len())
    } else {
        size_enc_w(body.len(), w)
    }) + body
}

/// The encoding of a document tree, with placeholder width `w` and build
/// mode `c` deciding how container sizes are written.
#[verifier::opaque]
pub open spec fn doc_enc(d: DocModel, w: nat, c: bool) -> Seq<u8>
    decreases d,
{
    match d {
        DocModel::Null => seq![1u8],
        DocModel::Bool(b) => if b {
            seq![3u8]
        } else {
            seq![2u8]
        },
        DocModel::Float64(bits) => seq![13u8] + le_bytes(bits as nat, 8),
        DocModel::Text(t) => seq![19u8] + size_enc(t.len()) + t,
        DocModel::Array(items) => seq![21u8] + (if items.len() == 0 {
            seq![0u8]
        } else {
            scope_enc(size_enc(items.len()) + docs_enc(items, 0, w, c), w, c)
        }),
        DocModel::Object(pairs) => seq![0x81u8] + (if pairs.len() == 0 {
            seq![0u8]
        } else {
            scope_enc(size_enc(pairs.len()) + pairs_enc(pairs, 0, w, c), w, c)
        }),
    }
}

/// The encodings of the elements from index `i` on, in order.
pub open spec fn docs_enc(items: Seq<DocModel>, i: int, w: nat, c: bool) -> Seq<u8>
    decreases items, items.len() - i,
{
    if i < 0 || i >= items.len() {
        Seq::empty()
    } else {
        doc_enc(items[i], w, c) + docs_enc(items, i + 1, w, c)
    }
}

/// The encodings of the pairs from index `i` on: each key as a symbol,
/// then its value.
pub open spec fn pairs_enc(pairs: Seq<(Seq<u8>, DocModel)>, i: int, w: nat, c: bool) -> Seq<u8>
    decreases pairs, pairs.len() - i,
{
    if i < 0 || i >= pairs.len() {
        Seq::empty()
    } else {
        sym_enc(pairs[i].0) + doc_enc(pairs[i].1, w, c) + pairs_enc(pairs, i + 1, w, c)
    }
}

/// Whether a tree's encoding stays within the format's limits for the
/// given width and mode: every container's body size fits the placeholder,
/// and every length is below the ceiling.
#[verifier::opaque]
pub open spec fn doc_fits(d: DocModel, w: nat, c: bool) -> bool
    decreases d,
{
    match d {
        DocModel::Text(t) => t.len() < SIZE_CEILING && t.len() <= usize::MAX,
        DocModel::Array(items) => {
            &&& items.len() < SIZE_CEILING
            &&& items.len() <= usize::MAX
            &&& (forall|i: int| 0 <= i < items.len() ==> doc_fits(#[trigger] items[i], w, c))
            &&& (items.len() > 0 ==> {
                let body = size_enc(items.len()) + docs_enc(items, 0, w, c);
                &&& body.len() < SIZE_CEILING
                &&& body.len() <= usize::MAX
                &&& size_enc_len(body.len()) <= w
            })
        },
        DocModel::Object(pairs) => {
            &&& pairs.len() < SIZE_CEILING
            &&& pairs.len() <= usize::MAX
            &&& (forall|i: int|
                0 <= i < pairs.len() ==> doc_fits(#[trigger] (pairs[i].1), w, c) && 2 * (
                pairs[i].0).len() + 1 < SIZE_CEILING && (pairs[i].0).len() <= usize::MAX)
            &&& (pairs.len() > 0 ==> {
                let body = size_enc(pairs.len()) + pairs_enc(pairs, 0, w, c);
                &&& body.len() < SIZE_CEILING
                &&& body.len() <= usize::MAX
                &&& size_enc_len(body.len()) <= w
            })
        },
        _ => true,
    }
}

/// The element views from index `i` on are the views of the elements.
pub proof fn lemma_docs_view(v: Vec<Doc>, i: int)
    requires
        0 <= i <= v.len(),
    ensures
        docs_view(v, i).len() == v.len() - i,
        forall|j: int| i <= j < v.len() ==> docs_view(v, i)[j - i] == doc_view(v[j]),
    decreases v.len() - i,
{
    if i < v.len() {
        lemma_docs_view(v, i + 1);
        assert forall|j: int| i <= j < v.len() implies docs_view(v, i)[j - i] == doc_view(
            v[j],
        ) by {
            if j > i {
                assert(docs_view(v, i)[j - i] == docs_view(v, i + 1)[j - (i + 1)]);
            }
        }
    }
}

/// The pair views from index `i` on are the views of the pairs.
pub proof fn lemma_pairs_view(m: Vec<(Vec<u8>, Doc)>, i: int)
    requires
        0 <= i <= m.len(),
    ensures
        pairs_view(m, i).len() == m.len() - i,
        forall|j: int|
            i <= j < m.len() ==> pairs_view(m, i)[j - i] == ((m[j].0)@, doc_view(m[j].1)),
    decreases m.len() - i,
{
    if i < m.len() {
        lemma_pairs_view(m, i + 1);
        assert forall|j: int| i <= j < m.len() implies pairs_view(m, i)[j - i] == ((m[j].0)@,
        doc_view(m[j].1)) by {
            if j > i {
                assert(pairs_view(m, i)[j - i] == pairs_view(m, i + 1)[j - (i + 1)]);
            }
        }
    }
}

/// Encodes the elements of `items` from index `first` on, appending each
/// element's encoding to the encoder's innermost scope.
fn encode_items(encoder: &mut Encoder, items: &Vec<Doc>, first: usize)
    requires
        old(encoder).wf(),
        old(encoder).depth() >= 1,
        first <= items@.len(),
    ensures
        final(encoder).wf(),
        final(encoder).depth() == old(encoder).depth(),
        final(encoder).width() == old(encoder).width(),
        final(encoder).compressing() == old(encoder).compressing(),
        old(encoder).overflowed() ==> final(encoder).overflowed(),
        ({
            let w = old(encoder).width();
            let c = old(encoder).compressing();
            let view = docs_view(*items, first as int);
            (!old(encoder).overflowed() && (forall|j: int|
                0 <= j < view.len() ==> doc_fits(#[trigger] view[j], w, c)) && old(
                encoder,
            ).physical_len() + docs_enc(view, 0, w, false).len() < SIZE_CEILING) ==> {
                &&& !final(encoder).overflowed()
                &&& final(encoder).scopes() == old(encoder).scopes().update(
                    old(encoder).depth() - 1,
                    old(encoder).scopes().last() + docs_enc(view, 0, w, c),
                )
                &&& final(encoder).physical_len() == old(encoder).physical_len() + docs_enc(
                    view,
                    0,
                    w,
                    false,
                ).len()
            }
        }),
    decreases *items, 0int,
{
    let ghost w = old(encoder).width();
    let ghost c = old(encoder).compressing();
    let ghost view = docs_view(*items, first as int);
    let ghost good = !old(encoder).overflowed() && (forall|j: int|
        0 <= j < view.len() ==> doc_fits(#[trigger] view[j], w, c)) && old(encoder).physical_len()
        + docs_enc(view, 0, w, false).len() < SIZE_CEILING;
    proof {
        reveal(doc_enc); reveal(docs_enc);
        lemma_docs_view(*items, first as int);
    }
    let n = items.len();
    let mut i: usize = first;
    while i < n
        invariant
            old(encoder).wf(),
            encoder.wf(),
            first <= i <= n,
            n == items@.len(),
            w == old(encoder).width(),
            c == old(encoder).compressing(),
            view == docs_view(*items, first as int),
            good == (!old(encoder).overflowed() && (forall|j: int|
                0 <= j < view.len() ==> doc_fits(#[trigger] view[j], w, c)) && old(
                encoder,
            ).physical_len() + docs_enc(view, 0, w, false).len() < SIZE_CEILING),
            encoder.depth() == old(encoder).depth(),
            encoder.depth() >= 1,
            encoder.width() == w,
            encoder.compressing() == c,
            old(encoder).overflowed() ==> encoder.overflowed(),
            good ==> {
                &&& !encoder.overflowed()
                &&& encoder.scopes().len() == old(encoder).scopes().len()
                &&& encoder.scopes().drop_last() == old(encoder).scopes().drop_last()
                &&& old(encoder).scopes().last() + docs_enc(view, 0, w, c) == encoder.scopes().last()
                    + docs_enc(view, i - first, w, c)
                &&& old(encoder).physical_len() + docs_enc(view, 0, w, false).len()
                    == encoder.physical_len() + docs_enc(view, i - first, w, false).len()
            },
        decreases n - i,
    {
        let ghost pre = *encoder;
        let element = vstd::slice::slice_index_get(items.as_slice(), i);
        proof {
            reveal(doc_enc); reveal(docs_enc);
            lemma_docs_view(*items, first as int);
            assert(view[i - first] == doc_view(items@[i as int]));
            if good {
                assert(docs_enc(view, i - first, w, c) == doc_enc(view[i - first], w, c)
                    + docs_enc(view, i - first + 1, w, c));
                assert(docs_enc(view, i - first, w, false) == doc_enc(view[i - first], w, false)
                    + docs_enc(view, i - first + 1, w, false));
                assert(doc_fits(view[i - first], w, c));
                assert(!pre.overflowed());
                assert(pre.physical_len() + doc_enc(view[i - first], w, false).len()
                    < SIZE_CEILING);
                assert(element == items@[i as int]);
                assert(element@ == view[i - first]);
            }
        }
        _encode_doc(encoder, element);
        proof {
            if good {
                assert(encoder.scopes().drop_last() =~= pre.scopes().update(
                    pre.depth() - 1,
                    pre.scopes().last() + doc_enc(view[i - first], w, c),
                ).drop_last());
                assert(encoder.scopes().drop_last() =~= pre.scopes().drop_last());
            }
        }
        i = i + 1;
    }
    proof {
        reveal(doc_enc); reveal(docs_enc);
        if good {
            assert(docs_enc(view, n - first, w, c).len() == 0);
            assert(docs_enc(view, n - first, w, false).len() == 0);
            assert(encoder.scopes().last() =~= old(encoder).scopes().last() + docs_enc(
                view,
                0,
                w,
                c,
            ));
            let target = old(encoder).scopes().update(
                old(encoder).depth() - 1,
                old(encoder).scopes().last() + docs_enc(view, 0, w, c),
            );
            assert forall|t: int| 0 <= t < target.len() implies encoder.scopes()[t]
                == target[t] by {
                if t < target.len() - 1 {
                    assert(encoder.scopes().drop_last()[t] == encoder.scopes()[t]);
                    assert(old(encoder).scopes().drop_last()[t] == old(encoder).scopes()[t]);
                }
            }
            assert(encoder.scopes() =~= target);
        }
    }
}

/// Encodes the pairs of `m` from index `first` on: each key as a symbol,
/// then its value.
fn encode_pairs(encoder: &mut Encoder, m: &Vec<(Vec<u8>, Doc)>, first: usize)
    requires
        old(encoder).wf(),
        old(encoder).depth() >= 1,
        first <= m@.len(),
    ensures
        final(encoder).wf(),
        final(encoder).depth() == old(encoder).depth(),
        final(encoder).width() == old(encoder).width(),
        final(encoder).compressing() == old(encoder).compressing(),
        old(encoder).overflowed() ==> final(encoder).overflowed(),
        ({
            let w = old(encoder).width();
            let c = old(encoder).compressing();
            let view = pairs_view(*m, first as int);
            (!old(encoder).overflowed() && (forall|j: int|
                0 <= j < view.len() ==> doc_fits(#[trigger] (view[j].1), w, c) && 2 * (
                view[j].0).len() + 1 < SIZE_CEILING) && old(encoder).physical_len() + pairs_enc(
                view,
                0,
                w,
                false,
            ).len() < SIZE_CEILING) ==> {
                &&& !final(encoder).overflowed()
                &&& final(encoder).scopes() == old(encoder).scopes().update(
                    old(encoder).depth() - 1,
                    old(encoder).scopes().last() + pairs_enc(view, 0, w, c),
                )
                &&& final(encoder).physical_len() == old(encoder).physical_len() + pairs_enc(
                    view,
                    0,
                    w,
                    false,
                ).len()
            }
        }),
    decreases *m, 0int,
{
    let ghost w = old(encoder).width();
    let ghost c = old(encoder).compressing();
    let ghost view = pairs_view(*m, first as int);
    let ghost good = !old(encoder).overflowed() && (forall|j: int|
        0 <= j < view.len() ==> doc_fits(#[trigger] (view[j].1), w, c) && 2 * (view[j].0).len() + 1
        < SIZE_CEILING) && old(encoder).physical_len() + pairs_enc(view, 0, w, false).len()
        < SIZE_CEILING;
    proof {
        reveal(doc_enc); reveal(pairs_enc);
        lemma_pairs_view(*m, first as int);
    }
    let n = m.len();
    let mut i: usize = first;
    while i < n
        invariant
            old(encoder).wf(),
            encoder.wf(),
            first <= i <= n,
            n == m@.len(),
            w == old(encoder).width(),
            c == old(encoder).compressing(),
            view == pairs_view(*m, first as int),
            good == (!old(encoder).overflowed() && (forall|j: int|
                0 <= j < view.len() ==> doc_fits(#[trigger] (view[j].1), w, c) && 2 * (
                view[j].0).len() + 1 < SIZE_CEILING) && old(encoder).physical_len() + pairs_enc(
                view,
                0,
                w,
                false,
            ).len() < SIZE_CEILING),
            encoder.depth() == old(encoder).depth(),
            encoder.depth() >= 1,
            encoder.width() == w,
            encoder.compressing() == c,
            old(encoder).overflowed() ==> encoder.overflowed(),
            good ==> {
                &&& !encoder.overflowed()
                &&& encoder.scopes().len() == old(encoder).scopes().len()
                &&& encoder.scopes().drop_last() == old(encoder).scopes().drop_last()
                &&& old(encoder).scopes().last() + pairs_enc(view, 0, w, c) == encoder.scopes().last()
                    + pairs_enc(view, i - first, w, c)
                &&& old(encoder).physical_len() + pairs_enc(view, 0, w, false).len()
                    == encoder.physical_len() + pairs_enc(view, i - first, w, false).len()
            },
        decreases n - i,
    {
        let ghost pre = *encoder;
        let pair = vstd::slice::slice_index_get(m.as_slice(), i);
        proof {
            reveal(doc_enc); reveal(pairs_enc);
            lemma_pairs_view(*m, first as int);
            assert(view[i - first] == ((m@[i as int].0)@, doc_view(m@[i as int].1)));
            if good {
                assert(pairs_enc(view, i - first, w, c) == sym_enc((view[i - first]).0) + doc_enc(
                    (view[i - first]).1,
                    w,
                    c,
                ) + pairs_enc(view, i - first + 1, w, c));
                assert(pairs_enc(view, i - first, w, false) == sym_enc((view[i - first]).0)
                    + doc_enc((view[i - first]).1, w, false) + pairs_enc(
                    view,
                    i - first + 1,
                    w,
                    false,
                ));
                assert((pair.0)@ == (view[i - first]).0);
                assert((pair.1)@ == (view[i - first]).1);
                assert(2 * (view[i - first]).0.len() + 1 < SIZE_CEILING);
                assert(!pre.overflowed());
            }
        }
        encoder.append_symbol(pair.0.as_slice());
        let ghost mid = *encoder;
        proof {
            if good {
                assert(mid.scopes().drop_last() =~= pre.scopes().drop_last());
                assert(mid.scopes().last() == pre.scopes().last() + sym_enc((view[i - first]).0));
                assert(sym_enc((view[i - first]).0).len() == size_enc(
                    2 * (view[i - first]).0.len() + 1,
                ).len() + (view[i - first]).0.len());
            }
        }
        proof {
            if good {
                assert(doc_fits((view[i - first]).1, w, c));
                assert(mid.physical_len() + doc_enc((view[i - first]).1, w, false).len()
                    < SIZE_CEILING);
                assert(!mid.overflowed());
            }
        }
        _encode_doc(encoder, &pair.1);
        proof {
            if good {
                assert(encoder.scopes().drop_last() =~= mid.scopes().update(
                    mid.depth() - 1,
                    mid.scopes().last() + doc_enc((view[i - first]).1, w, c),
                ).drop_last());
                assert(encoder.scopes().drop_last() =~= pre.scopes().drop_last());
                assert(encoder.scopes().last() =~= pre.scopes().last() + (sym_enc(
                    (view[i - first]).0,
                ) + doc_enc((view[i - first]).1, w, c)));
            }
        }
        i = i + 1;
    }
    proof {
        reveal(doc_enc); reveal(pairs_enc);
        if good {
            assert(pairs_enc(view, n - first, w, c).len() == 0);
            assert(pairs_enc(view, n - first, w, false).len() == 0);
            assert(encoder.scopes().last() =~= old(encoder).scopes().last() + pairs_enc(
                view,
                0,
                w,
                c,
            ));
            let target = old(encoder).scopes().update(
                old(encoder).depth() - 1,
                old(encoder).scopes().last() + pairs_enc(view, 0, w, c),
            );
            assert forall|t: int| 0 <= t < target.len() implies encoder.scopes()[t]
                == target[t] by {
                if t < target.len() - 1 {
                    assert(encoder.scopes().drop_last()[t] == encoder.scopes()[t]);
                    assert(old(encoder).scopes().drop_last()[t] == old(encoder).scopes()[t]);
                }
            }
            assert(encoder.scopes() =~= target);
        }
    }
}

/// Appends one array's encoding: a `List` header, then either the compact
/// empty form or a size scope holding the count and the elements.
#[verifier::rlimit(100)]
#[verifier::spinoff_prover]
fn encode_array(encoder: &mut Encoder, v: &Vec<Doc>)
    requires
        old(encoder).wf(),
        old(encoder).depth() >= 1,
    ensures
        final(encoder).wf(),
        final(encoder).depth() == old(encoder).depth(),
        final(encoder).width() == old(encoder).width(),
        final(encoder).compressing() == old(encoder).compressing(),
        old(encoder).overflowed() ==> final(encoder).overflowed(),
        ({
            let w = old(encoder).width();
            let c = old(encoder).compressing();
            let d = DocModel::Array(docs_view(*v, 0));
            (!old(encoder).overflowed() && doc_fits(d, w, c) && old(encoder).physical_len()
                + doc_enc(d, w, false).len() < SIZE_CEILING) ==> {
                &&& !final(encoder).overflowed()
                &&& final(encoder).scopes() == old(encoder).scopes().update(
                    old(encoder).depth() - 1,
                    old(encoder).scopes().last() + doc_enc(d, w, c),
                )
                &&& final(encoder).physical_len() == old(encoder).physical_len() + doc_enc(
                    d,
                    w,
                    false,
                ).len()
            }
        }),
    decreases *v, 2int,
{
    proof {
        reveal(doc_fits);
        reveal(doc_enc);
    }
    let ghost w = old(encoder).width();
    let ghost c = old(encoder).compressing();
    let ghost d = DocModel::Array(docs_view(*v, 0));
    let ghost good = !old(encoder).overflowed() && doc_fits(d, w, c) && old(
        encoder,
    ).physical_len() + doc_enc(d, w, false).len() < SIZE_CEILING;
    let ghost items = docs_view(*v, 0);
    proof {
        lemma_docs_view(*v, 0);
    }
    encoder.append_byte(21);
    if v.len() > 0 {
        let ghost body_c = size_enc(items.len()) + docs_enc(items, 0, w, c);
        let ghost body_f = size_enc(items.len()) + docs_enc(items, 0, w, false);
        encoder.begin_size();
        encoder.append_size(v.len() as u64);
        encode_items(encoder, v, 0);
        proof {
            if good {
                crate::common::lemma_le_bytes_len(
                    4 * body_f.len() + crate::common::size_class(w),
                    w,
                );
                assert(encoder.scopes().last() =~= size_enc(items.len()) + docs_enc(
                    items,
                    0,
                    w,
                    c,
                ));
                assert(encoder.scopes().last().len() == body_c.len());
            }
        }
        encoder.end_size();
        proof {
            if good {
                let last = old(encoder).scopes().last();
                assert(encoder.scopes().last() =~~= last + seq![21u8] + scope_enc(body_c, w, c));
                assert(last + seq![21u8] + scope_enc(body_c, w, c) =~= last + doc_enc(d, w, c));
                assert(encoder.scopes() =~~= old(encoder).scopes().update(
                    old(encoder).depth() - 1,
                    last + doc_enc(d, w, c),
                ));
                assert(doc_enc(d, w, false).len() == 1 + w + body_f.len());
            }
        }
    } else {
        encoder.append_byte(0);
        proof {
            if good {
                let last = old(encoder).scopes().last();
                assert(encoder.scopes() =~~= old(encoder).scopes().update(
                    old(encoder).depth() - 1,
                    last + doc_enc(d, w, c),
                ));
            }
        }
    }
}

/// Appends one object's encoding: a tagged `Null` header, then either the
/// compact empty form or a size scope of tags holding the count and pairs.
#[verifier::rlimit(100)]
#[verifier::spinoff_prover]
fn encode_object(encoder: &mut Encoder, m: &Vec<(Vec<u8>, Doc)>)
    requires
        old(encoder).wf(),
        old(encoder).depth() >= 1,
    ensures
        final(encoder).wf(),
        final(encoder).depth() == old(encoder).depth(),
        final(encoder).width() == old(encoder).width(),
        final(encoder).compressing() == old(encoder).compressing(),
        old(encoder).overflowed() ==> final(encoder).overflowed(),
        ({
            let w = old(encoder).width();
            let c = old(encoder).compressing();
            let d = DocModel::Object(pairs_view(*m, 0));
            (!old(encoder).overflowed() && doc_fits(d, w, c) && old(encoder).physical_len()
                + doc_enc(d, w, false).len() < SIZE_CEILING) ==> {
                &&& !final(encoder).overflowed()
                &&& final(encoder).scopes() == old(encoder).scopes().update(
                    old(encoder).depth() - 1,
                    old(encoder).scopes().last() + doc_enc(d, w, c),
                )
                &&& final(encoder).physical_len() == old(encoder).physical_len() + doc_enc(
                    d,
                    w,
                    false,
                ).len()
            }
        }),
    decreases *m, 2int,
{
    proof {
        reveal(doc_fits);
        reveal(doc_enc);
    }
    let ghost w = old(encoder).width();
    let ghost c = old(encoder).compressing();
    let ghost d = DocModel::Object(pairs_view(*m, 0));
    let ghost good = !old(encoder).overflowed() && doc_fits(d, w, c) && old(
        encoder,
    ).physical_len() + doc_enc(d, w, false).len() < SIZE_CEILING;
    let ghost pairs = pairs_view(*m, 0);
    proof {
        lemma_pairs_view(*m, 0);
    }
    encoder.append_byte(0x81);
    if m.len() > 0 {
        let ghost body_c = size_enc(pairs.len()) + pairs_enc(pairs, 0, w, c);
        let ghost body_f = size_enc(pairs.len()) + pairs_enc(pairs, 0, w, false);
        encoder.begin_size();
        encoder.append_size(m.len() as u64);
        encode_pairs(encoder, m, 0);
        proof {
            if good {
                crate::common::lemma_le_bytes_len(
                    4 * body_f.len() + crate::common::size_class(w),
                    w,
                );
                assert(encoder.scopes().last() =~= size_enc(pairs.len()) + pairs_enc(
                    pairs,
                    0,
                    w,
                    c,
                ));
                assert(encoder.scopes().last().len() == body_c.len());
            }
        }
        encoder.end_size();
        proof {
            if good {
                let last = old(encoder).scopes().last();
                assert(encoder.scopes().last() =~~= last + seq![0x81u8] + scope_enc(
                    body_c,
                    w,
                    c,
                ));
                assert(last + seq![0x81u8] + scope_enc(body_c, w, c) =~= last + doc_enc(d, w, c));
                assert(encoder.scopes() =~~= old(encoder).scopes().update(
                    old(encoder).depth() - 1,
                    last + doc_enc(d, w, c),
                ));
                assert(doc_enc(d, w, false).len() == 1 + w + body_f.len());
            }
        }
    } else {
        encoder.append_byte(0);
        proof {
            if good {
                let last = old(encoder).scopes().last();
                assert(encoder.scopes() =~~= old(encoder).scopes().update(
                    old(encoder).depth() - 1,
                    last + doc_enc(d, w, c),
                ));
            }
        }
    }
}

/// Appends one document tree's encoding to the encoder's innermost scope:
/// scalars as one header byte and a fixed payload, text as a size-prefixed
/// string, arrays as a `List` scope, objects as tags on a `Null` value.
#[verifier::rlimit(100)]
#[verifier::spinoff_prover]
pub fn _encode_doc(encoder: &mut Encoder, value: &Doc)
    requires
        old(encoder).wf(),
        old(encoder).depth() >= 1,
    ensures
        final(encoder).wf(),
        final(encoder).depth() == old(encoder).depth(),
        final(encoder).width() == old(encoder).width(),
        final(encoder).compressing() == old(encoder).compressing(),
        old(encoder).overflowed() ==> final(encoder).overflowed(),
        ({
            let w = old(encoder).width();
            let c = old(encoder).compressing();
            (!old(encoder).overflowed() && doc_fits(value@, w, c) && old(encoder).physical_len()
                + doc_enc(value@, w, false).len() < SIZE_CEILING) ==> {
                &&& !final(encoder).overflowed()
                &&& final(encoder).scopes() == old(encoder).scopes().update(
                    old(encoder).depth() - 1,
                    old(encoder).scopes().last() + doc_enc(value@, w, c),
                )
                &&& final(encoder).physical_len() == old(encoder).physical_len() + doc_enc(
                    value@,
                    w,
                    false,
                ).len()
            }
        }),
    decreases *value, 3int,
{
    let ghost w = old(encoder).width();
    let ghost c = old(encoder).compressing();
    match value {
        Doc::Null => {
            proof {
                assert(doc_enc(value@, w, c) =~= seq![1u8]) by {
                    reveal(doc_enc);
                }
                assert(doc_enc(value@, w, false) =~= seq![1u8]) by {
                    reveal(doc_enc);
                }
            }
            encoder.append_byte(1);
        },
        Doc::Bool(b) => {
            proof {
                assert(doc_enc(value@, w, c) =~= (if *b {
                    seq![3u8]
                } else {
                    seq![2u8]
                })) by {
                    reveal(doc_enc);
                }
                assert(doc_enc(value@, w, false) =~= (if *b {
                    seq![3u8]
                } else {
                    seq![2u8]
                })) by {
                    reveal(doc_enc);
                }
            }
            if *b {
                encoder.append_byte(3);
            } else {
                encoder.append_byte(2);
            }
        },
        Doc::Float64(bits) => {
            proof {
                assert(doc_enc(value@, w, c) =~= seq![13u8] + le_bytes(*bits as nat, 8)) by {
                    reveal(doc_enc);
                }
                assert(doc_enc(value@, w, false) =~= seq![13u8] + le_bytes(*bits as nat, 8)) by {
                    reveal(doc_enc);
                }
            }
            encoder.append_byte(13);
            let bytes = crate::common::encode_u64_le(*bits);
            encoder.append(bytes.as_slice());
            proof {
                let ghost last = old(encoder).scopes().last();
                assert(encoder.scopes() =~~= old(encoder).scopes().update(
                    old(encoder).depth() - 1,
                    last + doc_enc(value@, w, c),
                ));
            }
        },
        Doc::Text(t) => {
            proof {
                assert(doc_enc(value@, w, c) =~= seq![19u8] + size_enc(t@.len()) + t@) by {
                    reveal(doc_enc);
                }
                assert(doc_enc(value@, w, false) =~= seq![19u8] + size_enc(t@.len()) + t@) by {
                    reveal(doc_enc);
                }
                assert(doc_fits(value@, w, c) ==> t@.len() < SIZE_CEILING) by {
                    reveal(doc_fits);
                }
            }
            encoder.append_byte(19);
            encoder.append_size(t.len() as u64);
            encoder.append(t.as_slice());
            proof {
                let good = !old(encoder).overflowed() && doc_fits(value@, w, c) && old(
                    encoder,
                ).physical_len() + doc_enc(value@, w, false).len() < SIZE_CEILING;
                if good {
                    let last = old(encoder).scopes().last();
                    assert(encoder.scopes() =~~= old(encoder).scopes().update(
                        old(encoder).depth() - 1,
                        last + doc_enc(value@, w, c),
                    ));
                }
            }
        },
        Doc::Array(v) => {
            proof {
                assert(value@ == DocModel::Array(docs_view(*v, 0)));
            }
            encode_array(encoder, v);
        },
        Doc::Object(m) => {
            proof {
                assert(value@ == DocModel::Object(pairs_view(*m, 0)));
            }
            encode_object(encoder, m);
        },
    }
}

/// Encodes one document tree to bytes: a fresh encoder, one recursive
/// walk, and a build. Fails with `SizeOverflow` when a container's size
/// cannot be written.
pub fn encode_doc(value: &Doc, size_max_bytes: usize, compress_sizes: bool) -> (r: Result<
    Vec<u8>,
    crate::encoder::Error,
>)
    requires
        size_max_bytes == 1 || size_max_bytes == 2 || size_max_bytes == 4 || size_max_bytes == 8,
    ensures
        (doc_fits(value@, size_max_bytes as nat, compress_sizes) && doc_enc(
            value@,
            size_max_bytes as nat,
            false,
        ).len() < SIZE_CEILING) ==> match r {
            Ok(out) => out@ == doc_enc(value@, size_max_bytes as nat, compress_sizes),
            Err(_) => false,
        },
{
    let mut encoder = Encoder::new(size_max_bytes, compress_sizes);
    _encode_doc(&mut encoder, value);
    proof {
        let w = size_max_bytes as nat;
        let c = compress_sizes;
        if doc_fits(value@, w, c) && doc_enc(value@, w, false).len() < SIZE_CEILING {
            assert(encoder.scopes() =~= seq![doc_enc(value@, w, c)]);
            assert(seq![Seq::<u8>::empty()].update(0int, Seq::<u8>::empty() + doc_enc(value@, w, c))
                =~~= seq![Seq::<u8>::empty() + doc_enc(value@, w, c)]);
            assert(Seq::<u8>::empty() + doc_enc(value@, w, c) =~= doc_enc(value@, w, c));
        }
    }
    encoder.build()
}

// ---------------------------------------------------------------------------
// The tree a well-formed, JSON-shaped buffer denotes.
// ---------------------------------------------------------------------------

/// The tree denoted by the value at the front of `s`: scalars map to
/// scalars, a `Null` with tags to an object, a `List` payload to an array.
/// Wire types outside the JSON shape denote nothing.
pub open spec fn doc_parse(s: Seq<u8>) -> Option<DocModel>
    decreases s.len(), 0int,
    via doc_parse_dec
{
    match val_parse(s) {
        Some(m) => match m.payload {
            PayloadModel::Null => if m.has_tags {
                match obj_parse(m.tags) {
                    Some(pairs) => Some(DocModel::Object(pairs)),
                    None => None,
                }
            } else {
                Some(DocModel::Null)
            },
            PayloadModel::Bool(b) => Some(DocModel::Bool(b)),
            PayloadModel::Float64(bits) => Some(DocModel::Float64(bits)),
            PayloadModel::String(b) => Some(DocModel::Text(b)),
            PayloadModel::List(b) => match arr_parse(b) {
                Some(items) => Some(DocModel::Array(items)),
                None => None,
            },
            _ => None,
        },
        None => None,
    }
}

/// The pairs denoted by a tags region read as an object body.
pub open spec fn obj_parse(t: Seq<u8>) -> Option<Seq<(Seq<u8>, DocModel)>>
    decreases t.len(), 2int,
{
    if list_head_some(t) && t.len() - list_head_w(t) >= 2 * list_head_count(t) {
        pair_items_parse(
            t.subrange(list_head_w(t) as int, t.len() as int),
            list_head_count(t),
        )
    } else {
        None
    }
}

/// Exactly `n` (symbol, tree) pairs filling `r`.
pub open spec fn pair_items_parse(r: Seq<u8>, n: nat) -> Option<Seq<(Seq<u8>, DocModel)>>
    decreases r.len(), 1int,
    via pair_items_parse_dec
{
    if n == 0 {
        if r.len() == 0 {
            Some(Seq::empty())
        } else {
            None
        }
    } else if tag_sym_some(r) {
        let rest = r.subrange(tag_sym_len(r) as int, r.len() as int);
        if val_parse(rest) is Some {
            let m = val_parse(rest)->Some_0;
            match doc_parse(rest) {
                Some(d) => match pair_items_parse(
                    rest.subrange(m.len as int, rest.len() as int),
                    (n - 1) as nat,
                ) {
                    Some(tail) => Some(seq![(tag_sym_val(r), d)] + tail),
                    None => None,
                },
                None => None,
            }
        } else {
            None
        }
    } else {
        None
    }
}

/// The trees denoted by a list body.
pub open spec fn arr_parse(b: Seq<u8>) -> Option<Seq<DocModel>>
    decreases b.len(), 2int,
{
    if list_head_some(b) && b.len() - list_head_w(b) >= list_head_count(b) {
        arr_items_parse(
            b.subrange(list_head_w(b) as int, b.len() as int),
            list_head_count(b),
        )
    } else {
        None
    }
}

/// Exactly `n` trees filling `r`.
pub open spec fn arr_items_parse(r: Seq<u8>, n: nat) -> Option<Seq<DocModel>>
    decreases r.len(), 1int,
    via arr_items_parse_dec
{
    if n == 0 {
        if r.len() == 0 {
            Some(Seq::empty())
        } else {
            None
        }
    } else if val_parse(r) is Some {
        let m = val_parse(r)->Some_0;
        match doc_parse(r) {
            Some(d) => match arr_items_parse(
                r.subrange(m.len as int, r.len() as int),
                (n - 1) as nat,
            ) {
                Some(tail) => Some(seq![d] + tail),
                None => None,
            },
            None => None,
        }
    } else {
        None
    }
}

#[via_fn]
proof fn doc_parse_dec(s: Seq<u8>) {
    if val_parse(s) is Some {
        lemma_val_parse_bounds(s);
    }
}

#[via_fn]
proof fn pair_items_parse_dec(r: Seq<u8>, n: nat) {
    if n > 0 && tag_sym_some(r) {
        let rest = r.subrange(tag_sym_len(r) as int, r.len() as int);
        if val_parse(rest) is Some {
            lemma_val_parse_bounds(rest);
        }
    }
}

#[via_fn]
proof fn arr_items_parse_dec(r: Seq<u8>, n: nat) {
    if n > 0 && val_parse(r) is Some {
        lemma_val_parse_bounds(r);
    }
}

/// The tree a decoded value denotes, from its fields alone.
#[verifier::opaque]
pub open spec fn vdoc(has_tags: bool, tags: Seq<u8>, pm: PayloadModel) -> Option<DocModel> {
    match pm {
        PayloadModel::Null => if has_tags {
            match obj_parse(tags) {
                Some(pairs) => Some(DocModel::Object(pairs)),
                None => None,
            }
        } else {
            Some(DocModel::Null)
        },
        PayloadModel::Bool(b) => Some(DocModel::Bool(b)),
        PayloadModel::Float64(bits) => Some(DocModel::Float64(bits)),
        PayloadModel::String(b) => Some(DocModel::Text(b)),
        PayloadModel::List(b) => match arr_parse(b) {
            Some(items) => Some(DocModel::Array(items)),
            None => None,
        },
        _ => None,
    }
}

/// The denotation of a parsed value goes through its fields.
pub proof fn lemma_doc_parse_is_vdoc(s: Seq<u8>)
    requires
        val_parse(s) is Some,
    ensures
        doc_parse(s) == vdoc(
            (val_parse(s)->Some_0).has_tags,
            (val_parse(s)->Some_0).tags,
            (val_parse(s)->Some_0).payload,
        ),
{
    reveal(vdoc);
}

/// A pushed pair extends the view of the pairs by one.
proof fn lemma_pairs_view_push(m1: Vec<(Vec<u8>, Doc)>, m2: Vec<(Vec<u8>, Doc)>, p: (Vec<u8>, Doc))
    requires
        m2@ == m1@.push(p),
    ensures
        pairs_view(m2, 0) == pairs_view(m1, 0).push((p.0@, doc_view(p.1))),
{
    lemma_pairs_view(m1, 0);
    lemma_pairs_view(m2, 0);
    assert(m2.len() == m1.len() + 1);
    assert forall|j: int| 0 <= j < m2.len() implies pairs_view(m2, 0)[j] == pairs_view(
        m1,
        0,
    ).push((p.0@, doc_view(p.1)))[j] by {
        if j < m1.len() {
            assert(m2[j] == m1[j]);
        } else {
            assert(m2[j] == p);
        }
    }
    assert(pairs_view(m2, 0) =~= pairs_view(m1, 0).push((p.0@, doc_view(p.1))));
}

/// A pushed element extends the view of the elements by one.
proof fn lemma_docs_view_push(v1: Vec<Doc>, v2: Vec<Doc>, d: Doc)
    requires
        v2@ == v1@.push(d),
    ensures
        docs_view(v2, 0) == docs_view(v1, 0).push(doc_view(d)),
{
    lemma_docs_view(v1, 0);
    lemma_docs_view(v2, 0);
    assert(v2.len() == v1.len() + 1);
    assert forall|j: int| 0 <= j < v2.len() implies docs_view(v2, 0)[j] == docs_view(
        v1,
        0,
    ).push(doc_view(d))[j] by {
        if j < v1.len() {
            assert(v2[j] == v1[j]);
        } else {
            assert(v2[j] == d);
        }
    }
    assert(docs_view(v2, 0) =~= docs_view(v1, 0).push(doc_view(d)));
}

/// Drains a tags iterator into object pairs, decoding each value in full.
fn decode_obj<'val>(tags: TagDecoder<'val>, Ghost(bound): Ghost<nat>) -> (r: Result<
    Vec<(Vec<u8>, Doc)>,
    (),
>)
    requires
        tags.wf(),
        !tags.failed(),
        tags.inner().len() < bound,
    ensures
        match r {
            Ok(out) => pair_items_parse(tags.inner(), tags.count()) == Some(pairs_view(out, 0)),
            Err(()) => pair_items_parse(tags.inner(), tags.count()) is None,
        },
    decreases bound, 0int,
{
    let mut td = tags;
    let mut out: Vec<(Vec<u8>, Doc)> = Vec::new();
    proof {
        assert(pairs_view(out, 0) =~= Seq::<(Seq<u8>, DocModel)>::empty());
    }
    while td.remaining() > 0
        invariant
            td.wf(),
            !td.failed(),
            td.inner().len() <= tags.inner().len(),
            tags.inner().len() < bound,
            ({
                match pair_items_parse(td.inner(), td.count()) {
                    Some(tail) => pair_items_parse(tags.inner(), tags.count()) == Some(
                        pairs_view(out, 0) + tail,
                    ),
                    None => pair_items_parse(tags.inner(), tags.count()) is None,
                }
            }),
        decreases td.count(),
    {
        let ghost inner0 = td.inner();
        let ghost k = td.count();
        match td.next() {
            Some((symbol, inner_value)) => {
                let ghost rest = inner0.subrange(tag_sym_len(inner0) as int, inner0.len() as int);
                proof {
                    lemma_val_parse_bounds(rest);
                    lemma_doc_parse_is_vdoc(rest);
                }
                let key: Vec<u8> = match symbol {
                    crate::decoder::TagSymbol::Bytes(b) => vstd::slice::slice_to_vec(b),
                };
                let element = match _decode_doc(&inner_value) {
                    Ok(element) => element,
                    Err(()) => {
                        return Err(());
                    },
                };
                let ghost pre_out = out;
                out.push((key, element));
                proof {
                    lemma_pairs_view_push(pre_out, out, (key, element));
                    let m = val_parse(rest)->Some_0;
                    assert(td.inner() == rest.subrange(m.len as int, rest.len() as int));
                    assert(pairs_view(out, 0) =~= pairs_view(pre_out, 0).push(
                        (tag_sym_val(inner0), doc_parse(rest)->Some_0),
                    ));
                    assert forall|tail: Seq<(Seq<u8>, DocModel)>|
                        pair_items_parse(td.inner(), td.count()) == Some(tail) implies pairs_view(
                        pre_out,
                        0,
                    ) + (seq![(tag_sym_val(inner0), doc_parse(rest)->Some_0)] + tail)
                        =~= pairs_view(out, 0) + tail by {}
                }
            },
            None => {
                proof {
                    assert(pair_items_parse(inner0, k) is None);
                }
                return Err(());
            },
        }
    }
    let ghost inner_end = td.inner();
    match td.check_error() {
        Ok(()) => {
            proof {
                assert(inner_end =~= Seq::<u8>::empty());
                assert(pair_items_parse(inner_end, 0) == Some(Seq::<(Seq<u8>, DocModel)>::empty()));
                assert(pairs_view(out, 0) + Seq::<(Seq<u8>, DocModel)>::empty() =~= pairs_view(
                    out,
                    0,
                ));
            }
            Ok(out)
        },
        Err(()) => {
            proof {
                assert(pair_items_parse(inner_end, 0) is None);
            }
            Err(())
        },
    }
}

/// Drains a list iterator into array elements, decoding each in full.
fn decode_arr<'val>(elements: ListDecoder<'val>, Ghost(bound): Ghost<nat>) -> (r: Result<
    Vec<Doc>,
    (),
>)
    requires
        elements.wf(),
        !elements.failed(),
        elements.inner().len() < bound,
    ensures
        match r {
            Ok(out) => arr_items_parse(elements.inner(), elements.count()) == Some(
                docs_view(out, 0),
            ),
            Err(()) => arr_items_parse(elements.inner(), elements.count()) is None,
        },
    decreases bound, 0int,
{
    let mut ld = elements;
    let mut out: Vec<Doc> = Vec::new();
    proof {
        assert(docs_view(out, 0) =~= Seq::<DocModel>::empty());
    }
    while ld.remaining() > 0
        invariant
            ld.wf(),
            !ld.failed(),
            ld.inner().len() <= elements.inner().len(),
            elements.inner().len() < bound,
            ({
                match arr_items_parse(ld.inner(), ld.count()) {
                    Some(tail) => arr_items_parse(elements.inner(), elements.count()) == Some(
                        docs_view(out, 0) + tail,
                    ),
                    None => arr_items_parse(elements.inner(), elements.count()) is None,
                }
            }),
        decreases ld.count(),
    {
        let ghost inner0 = ld.inner();
        let ghost k = ld.count();
        match ld.next() {
            Some(inner_value) => {
                proof {
                    lemma_val_parse_bounds(inner0);
                    lemma_doc_parse_is_vdoc(inner0);
                }
                let element = match _decode_doc(&inner_value) {
                    Ok(element) => element,
                    Err(()) => {
                        return Err(());
                    },
                };
                let ghost pre_out = out;
                out.push(element);
                proof {
                    lemma_docs_view_push(pre_out, out, element);
                    let m = val_parse(inner0)->Some_0;
                    assert(ld.inner() == inner0.subrange(m.len as int, inner0.len() as int));
                    assert forall|tail: Seq<DocModel>|
                        arr_items_parse(ld.inner(), ld.count()) == Some(tail) implies docs_view(
                        pre_out,
                        0,
                    ) + (seq![doc_parse(inner0)->Some_0] + tail) =~= docs_view(out, 0) + tail by {}
                }
            },
            None => {
                proof {
                    assert(arr_items_parse(inner0, k) is None);
                }
                return Err(());
            },
        }
    }
    let ghost inner_end = ld.inner();
    match ld.check_error() {
        Ok(()) => {
            proof {
                assert(inner_end =~= Seq::<u8>::empty());
                assert(arr_items_parse(inner_end, 0) == Some(Seq::<DocModel>::empty()));
                assert(docs_view(out, 0) + Seq::<DocModel>::empty() =~= docs_view(out, 0));
            }
            Ok(out)
        },
        Err(()) => {
            proof {
                assert(arr_items_parse(inner_end, 0) is None);
            }
            Err(())
        },
    }
}

/// Rebuilds the tree a decoded value denotes: scalars map back to scalars,
/// a `Null` with tags to an object, a `List` payload to an array; any other
/// payload is outside the JSON shape and an error.
pub fn _decode_doc(value: &Value) -> (r: Result<Doc, ()>)
    ensures
        match r {
            Ok(d) => vdoc(value.has_tags, value.tags@, value.payload@) == Some(d@),
            Err(()) => vdoc(value.has_tags, value.tags@, value.payload@) is None,
        },
    decreases value.tags@.len() + spec_payload_len(value.payload@), 1int,
{
    proof {
        reveal(vdoc);
    }
    match value.payload {
        Payload::Null => {
            if value.has_tags {
                let tags = match value.tags() {
                    Some(tags) => tags,
                    None => {
                        return Err(());
                    },
                };
                if tags.remaining() == 0 {
                    let ghost inner_end = tags.inner();
                    let ghost n0 = tags.count();
                    match tags.check_error() {
                        Ok(()) => {
                            proof {
                                assert(inner_end =~= Seq::<u8>::empty());
                                assert(pair_items_parse(inner_end, 0) == Some(
                                    Seq::<(Seq<u8>, DocModel)>::empty(),
                                ));
                            }
                            Ok(Doc::Object(Vec::new()))
                        },
                        Err(()) => {
                            proof {
                                assert(pair_items_parse(inner_end, n0) is None);
                            }
                            Err(())
                        },
                    }
                } else {
                    proof {
                        assert(list_head_count(value.tags@) > 0);
                        assert(value.tags@.len() > 0);
                    }
                    match decode_obj(
                        tags,
                        Ghost(value.tags@.len() + spec_payload_len(value.payload@)),
                    ) {
                        Ok(out) => Ok(Doc::Object(out)),
                        Err(()) => Err(()),
                    }
                }
            } else {
                Ok(Doc::Null)
            }
        },
        Payload::Bool(b) => Ok(Doc::Bool(b)),
        Payload::Float64(bits) => Ok(Doc::Float64(bits)),
        Payload::String(bytes) => Ok(Doc::Text(vstd::slice::slice_to_vec(bytes))),
        Payload::List(body) => {
            let elements = match ListDecoder::new(body) {
                Some(elements) => elements,
                None => {
                    return Err(());
                },
            };
            if elements.remaining() == 0 {
                let ghost inner_end = elements.inner();
                let ghost n0 = elements.count();
                match elements.check_error() {
                    Ok(()) => {
                        proof {
                            assert(inner_end =~= Seq::<u8>::empty());
                            assert(arr_items_parse(inner_end, 0) == Some(Seq::<DocModel>::empty()));
                        }
                        Ok(Doc::Array(Vec::new()))
                    },
                    Err(()) => {
                        proof {
                            assert(arr_items_parse(inner_end, n0) is None);
                        }
                        Err(())
                    },
                }
            } else {
                proof {
                    assert(list_head_count(body@) > 0);
                    assert(body@.len() > 0);
                }
                match decode_arr(
                    elements,
                    Ghost(value.tags@.len() + spec_payload_len(value.payload@)),
                ) {
                    Ok(out) => Ok(Doc::Array(out)),
                    Err(()) => Err(()),
                }
            }
        },
        _ => Err(()),
    }
}

/// The tree denoted by a whole buffer, when one JSON-shaped value fills it
/// exactly.
pub open spec fn doc_parse_full(s: Seq<u8>) -> Option<DocModel> {
    if val_parse(s) is Some && (val_parse(s)->Some_0).len == s.len() {
        doc_parse(s)
    } else {
        None
    }
}

/// Decodes one document tree from a buffer: the buffer must hold exactly
/// one JSON-shaped value.
pub fn decode_doc(buffer: &[u8]) -> (r: Result<Doc, ()>)
    ensures
        match r {
            Ok(d) => doc_parse_full(buffer@) == Some(d@),
            Err(()) => doc_parse_full(buffer@) is None,
        },
{
    let mut reader = Reader::new(buffer);
    proof {
        assert(reader.remaining_seq() =~= buffer@);
    }
    let value = match decode_value(&mut reader) {
        Some(value) => value,
        None => {
            return Err(());
        },
    };
    proof {
        lemma_doc_parse_is_vdoc(buffer@);
    }
    let doc = match _decode_doc(&value) {
        Ok(doc) => doc,
        Err(()) => {
            return Err(());
        },
    };
    if reader.has_some() {
        return Err(());
    }
    Ok(doc)
}

// ---------------------------------------------------------------------------
// The round trip: an encoded tree is a well-formed buffer that denotes the
// tree again, in every width and both build modes.
// ---------------------------------------------------------------------------

/// Brings the UTF-8 meaning of string payloads into scope.
proof fn proof_reveal_string()
    ensures
        forall|b: Seq<u8>| #[trigger] crate::decoder::string_payload_ok(b) == valid_utf8(b),
{
    assert forall|b: Seq<u8>| #[trigger] crate::decoder::string_payload_ok(b) == valid_utf8(
        b,
    ) by {
        reveal(crate::decoder::string_payload_ok);
    }
}

/// What a tag-less scalar value denotes.
proof fn lemma_vdoc_scalar(tags: Seq<u8>, pm: PayloadModel)
    requires
        pm is Null || pm is Bool || pm is Float64 || pm is String,
    ensures
        pm is Null ==> vdoc(false, tags, pm) == Some(DocModel::Null),
        pm matches PayloadModel::Bool(b) ==> vdoc(false, tags, pm) == Some(DocModel::Bool(b)),
        pm matches PayloadModel::Float64(bits) ==> vdoc(false, tags, pm) == Some(
            DocModel::Float64(bits),
        ),
        pm matches PayloadModel::String(b) ==> vdoc(false, tags, pm) == Some(DocModel::Text(b)),
{
    reveal(vdoc);
}

/// What a list value denotes once its body parses.
proof fn lemma_vdoc_list(tags: Seq<u8>, body: Seq<u8>, items: Seq<DocModel>)
    requires
        arr_parse(body) == Some(items),
    ensures
        vdoc(false, tags, PayloadModel::List(body)) == Some(DocModel::Array(items)),
{
    reveal(vdoc);
}

/// What a tagged null denotes once its tags parse.
proof fn lemma_vdoc_obj(body: Seq<u8>, pairs: Seq<(Seq<u8>, DocModel)>)
    requires
        obj_parse(body) == Some(pairs),
    ensures
        vdoc(true, body, PayloadModel::Null) == Some(DocModel::Object(pairs)),
{
    reveal(vdoc);
}

/// Every encoding starts with its header byte.
proof fn lemma_doc_enc_min(d: DocModel, w: nat, c: bool)
    ensures
        doc_enc(d, w, c).len() >= 1,
{
    reveal(doc_enc);
}

/// A run of elements takes at least one byte each.
proof fn lemma_docs_enc_min(items: Seq<DocModel>, i: int, w: nat, c: bool)
    requires
        0 <= i <= items.len(),
    ensures
        docs_enc(items, i, w, c).len() >= items.len() - i,
    decreases items.len() - i,
{
    reveal(doc_enc); reveal(docs_enc);
    if i < items.len() {
        lemma_doc_enc_min(items[i], w, c);
        lemma_docs_enc_min(items, i + 1, w, c);
    }
}

/// A run of pairs takes at least two bytes each: one for the shortest
/// symbol, one for the shortest value.
proof fn lemma_pairs_enc_min(pairs: Seq<(Seq<u8>, DocModel)>, i: int, w: nat, c: bool)
    requires
        0 <= i <= pairs.len(),
    ensures
        pairs_enc(pairs, i, w, c).len() >= 2 * (pairs.len() - i),
    decreases pairs.len() - i,
{
    reveal(doc_enc); reveal(pairs_enc);
    if i < pairs.len() {
        lemma_doc_enc_min(pairs[i].1, w, c);
        lemma_pairs_enc_min(pairs, i + 1, w, c);
        crate::common::lemma_le_bytes_len(
            4 * (2 * (pairs[i].0).len() + 1) + crate::common::size_class(
                size_enc_len(2 * (pairs[i].0).len() + 1),
            ),
            size_enc_len(2 * (pairs[i].0).len() + 1),
        );
    }
}

/// A value whose minimal encoding fits in width `w` can be shifted up by
/// the class bits without leaving that width.
proof fn lemma_fit_width(v: nat, w: nat)
    requires
        w == 1 || w == 2 || w == 4 || w == 8,
        size_enc_len(v) <= w,
        v < SIZE_CEILING,
    ensures
        4 * v + 3 < crate::reader::pow256(w),
{
    crate::reader::lemma_pow256_values();
}

/// The size a scope stamp announces reads back as the body length, whether
/// the stamp is minimal or full width.
proof fn lemma_stamp_dec(body_len: nat, w: nat, c: bool, tail: Seq<u8>)
    requires
        w == 1 || w == 2 || w == 4 || w == 8,
        body_len < SIZE_CEILING,
        size_enc_len(body_len) <= w,
    ensures
        ({
            let stamp = if c {
                size_enc(body_len)
            } else {
                size_enc_w(body_len, w)
            };
            let s = stamp + tail;
            &&& stamp.len() >= 1
            &&& stamp.len() <= 8
            &&& crate::common::size_dec_some(s)
            &&& crate::common::size_dec_val(s) == body_len
            &&& crate::common::size_dec_w(s) == stamp.len()
        }),
{
    crate::reader::lemma_pow256_values();
    if c {
        crate::common::lemma_size_codec_roundtrip(body_len, tail);
        crate::common::lemma_le_bytes_len(
            4 * body_len + crate::common::size_class(size_enc_len(body_len)),
            size_enc_len(body_len),
        );
    } else {
        lemma_fit_width(body_len, w);
        crate::common::lemma_size_enc_w_dec(body_len, w, tail);
        crate::common::lemma_le_bytes_len(
            4 * body_len + crate::common::size_class(w),
            w,
        );
    }
}

/// An encoded tree, followed by anything, parses as one value spanning
/// exactly the encoding, is recursively well formed, and denotes the tree.
#[verifier::rlimit(100)]
#[verifier::spinoff_prover]
pub proof fn lemma_enc_val(d: DocModel, w: nat, c: bool, rest: Seq<u8>)
    requires
        doc_wf(d),
        doc_fits(d, w, c),
        w == 1 || w == 2 || w == 4 || w == 8,
    ensures
        ({
            let enc = doc_enc(d, w, c);
            let s = enc + rest;
            &&& val_parse(s) is Some
            &&& (val_parse(s)->Some_0).len == enc.len()
            &&& val_wf(s)
            &&& vdoc(
                (val_parse(s)->Some_0).has_tags,
                (val_parse(s)->Some_0).tags,
                (val_parse(s)->Some_0).payload,
            ) == Some(d)
        }),
    decreases d, 2int,
{
    match d {
        DocModel::Null => {
            lemma_enc_val_null(d, w, c, rest);
        },
        DocModel::Bool(b) => {
            lemma_enc_val_bool(d, b, w, c, rest);
        },
        DocModel::Float64(bits) => {
            lemma_enc_val_float(d, bits, w, c, rest);
        },
        DocModel::Text(t) => {
            lemma_enc_val_text(d, t, w, c, rest);
        },
        DocModel::Array(items) => {
            lemma_enc_val_arr(d, items, w, c, rest);
        },
        DocModel::Object(pairs) => {
            lemma_enc_val_obj(d, pairs, w, c, rest);
        },
    }
}

/// The `Null` case of `lemma_enc_val`.
#[verifier::rlimit(100)]
#[verifier::spinoff_prover]
proof fn lemma_enc_val_null(d: DocModel, w: nat, c: bool, rest: Seq<u8>)
    requires
        d == DocModel::Null,
        w == 1 || w == 2 || w == 4 || w == 8,
    ensures
        ({
            let enc = doc_enc(d, w, c);
            let s = enc + rest;
            &&& val_parse(s) is Some
            &&& (val_parse(s)->Some_0).len == enc.len()
            &&& val_wf(s)
            &&& vdoc(
                (val_parse(s)->Some_0).has_tags,
                (val_parse(s)->Some_0).tags,
                (val_parse(s)->Some_0).payload,
            ) == Some(d)
        }),
    decreases d, 0int,
{
    reveal(doc_enc);
    let enc = doc_enc(d, w, c);
    let s = enc + rest;
    lemma_tags_wf_empty();
    assert(s[0] == 1);
    assert(s.subrange(1, s.len() as int) =~= rest);
    assert(val_parse(s) is Some);
    lemma_vdoc_scalar((val_parse(s)->Some_0).tags, (val_parse(s)->Some_0).payload);
}

/// The `Bool` case of `lemma_enc_val`.
#[verifier::rlimit(100)]
#[verifier::spinoff_prover]
proof fn lemma_enc_val_bool(d: DocModel, b: bool, w: nat, c: bool, rest: Seq<u8>)
    requires
        d == DocModel::Bool(b),
        w == 1 || w == 2 || w == 4 || w == 8,
    ensures
        ({
            let enc = doc_enc(d, w, c);
            let s = enc + rest;
            &&& val_parse(s) is Some
            &&& (val_parse(s)->Some_0).len == enc.len()
            &&& val_wf(s)
            &&& vdoc(
                (val_parse(s)->Some_0).has_tags,
                (val_parse(s)->Some_0).tags,
                (val_parse(s)->Some_0).payload,
            ) == Some(d)
        }),
    decreases d, 0int,
{
    reveal(doc_enc);
    let enc = doc_enc(d, w, c);
    let s = enc + rest;
    lemma_tags_wf_empty();
    assert(s[0] == (if b { 3u8 } else { 2u8 }));
    assert(s.subrange(1, s.len() as int) =~= rest);
    assert(val_parse(s) is Some);
    lemma_vdoc_scalar((val_parse(s)->Some_0).tags, (val_parse(s)->Some_0).payload);
}

/// The `Float64` case of `lemma_enc_val`.
#[verifier::rlimit(100)]
#[verifier::spinoff_prover]
proof fn lemma_enc_val_float(d: DocModel, bits: u64, w: nat, c: bool, rest: Seq<u8>)
    requires
        d == DocModel::Float64(bits),
        w == 1 || w == 2 || w == 4 || w == 8,
    ensures
        ({
            let enc = doc_enc(d, w, c);
            let s = enc + rest;
            &&& val_parse(s) is Some
            &&& (val_parse(s)->Some_0).len == enc.len()
            &&& val_wf(s)
            &&& vdoc(
                (val_parse(s)->Some_0).has_tags,
                (val_parse(s)->Some_0).tags,
                (val_parse(s)->Some_0).payload,
            ) == Some(d)
        }),
    decreases d, 0int,
{
    reveal(doc_enc);
    let enc = doc_enc(d, w, c);
    let s = enc + rest;
    lemma_tags_wf_empty();
    assert(s[0] == 13);
    crate::common::lemma_le_bytes_len(bits as nat, 8);
    let after = s.subrange(1, s.len() as int);
    assert(after =~= le_bytes(bits as nat, 8) + rest);
    assert(after.subrange(0, 8) =~= le_bytes(bits as nat, 8));
    crate::reader::lemma_pow256_values();
    crate::common::lemma_le_bytes_val(bits as nat, 8);
    assert(crate::reader::le_val(after.subrange(0, 8)) == bits as nat);
    assert(val_parse(s) is Some);
    let m = val_parse(s)->Some_0;
    assert(m.payload == PayloadModel::Float64(bits));
    assert(m.len == 9 == enc.len());
    lemma_vdoc_scalar(m.tags, m.payload);
}

/// The text case of `lemma_enc_val`: a size-prefixed UTF-8 payload.
#[verifier::rlimit(100)]
#[verifier::spinoff_prover]
proof fn lemma_enc_val_text(d: DocModel, t: Seq<u8>, w: nat, c: bool, rest: Seq<u8>)
    requires
        d == DocModel::Text(t),
        doc_wf(d),
        doc_fits(d, w, c),
        w == 1 || w == 2 || w == 4 || w == 8,
    ensures
        ({
            let enc = doc_enc(d, w, c);
            let s = enc + rest;
            &&& val_parse(s) is Some
            &&& (val_parse(s)->Some_0).len == enc.len()
            &&& val_wf(s)
            &&& vdoc(
                (val_parse(s)->Some_0).has_tags,
                (val_parse(s)->Some_0).tags,
                (val_parse(s)->Some_0).payload,
            ) == Some(d)
        }),
    decreases d, 0int,
{
    reveal(doc_enc);
    let enc = doc_enc(d, w, c);
    let s = enc + rest;
    lemma_tags_wf_empty();
    proof_reveal_string();
    reveal(doc_wf);
    reveal(doc_fits);
    assert(s[0] == 19);
    let after = s.subrange(1, s.len() as int);
    assert(after =~= size_enc(t.len()) + (t + rest));
    crate::common::lemma_size_codec_roundtrip(t.len(), t + rest);
    crate::common::lemma_le_bytes_len(
        4 * t.len() + crate::common::size_class(size_enc_len(t.len())),
        size_enc_len(t.len()),
    );
    assert(var_bytes_some(after));
    let hw = crate::common::size_dec_w(after) as int;
    assert(hw == size_enc(t.len()).len());
    assert(var_bytes_val(after) =~= t);
    assert(val_parse(s) is Some);
    let m = val_parse(s)->Some_0;
    assert(m.payload == PayloadModel::String(t));
    assert(m.len == enc.len());
    lemma_vdoc_scalar(m.tags, m.payload);
}

/// A `List` header followed by a size scope parses as one list value
/// spanning the header, the stamp and the body.
#[verifier::rlimit(100)]
#[verifier::spinoff_prover]
proof fn lemma_list_scope_parse(body: Seq<u8>, w: nat, c: bool, rest: Seq<u8>)
    requires
        body.len() < SIZE_CEILING,
        body.len() <= usize::MAX,
        size_enc_len(body.len()) <= w,
        w == 1 || w == 2 || w == 4 || w == 8,
    ensures
        ({
            let enc = seq![21u8] + scope_enc(body, w, c);
            let s = enc + rest;
            &&& val_parse(s) is Some
            &&& ({
                let m = val_parse(s)->Some_0;
                &&& m.len == enc.len()
                &&& m.payload == PayloadModel::List(body)
                &&& !m.has_tags
                &&& m.tags == Seq::<u8>::empty()
            })
        }),
{
    let stamp: Seq<u8> = if c {
        size_enc(body.len())
    } else {
        size_enc_w(body.len(), w)
    };
    let enc = seq![21u8] + scope_enc(body, w, c);
    let s = enc + rest;
    assert(s[0] == 21);
    let after = s.subrange(1, s.len() as int);
    assert(after =~= stamp + (body + rest));
    lemma_stamp_dec(body.len(), w, c, body + rest);
    assert(var_bytes_some(after)) by {
        assert(crate::common::size_dec_val(after) == body.len());
        assert(after.len() == stamp.len() + body.len() + rest.len());
    }
    assert(var_bytes_val(after) =~= body);
    assert(var_bytes_len(after) == stamp.len() + body.len());
    assert(val_parse(s) is Some);
    assert(enc.len() == 1 + stamp.len() + body.len());
}

/// A tagged `Null` header followed by a size scope of tags parses as one
/// value spanning the header, the stamp and the tags body.
#[verifier::rlimit(100)]
#[verifier::spinoff_prover]
proof fn lemma_tags_scope_parse(body: Seq<u8>, w: nat, c: bool, rest: Seq<u8>)
    requires
        body.len() < SIZE_CEILING,
        body.len() <= usize::MAX,
        size_enc_len(body.len()) <= w,
        w == 1 || w == 2 || w == 4 || w == 8,
    ensures
        ({
            let enc = seq![0x81u8] + scope_enc(body, w, c);
            let s = enc + rest;
            &&& val_parse(s) is Some
            &&& ({
                let m = val_parse(s)->Some_0;
                &&& m.len == enc.len()
                &&& m.payload == PayloadModel::Null
                &&& m.has_tags
                &&& m.tags == body
            })
        }),
{
    let stamp: Seq<u8> = if c {
        size_enc(body.len())
    } else {
        size_enc_w(body.len(), w)
    };
    let enc = seq![0x81u8] + scope_enc(body, w, c);
    let s = enc + rest;
    assert(s[0] == 0x81);
    assert(crate::decoder::spec_has_tags(0x81u8));
    assert(!crate::decoder::spec_has_kind(0x81u8));
    assert(crate::decoder::spec_code(0x81u8) == 1);
    let after = s.subrange(1, s.len() as int);
    assert(after =~= stamp + (body + rest));
    lemma_stamp_dec(body.len(), w, c, body + rest);
    assert(var_bytes_some(after)) by {
        assert(crate::common::size_dec_val(after) == body.len());
        assert(after.len() == stamp.len() + body.len() + rest.len());
    }
    assert(var_bytes_val(after) =~= body);
    assert(var_bytes_len(after) == stamp.len() + body.len());
    assert(s.subrange(1 + var_bytes_len(after) as int, s.len() as int) =~= rest);
    assert(val_parse(s) is Some);
    assert(enc.len() == 1 + stamp.len() + body.len());
}

/// A zero byte at the front parses as a zero varint.
proof fn lemma_zero_varint(rest: Seq<u8>)
    ensures
        size_enc(0) == seq![0u8],
        crate::common::size_dec_some(seq![0u8] + rest),
        crate::common::size_dec_val(seq![0u8] + rest) == 0,
        crate::common::size_dec_w(seq![0u8] + rest) == 1,
{
    assert(size_enc(0) == crate::common::le_bytes(0, 1));
    assert(crate::common::le_bytes(0, 1) =~= seq![(0nat % 256) as u8] + crate::common::le_bytes(
        0nat / 256,
        0,
    ));
    assert(crate::common::le_bytes(0nat / 256, 0).len() == 0);
    assert(size_enc(0) =~= seq![0u8]);
    crate::common::lemma_size_codec_roundtrip(0, rest);
    assert(size_enc(0) + rest =~= seq![0u8] + rest);
}

/// The array case of `lemma_enc_val`.
proof fn lemma_enc_val_arr(d: DocModel, items: Seq<DocModel>, w: nat, c: bool, rest: Seq<u8>)
    requires
        d == DocModel::Array(items),
        doc_wf(d),
        doc_fits(d, w, c),
        w == 1 || w == 2 || w == 4 || w == 8,
    ensures
        ({
            let enc = doc_enc(d, w, c);
            let s = enc + rest;
            &&& val_parse(s) is Some
            &&& (val_parse(s)->Some_0).len == enc.len()
            &&& val_wf(s)
            &&& vdoc(
                (val_parse(s)->Some_0).has_tags,
                (val_parse(s)->Some_0).tags,
                (val_parse(s)->Some_0).payload,
            ) == Some(d)
        }),
    decreases d, 1int,
{
    reveal(doc_wf);
    reveal(doc_fits);
    if items.len() == 0 {
        lemma_enc_val_arr_empty(d, items, w, c, rest);
    } else {
        lemma_enc_items(items, 0, w, c);
        lemma_docs_enc_min(items, 0, w, c);
        lemma_enc_val_arr_full(d, items, w, c, rest);
    }
}

/// The empty-array case: the compact form, a single zero byte.
#[verifier::rlimit(100)]
#[verifier::spinoff_prover]
proof fn lemma_enc_val_arr_empty(d: DocModel, items: Seq<DocModel>, w: nat, c: bool, rest: Seq<u8>)
    requires
        d == DocModel::Array(items),
        items.len() == 0,
        w == 1 || w == 2 || w == 4 || w == 8,
    ensures
        ({
            let enc = doc_enc(d, w, c);
            let s = enc + rest;
            &&& val_parse(s) is Some
            &&& (val_parse(s)->Some_0).len == enc.len()
            &&& val_wf(s)
            &&& vdoc(
                (val_parse(s)->Some_0).has_tags,
                (val_parse(s)->Some_0).tags,
                (val_parse(s)->Some_0).payload,
            ) == Some(d)
        }),
    decreases d, 0int,
{
    reveal(doc_enc);
    let enc = doc_enc(d, w, c);
    let s = enc + rest;
    lemma_tags_wf_empty();
    assert(s[0] == 21);
    let after = s.subrange(1, s.len() as int);
    assert(enc =~= seq![21u8, 0u8]);
    lemma_zero_varint(rest);
    assert(after =~= seq![0u8] + rest);
    assert(var_bytes_some(after));
    assert(var_bytes_val(after) =~= Seq::<u8>::empty());
    assert(val_parse(s) is Some);
    let m = val_parse(s)->Some_0;
    assert(m.payload == PayloadModel::List(Seq::<u8>::empty()));
    assert(m.len == 2 == enc.len());
    assert(list_wf(Seq::<u8>::empty())) by {
        assert(Seq::<u8>::empty().subrange(0, 0) =~= Seq::<u8>::empty());
        assert(items_wf(Seq::<u8>::empty(), 0));
    }
    assert(arr_parse(Seq::<u8>::empty()) == Some(Seq::<DocModel>::empty())) by {
        assert(Seq::<u8>::empty().subrange(0, 0) =~= Seq::<u8>::empty());
        assert(arr_items_parse(Seq::<u8>::empty(), 0) == Some(Seq::<DocModel>::empty()));
    }
    assert(items =~= Seq::<DocModel>::empty());
    lemma_vdoc_list(m.tags, Seq::<u8>::empty(), items);
}

/// The non-empty-array case: a size scope holding the count and elements.
#[verifier::rlimit(100)]
#[verifier::spinoff_prover]
proof fn lemma_enc_val_arr_full(d: DocModel, items: Seq<DocModel>, w: nat, c: bool, rest: Seq<u8>)
    requires
        d == DocModel::Array(items),
        doc_fits(d, w, c),
        items.len() > 0,
        w == 1 || w == 2 || w == 4 || w == 8,
        items_wf(docs_enc(items, 0, w, c), items.len() as nat),
        arr_items_parse(docs_enc(items, 0, w, c), items.len() as nat) == Some(
            items.subrange(0, items.len() as int),
        ),
        docs_enc(items, 0, w, c).len() >= items.len(),
    ensures
        ({
            let enc = doc_enc(d, w, c);
            let s = enc + rest;
            &&& val_parse(s) is Some
            &&& (val_parse(s)->Some_0).len == enc.len()
            &&& val_wf(s)
            &&& vdoc(
                (val_parse(s)->Some_0).has_tags,
                (val_parse(s)->Some_0).tags,
                (val_parse(s)->Some_0).payload,
            ) == Some(d)
        }),
    decreases d, 0int,
{
    reveal(doc_fits);
    reveal(doc_enc);
    reveal(doc_enc); reveal(docs_enc);
    let enc = doc_enc(d, w, c);
    let s = enc + rest;
    lemma_tags_wf_empty();
    let body = size_enc(items.len()) + docs_enc(items, 0, w, c);
    assert(enc == seq![21u8] + scope_enc(body, w, c));
    lemma_list_scope_parse(body, w, c, rest);
    let m = val_parse(s)->Some_0;
    // the list body: its count, then the elements, exactly
    crate::common::lemma_size_codec_roundtrip(items.len(), docs_enc(items, 0, w, c));
    crate::common::lemma_le_bytes_len(
        4 * items.len() + crate::common::size_class(size_enc_len(items.len())),
        size_enc_len(items.len()),
    );
    assert(list_head_some(body));
    assert(list_head_count(body) == items.len());
    let hw = list_head_w(body) as int;
    assert(hw == size_enc(items.len()).len());
    assert(body.subrange(hw, body.len() as int) =~= docs_enc(items, 0, w, c));
    assert(items.subrange(0, items.len() as int) =~= items);
    assert(list_wf(body));
    assert(arr_parse(body) == Some(items));
    assert(val_wf(s));
    lemma_vdoc_list(m.tags, body, items);
}

/// The object case of `lemma_enc_val`.
proof fn lemma_enc_val_obj(
    d: DocModel,
    pairs: Seq<(Seq<u8>, DocModel)>,
    w: nat,
    c: bool,
    rest: Seq<u8>,
)
    requires
        d == DocModel::Object(pairs),
        doc_wf(d),
        doc_fits(d, w, c),
        w == 1 || w == 2 || w == 4 || w == 8,
    ensures
        ({
            let enc = doc_enc(d, w, c);
            let s = enc + rest;
            &&& val_parse(s) is Some
            &&& (val_parse(s)->Some_0).len == enc.len()
            &&& val_wf(s)
            &&& vdoc(
                (val_parse(s)->Some_0).has_tags,
                (val_parse(s)->Some_0).tags,
                (val_parse(s)->Some_0).payload,
            ) == Some(d)
        }),
    decreases d, 1int,
{
    reveal(doc_wf);
    reveal(doc_fits);
    if pairs.len() == 0 {
        lemma_enc_val_obj_empty(d, pairs, w, c, rest);
    } else {
        lemma_enc_pairs(pairs, 0, w, c);
        lemma_pairs_enc_min(pairs, 0, w, c);
        lemma_enc_val_obj_full(d, pairs, w, c, rest);
    }
}

/// The empty-object case: tags present, a single zero byte of tags.
#[verifier::rlimit(100)]
#[verifier::spinoff_prover]
proof fn lemma_enc_val_obj_empty(
    d: DocModel,
    pairs: Seq<(Seq<u8>, DocModel)>,
    w: nat,
    c: bool,
    rest: Seq<u8>,
)
    requires
        d == DocModel::Object(pairs),
        pairs.len() == 0,
        w == 1 || w == 2 || w == 4 || w == 8,
    ensures
        ({
            let enc = doc_enc(d, w, c);
            let s = enc + rest;
            &&& val_parse(s) is Some
            &&& (val_parse(s)->Some_0).len == enc.len()
            &&& val_wf(s)
            &&& vdoc(
                (val_parse(s)->Some_0).has_tags,
                (val_parse(s)->Some_0).tags,
                (val_parse(s)->Some_0).payload,
            ) == Some(d)
        }),
    decreases d, 0int,
{
    reveal(doc_enc);
    let enc = doc_enc(d, w, c);
    let s = enc + rest;
    assert(s[0] == 0x81);
    assert(crate::decoder::spec_has_tags(0x81u8));
    assert(!crate::decoder::spec_has_kind(0x81u8));
    assert(crate::decoder::spec_code(0x81u8) == 1);
    let after = s.subrange(1, s.len() as int);
    assert(enc =~= seq![0x81u8, 0u8]);
    lemma_zero_varint(rest);
    assert(after =~= seq![0u8] + rest);
    assert(var_bytes_some(after));
    assert(var_bytes_val(after) =~= Seq::<u8>::empty());
    assert(after.subrange(1, after.len() as int) =~= rest);
    assert(val_parse(s) is Some);
    let m = val_parse(s)->Some_0;
    assert(m.payload == PayloadModel::Null);
    assert(m.has_tags);
    assert(m.tags == Seq::<u8>::empty());
    assert(m.len == 2 == enc.len());
    assert(tags_wf(Seq::<u8>::empty())) by {
        crate::decoder::lemma_tags_wf_empty();
    }
    assert(obj_parse(Seq::<u8>::empty()) == Some(Seq::<(Seq<u8>, DocModel)>::empty())) by {
        assert(Seq::<u8>::empty().subrange(0, 0) =~= Seq::<u8>::empty());
        assert(pair_items_parse(Seq::<u8>::empty(), 0) == Some(
            Seq::<(Seq<u8>, DocModel)>::empty(),
        ));
    }
    assert(pairs =~= Seq::<(Seq<u8>, DocModel)>::empty());
    lemma_vdoc_obj(Seq::<u8>::empty(), pairs);
}

/// The non-empty-object case: a size scope of tags holding the count and
/// pairs.
#[verifier::rlimit(100)]
#[verifier::spinoff_prover]
proof fn lemma_enc_val_obj_full(
    d: DocModel,
    pairs: Seq<(Seq<u8>, DocModel)>,
    w: nat,
    c: bool,
    rest: Seq<u8>,
)
    requires
        d == DocModel::Object(pairs),
        doc_fits(d, w, c),
        pairs.len() > 0,
        w == 1 || w == 2 || w == 4 || w == 8,
        pairs_wf(pairs_enc(pairs, 0, w, c), pairs.len() as nat),
        pair_items_parse(pairs_enc(pairs, 0, w, c), pairs.len() as nat) == Some(
            pairs.subrange(0, pairs.len() as int),
        ),
        pairs_enc(pairs, 0, w, c).len() >= 2 * pairs.len(),
    ensures
        ({
            let enc = doc_enc(d, w, c);
            let s = enc + rest;
            &&& val_parse(s) is Some
            &&& (val_parse(s)->Some_0).len == enc.len()
            &&& val_wf(s)
            &&& vdoc(
                (val_parse(s)->Some_0).has_tags,
                (val_parse(s)->Some_0).tags,
                (val_parse(s)->Some_0).payload,
            ) == Some(d)
        }),
    decreases d, 0int,
{
    reveal(doc_fits);
    reveal(doc_enc);
    reveal(doc_enc); reveal(pairs_enc);
    let enc = doc_enc(d, w, c);
    let s = enc + rest;
    let body = size_enc(pairs.len()) + pairs_enc(pairs, 0, w, c);
    assert(enc == seq![0x81u8] + scope_enc(body, w, c));
    lemma_tags_scope_parse(body, w, c, rest);
    let m = val_parse(s)->Some_0;
    crate::common::lemma_size_codec_roundtrip(pairs.len(), pairs_enc(pairs, 0, w, c));
    crate::common::lemma_le_bytes_len(
        4 * pairs.len() + crate::common::size_class(size_enc_len(pairs.len())),
        size_enc_len(pairs.len()),
    );
    assert(list_head_some(body));
    assert(list_head_count(body) == pairs.len());
    let hw = list_head_w(body) as int;
    assert(hw == size_enc(pairs.len()).len());
    assert(body.subrange(hw, body.len() as int) =~= pairs_enc(pairs, 0, w, c));
    assert(pairs.subrange(0, pairs.len() as int) =~= pairs);
    assert(tags_wf(body));
    assert(obj_parse(body) == Some(pairs));
    assert(val_wf(s));
    lemma_vdoc_obj(body, pairs);
}

/// The encoded elements from index `i` on form exactly the well-formed,
/// denoting run that the list body's count announces.
#[verifier::rlimit(100)]
#[verifier::spinoff_prover]
proof fn lemma_enc_items(items: Seq<DocModel>, i: int, w: nat, c: bool)
    requires
        0 <= i <= items.len(),
        forall|j: int|
            0 <= j < items.len() ==> doc_wf(#[trigger] items[j]) && doc_fits(items[j], w, c),
        w == 1 || w == 2 || w == 4 || w == 8,
    ensures
        ({
            let r = docs_enc(items, i, w, c);
            &&& items_wf(r, (items.len() - i) as nat)
            &&& arr_items_parse(r, (items.len() - i) as nat) == Some(
                items.subrange(i, items.len() as int),
            )
        }),
    decreases items, items.len() - i,
{
    reveal(doc_enc); reveal(docs_enc);
    let r = docs_enc(items, i, w, c);
    if i == items.len() {
        assert(r.len() == 0);
        assert(items.subrange(i, items.len() as int) =~= Seq::<DocModel>::empty());
    } else {
        let tail = docs_enc(items, i + 1, w, c);
        assert(r == doc_enc(items[i], w, c) + tail);
        lemma_enc_val(items[i], w, c, tail);
        lemma_enc_items(items, i + 1, w, c);
        let m = val_parse(r)->Some_0;
        assert(r.subrange(m.len as int, r.len() as int) =~= tail);
        crate::decoder::lemma_val_parse_bounds(r);
        lemma_doc_parse_is_vdoc(r);
        assert(doc_parse(r) == Some(items[i]));
        assert(items_wf(r, (items.len() - i) as nat));
        assert(seq![items[i]] + items.subrange(i + 1, items.len() as int) =~= items.subrange(
            i,
            items.len() as int,
        ));
        assert(arr_items_parse(r, (items.len() - i) as nat) == Some(
            items.subrange(i, items.len() as int),
        ));
    }
}

/// An encoded symbol, followed by anything, parses back to its bytes.
proof fn lemma_sym_parse(k: Seq<u8>, tail: Seq<u8>)
    requires
        2 * k.len() + 1 < SIZE_CEILING,
        k.len() <= usize::MAX,
    ensures
        ({
            let r = sym_enc(k) + tail;
            &&& tag_sym_some(r)
            &&& tag_sym_len(r) == sym_enc(k).len()
            &&& tag_sym_val(r) == k
            &&& r.subrange(tag_sym_len(r) as int, r.len() as int) == tail
        }),
{
    let r = sym_enc(k) + tail;
    crate::common::lemma_size_codec_roundtrip(2 * k.len() + 1, k + tail);
    crate::common::lemma_le_bytes_len(
        4 * (2 * k.len() + 1) + crate::common::size_class(size_enc_len(2 * k.len() + 1)),
        size_enc_len(2 * k.len() + 1),
    );
    assert(r =~= size_enc(2 * k.len() + 1) + (k + tail));
    assert(crate::common::size_dec_val(r) == 2 * k.len() + 1);
    assert((2 * k.len() + 1) % 2 == 1) by {
        vstd::arithmetic::div_mod::lemma_fundamental_div_mod_converse_mod(
            2 * (k.len() as int) + 1,
            2,
            k.len() as int,
            1,
        );
    }
    assert((2 * k.len() + 1) / 2 == k.len()) by {
        vstd::arithmetic::div_mod::lemma_fundamental_div_mod_converse_div(
            2 * (k.len() as int) + 1,
            2,
            k.len() as int,
            1,
        );
    }
    let sw = crate::common::size_dec_w(r) as int;
    assert(sw == size_enc(2 * k.len() + 1).len());
    assert(tag_sym_some(r));
    assert(tag_sym_len(r) == sw + k.len());
    assert(tag_sym_val(r) =~= k);
    assert(r.subrange(tag_sym_len(r) as int, r.len() as int) =~= tail);
}

/// The encoded pairs from index `i` on form exactly the well-formed,
/// denoting run that the tags region's count announces.
#[verifier::rlimit(100)]
#[verifier::spinoff_prover]
proof fn lemma_enc_pairs(pairs: Seq<(Seq<u8>, DocModel)>, i: int, w: nat, c: bool)
    requires
        0 <= i <= pairs.len(),
        forall|j: int|
            0 <= j < pairs.len() ==> doc_wf(#[trigger] (pairs[j].1)) && doc_fits(pairs[j].1, w, c)
                && 2 * (pairs[j].0).len() + 1 < SIZE_CEILING && (pairs[j].0).len() <= usize::MAX,
        w == 1 || w == 2 || w == 4 || w == 8,
    ensures
        ({
            let r = pairs_enc(pairs, i, w, c);
            &&& pairs_wf(r, (pairs.len() - i) as nat)
            &&& pair_items_parse(r, (pairs.len() - i) as nat) == Some(
                pairs.subrange(i, pairs.len() as int),
            )
        }),
    decreases pairs, pairs.len() - i,
{
    reveal(doc_enc); reveal(pairs_enc);
    let r = pairs_enc(pairs, i, w, c);
    if i == pairs.len() {
        assert(r.len() == 0);
        assert(pairs.subrange(i, pairs.len() as int) =~= Seq::<(Seq<u8>, DocModel)>::empty());
    } else {
        let k = pairs[i].0;
        let v = pairs[i].1;
        let venc = doc_enc(v, w, c);
        let tail = pairs_enc(pairs, i + 1, w, c);
        assert(r == sym_enc(k) + venc + tail);
        lemma_sym_parse(k, venc + tail);
        assert(sym_enc(k) + (venc + tail) =~= r);
        let rest = r.subrange(tag_sym_len(r) as int, r.len() as int);
        assert(rest =~= venc + tail);
        lemma_enc_val(v, w, c, tail);
        lemma_enc_pairs(pairs, i + 1, w, c);
        let m = val_parse(rest)->Some_0;
        assert(rest.subrange(m.len as int, rest.len() as int) =~= tail);
        lemma_doc_parse_is_vdoc(rest);
        assert(doc_parse(rest) == Some(v));
        assert(pairs_wf(r, (pairs.len() - i) as nat));
        assert(seq![(k, v)] + pairs.subrange(i + 1, pairs.len() as int) =~= pairs.subrange(
            i,
            pairs.len() as int,
        ));
        assert((tag_sym_val(r), doc_parse(rest)->Some_0) == (k, v));
        assert(pair_items_parse(r, (pairs.len() - i) as nat) == Some(
            pairs.subrange(i, pairs.len() as int),
        ));
    }
}

/// The round trip and validation of encoded trees: the encoding of a
/// well-formed, fitting tree is a well-formed buffer — `validate` accepts
/// it — and denotes exactly the tree it came from, in every width and both
/// build modes.
pub proof fn lemma_doc_roundtrip(d: DocModel, w: nat, c: bool)
    requires
        doc_wf(d),
        doc_fits(d, w, c),
        w == 1 || w == 2 || w == 4 || w == 8,
    ensures
        wire_wf(doc_enc(d, w, c)),
        doc_parse_full(doc_enc(d, w, c)) == Some(d),
{
    let enc = doc_enc(d, w, c);
    lemma_enc_val(d, w, c, Seq::<u8>::empty());
    assert(enc + Seq::<u8>::empty() =~= enc);
    lemma_doc_parse_is_vdoc(enc);
}

/// The compacted encoding of a tree is never longer than the padded one:
/// compaction only shortens size stamps.
pub proof fn lemma_compact_no_longer(d: DocModel, w: nat)
    requires
        doc_fits(d, w, true),
        w == 1 || w == 2 || w == 4 || w == 8,
    ensures
        doc_enc(d, w, true).len() <= doc_enc(d, w, false).len(),
    decreases d, 1int,
{
    reveal(doc_enc);
    reveal(doc_fits);
    crate::reader::lemma_pow256_values();
    match d {
        DocModel::Array(items) => {
            if items.len() > 0 {
                lemma_docs_no_longer(items, 0, w);
                let body_c = size_enc(items.len()) + docs_enc(items, 0, w, true);
                let body_f = size_enc(items.len()) + docs_enc(items, 0, w, false);
                crate::common::lemma_le_bytes_len(
                    4 * body_c.len() + crate::common::size_class(size_enc_len(body_c.len())),
                    size_enc_len(body_c.len()),
                );
                crate::common::lemma_le_bytes_len(
                    4 * body_f.len() + crate::common::size_class(w),
                    w,
                );
                assert(size_enc(body_c.len()).len() == size_enc_len(body_c.len()) <= w);
            }
        },
        DocModel::Object(pairs) => {
            if pairs.len() > 0 {
                lemma_pairs_no_longer(pairs, 0, w);
                let body_c = size_enc(pairs.len()) + pairs_enc(pairs, 0, w, true);
                let body_f = size_enc(pairs.len()) + pairs_enc(pairs, 0, w, false);
                crate::common::lemma_le_bytes_len(
                    4 * body_c.len() + crate::common::size_class(size_enc_len(body_c.len())),
                    size_enc_len(body_c.len()),
                );
                crate::common::lemma_le_bytes_len(
                    4 * body_f.len() + crate::common::size_class(w),
                    w,
                );
                assert(size_enc(body_c.len()).len() == size_enc_len(body_c.len()) <= w);
            }
        },
        _ => {},
    }
}

/// Elementwise: a run of compacted encodings is never longer.
proof fn lemma_docs_no_longer(items: Seq<DocModel>, i: int, w: nat)
    requires
        0 <= i <= items.len(),
        forall|j: int| 0 <= j < items.len() ==> doc_fits(#[trigger] items[j], w, true),
        w == 1 || w == 2 || w == 4 || w == 8,
    ensures
        docs_enc(items, i, w, true).len() <= docs_enc(items, i, w, false).len(),
    decreases items, items.len() - i,
{
    reveal(doc_enc);
    reveal(docs_enc);
    if i < items.len() {
        lemma_compact_no_longer(items[i], w);
        lemma_docs_no_longer(items, i + 1, w);
    }
}

/// Pairwise: a run of compacted pair encodings is never longer.
proof fn lemma_pairs_no_longer(pairs: Seq<(Seq<u8>, DocModel)>, i: int, w: nat)
    requires
        0 <= i <= pairs.len(),
        forall|j: int| 0 <= j < pairs.len() ==> doc_fits(#[trigger] (pairs[j].1), w, true),
        w == 1 || w == 2 || w == 4 || w == 8,
    ensures
        pairs_enc(pairs, i, w, true).len() <= pairs_enc(pairs, i, w, false).len(),
    decreases pairs, pairs.len() - i,
{
    reveal(doc_enc);
    reveal(pairs_enc);
    if i < pairs.len() {
        lemma_compact_no_longer(pairs[i].1, w);
        lemma_pairs_no_longer(pairs, i + 1, w);
    }
}

/// Two encodings of one tree — any widths, either mode — denote the same
/// tree back.
pub proof fn lemma_modes_agree(d: DocModel, w1: nat, c1: bool, w2: nat, c2: bool)
    requires
        doc_wf(d),
        doc_fits(d, w1, c1),
        doc_fits(d, w2, c2),
        w1 == 1 || w1 == 2 || w1 == 4 || w1 == 8,
        w2 == 1 || w2 == 2 || w2 == 4 || w2 == 8,
    ensures
        doc_parse_full(doc_enc(d, w1, c1)) == doc_parse_full(doc_enc(d, w2, c2)),
        doc_parse_full(doc_enc(d, w1, c1)) == Some(d),
{
    lemma_doc_roundtrip(d, w1, c1);
    lemma_doc_roundtrip(d, w2, c2);
}

/// Every tree a buffer denotes is well formed: the parse itself checks
/// every string payload.
pub proof fn lemma_doc_parse_wf(s: Seq<u8>)
    requires
        doc_parse(s) is Some,
    ensures
        doc_wf(doc_parse(s)->Some_0),
    decreases s.len(), 0int,
{
    reveal(doc_wf);
    let m = val_parse(s)->Some_0;
    lemma_val_parse_bounds(s);
    match m.payload {
        PayloadModel::Null => {
            if m.has_tags {
                let pairs = obj_parse(m.tags)->Some_0;
                lemma_pair_items_wf(
                    m.tags.subrange(list_head_w(m.tags) as int, m.tags.len() as int),
                    list_head_count(m.tags),
                );
            }
        },
        PayloadModel::String(b) => {
            assert(crate::decoder::string_payload_ok(b));
            assert(valid_utf8(b)) by {
                reveal(crate::decoder::string_payload_ok);
            }
        },
        PayloadModel::List(b) => {
            lemma_arr_items_wf(
                b.subrange(list_head_w(b) as int, b.len() as int),
                list_head_count(b),
            );
        },
        _ => {},
    }
}

/// Every tree in a parsed run of pairs is well formed.
proof fn lemma_pair_items_wf(r: Seq<u8>, n: nat)
    requires
        pair_items_parse(r, n) is Some,
    ensures
        ({
            let out = pair_items_parse(r, n)->Some_0;
            forall|j: int| 0 <= j < out.len() ==> doc_wf(#[trigger] (out[j].1))
        }),
    decreases r.len(), 1int,
{
    reveal(doc_wf);
    let out = pair_items_parse(r, n)->Some_0;
    if n > 0 {
        let rest = r.subrange(tag_sym_len(r) as int, r.len() as int);
        let m = val_parse(rest)->Some_0;
        lemma_val_parse_bounds(rest);
        lemma_doc_parse_wf(rest);
        let tail = pair_items_parse(rest.subrange(m.len as int, rest.len() as int), (n - 1) as nat);
        lemma_pair_items_wf(rest.subrange(m.len as int, rest.len() as int), (n - 1) as nat);
        assert forall|j: int| 0 <= j < out.len() implies doc_wf(#[trigger] (out[j].1)) by {
            if j > 0 {
                assert(out[j].1 == (tail->Some_0)[j - 1].1);
            }
        }
    }
}

/// Every tree in a parsed run of elements is well formed.
proof fn lemma_arr_items_wf(r: Seq<u8>, n: nat)
    requires
        arr_items_parse(r, n) is Some,
    ensures
        ({
            let out = arr_items_parse(r, n)->Some_0;
            forall|j: int| 0 <= j < out.len() ==> doc_wf(#[trigger] out[j])
        }),
    decreases r.len(), 1int,
{
    reveal(doc_wf);
    let out = arr_items_parse(r, n)->Some_0;
    if n > 0 {
        let m = val_parse(r)->Some_0;
        lemma_val_parse_bounds(r);
        lemma_doc_parse_wf(r);
        let tail = arr_items_parse(r.subrange(m.len as int, r.len() as int), (n - 1) as nat);
        lemma_arr_items_wf(r.subrange(m.len as int, r.len() as int), (n - 1) as nat);
        assert forall|j: int| 0 <= j < out.len() implies doc_wf(#[trigger] out[j]) by {
            if j > 0 {
                assert(out[j] == (tail->Some_0)[j - 1]);
            }
        }
    }
}

/// Re-encoding the tree a well-formed buffer denotes gives a well-formed
/// buffer denoting the same tree — in any admissible width and either
/// mode, as long as the tree fits them. Byte identity is not promised: the
/// source buffer may have used wider varints than the encoder picks.
pub proof fn lemma_reencode_view(s: Seq<u8>, w: nat, c: bool)
    requires
        doc_parse_full(s) is Some,
        doc_fits(doc_parse_full(s)->Some_0, w, c),
        w == 1 || w == 2 || w == 4 || w == 8,
    ensures
        wire_wf(doc_enc(doc_parse_full(s)->Some_0, w, c)),
        doc_parse_full(doc_enc(doc_parse_full(s)->Some_0, w, c)) == doc_parse_full(s),
{
    lemma_doc_parse_wf(s);
    lemma_doc_roundtrip(doc_parse_full(s)->Some_0, w, c);
}

} // verus!
