//! The records of a collection as bytes.

use crate::bytes::{
    begins, le32, le64, lemma_sized, lemma_u32_roundtrip, lemma_u64_roundtrip, sized,
};
use crate::collection::mirror::{record_bytes, tail_bytes, text_bytes, Rec};
use vstd::prelude::*;
use vstd::utf8::*;

verus! {

/// A stored document.
#[derive(Debug, PartialEq, Eq)]
pub struct DocRecord {
    /// The metadata as JSON text; empty for none.
    pub metadata: String,
    /// The text.
    pub text: Option<String>,
    /// Whether there is an embedding.
    pub has_vector: bool,
    /// The length in terms.
    pub text_len: u32,
}

impl View for DocRecord {
    type V = Rec;

    open spec fn view(&self) -> Rec {
        Rec {
            metadata: self.metadata@,
            text: match self.text {
                Some(t) => Some(t@),
                None => None,
            },
            has_vector: self.has_vector,
            text_len: self.text_len,
        }
    }
}

/// Collection-wide counters for BM25 and diagnostics.
#[derive(Debug, Clone, Copy, PartialEq, Eq, Structural)]
pub struct Counters {
    /// Documents.
    pub docs: u64,
    /// Documents with text.
    pub text_docs: u64,
    /// Terms in all texts together.
    pub text_terms: u64,
}

/// The counters as bytes.
pub open spec fn counter_bytes(c: Counters) -> Seq<u8> {
    le64(c.docs) + le64(c.text_docs) + le64(c.text_terms)
}

/// Calls `bincode::serialize` on a record's fields in order: fixed-width
/// little-endian integers, strings behind their length, an option behind a
/// mark byte. Nothing in them can fail to serialize.
#[verifier::external_body]
pub(crate) fn encode_record(r: &DocRecord) -> (b: Option<Vec<u8>>)
    ensures
        b is Some,
        b->0@ == record_bytes(r@),
{
    bincode::serialize(&(&r.metadata, &r.text, r.has_vector, r.text_len)).ok()
}

/// Calls `bincode::deserialize` for a record's fields in order, which reads
/// what `bincode::serialize` writes and leaves any bytes behind it alone.
#[verifier::external_body]
pub(crate) fn decode_record(b: &[u8]) -> (r: Option<DocRecord>)
    ensures
        match r {
            Some(d) => begins(b@, record_bytes(d@)),
            None => forall|rec: Rec| !begins(b@, #[trigger] record_bytes(rec)),
        },
{
    match bincode::deserialize::<(String, Option<String>, bool, u32)>(b) {
        Ok((metadata, text, has_vector, text_len)) => Some(
            DocRecord { metadata, text, has_vector, text_len },
        ),
        Err(_) => None,
    }
}

/// Calls `bincode::serialize` on the three counters: eight little-endian bytes
/// each. Nothing in them can fail to serialize.
#[verifier::external_body]
pub(crate) fn encode_counters(c: Counters) -> (b: Option<Vec<u8>>)
    ensures
        b is Some,
        b->0@ == counter_bytes(c),
{
    bincode::serialize(&(c.docs, c.text_docs, c.text_terms)).ok()
}

/// Calls `bincode::deserialize` for three counters, which needs twenty-four
/// bytes and leaves any behind them alone.
#[verifier::external_body]
pub(crate) fn decode_counters(b: &[u8]) -> (r: Option<Counters>)
    ensures
        match r {
            Some(c) => begins(b@, counter_bytes(c)),
            None => forall|c: Counters| !begins(b@, #[trigger] counter_bytes(c)),
        },
{
    match bincode::deserialize::<(u64, u64, u64)>(b) {
        Ok((docs, text_docs, text_terms)) => Some(Counters { docs, text_docs, text_terms }),
        Err(_) => None,
    }
}

/// Different texts have different UTF-8.
pub proof fn lemma_utf8_injective(a: Seq<char>, b: Seq<char>)
    requires
        encode_utf8(a) == encode_utf8(b),
    ensures
        a == b,
{
    encode_utf8_decode_utf8(a);
    encode_utf8_decode_utf8(b);
}

proof fn lemma_tail(v: bool, m: u32, x: Seq<u8>, w: bool, n: u32, y: Seq<u8>)
    requires
        tail_bytes(v, m) + x == tail_bytes(w, n) + y,
    ensures
        v == w,
        m == n,
{
    let (s, t) = (tail_bytes(v, m) + x, tail_bytes(w, n) + y);
    assert(s[0] == tail_bytes(v, m)[0]);
    assert(t[0] == tail_bytes(w, n)[0]);
    assert(s.subrange(1, 5) =~= le32(m));
    assert(t.subrange(1, 5) =~= le32(n));
    lemma_u32_roundtrip(s, 1, m);
    lemma_u32_roundtrip(t, 1, n);
}

proof fn lemma_text(a: Option<Seq<char>>, x: Seq<u8>, b: Option<Seq<char>>, y: Seq<u8>)
    requires
        text_bytes(a) + x == text_bytes(b) + y,
        a is Some ==> encode_utf8(a->0).len() <= u64::MAX,
        b is Some ==> encode_utf8(b->0).len() <= u64::MAX,
    ensures
        a == b,
        x == y,
{
    let (s, t) = (text_bytes(a) + x, text_bytes(b) + y);
    assert(s[0] == text_bytes(a)[0]);
    assert(t[0] == text_bytes(b)[0]);
    match (a, b) {
        (Some(c), Some(d)) => {
            assert(s.skip(1) =~= sized(encode_utf8(c)) + x);
            assert(t.skip(1) =~= sized(encode_utf8(d)) + y);
            lemma_sized(encode_utf8(c), x, encode_utf8(d), y);
            lemma_utf8_injective(c, d);
        },
        _ => {
            assert(s.skip(1) =~= x);
            assert(t.skip(1) =~= y);
        },
    }
}

proof fn lemma_regroup(p: Seq<u8>, q: Seq<u8>, r: Seq<u8>, x: Seq<u8>)
    ensures
        p + q + r + x == p + (q + (r + x)),
{
    assert(p + q + r + x =~= p + (q + (r + x)));
}

/// A record is read back from its bytes, whatever follows them.
pub proof fn law_record_bytes_are_readable(a: Rec, x: Seq<u8>, b: Rec, y: Seq<u8>)
    requires
        record_bytes(a) + x == record_bytes(b) + y,
        encode_utf8(a.metadata).len() <= u64::MAX,
        encode_utf8(b.metadata).len() <= u64::MAX,
        a.text is Some ==> encode_utf8(a.text->0).len() <= u64::MAX,
        b.text is Some ==> encode_utf8(b.text->0).len() <= u64::MAX,
    ensures
        a == b,
{
    let (ma, mb) = (encode_utf8(a.metadata), encode_utf8(b.metadata));
    let ta = tail_bytes(a.has_vector, a.text_len) + x;
    let tb = tail_bytes(b.has_vector, b.text_len) + y;
    lemma_regroup(sized(ma), text_bytes(a.text), tail_bytes(a.has_vector, a.text_len), x);
    lemma_regroup(sized(mb), text_bytes(b.text), tail_bytes(b.has_vector, b.text_len), y);
    lemma_sized(ma, text_bytes(a.text) + ta, mb, text_bytes(b.text) + tb);
    lemma_utf8_injective(a.metadata, b.metadata);
    lemma_text(a.text, ta, b.text, tb);
    lemma_tail(a.has_vector, a.text_len, x, b.has_vector, b.text_len, y);
}

/// The counters are read back from their bytes, whatever follows them.
pub proof fn law_counter_bytes_are_readable(a: Counters, x: Seq<u8>, b: Counters, y: Seq<u8>)
    requires
        counter_bytes(a) + x == counter_bytes(b) + y,
    ensures
        a == b,
{
    let (s, t) = (counter_bytes(a) + x, counter_bytes(b) + y);
    assert(s.subrange(0, 8) =~= le64(a.docs));
    assert(s.subrange(8, 16) =~= le64(a.text_docs));
    assert(s.subrange(16, 24) =~= le64(a.text_terms));
    assert(t.subrange(0, 8) =~= le64(b.docs));
    assert(t.subrange(8, 16) =~= le64(b.text_docs));
    assert(t.subrange(16, 24) =~= le64(b.text_terms));
    lemma_u64_roundtrip(s, 0, a.docs);
    lemma_u64_roundtrip(s, 8, a.text_docs);
    lemma_u64_roundtrip(s, 16, a.text_terms);
    lemma_u64_roundtrip(t, 0, b.docs);
    lemma_u64_roundtrip(t, 8, b.text_docs);
    lemma_u64_roundtrip(t, 16, b.text_terms);
}

} // verus!
