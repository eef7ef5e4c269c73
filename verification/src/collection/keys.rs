//! How a collection lays its documents out as keys.

use crate::bytes::push_bytes;
use crate::collection::scalar::{encoding, escaped, tag_of, Datum};
use vstd::prelude::*;

verus! {

/// Holds a document's record: `DOC id`.
pub const DOC: u8 = 0x11;

/// Indexes metadata: `META field 0 value id`.
pub const META: u8 = 0x12;

/// Indexes text: `TERM term 0 id`.
pub const TERM: u8 = 0x13;

/// Lists the documents: `IDS id`.
pub const IDS: u8 = 0x15;

/// Index-key tag of a presence entry (`META field 0 PRESENT id`); scalar
/// encodings use tags 1..=4, so presence entries sort before every value.
pub const PRESENT: u8 = 0x00;

/// The key of a document's record.
pub open spec fn doc_key(id: Seq<u8>) -> Seq<u8> {
    seq![DOC] + id
}

/// The key that lists a document.
pub open spec fn ids_key(id: Seq<u8>) -> Seq<u8> {
    seq![IDS] + id
}

/// What all index keys of a field start with.
pub open spec fn meta_base(field: Seq<u8>) -> Seq<u8> {
    seq![META] + field + seq![0u8]
}

/// The index key of a document's scalar.
pub open spec fn value_key(field: Seq<u8>, code: Seq<u8>, id: Seq<u8>) -> Seq<u8> {
    meta_base(field) + code + id
}

/// The index key of a document's present field.
pub open spec fn present_key(field: Seq<u8>, id: Seq<u8>) -> Seq<u8> {
    meta_base(field) + seq![PRESENT] + id
}

/// What all postings of a term start with.
pub open spec fn term_base(term: Seq<u8>) -> Seq<u8> {
    seq![TERM] + term + seq![0u8]
}

/// The key of a document's posting.
pub open spec fn term_key(term: Seq<u8>, id: Seq<u8>) -> Seq<u8> {
    term_base(term) + id
}

/// The settings of the collection.
pub open spec fn cfg_key() -> Seq<u8> {
    seq![0x10u8, 0x63u8, 0x66u8, 0x67u8]
}

/// The counters of the collection.
pub open spec fn stats_key() -> Seq<u8> {
    seq![0x10u8, 0x73u8, 0x74u8, 0x61u8, 0x74u8, 0x73u8]
}

/// The mark of a collection that is open.
pub open spec fn open_key() -> Seq<u8> {
    seq![0x10u8, 0x6Fu8, 0x70u8, 0x65u8, 0x6Eu8]
}

/// A tag and what follows it.
pub fn key(tag: u8, rest: &[u8]) -> (k: Vec<u8>)
    ensures
        k@ == seq![tag] + rest@,
{
    let mut k: Vec<u8> = Vec::new();
    k.push(tag);
    push_bytes(&mut k, rest);
    assert(k@ =~= seq![tag] + rest@);
    k
}

/// What all index keys of a field start with.
pub fn meta_prefix(field: &[u8]) -> (k: Vec<u8>)
    ensures
        k@ == meta_base(field@),
{
    let mut k: Vec<u8> = key(META, field);
    k.push(0);
    assert(k@ =~= meta_base(field@));
    k
}

/// What all postings of a term start with.
pub fn term_prefix(term: &[u8]) -> (k: Vec<u8>)
    ensures
        k@ == term_base(term@),
{
    let mut k: Vec<u8> = key(TERM, term);
    k.push(0);
    assert(k@ =~= term_base(term@));
    k
}

/// The key of the counters.
pub fn stats_key_bytes() -> (k: Vec<u8>)
    ensures
        k@ == stats_key(),
{
    let k: Vec<u8> = vec![0x10, 0x73, 0x74, 0x61, 0x74, 0x73];
    assert(k@ =~= stats_key());
    k
}

/// The key of the settings.
pub fn cfg_key_bytes() -> (k: Vec<u8>)
    ensures
        k@ == cfg_key(),
{
    let k: Vec<u8> = vec![0x10, 0x63, 0x66, 0x67];
    assert(k@ =~= cfg_key());
    k
}

/// The key of the mark of a collection that is open.
pub fn open_key_bytes() -> (k: Vec<u8>)
    ensures
        k@ == open_key(),
{
    let k: Vec<u8> = vec![0x10, 0x6F, 0x70, 0x65, 0x6E];
    assert(k@ =~= open_key());
    k
}

// ---- taking keys apart ------------------------------------------------------

/// Where the escaped string that goes on at `i` ends.
pub open spec fn text_end(b: Seq<u8>, i: int) -> Option<int>
    decreases b.len() - i,
{
    if i + 1 >= b.len() || i < 0 {
        None
    } else if b[i] == 0 {
        if b[i + 1] == 1 {
            Some(i + 2)
        } else if b[i + 1] == 0xFF {
            text_end(b, i + 2)
        } else {
            None
        }
    } else {
        text_end(b, i + 1)
    }
}

/// The length of the encoded scalar at the start of `b`.
pub open spec fn code_len(b: Seq<u8>) -> Option<int> {
    if b.len() == 0 {
        None
    } else if b[0] == 1 {
        Some(1)
    } else if b[0] == 2 {
        Some(2)
    } else if b[0] == 3 {
        Some(9)
    } else if b[0] == 4 {
        text_end(b, 1)
    } else {
        None
    }
}

/// Length of the encoded scalar at the start of `bytes`, so the id that
/// follows can be recovered.
pub fn encoded_len(bytes: &[u8]) -> (r: Option<usize>)
    ensures
        match r {
            Some(n) => code_len(bytes@) == Some(n as int),
            None => code_len(bytes@) is None,
        },
{
    if bytes.len() == 0 {
        return None;
    }
    match bytes[0] {
        0x01 => Some(1),
        0x02 => Some(2),
        0x03 => Some(9),
        0x04 => {
            let mut i: usize = 1;
            while i < bytes.len() - 1
                invariant
                    1 <= i <= bytes.len(),
                    bytes.len() > 0,
                    text_end(bytes@, 1) == text_end(bytes@, i as int),
                    bytes@[0] == 4,
                decreases bytes.len() - i,
            {
                if bytes[i] == 0 {
                    match bytes[i + 1] {
                        0x01 => {
                            return Some(i + 2);
                        },
                        0xFF => {
                            i += 2;
                        },
                        _ => {
                            return None;
                        },
                    }
                } else {
                    i += 1;
                }
            }
            None
        },
        _ => None,
    }
}

proof fn lemma_text_end(pre: Seq<u8>, s: Seq<u8>, rest: Seq<u8>)
    ensures
        text_end(pre + escaped(s) + seq![0u8, 1u8] + rest, pre.len() as int) == Some(
            (pre.len() + escaped(s).len() + 2) as int,
        ),
    decreases s.len(),
{
    let b = pre + escaped(s) + seq![0u8, 1u8] + rest;
    if s.len() == 0 {
        assert(b[pre.len() as int] == 0 && b[pre.len() as int + 1] == 1);
    } else {
        let c = if s[0] == 0 {
            seq![0u8, 0xFFu8]
        } else {
            seq![s[0]]
        };
        let longer = pre + c;
        assert(escaped(s) == c + escaped(s.skip(1)));
        lemma_text_end(longer, s.skip(1), rest);
        assert(b =~= longer + escaped(s.skip(1)) + seq![0u8, 1u8] + rest);
        assert(b[pre.len() as int] == c[0]);
        if s[0] == 0 {
            assert(b[pre.len() as int + 1] == 0xFF);
        }
    }
}

proof fn lemma_big_endian_eight(v: nat)
    ensures
        crate::collection::scalar::big_endian(v, 8).len() == 8,
{
    reveal_with_fuel(crate::collection::scalar::big_endian, 9);
}

/// An encoded scalar is taken off the front of a key at its own length.
pub proof fn lemma_code_len(d: Datum, rest: Seq<u8>)
    ensures
        code_len(encoding(d) + rest) == Some(encoding(d).len() as int),
        encoding(d).len() > 0,
        (encoding(d) + rest)[0] == tag_of(d),
{
    match d {
        Datum::Text(s) => {
            lemma_text_end(seq![4u8], s, rest);
            assert(encoding(d) + rest =~= seq![4u8] + escaped(s) + seq![0u8, 1u8] + rest);
        },
        Datum::Number(n) => {
            lemma_big_endian_eight(crate::collection::scalar::sortable(n));
        },
        _ => {},
    }
}

/// A name without NUL ends at the first NUL.
pub proof fn lemma_split_at_nul(f: Seq<u8>, a: Seq<u8>, g: Seq<u8>, b: Seq<u8>)
    requires
        !f.contains(0),
        !g.contains(0),
        f + seq![0u8] + a == g + seq![0u8] + b,
    ensures
        f == g,
        a == b,
{
    let (x, y) = (f + seq![0u8] + a, g + seq![0u8] + b);
    if f.len() < g.len() {
        assert(y[f.len() as int] == g[f.len() as int]);
        assert(x[f.len() as int] == 0);
        assert(g.contains(0));
    }
    if g.len() < f.len() {
        assert(x[g.len() as int] == f[g.len() as int]);
        assert(y[g.len() as int] == 0);
        assert(f.contains(0));
    }
    assert(f =~= x.subrange(0, f.len() as int));
    assert(g =~= y.subrange(0, g.len() as int));
    assert(a =~= x.skip(f.len() as int + 1));
    assert(b =~= y.skip(g.len() as int + 1));
}

/// What follows the last NUL, where the end holds none.
pub proof fn lemma_split_at_last_nul(f: Seq<u8>, a: Seq<u8>, g: Seq<u8>, b: Seq<u8>)
    requires
        !a.contains(0),
        !b.contains(0),
        f + seq![0u8] + a == g + seq![0u8] + b,
    ensures
        f == g,
        a == b,
{
    let (x, y) = (f + seq![0u8] + a, g + seq![0u8] + b);
    assert(x.len() == f.len() + 1 + a.len());
    assert(y.len() == g.len() + 1 + b.len());
    assert(x[f.len() as int] == 0);
    assert(y[g.len() as int] == 0);
    if f.len() < g.len() {
        assert(x[g.len() as int] == a[g.len() - f.len() - 1]);
        assert(y[g.len() as int] == 0);
        assert(a.contains(0));
    }
    if g.len() < f.len() {
        assert(y[f.len() as int] == b[f.len() - g.len() - 1]);
        assert(x[f.len() as int] == 0);
        assert(b.contains(0));
    }
    assert(f =~= x.subrange(0, f.len() as int));
    assert(g =~= y.subrange(0, g.len() as int));
    assert(a =~= x.skip(f.len() as int + 1));
    assert(b =~= y.skip(g.len() as int + 1));
}

} // verus!
