//! Storing documents and keeping their index.

use crate::bytes::{begins, copy_bytes, le32, push_bytes, push_u32};
use crate::collection::flatten::{
    can_index, contributes, flatten, has_place, paths_of, place, placed, values_of,
    Flattened,
};
use crate::collection::keys::{
    doc_key, ids_key, key, meta_prefix, present_key, stats_key, stats_key_bytes, term_key,
    term_prefix, value_key, DOC, IDS, PRESENT,
};
use crate::collection::mirror::{
    all_writable, cleared, control_at, doc_events, id_ok, index_owned, is_posting, is_present_key,
    is_term_key, is_value_key, laid, lemma_holds_key, lemma_key_tags, lemma_own_writable_kept,
    lemma_owner, lemma_owns_one, lemma_replaced, lemma_term_key_id, mirrors, own_writable, owns,
    posting, record_bytes, short_keys, Doc, Rec, MAX_DOCUMENT_BYTES, MAX_ID_LEN, MAX_INDEXED_VALUES,
};
use crate::collection::places::{
    holds_record, lemma_cleared_stay, lemma_laid_stay, of_id, others_stay, record_key, same_at,
};
use crate::collection::records::{
    counter_bytes, decode_counters, decode_record, encode_record, law_counter_bytes_are_readable,
    law_record_bytes_are_readable, Counters, DocRecord,
};
use crate::collection::scalar::encoding;
use crate::collection::text::{
    clean, counts_terms, occurrences, term_frequencies, terms_of, wrapped, TermFrequencies,
};
use crate::error::Error;
use crate::json::{comes_back, compact, distinct_keys, json_text, json_tree, utf8, Json, Tree};
use crate::ordered::{byte_lists, lemma_push_to_set, Store};
use crate::page::MAX_KEY_SIZE;
use vstd::prelude::*;
use vstd::utf8::*;

verus! {

/// One document.
#[derive(Debug, PartialEq, Eq)]
pub struct Document {
    /// Unique id, 1..=128 bytes of UTF-8 without control characters.
    pub id: String,
    /// Text for full-text search (and for returning to the caller).
    pub text: Option<String>,
    /// JSON object (or `null`) for filtering and returning.
    pub metadata: Json,
    /// Embedding: the bits of exactly `dim` finite single-precision numbers.
    pub vector: Option<Vec<u32>>,
}

/// Persisted layout.
#[derive(Debug, Clone, Copy, PartialEq, Eq, Structural)]
pub struct Config {
    /// The version of the layout.
    pub version: u32,
    /// Embedding dimensionality; `0` for a collection without vectors.
    pub dim: usize,
    /// The code of the vector metric.
    pub metric: u8,
    /// Whether the full-text index is kept.
    pub text_index: bool,
}

// ---- validation -------------------------------------------------------------

/// Validates a document id.
pub fn validate_id(id: &str) -> (r: Result<(), Error>)
    ensures
        match r {
            Ok(_) => id_ok(encode_utf8(id@)),
            Err(e) => e is InvalidArgument && !id_ok(encode_utf8(id@)),
        },
{
    let b: &[u8] = id.as_bytes();
    if b.len() == 0 || b.len() > MAX_ID_LEN {
        return Err(Error::invalid("document id must be 1..=128 bytes"));
    }
    let mut i: usize = 0;
    while i < b.len()
        invariant
            i <= b@.len(),
            b@ == encode_utf8(id@),
            b@.len() <= MAX_ID_LEN,
            forall|j: int|
                0 <= j < i ==> !#[trigger] control_at(b@, j),
        decreases b@.len() - i,
    {
        let c: u8 = b[i];
        if c < 0x20 || c == 0x7F || (c == 0xC2 && i + 1 < b.len() && 0x80 <= b[i + 1] && b[i + 1]
            <= 0x9F) {
            assert(control_at(b@, i as int));
            return Err(Error::invalid("document id must not contain control characters"));
        }
        i += 1;
    }
    Ok(())
}

/// Whether the bits are those of a finite single-precision number.
pub open spec fn single_finite(bits: u32) -> bool {
    bits % 0x8000_0000 < 0x7F80_0000
}

/// Whether an embedding fits a collection of `dim` dimensions.
pub open spec fn vector_ok(v: Seq<u32>, dim: int) -> bool {
    v.len() == dim && forall|i: int| 0 <= i < v.len() ==> single_finite(#[trigger] v[i])
}

/// Validates an embedding.
pub fn validate_vector(v: &Vec<u32>, dim: usize) -> (r: Result<(), Error>)
    ensures
        match r {
            Ok(_) => vector_ok(v@, dim as int),
            Err(e) => e is InvalidArgument && !vector_ok(v@, dim as int),
        },
{
    if v.len() != dim {
        return Err(Error::invalid("the vector has the wrong number of dimensions"));
    }
    let mut i: usize = 0;
    while i < v.len()
        invariant
            i <= v@.len(),
            v@.len() == dim,
            forall|j: int| 0 <= j < i ==> single_finite(#[trigger] v@[j]),
        decreases v@.len() - i,
    {
        if v[i] % 0x8000_0000 >= 0x7F80_0000 {
            return Err(Error::invalid("the vector holds a number that is not finite"));
        }
        i += 1;
    }
    Ok(())
}

/// The metadata that a stored text stands for.
pub open spec fn meta_tree(text: Seq<char>) -> Tree {
    if text.len() == 0 {
        Tree::Null
    } else {
        match json_tree(encode_utf8(text)) {
            Some(t) => t,
            None => Tree::Null,
        }
    }
}

/// The metadata that a stored text stands for; `null` where it is no JSON.
pub fn parse_metadata(text: &str) -> (j: Json)
    ensures
        j@ == meta_tree(text@),
        distinct_keys(j@),
{
    if text.is_empty() {
        Json::Null
    } else {
        match Json::from_text(text) {
            Some(j) => j,
            None => Json::Null,
        }
    }
}

/// The record that a document is stored as.
pub open spec fn record_of(d: Document, ti: bool) -> Rec {
    Rec {
        metadata: if d.metadata@ is Null {
            Seq::empty()
        } else {
            compact(d.metadata@)
        },
        text: match d.text {
            Some(t) => Some(t@),
            None => None,
        },
        has_vector: d.vector is Some,
        text_len: if ti && d.text is Some {
            wrapped(terms_of(d.text->0@).len())
        } else {
            0
        },
    }
}

/// What a document becomes in a collection.
pub open spec fn doc_of(d: Document, ti: bool) -> Doc {
    Doc { record: record_of(d, ti), tree: d.metadata@ }
}

/// Whether a collection accepts a document.
pub open spec fn accepted(d: Document, config: Config) -> bool {
    &&& id_ok(utf8(d.id))
    &&& d.metadata@ is Null || d.metadata@ is Object
    &&& can_index(d.metadata@, MAX_INDEXED_VALUES as int)
    &&& d.vector is Some ==> config.dim > 0 && vector_ok(d.vector->0@, config.dim as int)
    &&& record_bytes(record_of(d, config.text_index)).len() <= MAX_DOCUMENT_BYTES
    &&& short_keys(doc_of(d, config.text_index), utf8(d.id))
}

/// A document ready to be stored.
pub(crate) struct Prepared {
    pub flat: Flattened,
    pub terms: Option<TermFrequencies>,
    pub record: DocRecord,
    pub encoded: Vec<u8>,
}

/// `p` holds what is stored of `d`.
pub(crate) open spec fn prepared(p: Prepared, d: Doc, ti: bool) -> bool {
    &&& contributes(p.flat, d.tree)
    &&& p.record@ == d.record
    &&& p.encoded@ == record_bytes(d.record)
    &&& p.terms is Some == (ti && d.record.text is Some)
    &&& p.terms is Some ==> counts_terms(p.terms->0, terms_of(d.record.text->0)) && clean(
        terms_of(d.record.text->0),
    )
}

/// Checks a document and works out what is stored of it.
pub(crate) fn prepare(doc: &Document, config: Config) -> (r: Result<Prepared, Error>)
    ensures
        match r {
            Ok(p) => accepted(*doc, config) && prepared(
                p,
                doc_of(*doc, config.text_index),
                config.text_index,
            ) && (faithful(*doc) ==> reread(*doc)),
            Err(e) => e is InvalidArgument && !accepted(*doc, config),
        },
{
    match validate_id(doc.id.as_str()) {
        Ok(_) => {},
        Err(e) => {
            return Err(e);
        },
    }
    match &doc.metadata {
        Json::Null => {},
        Json::Object(_) => {},
        _ => {
            return Err(Error::invalid("metadata must be a JSON object or null"));
        },
    }
    let flat: Flattened = match flatten(&doc.metadata, MAX_INDEXED_VALUES) {
        Ok(f) => f,
        Err(e) => {
            return Err(e);
        },
    };
    let ghost d = doc_of(*doc, config.text_index);
    if !fits_keys(&flat, doc.id.as_str().as_bytes(), Ghost(d)) {
        return Err(Error::invalid("a field is too long to be indexed"));
    }
    match &doc.vector {
        Some(v) => {
            if config.dim == 0 {
                return Err(
                    Error::invalid("this collection has no vectors (it was created with dim 0)"),
                );
            }
            match validate_vector(v, config.dim) {
                Ok(_) => {},
                Err(e) => {
                    return Err(e);
                },
            }
        },
        None => {},
    }
    let metadata: String = match &doc.metadata {
        Json::Null => String::new(),
        _ => json_text(&doc.metadata),
    };
    let terms: Option<TermFrequencies> = match &doc.text {
        Some(t) => if config.text_index {
            Some(term_frequencies(t.as_str()))
        } else {
            None
        },
        None => None,
    };
    let text_len: u32 = match &terms {
        Some(f) => f.len,
        None => 0,
    };
    let text: Option<String> = match &doc.text {
        Some(t) => Some(t.clone()),
        None => None,
    };
    let record: DocRecord = DocRecord {
        metadata,
        text,
        has_vector: doc.vector.is_some(),
        text_len,
    };
    assert(record@ == record_of(*doc, config.text_index));
    match encode_record(&record) {
        Some(encoded) => {
            if encoded.len() > MAX_DOCUMENT_BYTES {
                return Err(Error::invalid("the document is too large"));
            }
            Ok(Prepared { flat, terms, record, encoded })
        },
        None => Err(Error::invalid("the document cannot be encoded")),
    }
}

// ---- index keys -------------------------------------------------------------

/// Metadata index keys for one document.
fn index_keys(flat: &Flattened, id: &[u8], Ghost(d): Ghost<Doc>) -> (keys: Vec<Vec<u8>>)
    requires
        contributes(*flat, d.tree),
    ensures
        forall|k: Seq<u8>| #[trigger]
            byte_lists(keys@).contains(k) == (is_value_key(d, id@, k) || is_present_key(
                d,
                id@,
                k,
            )),
{
    let mut keys: Vec<Vec<u8>> = Vec::new();
    let ghost vs = placed(flat.values@);
    let mut i: usize = 0;
    while i < flat.values.len()
        invariant
            i <= flat.values@.len(),
            vs == placed(flat.values@),
            forall|k: Seq<u8>| #[trigger]
                byte_lists(keys@).contains(k) == exists|j: int|
                    0 <= j < i && k == value_key(
                        (#[trigger] vs[j]).0,
                        encoding(vs[j].1),
                        id@,
                    ),
        decreases flat.values@.len() - i,
    {
        let ghost was = byte_lists(keys@);
        assert(vs[i as int] == (flat.values@[i as int].0@, flat.values@[i as int].1@));
        let mut k: Vec<u8> = meta_prefix(flat.values[i].0.as_slice());
        let code: Vec<u8> = flat.values[i].1.encode();
        push_bytes(&mut k, code.as_slice());
        push_bytes(&mut k, id);
        let ghost one = k@;
        assert(one == value_key(vs[i as int].0, encoding(vs[i as int].1), id@));
        keys.push(k);
        proof {
            assert(byte_lists(keys@) =~= was.push(one));
            assert forall|x: Seq<u8>| #[trigger]
                byte_lists(keys@).contains(x) == exists|j: int|
                    0 <= j < i + 1 && x == value_key(
                        (#[trigger] vs[j]).0,
                        encoding(vs[j].1),
                        id@,
                    ) by {
                lemma_push_contains(was, one, x);
                if was.contains(x) {
                    let j = choose|j: int|
                        0 <= j < i && x == value_key((#[trigger] vs[j]).0, encoding(vs[j].1), id@);
                }
            }
        }
        i += 1;
    }
    let ghost all = values_of(doc_events(d));
    proof {
        assert forall|k: Seq<u8>| #[trigger] byte_lists(keys@).contains(k) == is_value_key(
            d,
            id@,
            k,
        ) by {
            if byte_lists(keys@).contains(k) {
                let j = choose|j: int|
                    0 <= j < vs.len() && k == value_key(
                        (#[trigger] vs[j]).0,
                        encoding(vs[j].1),
                        id@,
                    );
                let p = place(vs[j]);
                assert(has_place(vs, p));
                assert(has_place(all, p));
            }
            if is_value_key(d, id@, k) {
                let p = choose|p: (Seq<u8>, Seq<u8>)| #[trigger]
                    has_place(all, p) && k == value_key(p.0, p.1, id@);
                assert(has_place(vs, p));
                let j = choose|j: int| 0 <= j < vs.len() && place(#[trigger] vs[j]) == p;
                assert(k == value_key(vs[j].0, encoding(vs[j].1), id@));
            }
        }
    }
    let ghost ps = byte_lists(flat.present.items@);
    let ghost values = byte_lists(keys@);
    i = 0;
    while i < flat.present.items.len()
        invariant
            i <= flat.present.items@.len(),
            ps == byte_lists(flat.present.items@),
            forall|k: Seq<u8>| #[trigger]
                byte_lists(keys@).contains(k) == (values.contains(k) || exists|j: int|
                    0 <= j < i && k == present_key(#[trigger] ps[j], id@)),
        decreases flat.present.items@.len() - i,
    {
        let ghost was = byte_lists(keys@);
        assert(ps[i as int] == flat.present.items@[i as int]@);
        let mut k: Vec<u8> = meta_prefix(flat.present.items[i].as_slice());
        k.push(PRESENT);
        push_bytes(&mut k, id);
        let ghost one = k@;
        assert(one =~= present_key(ps[i as int], id@));
        keys.push(k);
        proof {
            assert(byte_lists(keys@) =~= was.push(one));
            assert forall|x: Seq<u8>| #[trigger]
                byte_lists(keys@).contains(x) == (values.contains(x) || exists|j: int|
                    0 <= j < i + 1 && x == present_key(#[trigger] ps[j], id@)) by {
                lemma_push_contains(was, one, x);
                assert(was.contains(x) == (values.contains(x) || exists|j: int|
                    0 <= j < i && x == present_key(#[trigger] ps[j], id@)));
            }
        }
        i += 1;
    }
    proof {
        assert forall|k: Seq<u8>| #[trigger] byte_lists(keys@).contains(k) == (is_value_key(
            d,
            id@,
            k,
        ) || is_present_key(d, id@, k)) by {
            assert(values.contains(k) == is_value_key(d, id@, k));
            if exists|j: int| 0 <= j < ps.len() && k == present_key(#[trigger] ps[j], id@) {
                let j = choose|j: int| 0 <= j < ps.len() && k == present_key(#[trigger] ps[j], id@);
                assert(ps.to_set().contains(ps[j]));
                assert(paths_of(doc_events(d)).contains(ps[j]));
            }
            if is_present_key(d, id@, k) {
                let p = choose|p: Seq<u8>| #[trigger]
                    paths_of(doc_events(d)).contains(p) && k == present_key(p, id@);
                assert(ps.to_set().contains(p));
                let j = choose|j: int| 0 <= j < ps.len() && ps[j] == p;
                assert(k == present_key(ps[j], id@));
            }
        }
    }
    keys
}

pub proof fn lemma_push_contains(s: Seq<Seq<u8>>, k: Seq<u8>, x: Seq<u8>)
    ensures
        s.push(k).contains(x) == (s.contains(x) || x == k),
{
    lemma_push_to_set(s, k);
    assert(s.push(k).to_set().contains(x) == s.to_set().insert(k).contains(x));
}

/// Takes the keys away.
fn remove_keys(store: &mut Store, keys: &Vec<Vec<u8>>)
    requires
        old(store).wf(),
    ensures
        final(store).wf(),
        final(store)@ == old(store)@.remove_keys(byte_lists(keys@).to_set()),
{
    let ghost all = byte_lists(keys@);
    let mut i: usize = 0;
    assert(store@ =~= old(store)@.remove_keys(all.subrange(0, 0).to_set()));
    while i < keys.len()
        invariant
            i <= keys@.len(),
            all == byte_lists(keys@),
            store.wf(),
            store@ == old(store)@.remove_keys(all.subrange(0, i as int).to_set()),
        decreases keys@.len() - i,
    {
        assert(all[i as int] == keys@[i as int]@);
        store.remove(keys[i].as_slice());
        proof {
            assert(all.subrange(0, i + 1) =~= all.subrange(0, i as int).push(all[i as int]));
            lemma_push_to_set(all.subrange(0, i as int), all[i as int]);
        }
        i += 1;
        assert(store@ =~= old(store)@.remove_keys(all.subrange(0, i as int).to_set()));
    }
    assert(all.subrange(0, i as int) =~= all);
}

/// Every key of the set with an empty value.
spec fn blanks(keys: Set<Seq<u8>>) -> Map<Seq<u8>, Seq<u8>> {
    Map::new(|k: Seq<u8>| keys.contains(k), |k: Seq<u8>| Seq::empty())
}

/// Adds the keys, with empty values.
fn insert_keys(store: &mut Store, keys: &Vec<Vec<u8>>)
    requires
        old(store).wf(),
    ensures
        final(store).wf(),
        final(store)@ == old(store)@.union_prefer_right(blanks(byte_lists(keys@).to_set())),
{
    let ghost all = byte_lists(keys@);
    let mut i: usize = 0;
    assert(store@ =~= old(store)@.union_prefer_right(blanks(all.subrange(0, 0).to_set())));
    while i < keys.len()
        invariant
            i <= keys@.len(),
            all == byte_lists(keys@),
            store.wf(),
            store@ == old(store)@.union_prefer_right(blanks(all.subrange(0, i as int).to_set())),
        decreases keys@.len() - i,
    {
        assert(all[i as int] == keys@[i as int]@);
        let none: Vec<u8> = Vec::new();
        assert(none@ =~= Seq::empty());
        store.insert(copy_bytes(keys[i].as_slice()), none);
        proof {
            assert(all.subrange(0, i + 1) =~= all.subrange(0, i as int).push(all[i as int]));
            lemma_push_to_set(all.subrange(0, i as int), all[i as int]);
        }
        i += 1;
        assert(store@ =~= old(store)@.union_prefer_right(
            blanks(all.subrange(0, i as int).to_set()),
        ));
    }
    assert(all.subrange(0, i as int) =~= all);
}

/// The posting keys of a document's terms.
fn posting_keys(f: &TermFrequencies, id: &[u8]) -> (keys: Vec<Vec<u8>>)
    ensures
        keys@.len() == f.terms@.len(),
        forall|i: int|
            0 <= i < keys@.len() ==> (#[trigger] keys@[i])@ == term_key(f.terms@[i]@, id@),
{
    let mut keys: Vec<Vec<u8>> = Vec::new();
    let mut i: usize = 0;
    while i < f.terms.len()
        invariant
            i <= f.terms@.len(),
            keys@.len() == i,
            forall|j: int|
                0 <= j < i ==> (#[trigger] keys@[j])@ == term_key(f.terms@[j]@, id@),
        decreases f.terms@.len() - i,
    {
        let mut k: Vec<u8> = term_prefix(f.terms[i].as_slice());
        push_bytes(&mut k, id);
        assert(k@ == term_key(f.terms@[i as int]@, id@));
        keys.push(k);
        i += 1;
    }
    keys
}

/// A posting as bytes.
fn posting_bytes(count: u32, len: u32) -> (v: Vec<u8>)
    ensures
        v@ == le32(count) + le32(len),
{
    let mut v: Vec<u8> = Vec::new();
    push_u32(&mut v, count);
    push_u32(&mut v, len);
    assert(v@ =~= le32(count) + le32(len));
    v
}


/// A term that the frequencies list is one of the text's, and the other way
/// round.
proof fn lemma_listed_terms(f: TermFrequencies, ts: Seq<Seq<u8>>, t: Seq<u8>)
    requires
        counts_terms(f, ts),
    ensures
        ts.contains(t) == exists|i: int| 0 <= i < f.terms@.len() && (#[trigger] f.terms@[i])@ == t,
{
    let all = byte_lists(f.terms@);
    assert(all.to_set().contains(t) == ts.to_set().contains(t));
    if all.contains(t) {
        let i = choose|i: int| 0 <= i < all.len() && all[i] == t;
        assert(f.terms@[i]@ == t);
    }
    if exists|i: int| 0 <= i < f.terms@.len() && (#[trigger] f.terms@[i])@ == t {
        let i = choose|i: int| 0 <= i < f.terms@.len() && (#[trigger] f.terms@[i])@ == t;
        assert(all[i] == t);
    }
}

/// Adds a document's postings.
fn put_postings(
    store: &mut Store,
    f: &TermFrequencies,
    id: &[u8],
    len: u32,
    Ghost(d): Ghost<Doc>,
)
    requires
        old(store).wf(),
        d.record.text is Some,
        d.record.text_len == len,
        counts_terms(*f, terms_of(d.record.text->0)),
        id_ok(id@),
    ensures
        final(store).wf(),
        forall|k: Seq<u8>, v: Seq<u8>| #[trigger]
            is_posting(d, id@, k, v) ==> final(store)@.contains_key(k) && final(store)@[k] == v,
        forall|k: Seq<u8>| #[trigger]
            final(store)@.contains_key(k) ==> (old(store)@.contains_key(k) && final(store)@[k]
                == old(store)@[k]) || is_posting(d, id@, k, final(store)@[k]),
        forall|k: Seq<u8>| #[trigger]
            old(store)@.contains_key(k) ==> final(store)@.contains_key(k),
{
    let keys: Vec<Vec<u8>> = posting_keys(f, id);
    let ghost ts = terms_of(d.record.text->0);
    let mut i: usize = 0;
    while i < keys.len()
        invariant
            i <= keys@.len(),
            keys@.len() == f.terms@.len(),
            f.counts@.len() == f.terms@.len(),
            store.wf(),
            d.record.text is Some,
            d.record.text_len == len,
            ts == terms_of(d.record.text->0),
            counts_terms(*f, ts),
            id_ok(id@),
            forall|j: int|
                0 <= j < keys@.len() ==> (#[trigger] keys@[j])@ == term_key(f.terms@[j]@, id@),
            forall|j: int|
                0 <= j < i ==> store@.contains_key((#[trigger] keys@[j])@) && store@[keys@[j]@]
                    == posting(occurrences(ts, f.terms@[j]@), len),
            forall|k: Seq<u8>| #[trigger]
                store@.contains_key(k) ==> (old(store)@.contains_key(k) && store@[k] == old(
                    store,
                )@[k]) || is_posting(d, id@, k, store@[k]),
            forall|k: Seq<u8>| #[trigger] old(store)@.contains_key(k) ==> store@.contains_key(k),
        decreases keys@.len() - i,
    {
        let v: Vec<u8> = posting_bytes(f.counts[i], len);
        let ghost (k, t) = (keys@[i as int]@, f.terms@[i as int]@);
        let ghost before = store@;
        let ghost value = v@;
        proof {
            lemma_listed_terms(*f, ts, t);
            assert(ts.contains(t));
            assert(f.counts@[i as int] == wrapped(occurrences(ts, t)));
            assert(value == posting(occurrences(ts, t), len));
            assert(is_posting(d, id@, k, value));
        }
        store.insert(copy_bytes(keys[i].as_slice()), v);
        proof {
            assert forall|j: int| 0 <= j < i + 1 implies store@.contains_key(
                (#[trigger] keys@[j])@,
            ) && store@[keys@[j]@] == posting(occurrences(ts, f.terms@[j]@), len) by {
                if keys@[j]@ == k {
                    lemma_term_key_id(f.terms@[j]@, id@, t, id@);
                }
            }
        }
        i += 1;
    }
    proof {
        assert forall|k: Seq<u8>, v: Seq<u8>| #[trigger] is_posting(d, id@, k, v) implies store@.contains_key(
            k,
        ) && store@[k] == v by {
            let t = choose|t: Seq<u8>| #[trigger]
                ts.contains(t) && k == term_key(t, id@) && v == posting(
                    occurrences(ts, t),
                    d.record.text_len,
                );
            lemma_listed_terms(*f, ts, t);
            let j = choose|j: int| 0 <= j < f.terms@.len() && (#[trigger] f.terms@[j])@ == t;
            assert(keys@[j]@ == k);
        }
    }
}

/// Stores what a document owns.
fn put(store: &mut Store, id: &[u8], p: &Prepared, Ghost(d): Ghost<Doc>, Ghost(ti): Ghost<bool>)
    requires
        old(store).wf(),
        prepared(*p, d, ti),
        id_ok(id@),
    ensures
        final(store).wf(),
        laid(old(store)@, final(store)@, d, id@, ti),
{
    let ghost m = store@;
    store.insert(key(DOC, id), copy_bytes(p.encoded.as_slice()));
    let none: Vec<u8> = Vec::new();
    assert(none@ =~= Seq::empty());
    store.insert(key(IDS, id), none);
    let keys: Vec<Vec<u8>> = index_keys(&p.flat, id, Ghost(d));
    let ghost before = store@;
    insert_keys(store, &keys);
    let ghost between = store@;
    let ghost ks = byte_lists(keys@).to_set();
    match &p.terms {
        Some(f) => {
            put_postings(store, f, id, p.record.text_len, Ghost(d));
        },
        None => {},
    }
    proof {
        let n = store@;
        assert forall|k: Seq<u8>| ks.contains(k) == (is_value_key(d, id@, k) || is_present_key(
            d,
            id@,
            k,
        )) by {
            assert(byte_lists(keys@).contains(k) == ks.contains(k));
        }
        assert forall|k: Seq<u8>| #[trigger] n.contains_key(k) implies (m.contains_key(k) && n[k]
            == m[k]) || owns(d, id@, ti, k, n[k]) by {
            if !(ti && is_posting(d, id@, k, n[k])) {
                assert(between.contains_key(k) && n[k] == between[k]);
            }
        }
        assert forall|k: Seq<u8>, v: Seq<u8>| #[trigger] owns(d, id@, ti, k, v) implies n.contains_key(
            k,
        ) && n[k] == v by {
            if !(ti && is_posting(d, id@, k, v)) {
                assert(between.contains_key(k));
                assert(n.contains_key(k));
                if ti && is_posting(d, id@, k, n[k]) {
                    assert(owns(d, id@, ti, k, n[k]));
                    lemma_owns_one(d, id@, ti, k, n[k], v);
                } else {
                    assert(n[k] == between[k]);
                    lemma_key_tags(d, id@, k, v);
                    lemma_key_tags(d, id@, k, n[k]);
                    if ks.contains(k) {
                        assert(v =~= Seq::empty());
                    } else {
                        assert(between[k] == before[k]);
                        assert(doc_key(id@) != ids_key(id@)) by {
                            assert(doc_key(id@)[0] == DOC);
                            assert(ids_key(id@)[0] == IDS);
                        }
                        if k == ids_key(id@) {
                            assert(v =~= Seq::empty());
                        }
                    }
                }
            }
        }
        assert forall|k: Seq<u8>| #[trigger] m.contains_key(k) implies n.contains_key(k) by {
            assert(between.contains_key(k));
        }
    }
}

/// The counters without a document.
pub open spec fn uncounted(c: Counters, r: Rec) -> Counters {
    let texts = r.text is Some;
    Counters {
        docs: if c.docs > 0 {
            (c.docs - 1) as u64
        } else {
            0
        },
        text_docs: if texts && c.text_docs > 0 {
            (c.text_docs - 1) as u64
        } else {
            c.text_docs
        },
        text_terms: if !texts {
            c.text_terms
        } else if c.text_terms > r.text_len {
            (c.text_terms - r.text_len) as u64
        } else {
            0
        },
    }
}

/// The counters with one more document.
pub open spec fn counted_in(c: Counters, r: Rec) -> Counters {
    Counters {
        docs: (c.docs + 1) as u64,
        text_docs: if r.text is Some {
            (c.text_docs + 1) as u64
        } else {
            c.text_docs
        },
        text_terms: if r.text is Some {
            (c.text_terms + r.text_len) as u64
        } else {
            c.text_terms
        },
    }
}

/// Whether the index keys of a document's metadata can be written.
fn fits_keys(flat: &Flattened, id: &[u8], Ghost(d): Ghost<Doc>) -> (r: bool)
    requires
        contributes(*flat, d.tree),
    ensures
        r == short_keys(d, id@),
{
    let keys: Vec<Vec<u8>> = index_keys(flat, id, Ghost(d));
    let ghost all = byte_lists(keys@);
    let mut i: usize = 0;
    while i < keys.len()
        invariant
            i <= keys@.len(),
            all == byte_lists(keys@),
            forall|k: Seq<u8>| #[trigger]
                all.contains(k) == (is_value_key(d, id@, k) || is_present_key(d, id@, k)),
            forall|j: int| 0 <= j < i ==> (#[trigger] all[j]).len() <= MAX_KEY_SIZE,
        decreases keys@.len() - i,
    {
        assert(all[i as int] == keys@[i as int]@);
        if keys[i].len() > MAX_KEY_SIZE {
            assert(all.contains(all[i as int]));
            return false;
        }
        i += 1;
    }
    assert forall|k: Seq<u8>| #[trigger] all.contains(k) implies k.len() <= MAX_KEY_SIZE by {
        let j = choose|j: int| 0 <= j < all.len() && all[j] == k;
    }
    assert forall|k: Seq<u8>| #[trigger] is_value_key(d, id@, k) implies k.len()
        <= MAX_KEY_SIZE by {
        assert(all.contains(k));
    }
    assert forall|k: Seq<u8>| #[trigger] is_present_key(d, id@, k) implies k.len()
        <= MAX_KEY_SIZE by {
        assert(all.contains(k));
    }
    true
}

/// Removes a document's index entries and counts (not its record).
pub(crate) fn unindex(store: &mut Store, id: &[u8], old_record: &DocRecord, counters: Counters, ti: bool) -> (r:
    Result<Counters, Error>)
    requires
        old(store).wf(),
    ensures
        final(store).wf(),
        ({
            let d = Doc { record: old_record@, tree: meta_tree(old_record@.metadata) };
            match r {
                Ok(c) => {
                    &&& cleared(old(store)@, final(store)@, d, id@, ti)
                    &&& c == uncounted(counters, old_record@)
                },
                Err(e) => e is InvalidArgument && !can_index(d.tree, MAX_INDEXED_VALUES as int),
            }
        }),
{
    let ghost d = Doc { record: old_record@, tree: meta_tree(old_record@.metadata) };
    let metadata: Json = parse_metadata(old_record.metadata.as_str());
    let flat: Flattened = match flatten(&metadata, MAX_INDEXED_VALUES) {
        Ok(f) => f,
        Err(e) => {
            return Err(e);
        },
    };
    let ghost m = store@;
    let keys: Vec<Vec<u8>> = index_keys(&flat, id, Ghost(d));
    remove_keys(store, &keys);
    let ghost between = store@;
    let mut c: Counters = counters;
    let ghost mut gone: Set<Seq<u8>> = Set::empty();
    match &old_record.text {
        Some(t) => {
            if ti {
                let f: TermFrequencies = term_frequencies(t.as_str());
                let postings: Vec<Vec<u8>> = posting_keys(&f, id);
                remove_keys(store, &postings);
                proof {
                    gone = byte_lists(postings@).to_set();
                    let ts = terms_of(t@);
                    assert(d.record.text == Some(t@));
                    assert forall|k: Seq<u8>| #[trigger] gone.contains(k) == is_term_key(
                        d,
                        id@,
                        k,
                    ) by {
                        let all = byte_lists(postings@);
                        if all.contains(k) {
                            let i = choose|i: int| 0 <= i < all.len() && all[i] == k;
                            assert(postings@[i]@ == k);
                            let u = f.terms@[i]@;
                            lemma_listed_terms(f, ts, u);
                            assert(terms_of(d.record.text->0).contains(u));
                            assert(k == term_key(u, id@));
                        }
                        if is_term_key(d, id@, k) {
                            let u = choose|u: Seq<u8>| #[trigger]
                                ts.contains(u) && k == term_key(u, id@);
                            lemma_listed_terms(f, ts, u);
                            let i = choose|i: int|
                                0 <= i < f.terms@.len() && (#[trigger] f.terms@[i])@ == u;
                            assert(postings@[i]@ == k);
                            assert(all[i] == k);
                        }
                    }
                }
            }
            if c.text_docs > 0 {
                c.text_docs = c.text_docs - 1;
            }
            let len: u64 = old_record.text_len as u64;
            c.text_terms = if c.text_terms > len {
                c.text_terms - len
            } else {
                0
            };
        },
        None => {},
    }
    if c.docs > 0 {
        c.docs = c.docs - 1;
    }
    proof {
        let n = store@;
        assert forall|k: Seq<u8>| #[trigger] n.contains_key(k) == (m.contains_key(k)
            && !index_owned(d, id@, ti, k)) by {
            assert(byte_lists(keys@).contains(k) == byte_lists(keys@).to_set().contains(k));
            assert(between.contains_key(k) == (m.contains_key(k) && !byte_lists(
                keys@,
            ).to_set().contains(k)));
            assert(gone.contains(k) ==> is_term_key(d, id@, k));
        }
        assert forall|k: Seq<u8>| #[trigger] n.contains_key(k) implies n[k] == m[k] by {
            assert(between.contains_key(k));
        }
    }
    Ok(c)
}


// ---- reading back -----------------------------------------------------------

/// The counters that a store holds; all zero where it holds none, `None` where
/// they cannot be read.
pub open spec fn counters_of(m: Map<Seq<u8>, Seq<u8>>) -> Option<Counters> {
    if !m.contains_key(stats_key()) {
        Some(Counters { docs: 0, text_docs: 0, text_terms: 0 })
    } else if exists|c: Counters| begins(m[stats_key()], #[trigger] counter_bytes(c)) {
        Some(choose|c: Counters| begins(m[stats_key()], #[trigger] counter_bytes(c)))
    } else {
        None
    }
}

pub proof fn lemma_counters(m: Map<Seq<u8>, Seq<u8>>, c: Counters)
    requires
        m.contains_key(stats_key()),
        begins(m[stats_key()], counter_bytes(c)),
    ensures
        counters_of(m) == Some(c),
{
    let b = m[stats_key()];
    let e = choose|c: Counters| begins(b, #[trigger] counter_bytes(c));
    let x = choose|x: Seq<u8>| b == #[trigger] (counter_bytes(c) + x);
    let y = choose|y: Seq<u8>| b == #[trigger] (counter_bytes(e) + y);
    law_counter_bytes_are_readable(c, x, e, y);
}

/// Reads the counters.
pub fn counters(store: &Store) -> (r: Result<Counters, Error>)
    requires
        store.wf(),
    ensures
        match r {
            Ok(c) => counters_of(store@) == Some(c),
            Err(e) => e is Serialization && counters_of(store@) is None,
        },
{
    let k: Vec<u8> = stats_key_bytes();
    match store.get(k.as_slice()) {
        Some(bytes) => match decode_counters(bytes.as_slice()) {
            Some(c) => {
                proof {
                    lemma_counters(store@, c);
                }
                Ok(c)
            },
            None => Err(Error::Serialization("collection counters".to_owned())),
        },
        None => Ok(Counters { docs: 0, text_docs: 0, text_terms: 0 }),
    }
}

/// Reads a document's record.
pub fn record_in(store: &Store, id: &[u8]) -> (r: Result<Option<DocRecord>, Error>)
    requires
        store.wf(),
    ensures
        match r {
            Ok(Some(d)) => store@.contains_key(doc_key(id@)) && begins(
                store@[doc_key(id@)],
                record_bytes(d@),
            ),
            Ok(None) => !store@.contains_key(doc_key(id@)),
            Err(e) => e is Serialization && store@.contains_key(doc_key(id@)) && forall|rec: Rec|
                !begins(store@[doc_key(id@)], #[trigger] record_bytes(rec)),
        },
{
    let k: Vec<u8> = key(DOC, id);
    match store.get(k.as_slice()) {
        Some(bytes) => match decode_record(bytes.as_slice()) {
            Some(d) => Ok(Some(d)),
            None => Err(Error::Serialization("document record".to_owned())),
        },
        None => Ok(None),
    }
}

/// A stored record is its document's.
pub proof fn lemma_stored(m: Map<Seq<u8>, Seq<u8>>, docs: Map<Seq<u8>, Doc>, ti: bool, id: Seq<u8>)
    requires
        mirrors(m, docs, ti),
    ensures
        m.contains_key(doc_key(id)) == docs.contains_key(id),
        docs.contains_key(id) ==> begins(m[doc_key(id)], record_bytes(docs[id].record)),
        docs.contains_key(id) ==> forall|r: Rec|
            begins(m[doc_key(id)], #[trigger] record_bytes(r)) ==> r == docs[id].record,
{
    let k = doc_key(id);
    if m.contains_key(k) {
        assert(k[0] == DOC);
        let o = lemma_owner(m, docs, ti, k);
        lemma_holds_key(docs[o], o, ti, k);
        lemma_key_tags(docs[o], o, k, m[k]);
        assert(k == doc_key(o));
        assert(doc_key(o).skip(1) =~= o);
        assert(doc_key(id).skip(1) =~= id);
    }
    if docs.contains_key(id) {
        let rec = docs[id].record;
        assert(owns(docs[id], id, ti, k, record_bytes(rec)));
        let none = Seq::<u8>::empty();
        assert(m[k] =~= record_bytes(rec) + none);
        assert(begins(m[k], record_bytes(rec)));
        assert forall|r: Rec| begins(m[k], #[trigger] record_bytes(r)) implies r == rec by {
            let x = choose|x: Seq<u8>| m[k] == #[trigger] (record_bytes(r) + x);
            lemma_parts_bounded(r);
            lemma_parts_bounded(rec);
            law_record_bytes_are_readable(r, x, rec, none);
        }
    }
}

proof fn lemma_parts_bounded(r: Rec)
    ensures
        encode_utf8(r.metadata).len() <= record_bytes(r).len(),
        r.text is Some ==> encode_utf8(r.text->0).len() <= record_bytes(r).len(),
{
}

// ---- what documents add up to -----------------------------------------------

/// The documents that have text.
pub open spec fn with_text(docs: Map<Seq<u8>, Doc>) -> Set<Seq<u8>> {
    docs.dom().filter(|id: Seq<u8>| docs[id].record.text is Some)
}

/// The terms that a document adds to the total.
pub open spec fn weight(d: Doc) -> nat {
    if d.record.text is Some {
        d.record.text_len as nat
    } else {
        0
    }
}

/// The terms of all documents together.
pub open spec fn total_terms(docs: Map<Seq<u8>, Doc>) -> nat
    decreases docs.dom().len(),
    when docs.dom().finite()
{
    if docs.dom().len() == 0 {
        0
    } else {
        let id = docs.dom().choose();
        weight(docs[id]) + total_terms(docs.remove(id))
    }
}

pub(crate) proof fn lemma_total_without(docs: Map<Seq<u8>, Doc>, id: Seq<u8>)
    requires
        docs.dom().finite(),
        docs.contains_key(id),
    ensures
        total_terms(docs) == weight(docs[id]) + total_terms(docs.remove(id)),
    decreases docs.dom().len(),
{
    let c = docs.dom().choose();
    assert(docs.dom().len() > 0);
    assert(docs.remove(c).dom() =~= docs.dom().remove(c));
    assert(docs.remove(id).dom() =~= docs.dom().remove(id));
    if c != id {
        lemma_total_without(docs.remove(c), id);
        lemma_total_without(docs.remove(id), c);
        assert(docs.remove(c).remove(id) =~= docs.remove(id).remove(c));
    }
}

/// The counters say how many documents there are, how many have text and how
/// many terms of these are indexed.
pub open spec fn tally(docs: Map<Seq<u8>, Doc>, c: Counters) -> bool {
    &&& docs.dom().finite()
    &&& c.docs == docs.dom().len()
    &&& c.text_docs == with_text(docs).len()
    &&& c.text_terms == total_terms(docs)
}

pub proof fn lemma_tally_removed(docs: Map<Seq<u8>, Doc>, c: Counters, id: Seq<u8>)
    requires
        tally(docs, c),
        docs.contains_key(id),
    ensures
        tally(docs.remove(id), uncounted(c, docs[id].record)),
{
    let now = docs.remove(id);
    assert(now.dom() =~= docs.dom().remove(id));
    lemma_total_without(docs, id);
    assert(with_text(now) =~= with_text(docs).remove(id));
    vstd::set_lib::lemma_len_subset(with_text(docs), docs.dom());
    if docs[id].record.text is None {
        assert(with_text(now) =~= with_text(docs));
    } else {
        assert(with_text(docs).contains(id));
    }
}

proof fn lemma_tally_added(docs: Map<Seq<u8>, Doc>, c: Counters, id: Seq<u8>, d: Doc)
    requires
        tally(docs, c),
        !docs.contains_key(id),
        roomy(c, 1),
    ensures
        tally(docs.insert(id, d), counted_in(c, d.record)),
{
    let now = docs.insert(id, d);
    assert(now.dom() =~= docs.dom().insert(id));
    lemma_total_without(now, id);
    assert(now.remove(id) =~= docs);
    vstd::set_lib::lemma_len_subset(with_text(docs), docs.dom());
    if d.record.text is Some {
        assert(with_text(now) =~= with_text(docs).insert(id));
    } else {
        assert(with_text(now) =~= with_text(docs));
    }
}

/// Whether the counters can take `n` more documents.
pub open spec fn roomy(c: Counters, n: nat) -> bool {
    &&& c.docs + n <= u64::MAX
    &&& c.text_docs + n <= u64::MAX
    &&& c.text_terms + n * 0xFFFF_FFFF <= u64::MAX
}

/// What is read back of a document's metadata is what was indexed.
pub open spec fn settled_doc(d: Doc) -> bool {
    meta_tree(d.record.metadata) == d.tree
}

/// What is read back of every document's metadata is what was indexed.
pub open spec fn settled(docs: Map<Seq<u8>, Doc>) -> bool {
    forall|id: Seq<u8>| #[trigger] docs.contains_key(id) ==> settled_doc(docs[id])
}

/// Whether no term of any document holds a NUL.
pub open spec fn clean_terms(docs: Map<Seq<u8>, Doc>) -> bool {
    forall|id: Seq<u8>| #[trigger]
        docs.contains_key(id) && docs[id].record.text is Some ==> clean(
            terms_of(docs[id].record.text->0),
        )
}

/// Whether the text of a document's metadata is read back as what it was.
pub open spec fn reread(d: Document) -> bool {
    d.metadata@ is Null || meta_tree(compact(d.metadata@)) == d.metadata@
}

/// Whether the text of a document's metadata is read back as what it was; it is
/// if all numbers in it are integers.
pub open spec fn faithful(d: Document) -> bool {
    reread(d) || comes_back(d.metadata@)
}

/// The documents after the first `n` of a batch.
pub open spec fn applied(
    docs: Map<Seq<u8>, Doc>,
    batch: Seq<Document>,
    n: int,
    ti: bool,
) -> Map<Seq<u8>, Doc>
    decreases n,
{
    if n <= 0 {
        docs
    } else {
        applied(docs, batch, n - 1, ti).insert(
            utf8(batch[n - 1].id),
            doc_of(batch[n - 1], ti),
        )
    }
}

/// The document of that id, if there is one, can be taken out of the index.
pub open spec fn swappable(docs: Map<Seq<u8>, Doc>, id: Seq<u8>) -> bool {
    docs.contains_key(id) ==> settled_doc(docs[id])
}

/// What a batch replaces can be taken out of the index when its turn comes.
#[verifier::opaque]
pub open spec fn replaceable(docs: Map<Seq<u8>, Doc>, batch: Seq<Document>, ti: bool) -> bool {
    forall|i: int|
        0 <= i < batch.len() ==> swappable(
            applied(docs, batch, i, ti),
            utf8((#[trigger] batch[i]).id),
        )
}

/// What step `i` of a batch replaces can be taken out of the index.
pub(crate) proof fn lemma_replaceable(
    docs: Map<Seq<u8>, Doc>,
    batch: Seq<Document>,
    ti: bool,
    i: int,
)
    requires
        replaceable(docs, batch, ti),
        0 <= i < batch.len(),
    ensures
        swappable(applied(docs, batch, i, ti), utf8(batch[i].id)),
{
    reveal(replaceable);
}

/// Whether the metadata of every document is read back as what it was.
pub open spec fn all_faithful(batch: Seq<Document>) -> bool {
    forall|i: int| 0 <= i < batch.len() ==> faithful(#[trigger] batch[i])
}

/// A batch can be stored in every settled collection, and keeps it settled.
#[verifier::opaque]
pub open spec fn settles(batch: Seq<Document>, ti: bool) -> bool {
    forall|docs: Map<Seq<u8>, Doc>| #[trigger]
        settled(docs) ==> replaceable(docs, batch, ti) && settled(
            applied(docs, batch, batch.len() as int, ti),
        )
}

/// A batch whose metadata is read back as what it was.
pub(crate) proof fn lemma_settles(batch: Seq<Document>, ti: bool)
    requires
        forall|i: int| 0 <= i < batch.len() ==> reread(#[trigger] batch[i]),
    ensures
        settles(batch, ti),
{
    reveal(settles);
    reveal(replaceable);
    assert forall|docs: Map<Seq<u8>, Doc>| #[trigger] settled(docs) implies replaceable(
        docs,
        batch,
        ti,
    ) && settled(applied(docs, batch, batch.len() as int, ti)) by {
        lemma_applied_settled(docs, batch, batch.len() as int, ti);
        assert forall|j: int| 0 <= j < batch.len() implies swappable(
            applied(docs, batch, j, ti),
            utf8((#[trigger] batch[j]).id),
        ) by {
            lemma_applied_settled(docs, batch, j, ti);
        }
    }
}

/// Documents that are read back as what they were keep a collection settled.
proof fn lemma_applied_settled(
    docs: Map<Seq<u8>, Doc>,
    batch: Seq<Document>,
    n: int,
    ti: bool,
)
    requires
        settled(docs),
        0 <= n <= batch.len(),
        forall|i: int| 0 <= i < batch.len() ==> reread(#[trigger] batch[i]),
    ensures
        settled(applied(docs, batch, n, ti)),
    decreases n,
{
    if n > 0 {
        lemma_applied_settled(docs, batch, n - 1, ti);
        let prev = applied(docs, batch, n - 1, ti);
        let now = applied(docs, batch, n, ti);
        let id = utf8(batch[n - 1].id);
        assert(reread(batch[n - 1]));
        assert(settled_doc(doc_of(batch[n - 1], ti)));
        assert forall|x: Seq<u8>| #[trigger] now.contains_key(x) implies settled_doc(now[x]) by {
            if x != id {
                assert(prev.contains_key(x));
            }
        }
    }
}

/// A store that holds exactly these documents, counted; its terms are told
/// apart, and a database can take it.
pub open spec fn keeps(store: Store, docs: Map<Seq<u8>, Doc>, ti: bool) -> bool {
    &&& mirrors(store@, docs, ti)
    &&& counters_of(store@) is Some
    &&& tally(docs, counters_of(store@)->0)
    &&& ti ==> clean_terms(docs)
    &&& all_writable(store@)
}

// ---- writing ----------------------------------------------------------------

/// The document lost its embedding at step `i` of a batch.
pub open spec fn loses_vector(
    docs: Map<Seq<u8>, Doc>,
    batch: Seq<Document>,
    i: int,
    ti: bool,
) -> bool {
    let before = applied(docs, batch, i, ti);
    let id = utf8(batch[i].id);
    before.contains_key(id) && before[id].record.has_vector && batch[i].vector is None
}

/// One document replaces what is stored under its id.
pub(crate) fn replace(
    store: &mut Store,
    doc: &Document,
    p: &Prepared,
    counters: Counters,
    ti: bool,
) -> (r: Result<(Counters, bool), Error>)
    requires
        old(store).wf(),
        prepared(*p, doc_of(*doc, ti), ti),
        id_ok(utf8(doc.id)),
        distinct_keys(doc.metadata@),
        record_bytes(record_of(*doc, ti)).len() <= MAX_DOCUMENT_BYTES,
        can_index(doc.metadata@, MAX_INDEXED_VALUES as int),
        short_keys(doc_of(*doc, ti), utf8(doc.id)),
        roomy(counters, 1),
    ensures
        final(store).wf(),
        r is Ok && own_writable(old(store)@) ==> own_writable(final(store)@),
        r is Ok ==> holds_record(final(store)@, utf8(doc.id), doc_of(*doc, ti).record)
            && others_stay(old(store)@, final(store)@, utf8(doc.id)),
        r is Ok ==> r->Ok_0.0.docs <= counters.docs + 1 && r->Ok_0.0.text_docs
            <= counters.text_docs + 1 && r->Ok_0.0.text_terms <= counters.text_terms
            + 0xFFFF_FFFF,
        forall|docs: Map<Seq<u8>, Doc>| #[trigger]
            mirrors(old(store)@, docs, ti) && tally(docs, counters) && swappable(
                docs,
                utf8(doc.id),
            ) ==> {
                let now = docs.insert(utf8(doc.id), doc_of(*doc, ti));
                &&& r is Ok
                &&& mirrors(final(store)@, now, ti)
                &&& tally(now, r->Ok_0.0)
                &&& r->Ok_0.1 == (docs.contains_key(utf8(doc.id))
                    && docs[utf8(doc.id)].record.has_vector && doc.vector is None)
            },
{
    let id: &[u8] = doc.id.as_str().as_bytes();
    let ghost m = store@;
    let ghost d = doc_of(*doc, ti);
    proof {
        encode_utf8_valid_utf8(doc.id@);
    }
    let found: Option<DocRecord> = match record_in(store, id) {
        Ok(f) => f,
        Err(e) => {
            assert forall|docs: Map<Seq<u8>, Doc>| #[trigger]
                mirrors(m, docs, ti) && tally(docs, counters) && swappable(docs, id@) implies false by {
                lemma_stored(m, docs, ti, id@);
            }
            return Err(e);
        },
    };
    let mut c: Counters = counters;
    let mut lost: bool = false;
    match &found {
        Some(was) => {
            lost = was.has_vector && doc.vector.is_none();
            match unindex(store, id, was, counters, ti) {
                Ok(less) => {
                    c = less;
                },
                Err(e) => {
                    assert forall|docs: Map<Seq<u8>, Doc>| #[trigger]
                        mirrors(m, docs, ti) && tally(docs, counters) && swappable(
                        docs,
                        id@,
                    ) implies false by {
                        lemma_stored(m, docs, ti, id@);
                    }
                    return Err(e);
                },
            }
        },
        None => {},
    }
    let ghost between = store@;
    put(store, id, p, Ghost(d), Ghost(ti));
    proof {
        lemma_laid_stay(between, store@, d, id@, ti);
        if found is Some {
            lemma_cleared_stay(
                m,
                between,
                Doc { record: found->0@, tree: meta_tree(found->0@.metadata) },
                id@,
                ti,
            );
        }
        assert forall|k: Seq<u8>| record_key(k) && !of_id(k, id@) implies #[trigger] same_at(
            m,
            store@,
            k,
        ) by {
            assert(same_at(m, between, k));
            assert(same_at(between, store@, k));
        }
        if own_writable(m) {
            assert(own_writable(between));
            lemma_own_writable_kept(between, store@, d, id@, ti);
        }
    }
    let counted: Counters = Counters {
        docs: c.docs + 1,
        text_docs: if doc.text.is_some() {
            c.text_docs + 1
        } else {
            c.text_docs
        },
        text_terms: if doc.text.is_some() {
            c.text_terms + p.record.text_len as u64
        } else {
            c.text_terms
        },
    };
    assert(counted == counted_in(c, d.record));
    proof {
        assert forall|docs: Map<Seq<u8>, Doc>| #[trigger]
            mirrors(m, docs, ti) && tally(docs, counters) && swappable(docs, id@) implies mirrors(
            store@,
            docs.insert(id@, d),
            ti,
        ) && tally(docs.insert(id@, d), counted) && lost == (docs.contains_key(id@)
            && docs[id@].record.has_vector && doc.vector is None) by {
            lemma_stored(m, docs, ti, id@);
            if docs.contains_key(id@) {
                assert(found is Some);
                assert(found->0@ == docs[id@].record);
                assert(docs[id@] == Doc {
                    record: found->0@,
                    tree: meta_tree(found->0@.metadata),
                });
                lemma_tally_removed(docs, counters, id@);
                lemma_tally_added(docs.remove(id@), c, id@, d);
                assert(docs.remove(id@).insert(id@, d) =~= docs.insert(id@, d));
            } else {
                lemma_tally_added(docs, c, id@, d);
            }
            lemma_replaced(m, between, store@, docs, id@, d, ti);
        }
    }
    Ok((counted, lost))
}


// ---- laws -------------------------------------------------------------------

/// Within one batch the last document of an id wins.
pub proof fn law_last_occurrence_wins(
    docs: Map<Seq<u8>, Doc>,
    batch: Seq<Document>,
    i: int,
    n: int,
    ti: bool,
)
    requires
        0 <= i < n <= batch.len(),
        forall|j: int| i < j < n ==> utf8((#[trigger] batch[j]).id) != utf8(batch[i].id),
    ensures
        applied(docs, batch, n, ti).contains_key(utf8(batch[i].id)),
        applied(docs, batch, n, ti)[utf8(batch[i].id)] == doc_of(batch[i], ti),
    decreases n,
{
    if n > i + 1 {
        law_last_occurrence_wins(docs, batch, i, n - 1, ti);
        assert(utf8(batch[n - 1].id) != utf8(batch[i].id));
    }
}

/// A batch leaves the documents that it does not name as they are.
pub proof fn law_other_documents_stay(
    docs: Map<Seq<u8>, Doc>,
    batch: Seq<Document>,
    id: Seq<u8>,
    n: int,
    ti: bool,
)
    requires
        0 <= n <= batch.len(),
        forall|j: int| 0 <= j < n ==> utf8((#[trigger] batch[j]).id) != id,
    ensures
        applied(docs, batch, n, ti).contains_key(id) == docs.contains_key(id),
        docs.contains_key(id) ==> applied(docs, batch, n, ti)[id] == docs[id],
    decreases n,
{
    if n > 0 {
        law_other_documents_stay(docs, batch, id, n - 1, ti);
        assert(utf8(batch[n - 1].id) != id);
    }
}

} // verus!
