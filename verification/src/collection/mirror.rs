//! What the keys of a collection say about its documents.

use crate::btree::scan::{lower_ok, upper_ok, Bound};
use crate::bytes::{
    copy_bytes, sized, le32, lemma_lex_asymmetric, lemma_lex_common_prefix, lemma_lex_irreflexive,
    lemma_lex_total, lemma_lex_transitive, lex_le, lex_lt, Order,
};
use crate::collection::filter::{in_range, present_at, reaches, segments, RangeOp};
use crate::collection::flatten::{
    can_index, events, has_place, law_presence_agrees_with_exists,
    law_values_agree_with_comparisons, paths_of, place, values_of, Event,
};
use crate::collection::keys::{
    code_len, doc_key, ids_key, lemma_code_len, lemma_split_at_last_nul, lemma_split_at_nul,
    meta_base, present_key,
    term_key, value_key, DOC, IDS, META, PRESENT, TERM,
};
use crate::collection::scalar::{
    compared, encoding, is_nan, law_encoding_is_self_delimiting, law_encoding_keeps_order,
    law_equal_scalars_share_an_encoding, tag_of, Datum,
};
use crate::collection::text::{lemma_term_len, occurrences, terms_of, wrapped};
use crate::database::writable;
use crate::json::{distinct_keys, Tree};
use crate::page::MAX_KEY_SIZE;
use crate::prefix::{law_successor_ends_the_prefix, starts, successor};
use vstd::prelude::*;
use vstd::utf8::*;

verus! {

/// Most metadata values indexed per document.
pub const MAX_INDEXED_VALUES: usize = 1024;

/// Largest document record (text + metadata), in bytes.
pub const MAX_DOCUMENT_BYTES: usize = 8 * 1024 * 1024;

/// Longest document id, in bytes.
pub const MAX_ID_LEN: usize = 128;

/// Whether UTF-8 bytes hold a control character: U+0000 to U+001F, U+007F, or
/// U+0080 to U+009F, which are written `C2 80` to `C2 9F`.
pub open spec fn has_control(b: Seq<u8>) -> bool {
    exists|i: int| control_at(b, i)
}

/// Whether a control character starts at a place.
pub open spec fn control_at(b: Seq<u8>, i: int) -> bool {
    &&& 0 <= i < b.len()
    &&& {
        ||| b[i] < 0x20
        ||| b[i] == 0x7F
        ||| b[i] == 0xC2 && i + 1 < b.len() && 0x80 <= b[i + 1] <= 0x9F
    }
}

/// Whether a document can have this id: 1 to 128 bytes without control
/// characters.
pub open spec fn id_ok(id: Seq<u8>) -> bool {
    1 <= id.len() <= MAX_ID_LEN && !has_control(id)
}

/// A stored document's record.
pub struct Rec {
    /// Its metadata as JSON text; empty for none.
    pub metadata: Seq<char>,
    /// Its text.
    pub text: Option<Seq<char>>,
    /// Whether it has an embedding.
    pub has_vector: bool,
    /// Its length in terms.
    pub text_len: u32,
}

/// A document: its record, and the metadata that was indexed for it.
pub struct Doc {
    /// What is stored.
    pub record: Rec,
    /// What is indexed.
    pub tree: Tree,
}

/// The text behind a mark that tells whether there is any.
pub open spec fn text_bytes(text: Option<Seq<char>>) -> Seq<u8> {
    match text {
        Some(t) => seq![1u8] + sized(encode_utf8(t)),
        None => seq![0u8],
    }
}

/// A byte for the embedding, and the length.
pub open spec fn tail_bytes(has_vector: bool, text_len: u32) -> Seq<u8> {
    seq![if has_vector {
        1u8
    } else {
        0u8
    }] + le32(text_len)
}

/// A record as bytes: the metadata, the text, and what is known of both.
pub open spec fn record_bytes(r: Rec) -> Seq<u8> {
    sized(encode_utf8(r.metadata)) + text_bytes(r.text) + tail_bytes(r.has_vector, r.text_len)
}

/// The index events of a document.
pub open spec fn doc_events(d: Doc) -> Seq<Event> {
    events(d.tree, Seq::empty())
}

/// `k` indexes a scalar of the document.
pub open spec fn is_value_key(d: Doc, id: Seq<u8>, k: Seq<u8>) -> bool {
    exists|p: (Seq<u8>, Seq<u8>)| #[trigger]
        has_place(values_of(doc_events(d)), p) && k == value_key(p.0, p.1, id)
}

/// `k` indexes a present field of the document.
pub open spec fn is_present_key(d: Doc, id: Seq<u8>, k: Seq<u8>) -> bool {
    exists|p: Seq<u8>| #[trigger] paths_of(doc_events(d)).contains(p) && k == present_key(p, id)
}

/// A posting: how often the term occurs and how long the document is.
pub open spec fn posting(count: nat, len: u32) -> Seq<u8> {
    le32(wrapped(count)) + le32(len)
}

/// `v` under `k` is a posting of the document.
pub open spec fn is_posting(d: Doc, id: Seq<u8>, k: Seq<u8>, v: Seq<u8>) -> bool {
    d.record.text is Some && exists|t: Seq<u8>| #[trigger]
        terms_of(d.record.text->0).contains(t) && k == term_key(t, id) && v == posting(
            occurrences(terms_of(d.record.text->0), t),
            d.record.text_len,
        )
}

/// The collection holds `v` under `k` on behalf of the document; `ti` tells
/// whether text is indexed.
pub open spec fn owns(d: Doc, id: Seq<u8>, ti: bool, k: Seq<u8>, v: Seq<u8>) -> bool {
    ||| k == doc_key(id) && v == record_bytes(d.record)
    ||| k == ids_key(id) && v.len() == 0
    ||| is_value_key(d, id, k) && v.len() == 0
    ||| is_present_key(d, id, k) && v.len() == 0
    ||| ti && is_posting(d, id, k, v)
}

/// Whether the index keys of a document's metadata are short enough to be
/// written.
pub open spec fn short_keys(d: Doc, id: Seq<u8>) -> bool {
    &&& forall|k: Seq<u8>| #[trigger] is_value_key(d, id, k) ==> k.len() <= MAX_KEY_SIZE
    &&& forall|k: Seq<u8>| #[trigger] is_present_key(d, id, k) ==> k.len() <= MAX_KEY_SIZE
}

/// Whether a document can be in a collection.
pub open spec fn doc_ok(d: Doc, id: Seq<u8>) -> bool {
    &&& id_ok(id)
    &&& valid_utf8(id)
    &&& can_index(d.tree, MAX_INDEXED_VALUES as int)
    &&& distinct_keys(d.tree)
    &&& record_bytes(d.record).len() <= MAX_DOCUMENT_BYTES
    &&& short_keys(d, id)
}

/// Whether a key belongs to documents, by its tag.
pub open spec fn document_key(k: Seq<u8>) -> bool {
    k.len() > 0 && k[0] >= DOC
}

/// The map holds exactly what its documents own, besides the keys of the
/// collection itself.
pub open spec fn mirrors(m: Map<Seq<u8>, Seq<u8>>, docs: Map<Seq<u8>, Doc>, ti: bool) -> bool {
    &&& forall|id: Seq<u8>| #[trigger] docs.contains_key(id) ==> doc_ok(docs[id], id)
    &&& forall|id: Seq<u8>, k: Seq<u8>, v: Seq<u8>|
        docs.contains_key(id) && #[trigger] owns(docs[id], id, ti, k, v) ==> m.contains_key(k)
            && m[k] == v
    &&& forall|k: Seq<u8>| #[trigger]
        m.contains_key(k) && document_key(k) ==> exists|id: Seq<u8>|
            docs.contains_key(id) && #[trigger] owns(docs[id], id, ti, k, m[k])
}

/// Every pair may be written.
pub open spec fn all_writable(m: Map<Seq<u8>, Seq<u8>>) -> bool {
    forall|k: Seq<u8>| #[trigger] m.contains_key(k) ==> writable(k, m[k])
}

/// The keys of the collection itself may be written.
pub open spec fn own_writable(m: Map<Seq<u8>, Seq<u8>>) -> bool {
    forall|k: Seq<u8>| #[trigger] m.contains_key(k) && !document_key(k) ==> writable(k, m[k])
}

/// What a document owns may be written.
proof fn lemma_owned_writable(d: Doc, id: Seq<u8>, ti: bool, k: Seq<u8>, v: Seq<u8>)
    requires
        doc_ok(d, id),
        owns(d, id, ti, k, v),
    ensures
        writable(k, v),
{
    lemma_key_tags(d, id, k, v);
    if is_value_key(d, id, k) || is_present_key(d, id, k) {
    } else if k == doc_key(id) || k == ids_key(id) {
        assert(k.len() == 1 + id.len());
        assert(v.len() == 0 || v == record_bytes(d.record) || is_posting(d, id, k, v));
    } else {
        let ts = terms_of(d.record.text->0);
        let t = choose|t: Seq<u8>| #[trigger]
            ts.contains(t) && k == term_key(t, id) && v == posting(
                occurrences(ts, t),
                d.record.text_len,
            );
        lemma_term_len(d.record.text->0, t);
        assert(k.len() == t.len() + id.len() + 2);
        assert(v.len() == 8);
    }
}

/// What documents own may be written.
pub proof fn lemma_all_writable(m: Map<Seq<u8>, Seq<u8>>, docs: Map<Seq<u8>, Doc>, ti: bool)
    requires
        mirrors(m, docs, ti),
        own_writable(m),
    ensures
        all_writable(m),
{
    assert forall|k: Seq<u8>| #[trigger] m.contains_key(k) implies writable(k, m[k]) by {
        if document_key(k) {
            let id = lemma_owner(m, docs, ti, k);
            lemma_owned_writable(docs[id], id, ti, k, m[k]);
        }
    }
}

/// What a document owns is none of the collection's own keys.
pub proof fn lemma_own_writable_kept(
    m: Map<Seq<u8>, Seq<u8>>,
    n: Map<Seq<u8>, Seq<u8>>,
    d: Doc,
    id: Seq<u8>,
    ti: bool,
)
    requires
        own_writable(m),
        laid(m, n, d, id, ti),
    ensures
        own_writable(n),
{
    assert forall|k: Seq<u8>| #[trigger] n.contains_key(k) && !document_key(k) implies writable(
        k,
        n[k],
    ) by {
        lemma_key_tags(d, id, k, n[k]);
    }
}

/// The document on whose behalf a key is held.
pub proof fn lemma_owner(
    m: Map<Seq<u8>, Seq<u8>>,
    docs: Map<Seq<u8>, Doc>,
    ti: bool,
    k: Seq<u8>,
) -> (id: Seq<u8>)
    requires
        mirrors(m, docs, ti),
        m.contains_key(k),
        document_key(k),
    ensures
        docs.contains_key(id),
        owns(docs[id], id, ti, k, m[k]),
        doc_ok(docs[id], id),
{
    choose|id: Seq<u8>| docs.contains_key(id) && #[trigger] owns(docs[id], id, ti, k, m[k])
}

/// An id without control characters holds no NUL.
pub proof fn lemma_id_no_nul(id: Seq<u8>)
    requires
        id_ok(id),
    ensures
        !id.contains(0),
{
    if id.contains(0) {
        let i = choose|i: int| 0 <= i < id.len() && id[i] == 0;
        assert(control_at(id, i));
    }
}

// ---- listed ids -------------------------------------------------------------

/// What `String::from_utf8_lossy` gives for bytes that are not UTF-8, as bytes.
pub uninterp spec fn mended(b: Seq<u8>) -> Seq<u8>;

/// A byte string as text: itself where it is UTF-8.
pub open spec fn shown(b: Seq<u8>) -> Seq<u8> {
    if valid_utf8(b) {
        b
    } else {
        mended(b)
    }
}

/// Calls `String::from_utf8_lossy`, which keeps what is UTF-8 and mends what is
/// not.
#[verifier::external_body]
pub(crate) fn lossy(b: &[u8]) -> (r: String)
    ensures
        valid_utf8(b@) ==> encode_utf8(r@) == b@,
        !valid_utf8(b@) ==> encode_utf8(r@) == mended(b@),
{
    String::from_utf8_lossy(b).into_owned()
}

/// The bytes of what is read as text.
pub(crate) fn lossy_bytes(b: &[u8]) -> (r: Vec<u8>)
    ensures
        r@ == shown(b@),
{
    copy_bytes(lossy(b).as_str().as_bytes())
}

/// What follows the prefix in the keys that start with it.
pub open spec fn suffixes(m: Map<Seq<u8>, Seq<u8>>, prefix: Seq<u8>) -> Set<Seq<u8>> {
    Set::new(
        |id: Seq<u8>|
            exists|k: Seq<u8>| #[trigger]
                m.contains_key(k) && starts(k, prefix) && id == shown(k.skip(prefix.len() as int)),
    )
}

proof fn lemma_starts_split(k: Seq<u8>, p: Seq<u8>)
    requires
        starts(k, p),
    ensures
        k == p + k.skip(p.len() as int),
{
    assert(k =~= k.subrange(0, p.len() as int) + k.skip(p.len() as int));
}

/// The listed ids are those of the documents.
pub proof fn lemma_listed_ids(m: Map<Seq<u8>, Seq<u8>>, docs: Map<Seq<u8>, Doc>, ti: bool)
    requires
        mirrors(m, docs, ti),
    ensures
        suffixes(m, seq![IDS]) == docs.dom(),
{
    let all = suffixes(m, seq![IDS]);
    assert forall|id: Seq<u8>| all.contains(id) == docs.dom().contains(id) by {
        if all.contains(id) {
            let k = choose|k: Seq<u8>| #[trigger]
                m.contains_key(k) && starts(k, seq![IDS]) && id == shown(k.skip(1));
            lemma_starts_split(k, seq![IDS]);
            assert(k[0] == IDS);
            let o = lemma_owner(m, docs, ti, k);
            lemma_key_tags(docs[o], o, k, m[k]);
            assert(k == ids_key(o));
            assert(k.skip(1) =~= o);
        }
        if docs.contains_key(id) {
            let k = ids_key(id);
            assert(owns(docs[id], id, ti, k, Seq::empty()));
            assert(m.contains_key(k));
            assert(k.subrange(0, 1) =~= seq![IDS]);
            assert(k.skip(1) =~= id);
        }
    }
    assert(all =~= docs.dom());
}

/// Each kind of key has its own tag.
pub proof fn lemma_key_tags(d: Doc, id: Seq<u8>, k: Seq<u8>, v: Seq<u8>)
    ensures
        is_value_key(d, id, k) ==> k.len() > 0 && k[0] == META,
        is_present_key(d, id, k) ==> k.len() > 0 && k[0] == META,
        is_posting(d, id, k, v) ==> k.len() > 0 && k[0] == TERM,
        doc_key(id)[0] == DOC,
        ids_key(id)[0] == IDS,
{
    if is_value_key(d, id, k) {
        let p = choose|p: (Seq<u8>, Seq<u8>)| #[trigger]
            has_place(values_of(doc_events(d)), p) && k == value_key(p.0, p.1, id);
        assert(value_key(p.0, p.1, id)[0] == META);
    }
    if is_present_key(d, id, k) {
        let p = choose|p: Seq<u8>| #[trigger]
            paths_of(doc_events(d)).contains(p) && k == present_key(p, id);
        assert(present_key(p, id)[0] == META);
    }
    if is_posting(d, id, k, v) {
        let t = choose|t: Seq<u8>| #[trigger]
            terms_of(d.record.text->0).contains(t) && k == term_key(t, id) && v == posting(
                occurrences(terms_of(d.record.text->0), t),
                d.record.text_len,
            );
        assert(term_key(t, id)[0] == TERM);
    }
}

/// A key of the metadata index belongs to a scalar or to a present field.
proof fn lemma_meta_owner(
    m: Map<Seq<u8>, Seq<u8>>,
    docs: Map<Seq<u8>, Doc>,
    ti: bool,
    k: Seq<u8>,
) -> (id: Seq<u8>)
    requires
        mirrors(m, docs, ti),
        m.contains_key(k),
        k.len() > 0,
        k[0] == META,
    ensures
        docs.contains_key(id),
        doc_ok(docs[id], id),
        is_value_key(docs[id], id, k) || is_present_key(docs[id], id, k),
{
    let id = lemma_owner(m, docs, ti, k);
    lemma_key_tags(docs[id], id, k, m[k]);
    id
}

/// A path that was noted holds no NUL.
proof fn lemma_path_no_nul(d: Doc, p: Seq<u8>)
    requires
        can_index(d.tree, MAX_INDEXED_VALUES as int),
        distinct_keys(d.tree),
        paths_of(doc_events(d)).contains(p) || exists|e: Seq<u8>| #[trigger]
            has_place(values_of(doc_events(d)), (p, e)),
    ensures
        !p.contains(0),
{
    crate::collection::flatten::lemma_event_paths(d.tree, p);
    if exists|e: Seq<u8>| #[trigger] has_place(values_of(doc_events(d)), (p, e)) {
        let e = choose|e: Seq<u8>| #[trigger] has_place(values_of(doc_events(d)), (p, e));
        let vs = values_of(doc_events(d));
        let i = choose|i: int| 0 <= i < vs.len() && place(#[trigger] vs[i]) == (p, e);
        assert(vs.contains((p, vs[i].1)));
    }
}

/// The ids under a field's presence mark are those of the documents that have
/// the field.
pub proof fn lemma_present_ids(
    m: Map<Seq<u8>, Seq<u8>>,
    docs: Map<Seq<u8>, Doc>,
    ti: bool,
    field: Seq<u8>,
)
    requires
        mirrors(m, docs, ti),
        !field.contains(0),
    ensures
        suffixes(m, meta_base(field) + seq![PRESENT]) == docs.dom().filter(
            |id: Seq<u8>| present_at(docs[id].tree, segments(field)),
        ),
{
    let base = meta_base(field);
    let prefix = base + seq![PRESENT];
    let all = suffixes(m, prefix);
    let want = docs.dom().filter(|id: Seq<u8>| present_at(docs[id].tree, segments(field)));
    assert forall|id: Seq<u8>| all.contains(id) == want.contains(id) by {
        if all.contains(id) {
            let k = choose|k: Seq<u8>| #[trigger]
                m.contains_key(k) && starts(k, prefix) && id == shown(k.skip(prefix.len() as int));
            lemma_starts_split(k, prefix);
            let rest = k.skip(prefix.len() as int);
            assert(k[0] == META);
            let o = lemma_meta_owner(m, docs, ti, k);
            let d = docs[o];
            if is_value_key(d, o, k) {
                let p = choose|p: (Seq<u8>, Seq<u8>)| #[trigger]
                    has_place(values_of(doc_events(d)), p) && k == value_key(p.0, p.1, o);
                assert(has_place(values_of(doc_events(d)), (p.0, p.1)));
                lemma_path_no_nul(d, p.0);
                assert(k =~= meta_base(field) + (seq![PRESENT] + rest));
                assert(k =~= meta_base(p.0) + (p.1 + o));
                lemma_meta_split(field, seq![PRESENT] + rest, p.0, p.1 + o, k);
                let vs = values_of(doc_events(d));
                let i = choose|i: int| 0 <= i < vs.len() && place(#[trigger] vs[i]) == p;
                lemma_code_len(vs[i].1, o);
                assert((seq![PRESENT] + rest)[0] == PRESENT);
            } else {
                let p = choose|p: Seq<u8>| #[trigger]
                    paths_of(doc_events(d)).contains(p) && k == present_key(p, o);
                lemma_path_no_nul(d, p);
                assert(k =~= meta_base(field) + (seq![PRESENT] + rest));
                assert(k =~= meta_base(p) + (seq![PRESENT] + o));
                lemma_meta_split(field, seq![PRESENT] + rest, p, seq![PRESENT] + o, k);
                assert((seq![PRESENT] + rest).skip(1) =~= rest);
                assert((seq![PRESENT] + o).skip(1) =~= o);
                law_presence_agrees_with_exists(d.tree, field);
            }
        }
        if want.contains(id) {
            let d = docs[id];
            law_presence_agrees_with_exists(d.tree, field);
            let k = present_key(field, id);
            assert(paths_of(doc_events(d)).contains(field));
            assert(is_present_key(d, id, k));
            assert(owns(d, id, ti, k, Seq::empty()));
            assert(k.subrange(0, prefix.len() as int) =~= prefix);
            assert(k.skip(prefix.len() as int) =~= id);
        }
    }
    assert(all =~= want);
}

/// Two readings of one metadata key name one field.
proof fn lemma_meta_split(f: Seq<u8>, a: Seq<u8>, g: Seq<u8>, b: Seq<u8>, k: Seq<u8>)
    requires
        !f.contains(0),
        !g.contains(0),
        k == meta_base(f) + a,
        k == meta_base(g) + b,
    ensures
        f == g,
        a == b,
{
    assert(k.skip(1) =~= f + seq![0u8] + a);
    assert(k.skip(1) =~= g + seq![0u8] + b);
    lemma_split_at_nul(f, a, g, b);
}


// ---- ids of a range of values -----------------------------------------------

/// `k` lies between the bounds.
pub open spec fn within(lo: Bound, hi: Bound, k: Seq<u8>) -> bool {
    lower_ok(lo, k) && upper_ok(hi, k)
}

/// The id behind the encoded scalar that stands `n` bytes into `k`.
pub open spec fn id_after_code(k: Seq<u8>, n: int) -> Seq<u8> {
    k.skip(n + code_len(k.skip(n))->0)
}

/// Every key between the bounds holds an encoded scalar `n` bytes in.
pub open spec fn codes_ok(m: Map<Seq<u8>, Seq<u8>>, lo: Bound, hi: Bound, n: int) -> bool {
    forall|k: Seq<u8>| #[trigger]
        m.contains_key(k) && within(lo, hi, k) && k.len() >= n ==> code_len(k.skip(n)) is Some && n
            + code_len(k.skip(n))->0 <= k.len()
}

/// The ids behind the encoded scalars of the keys between the bounds.
pub open spec fn coded_ids(m: Map<Seq<u8>, Seq<u8>>, lo: Bound, hi: Bound, n: int) -> Set<
    Seq<u8>,
> {
    Set::new(
        |id: Seq<u8>|
            exists|k: Seq<u8>| #[trigger]
                m.contains_key(k) && within(lo, hi, k) && k.len() >= n && id == shown(
                    id_after_code(k, n),
                ),
    )
}

/// The documents that have a scalar of the field that `want` asks for.
pub open spec fn ids_where(
    docs: Map<Seq<u8>, Doc>,
    field: Seq<u8>,
    want: spec_fn(Datum) -> bool,
) -> Set<Seq<u8>> {
    docs.dom().filter(
        |id: Seq<u8>|
            exists|d: Datum| #[trigger] reaches(docs[id].tree, segments(field), d) && want(d),
    )
}

/// A scalar that filters reach is a number where it claims to be one.
proof fn lemma_reached_number(t: Tree, path: Seq<Seq<u8>>, d: Datum)
    requires
        reaches(t, path, d),
    ensures
        d is Number ==> !is_nan(d->Number_0),
    decreases t,
{
    match t {
        Tree::List(items) => {
            let i = choose|i: int| 0 <= i < items.len() && reaches(#[trigger] items[i], path, d);
            lemma_reached_number(items[i], path, d);
        },
        Tree::Object(members) => {
            let i = crate::json::position(members, path[0]);
            lemma_reached_number(members[i].1, path.skip(1), d);
        },
        _ => {},
    }
}

/// Whether a key can only be one of the field's scalars.
pub open spec fn of_field(field: Seq<u8>, k: Seq<u8>) -> bool {
    starts(k, meta_base(field)) && k.len() > meta_base(field).len()
        && k[meta_base(field).len() as int] != PRESENT
}

/// Where the bounds cut out the wanted scalars of a field, the ids between
/// them are those of the documents that have such a scalar.
pub proof fn lemma_coded_ids(
    m: Map<Seq<u8>, Seq<u8>>,
    docs: Map<Seq<u8>, Doc>,
    ti: bool,
    field: Seq<u8>,
    lo: Bound,
    hi: Bound,
    want: spec_fn(Datum) -> bool,
)
    requires
        mirrors(m, docs, ti),
        !field.contains(0),
        forall|k: Seq<u8>| #[trigger] within(lo, hi, k) ==> of_field(field, k),
        forall|d: Datum, id: Seq<u8>|
            (d is Number ==> !is_nan(d->Number_0)) ==> #[trigger] within(
                lo,
                hi,
                value_key(field, encoding(d), id),
            ) == want(d),
    ensures
        codes_ok(m, lo, hi, meta_base(field).len() as int),
        coded_ids(m, lo, hi, meta_base(field).len() as int) == ids_where(docs, field, want),
{
    let n = meta_base(field).len() as int;
    assert forall|k: Seq<u8>| #[trigger]
        m.contains_key(k) && within(lo, hi, k) && k.len() >= n implies code_len(k.skip(n)) is Some
        && n + code_len(k.skip(n))->0 <= k.len() by {
        let (o, d) = lemma_coded_owner(m, docs, ti, field, k);
    }
    let all = coded_ids(m, lo, hi, n);
    let need = ids_where(docs, field, want);
    assert forall|id: Seq<u8>| all.contains(id) == need.contains(id) by {
        if all.contains(id) {
            let k = choose|k: Seq<u8>| #[trigger]
                m.contains_key(k) && within(lo, hi, k) && k.len() >= n && id == shown(
                    id_after_code(k, n),
                );
            let (o, d) = lemma_coded_owner(m, docs, ti, field, k);
            lemma_reached_number(docs[o].tree, segments(field), d);
            assert(want(d));
            assert(id == o);
        }
        if need.contains(id) {
            let t = docs[id].tree;
            let d = choose|d: Datum| #[trigger] reaches(t, segments(field), d) && want(d);
            lemma_reached_number(t, segments(field), d);
            law_values_agree_with_comparisons(t, field, d);
            let vs = values_of(doc_events(docs[id]));
            let i = choose|i: int| 0 <= i < vs.len() && vs[i] == (field, d);
            let p = (field, encoding(d));
            assert(place(vs[i]) == p);
            assert(has_place(vs, p));
            let k = value_key(field, encoding(d), id);
            assert(is_value_key(docs[id], id, k));
            assert(owns(docs[id], id, ti, k, Seq::empty()));
            assert(m.contains_key(k));
            assert(within(lo, hi, k));
            assert(k.skip(n) =~= encoding(d) + id);
            lemma_code_len(d, id);
            assert(id_after_code(k, n) =~= id);
        }
    }
    assert(all =~= need);
}

/// The document and the scalar that an index key of the field stands for.
proof fn lemma_coded_owner(
    m: Map<Seq<u8>, Seq<u8>>,
    docs: Map<Seq<u8>, Doc>,
    ti: bool,
    field: Seq<u8>,
    k: Seq<u8>,
) -> (r: (Seq<u8>, Datum))
    requires
        mirrors(m, docs, ti),
        !field.contains(0),
        m.contains_key(k),
        of_field(field, k),
    ensures
        docs.contains_key(r.0),
        doc_ok(docs[r.0], r.0),
        reaches(docs[r.0].tree, segments(field), r.1),
        k == value_key(field, encoding(r.1), r.0),
        code_len(k.skip(meta_base(field).len() as int)) == Some(encoding(r.1).len() as int),
        id_after_code(k, meta_base(field).len() as int) == r.0,
        meta_base(field).len() + encoding(r.1).len() <= k.len(),
{
    let base = meta_base(field);
    let n = base.len() as int;
    lemma_starts_split(k, base);
    let rest = k.skip(n);
    assert(k[0] == META);
    let o = lemma_meta_owner(m, docs, ti, k);
    let doc = docs[o];
    if is_present_key(doc, o, k) {
        let p = choose|p: Seq<u8>| #[trigger]
            paths_of(doc_events(doc)).contains(p) && k == present_key(p, o);
        lemma_path_no_nul(doc, p);
        assert(k =~= meta_base(p) + (seq![PRESENT] + o));
        lemma_meta_split(field, rest, p, seq![PRESENT] + o, k);
        assert(k[n] == rest[0]);
        assert(false);
    }
    let p = choose|p: (Seq<u8>, Seq<u8>)| #[trigger]
        has_place(values_of(doc_events(doc)), p) && k == value_key(p.0, p.1, o);
    assert(has_place(values_of(doc_events(doc)), (p.0, p.1)));
    lemma_path_no_nul(doc, p.0);
    assert(k =~= meta_base(p.0) + (p.1 + o));
    lemma_meta_split(field, rest, p.0, p.1 + o, k);
    let vs = values_of(doc_events(doc));
    let i = choose|i: int| 0 <= i < vs.len() && place(#[trigger] vs[i]) == p;
    let d = vs[i].1;
    assert(vs[i] == (field, d));
    assert(vs.contains((field, d)));
    law_values_agree_with_comparisons(doc.tree, field, d);
    lemma_code_len(d, o);
    assert(id_after_code(k, n) =~= o);
    (o, d)
}

// ---- bounds -----------------------------------------------------------------

/// The index keys of one scalar of a field start with this.
pub open spec fn scalar_base(field: Seq<u8>, v: Datum) -> Seq<u8> {
    meta_base(field) + encoding(v)
}

/// The index keys of one type of scalar of a field start with this.
pub open spec fn type_base(field: Seq<u8>, tag: u8) -> Seq<u8> {
    meta_base(field).push(tag)
}

/// A prefix that starts below `0xFF` has a successor.
pub proof fn lemma_has_successor(p: Seq<u8>)
    requires
        p.len() > 0,
        p[0] < 0xFF,
    ensures
        successor(p) is Some,
{
}

proof fn lemma_type_bounds(field: Seq<u8>, v: Datum)
    ensures
        successor(type_base(field, tag_of(v))) == Some(
            type_base(field, (tag_of(v) + 1) as u8),
        ),
        successor(scalar_base(field, v)) is Some,
        starts(scalar_base(field, v), type_base(field, tag_of(v))),
        starts(scalar_base(field, v), scalar_base(field, v)),
{
    let base = meta_base(field);
    crate::prefix::lemma_successor_step(base, tag_of(v));
    let at = scalar_base(field, v);
    assert(at[0] == META);
    lemma_has_successor(at);
    lemma_code_len(v, Seq::empty());
    assert(encoding(v) + Seq::<u8>::empty() =~= encoding(v));
    let t = type_base(field, tag_of(v));
    assert(at.subrange(0, t.len() as int) =~= t);
    assert(at.subrange(0, at.len() as int) =~= at);
}

/// Keys of one type of scalar are told by their tag.
proof fn lemma_typed(field: Seq<u8>, v: Datum, k: Seq<u8>)
    requires
        starts(k, type_base(field, tag_of(v))),
    ensures
        of_field(field, k),
        k[meta_base(field).len() as int] == tag_of(v),
{
    let base = meta_base(field);
    let t = type_base(field, tag_of(v));
    assert(k.subrange(0, base.len() as int) =~= k.subrange(0, t.len() as int).subrange(
        0,
        base.len() as int,
    ));
    assert(t.subrange(0, base.len() as int) =~= base);
    assert(k.subrange(0, t.len() as int)[base.len() as int] == tag_of(v));
}

/// How an index key stands to the keys of a scalar of the same type.
proof fn lemma_key_order(field: Seq<u8>, v: Datum, d: Datum, id: Seq<u8>)
    requires
        d is Number ==> !is_nan(d->Number_0),
        v is Number ==> !is_nan(v->Number_0),
    ensures
        ({
            let k = value_key(field, encoding(d), id);
            let at = scalar_base(field, v);
            let after = successor(at)->0;
            &&& starts(k, type_base(field, tag_of(v))) == (tag_of(d) == tag_of(v))
            &&& compared(d, v) is Some == (tag_of(d) == tag_of(v))
            &&& compared(d, v) == Some(Order::Less) ==> lex_lt(k, at)
            &&& compared(d, v) == Some(Order::Equal) ==> starts(k, at)
            &&& compared(d, v) == Some(Order::Greater) ==> lex_lt(at, k) && !starts(k, at)
            &&& starts(k, at) ==> compared(d, v) == Some(Order::Equal)
        }),
{
    let base = meta_base(field);
    let k = value_key(field, encoding(d), id);
    let at = scalar_base(field, v);
    assert(k =~= base + (encoding(d) + id));
    lemma_code_len(d, id);
    let t = type_base(field, tag_of(v));
    assert(k[base.len() as int] == (encoding(d) + id)[0]);
    if tag_of(d) == tag_of(v) {
        assert(k.subrange(0, t.len() as int) =~= t);
    } else if starts(k, t) {
        lemma_typed(field, v, k);
    }
    let none = Seq::<u8>::empty();
    assert(encoding(v) + none =~= encoding(v));
    if compared(d, v) == Some(Order::Less) {
        law_encoding_keeps_order(d, v, id, none);
        lemma_lex_common_prefix(base, encoding(d) + id, encoding(v));
    }
    if compared(d, v) == Some(Order::Equal) {
        law_equal_scalars_share_an_encoding(d, v);
        assert(k.subrange(0, at.len() as int) =~= at);
    }
    if compared(d, v) == Some(Order::Greater) {
        assert(compared(v, d) == Some(Order::Less)) by {
            match (d, v) {
                (Datum::Text(a), Datum::Text(b)) => {
                    lemma_lex_total(a, b);
                },
                _ => {},
            }
        }
        law_encoding_keeps_order(v, d, none, id);
        lemma_lex_common_prefix(base, encoding(v), encoding(d) + id);
    }
    if starts(k, at) {
        lemma_starts_split(k, at);
        let rest = k.skip(at.len() as int);
        assert(encoding(d) + id =~= k.skip(base.len() as int));
        assert(encoding(v) + rest =~= k.skip(base.len() as int));
        law_encoding_is_self_delimiting(d, v, id, rest);
    }
}

/// The bounds of one scalar of a field cut out the scalars equal to it.
pub proof fn lemma_equal_bounds(field: Seq<u8>, v: Datum, lo: Bound, hi: Bound)
    requires
        v is Number ==> !is_nan(v->Number_0),
        lo matches Bound::Included(b) && b@ == scalar_base(field, v),
        hi matches Bound::Excluded(b) && Some(b@) == successor(scalar_base(field, v)),
    ensures
        forall|k: Seq<u8>| #[trigger] within(lo, hi, k) ==> of_field(field, k),
        forall|d: Datum, id: Seq<u8>|
            (d is Number ==> !is_nan(d->Number_0)) ==> #[trigger] within(
                lo,
                hi,
                value_key(field, encoding(d), id),
            ) == (compared(d, v) == Some(Order::Equal)),
{
    let at = scalar_base(field, v);
    assert forall|k: Seq<u8>| #[trigger] within(lo, hi, k) implies of_field(field, k) by {
        law_successor_ends_the_prefix(at, k);
        lemma_type_bounds(field, v);
        let t = type_base(field, tag_of(v));
        assert(k.subrange(0, t.len() as int) =~= k.subrange(0, at.len() as int).subrange(
            0,
            t.len() as int,
        ));
        lemma_typed(field, v, k);
    }
    assert forall|d: Datum, id: Seq<u8>| (d is Number ==> !is_nan(d->Number_0)) implies #[trigger]
        within(lo, hi, value_key(field, encoding(d), id)) == (compared(d, v) == Some(
        Order::Equal,
    )) by {
        let k = value_key(field, encoding(d), id);
        law_successor_ends_the_prefix(at, k);
        lemma_key_order(field, v, d, id);
    }
}

/// The bounds that each range operator reads between.
pub open spec fn range_bounds(field: Seq<u8>, op: RangeOp, v: Datum, lo: Bound, hi: Bound) -> bool {
    let at = scalar_base(field, v);
    let after = successor(at)->0;
    let low = type_base(field, tag_of(v));
    let high = type_base(field, (tag_of(v) + 1) as u8);
    &&& lo matches Bound::Included(a)
    &&& hi matches Bound::Excluded(b)
    &&& match op {
        RangeOp::Gt => a@ == after && b@ == high,
        RangeOp::Gte => a@ == at && b@ == high,
        RangeOp::Lt => a@ == low && b@ == at,
        RangeOp::Lte => a@ == low && b@ == after,
    }
}

proof fn lemma_le_lt(a: Seq<u8>, b: Seq<u8>, c: Seq<u8>)
    requires
        lex_le(a, b),
        lex_lt(b, c),
    ensures
        lex_lt(a, c),
{
    if a != b {
        lemma_lex_transitive(a, b, c);
    }
}

proof fn lemma_le_trans(a: Seq<u8>, b: Seq<u8>, c: Seq<u8>)
    requires
        lex_le(a, b),
        lex_le(b, c),
    ensures
        lex_le(a, c),
{
    if a != b && b != c {
        lemma_lex_transitive(a, b, c);
    }
}

proof fn lemma_le_total(a: Seq<u8>, b: Seq<u8>)
    ensures
        lex_le(a, b) == !lex_lt(b, a),
{
    lemma_lex_total(a, b);
    lemma_lex_irreflexive(a);
    if lex_lt(a, b) {
        lemma_lex_asymmetric(a, b);
    }
    if lex_lt(b, a) {
        lemma_lex_asymmetric(b, a);
    }
}

/// Keys in a range are of the operand's type.
proof fn lemma_range_typed(
    field: Seq<u8>,
    op: RangeOp,
    v: Datum,
    lo: Bound,
    hi: Bound,
    k: Seq<u8>,
)
    requires
        range_bounds(field, op, v, lo, hi),
        within(lo, hi, k),
    ensures
        starts(k, type_base(field, tag_of(v))),
{
    let at = scalar_base(field, v);
    let after = successor(at)->0;
    let low = type_base(field, tag_of(v));
    let high = type_base(field, (tag_of(v) + 1) as u8);
    lemma_type_bounds(field, v);
    law_successor_ends_the_prefix(low, at);
    law_successor_ends_the_prefix(at, at);
    law_successor_ends_the_prefix(low, k);
    law_successor_ends_the_prefix(at, k);
    match op {
        RangeOp::Gt => {
            lemma_le_trans(low, at, after);
            lemma_le_trans(low, after, k);
        },
        RangeOp::Gte => {
            lemma_le_trans(low, at, k);
        },
        RangeOp::Lt => {
            lemma_lex_transitive(k, at, high);
        },
        RangeOp::Lte => {
            lemma_le_total(at, k);
            if lex_lt(k, at) {
                lemma_lex_transitive(k, at, high);
            } else {
                assert(starts(k, at));
                assert(k.subrange(0, low.len() as int) =~= k.subrange(
                    0,
                    at.len() as int,
                ).subrange(0, low.len() as int));
            }
        },
    }
}

/// The bounds of a range cut out the scalars in it.
pub proof fn lemma_range_bounds(field: Seq<u8>, op: RangeOp, v: Datum, lo: Bound, hi: Bound)
    requires
        v is Number ==> !is_nan(v->Number_0),
        range_bounds(field, op, v, lo, hi),
    ensures
        forall|k: Seq<u8>| #[trigger] within(lo, hi, k) ==> of_field(field, k),
        forall|d: Datum, id: Seq<u8>|
            (d is Number ==> !is_nan(d->Number_0)) ==> #[trigger] within(
                lo,
                hi,
                value_key(field, encoding(d), id),
            ) == in_range(op, compared(d, v)),
{
    assert forall|k: Seq<u8>| #[trigger] within(lo, hi, k) implies of_field(field, k) by {
        lemma_range_typed(field, op, v, lo, hi, k);
        lemma_typed(field, v, k);
    }
    assert forall|d: Datum, id: Seq<u8>| (d is Number ==> !is_nan(d->Number_0)) implies #[trigger]
        within(lo, hi, value_key(field, encoding(d), id)) == in_range(op, compared(d, v)) by {
        let k = value_key(field, encoding(d), id);
        let at = scalar_base(field, v);
        let after = successor(at)->0;
        let low = type_base(field, tag_of(v));
        lemma_key_order(field, v, d, id);
        lemma_type_bounds(field, v);
        law_successor_ends_the_prefix(low, k);
        law_successor_ends_the_prefix(at, k);
        law_successor_ends_the_prefix(at, at);
        lemma_le_total(at, k);
        lemma_le_total(k, at);
        lemma_le_total(after, k);
        if within(lo, hi, k) {
            lemma_range_typed(field, op, v, lo, hi, k);
        }
        if compared(d, v) == Some(Order::Less) {
            lemma_lex_transitive(k, at, after);
        }
    }
}


// ---- changes ----------------------------------------------------------------

/// `k` is a posting's key of the document.
pub open spec fn is_term_key(d: Doc, id: Seq<u8>, k: Seq<u8>) -> bool {
    d.record.text is Some && exists|t: Seq<u8>| #[trigger]
        terms_of(d.record.text->0).contains(t) && k == term_key(t, id)
}

/// `k` is one of the document's index keys.
pub open spec fn index_owned(d: Doc, id: Seq<u8>, ti: bool, k: Seq<u8>) -> bool {
    is_value_key(d, id, k) || is_present_key(d, id, k) || (ti && is_term_key(d, id, k))
}

/// `n` is `m` without the document's index keys.
pub open spec fn cleared(
    m: Map<Seq<u8>, Seq<u8>>,
    n: Map<Seq<u8>, Seq<u8>>,
    d: Doc,
    id: Seq<u8>,
    ti: bool,
) -> bool {
    &&& forall|k: Seq<u8>| #[trigger]
        n.contains_key(k) == (m.contains_key(k) && !index_owned(d, id, ti, k))
    &&& forall|k: Seq<u8>| #[trigger] n.contains_key(k) ==> n[k] == m[k]
}

/// `n` is `m` with what the document owns.
pub open spec fn laid(
    m: Map<Seq<u8>, Seq<u8>>,
    n: Map<Seq<u8>, Seq<u8>>,
    d: Doc,
    id: Seq<u8>,
    ti: bool,
) -> bool {
    &&& forall|k: Seq<u8>, v: Seq<u8>| #[trigger]
        owns(d, id, ti, k, v) ==> n.contains_key(k) && n[k] == v
    &&& forall|k: Seq<u8>| #[trigger]
        n.contains_key(k) ==> (m.contains_key(k) && n[k] == m[k]) || owns(d, id, ti, k, n[k])
    &&& forall|k: Seq<u8>| #[trigger] m.contains_key(k) ==> n.contains_key(k)
}

proof fn lemma_value_key_id(d: Doc, id: Seq<u8>, k: Seq<u8>) -> (r: (Seq<u8>, Datum))
    requires
        doc_ok(d, id),
        is_value_key(d, id, k),
    ensures
        k == meta_base(r.0) + (encoding(r.1) + id),
        !r.0.contains(0),
        r.1 is Number ==> !is_nan(r.1->Number_0),
        encoding(r.1).len() > 0,
        (encoding(r.1) + id)[0] == tag_of(r.1),
{
    let p = choose|p: (Seq<u8>, Seq<u8>)| #[trigger]
        has_place(values_of(doc_events(d)), p) && k == value_key(p.0, p.1, id);
    assert(has_place(values_of(doc_events(d)), (p.0, p.1)));
    lemma_path_no_nul(d, p.0);
    let vs = values_of(doc_events(d));
    let i = choose|i: int| 0 <= i < vs.len() && place(#[trigger] vs[i]) == p;
    let x = vs[i].1;
    assert(vs.contains((p.0, x)));
    law_values_agree_with_comparisons(d.tree, p.0, x);
    lemma_reached_number(d.tree, segments(p.0), x);
    lemma_code_len(x, id);
    assert(k =~= meta_base(p.0) + (encoding(x) + id));
    (p.0, x)
}

proof fn lemma_present_key_id(d: Doc, id: Seq<u8>, k: Seq<u8>) -> (f: Seq<u8>)
    requires
        doc_ok(d, id),
        is_present_key(d, id, k),
    ensures
        k == meta_base(f) + (seq![PRESENT] + id),
        !f.contains(0),
{
    let p = choose|p: Seq<u8>| #[trigger]
        paths_of(doc_events(d)).contains(p) && k == present_key(p, id);
    lemma_path_no_nul(d, p);
    assert(k =~= meta_base(p) + (seq![PRESENT] + id));
    p
}

/// A metadata key belongs to one document.
proof fn lemma_meta_key_id(a: Doc, x: Seq<u8>, b: Doc, y: Seq<u8>, k: Seq<u8>)
    requires
        doc_ok(a, x),
        doc_ok(b, y),
        is_value_key(a, x, k) || is_present_key(a, x, k),
        is_value_key(b, y, k) || is_present_key(b, y, k),
    ensures
        x == y,
{
    if is_value_key(a, x, k) {
        let (f, d) = lemma_value_key_id(a, x, k);
        if is_value_key(b, y, k) {
            let (g, e) = lemma_value_key_id(b, y, k);
            lemma_meta_split(f, encoding(d) + x, g, encoding(e) + y, k);
            law_encoding_is_self_delimiting(d, e, x, y);
        } else {
            let g = lemma_present_key_id(b, y, k);
            lemma_meta_split(f, encoding(d) + x, g, seq![PRESENT] + y, k);
            assert((seq![PRESENT] + y)[0] == PRESENT);
        }
    } else {
        let f = lemma_present_key_id(a, x, k);
        if is_value_key(b, y, k) {
            let (g, e) = lemma_value_key_id(b, y, k);
            lemma_meta_split(f, seq![PRESENT] + x, g, encoding(e) + y, k);
            assert((seq![PRESENT] + x)[0] == PRESENT);
        } else {
            let g = lemma_present_key_id(b, y, k);
            lemma_meta_split(f, seq![PRESENT] + x, g, seq![PRESENT] + y, k);
            assert((seq![PRESENT] + x).skip(1) =~= x);
            assert((seq![PRESENT] + y).skip(1) =~= y);
        }
    }
}

/// A posting's key names its term and its document.
pub proof fn lemma_term_key_id(s: Seq<u8>, x: Seq<u8>, t: Seq<u8>, y: Seq<u8>)
    requires
        id_ok(x),
        id_ok(y),
        term_key(s, x) == term_key(t, y),
    ensures
        s == t,
        x == y,
{
    lemma_id_no_nul(x);
    lemma_id_no_nul(y);
    assert(term_key(s, x).skip(1) =~= s + seq![0u8] + x);
    assert(term_key(t, y).skip(1) =~= t + seq![0u8] + y);
    lemma_split_at_last_nul(s, x, t, y);
}

/// What a document owns under a key, index keys included.
pub open spec fn holds_key(d: Doc, id: Seq<u8>, ti: bool, k: Seq<u8>) -> bool {
    k == doc_key(id) || k == ids_key(id) || index_owned(d, id, ti, k)
}

/// A document holds a key exactly where it owns something under it.
pub proof fn lemma_holds_key(d: Doc, id: Seq<u8>, ti: bool, k: Seq<u8>)
    ensures
        holds_key(d, id, ti, k) == exists|v: Seq<u8>| #[trigger] owns(d, id, ti, k, v),
{
    if holds_key(d, id, ti, k) {
        if k == doc_key(id) {
            assert(owns(d, id, ti, k, record_bytes(d.record)));
        } else if k == ids_key(id) || is_value_key(d, id, k) || is_present_key(d, id, k) {
            assert(owns(d, id, ti, k, Seq::empty()));
        } else {
            let ts = terms_of(d.record.text->0);
            let t = choose|t: Seq<u8>| #[trigger] ts.contains(t) && k == term_key(t, id);
            let v = posting(occurrences(ts, t), d.record.text_len);
            assert(is_posting(d, id, k, v));
            assert(owns(d, id, ti, k, v));
        }
    }
    if exists|v: Seq<u8>| #[trigger] owns(d, id, ti, k, v) {
        let v = choose|v: Seq<u8>| #[trigger] owns(d, id, ti, k, v);
        if ti && is_posting(d, id, k, v) {
            let ts = terms_of(d.record.text->0);
            let t = choose|t: Seq<u8>| #[trigger]
                ts.contains(t) && k == term_key(t, id) && v == posting(
                    occurrences(ts, t),
                    d.record.text_len,
                );
            assert(is_term_key(d, id, k));
        }
    }
}

proof fn lemma_held_tags(d: Doc, id: Seq<u8>, ti: bool, k: Seq<u8>)
    requires
        holds_key(d, id, ti, k),
    ensures
        k.len() > 0,
        k[0] >= DOC,
        k == doc_key(id) <==> k[0] == DOC,
        k == ids_key(id) <==> k[0] == IDS,
        (is_value_key(d, id, k) || is_present_key(d, id, k)) <==> k[0] == META,
        ti && is_term_key(d, id, k) <==> k[0] == TERM,
{
    lemma_key_tags(d, id, k, Seq::empty());
    if is_term_key(d, id, k) {
        let ts = terms_of(d.record.text->0);
        let t = choose|t: Seq<u8>| #[trigger] ts.contains(t) && k == term_key(t, id);
        assert(term_key(t, id)[0] == TERM);
    }
}

/// No two documents hold one key.
pub proof fn lemma_key_has_one_owner(a: Doc, x: Seq<u8>, b: Doc, y: Seq<u8>, ti: bool, k: Seq<u8>)
    requires
        doc_ok(a, x),
        doc_ok(b, y),
        holds_key(a, x, ti, k),
        holds_key(b, y, ti, k),
    ensures
        x == y,
{
    lemma_held_tags(a, x, ti, k);
    lemma_held_tags(b, y, ti, k);
    if k[0] == DOC {
        assert(doc_key(x).skip(1) =~= x);
        assert(doc_key(y).skip(1) =~= y);
    } else if k[0] == IDS {
        assert(ids_key(x).skip(1) =~= x);
        assert(ids_key(y).skip(1) =~= y);
    } else if k[0] == META {
        lemma_meta_key_id(a, x, b, y, k);
    } else {
        let s = choose|t: Seq<u8>| #[trigger]
            terms_of(a.record.text->0).contains(t) && k == term_key(t, x);
        let t = choose|t: Seq<u8>| #[trigger]
            terms_of(b.record.text->0).contains(t) && k == term_key(t, y);
        lemma_term_key_id(s, x, t, y);
    }
}

/// A document owns one value under a key.
pub proof fn lemma_owns_one(d: Doc, id: Seq<u8>, ti: bool, k: Seq<u8>, u: Seq<u8>, v: Seq<u8>)
    requires
        id_ok(id),
        owns(d, id, ti, k, u),
        owns(d, id, ti, k, v),
    ensures
        u == v,
{
    lemma_holds_key(d, id, ti, k);
    lemma_held_tags(d, id, ti, k);
    lemma_key_tags(d, id, k, u);
    lemma_key_tags(d, id, k, v);
    if k[0] == TERM {
        let ts = terms_of(d.record.text->0);
        let s = choose|t: Seq<u8>| #[trigger]
            ts.contains(t) && k == term_key(t, id) && u == posting(
                occurrences(ts, t),
                d.record.text_len,
            );
        let t = choose|t: Seq<u8>| #[trigger]
            ts.contains(t) && k == term_key(t, id) && v == posting(
                occurrences(ts, t),
                d.record.text_len,
            );
        lemma_term_key_id(s, id, t, id);
    } else if k[0] != DOC {
        assert(u =~= v);
    }
}

/// Clearing what a document had in the index and laying down what it has now
/// replaces it.
pub proof fn lemma_replaced(
    m: Map<Seq<u8>, Seq<u8>>,
    between: Map<Seq<u8>, Seq<u8>>,
    n: Map<Seq<u8>, Seq<u8>>,
    docs: Map<Seq<u8>, Doc>,
    id: Seq<u8>,
    d: Doc,
    ti: bool,
)
    requires
        mirrors(m, docs, ti),
        doc_ok(d, id),
        docs.contains_key(id) ==> cleared(m, between, docs[id], id, ti),
        !docs.contains_key(id) ==> between == m,
        laid(between, n, d, id, ti),
    ensures
        mirrors(n, docs.insert(id, d), ti),
{
    let now = docs.insert(id, d);
    assert forall|x: Seq<u8>, k: Seq<u8>, v: Seq<u8>|
        now.contains_key(x) && #[trigger] owns(now[x], x, ti, k, v) implies n.contains_key(k)
        && n[k] == v by {
        if x != id {
            assert(docs.contains_key(x) && now[x] == docs[x]);
            assert(owns(docs[x], x, ti, k, v));
            assert(m.contains_key(k) && m[k] == v);
            lemma_holds_key(docs[x], x, ti, k);
            if docs.contains_key(id) && index_owned(docs[id], id, ti, k) {
                lemma_key_has_one_owner(docs[x], x, docs[id], id, ti, k);
            }
            assert(between.contains_key(k) && between[k] == v);
            if owns(d, id, ti, k, n[k]) {
                lemma_holds_key(d, id, ti, k);
                lemma_key_has_one_owner(docs[x], x, d, id, ti, k);
            }
        }
    }
    assert forall|k: Seq<u8>| #[trigger] n.contains_key(k) && document_key(k) implies exists|
        x: Seq<u8>,
    |
        now.contains_key(x) && #[trigger] owns(now[x], x, ti, k, n[k]) by {
        if owns(d, id, ti, k, n[k]) {
            assert(owns(now[id], id, ti, k, n[k]));
        } else {
            assert(between.contains_key(k) && n[k] == between[k]);
            assert(m.contains_key(k) && m[k] == n[k]);
            let o = lemma_owner(m, docs, ti, k);
            if o == id {
                lemma_holds_key(docs[id], id, ti, k);
                assert(!index_owned(docs[id], id, ti, k));
                lemma_holds_key(d, id, ti, k);
                assert(holds_key(d, id, ti, k));
                let v = choose|v: Seq<u8>| #[trigger] owns(d, id, ti, k, v);
                assert(n[k] == v);
            } else {
                assert(owns(now[o], o, ti, k, n[k]));
            }
        }
    }
}

/// Clearing what a document has in the index and dropping its record and its
/// listing removes it.
pub proof fn lemma_removed(
    m: Map<Seq<u8>, Seq<u8>>,
    between: Map<Seq<u8>, Seq<u8>>,
    docs: Map<Seq<u8>, Doc>,
    id: Seq<u8>,
    ti: bool,
)
    requires
        mirrors(m, docs, ti),
        docs.contains_key(id),
        cleared(m, between, docs[id], id, ti),
    ensures
        mirrors(between.remove(doc_key(id)).remove(ids_key(id)), docs.remove(id), ti),
{
    let n = between.remove(doc_key(id)).remove(ids_key(id));
    let now = docs.remove(id);
    assert forall|x: Seq<u8>, k: Seq<u8>, v: Seq<u8>|
        now.contains_key(x) && #[trigger] owns(now[x], x, ti, k, v) implies n.contains_key(k)
        && n[k] == v by {
        assert(docs.contains_key(x) && now[x] == docs[x]);
        assert(owns(docs[x], x, ti, k, v));
        assert(m.contains_key(k) && m[k] == v);
        lemma_holds_key(docs[x], x, ti, k);
        if holds_key(docs[id], id, ti, k) {
            lemma_key_has_one_owner(docs[x], x, docs[id], id, ti, k);
        }
        assert(x != id);
        assert(!holds_key(docs[id], id, ti, k));
        assert(!index_owned(docs[id], id, ti, k));
        assert(between.contains_key(k));
        assert(between[k] == v);
    }
    assert forall|k: Seq<u8>| #[trigger] n.contains_key(k) && document_key(k) implies exists|
        x: Seq<u8>,
    |
        now.contains_key(x) && #[trigger] owns(now[x], x, ti, k, n[k]) by {
        assert(between.contains_key(k));
        assert(m.contains_key(k) && m[k] == n[k]);
        let o = lemma_owner(m, docs, ti, k);
        if o == id {
            lemma_holds_key(docs[id], id, ti, k);
        }
        assert(owns(now[o], o, ti, k, n[k]));
    }
}

/// The keys of the collection itself are nobody's.
pub proof fn lemma_own_keys(
    m: Map<Seq<u8>, Seq<u8>>,
    docs: Map<Seq<u8>, Doc>,
    ti: bool,
    key: Seq<u8>,
    value: Seq<u8>,
)
    requires
        mirrors(m, docs, ti),
        !document_key(key),
    ensures
        mirrors(m.insert(key, value), docs, ti),
        mirrors(m.remove(key), docs, ti),
{
    let (n, r) = (m.insert(key, value), m.remove(key));
    assert forall|x: Seq<u8>, k: Seq<u8>, v: Seq<u8>|
        docs.contains_key(x) && #[trigger] owns(docs[x], x, ti, k, v) implies n.contains_key(k)
        && n[k] == v && r.contains_key(k) && r[k] == v by {
        lemma_holds_key(docs[x], x, ti, k);
        lemma_held_tags(docs[x], x, ti, k);
    }
    assert forall|k: Seq<u8>| #[trigger] n.contains_key(k) && document_key(k) implies exists|
        x: Seq<u8>,
    |
        docs.contains_key(x) && #[trigger] owns(docs[x], x, ti, k, n[k]) by {
        let o = lemma_owner(m, docs, ti, k);
    }
    assert forall|k: Seq<u8>| #[trigger] r.contains_key(k) && document_key(k) implies exists|
        x: Seq<u8>,
    |
        docs.contains_key(x) && #[trigger] owns(docs[x], x, ti, k, r[k]) by {
        let o = lemma_owner(m, docs, ti, k);
    }
}

/// An empty store mirrors no documents.
pub proof fn law_empty_store_mirrors_nothing(ti: bool)
    ensures
        mirrors(Map::empty(), Map::empty(), ti),
{
}

} // verus!
