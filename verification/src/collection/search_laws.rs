//! What searches may ask, what the text index tells them, and what opening a
//! collection repairs.

use crate::collection::api::{ends_vectorless, lost_by};
use crate::collection::documents::{
    applied, law_last_occurrence_wins, law_other_documents_stay, loses_vector, record_of,
    single_finite, Config, Document,
};
use crate::collection::filter::Query;
use crate::collection::keys::open_key;
use crate::collection::mirror::Doc;
use crate::collection::opening::{missing_of, orphans_of, repairs};
use crate::collection::search::{
    has_text, posts, request_ok, request_query, rounds_into_unit, Posting, SearchRequest,
};
use crate::collection::text::{occurrences, terms_of};
use crate::collection::wire::{batch_stated, realises, stated, used};
use crate::json::{utf8, Tree};
use vstd::prelude::*;

verus! {

/// A search may ask for up to ten thousand results. One with an embedding needs
/// a collection that has embeddings, and as many finite numbers as it has
/// dimensions. What it does not say restricts nothing.
pub proof fn law_searches_are_checked(req: SearchRequest, dim: int)
    ensures
        req.k > 10_000 ==> !request_ok(req, dim),
        req.vector is Some && dim == 0 ==> !request_ok(req, dim),
        req.vector is Some && req.vector->0@.len() != dim ==> !request_ok(req, dim),
        req.vector is Some && (exists|i: int|
            0 <= i < req.vector->0@.len() && (#[trigger] req.vector->0@[i]) % 0x8000_0000
                >= 0x7F80_0000) ==> !request_ok(req, dim),
        req.k <= 10_000 && req.mmr is None && req.vector is None ==> request_ok(req, dim),
        req.k <= 10_000 && req.vector is None && req.mmr is Some ==> request_ok(req, dim)
            == rounds_into_unit(req.mmr->0),
        req.k <= 10_000 && req.mmr is None && req.vector is Some && dim > 0
            && req.vector->0@.len() == dim && (forall|i: int|
            0 <= i < dim ==> (#[trigger] req.vector->0@[i]) % 0x8000_0000 < 0x7F80_0000)
            ==> request_ok(req, dim),
        req.filter is None ==> request_query(req) == Query::All,
        req.text is None ==> !has_text(req),
{
    if req.vector is Some && exists|i: int|
        0 <= i < req.vector->0@.len() && (#[trigger] req.vector->0@[i]) % 0x8000_0000
            >= 0x7F80_0000 {
        let i = choose|i: int|
            0 <= i < req.vector->0@.len() && (#[trigger] req.vector->0@[i]) % 0x8000_0000
                >= 0x7F80_0000;
        assert(!single_finite(req.vector->0@[i]));
    }
}

/// A text is as long as it has terms, if texts are indexed, and of no length
/// if they are not or there is none.
pub proof fn law_lengths_count_terms(d: Document, ti: bool)
    ensures
        ti && d.text is Some && terms_of(d.text->0@).len() <= u32::MAX ==> record_of(
            d,
            ti,
        ).text_len == terms_of(d.text->0@).len(),
        !ti || d.text is None ==> record_of(d, ti).text_len == 0,
        record_of(d, ti).has_vector == d.vector is Some,
        record_of(d, ti).text is Some == d.text is Some,
{
}

/// A posting names a document with the term, and tells how often it has it and
/// how long its text is.
pub proof fn law_postings_count_the_term(p: Posting, docs: Map<Seq<u8>, Doc>, term: Seq<u8>)
    requires
        posts(p, docs, term),
    ensures
        docs.contains_key(p.id@),
        docs[p.id@].record.text is Some,
        terms_of(docs[p.id@].record.text->0).contains(term),
        occurrences(terms_of(docs[p.id@].record.text->0), term) <= u32::MAX ==> p.count
            == occurrences(terms_of(docs[p.id@].record.text->0), term),
        p.len == docs[p.id@].record.text_len,
{
}

/// The embeddings of a batch lie one behind the other, in the order of their
/// documents and without gaps: the first one lies at the start, each next one
/// where the one before it ends, and there must be as many numbers as all of
/// them take.
pub proof fn law_embeddings_lie_side_by_side(
    items: Seq<Tree>,
    floats: Seq<u32>,
    dim: int,
    i: int,
    j: int,
    d: Document,
)
    requires
        dim >= 0,
        0 <= i < j <= items.len(),
        stated(items[i]) is Some,
        forall|k: int|
            i < k < j && stated(#[trigger] items[k]) is Some ==> !stated(items[k])->0.has_vector,
    ensures
        stated(items[i])->0.has_vector ==> used(items, dim, j) == used(items, dim, i) + dim,
        !stated(items[i])->0.has_vector ==> used(items, dim, j) == used(items, dim, i),
        used(items, dim, 0) == 0,
        batch_stated(Tree::List(items), floats.len() as int, dim) ==> used(
            items,
            dim,
            items.len() as int,
        ) == floats.len(),
        realises(d, stated(items[i])->0, floats, used(items, dim, i), dim) && stated(
            items[i],
        )->0.has_vector && 0 <= used(items, dim, i) && used(items, dim, i) + dim <= floats.len()
            ==> d.vector is Some && d.vector->0@.len() == dim && forall|x: int|
            0 <= x < dim ==> #[trigger] d.vector->0@[x] == floats[used(items, dim, i) + x],
        realises(d, stated(items[i])->0, floats, used(items, dim, i), dim) && !stated(
            items[i],
        )->0.has_vector ==> d.vector is None,
    decreases j,
{
    if j > i + 1 {
        law_embeddings_lie_side_by_side(items, floats, dim, i, j - 1, d);
        assert(stated(items[j - 1]) is Some ==> !stated(items[j - 1])->0.has_vector);
    }
}

/// A batch has an embedding removed where its last document of an id has none
/// and one was there before: a stored one, or one that the batch itself brought.
/// Where the last document brings one, where the batch does not name the id, or
/// where there never was one, none is removed.
pub proof fn law_stale_embeddings_are_removed(
    docs: Map<Seq<u8>, Doc>,
    batch: Seq<Document>,
    ti: bool,
    id: Seq<u8>,
    last: int,
)
    requires
        0 <= last < batch.len(),
        utf8(batch[last].id) == id,
        forall|j: int| last < j < batch.len() ==> utf8((#[trigger] batch[j]).id) != id,
    ensures
        ends_vectorless(batch, id) == batch[last].vector is None,
        batch[last].vector is None && (docs.contains_key(id) && docs[id].record.has_vector
            || exists|i: int|
            0 <= i < last && utf8((#[trigger] batch[i]).id) == id && batch[i].vector is Some)
            ==> lost_by(docs, batch, batch.len() as int, ti, id),
        !(docs.contains_key(id) && docs[id].record.has_vector) && (forall|i: int|
            0 <= i < last && utf8((#[trigger] batch[i]).id) == id ==> batch[i].vector is None)
            ==> !lost_by(docs, batch, batch.len() as int, ti, id),
{
    if ends_vectorless(batch, id) {
        let i = choose|i: int|
            0 <= i < batch.len() && utf8((#[trigger] batch[i]).id) == id && batch[i].vector is None
                && forall|j: int| i < j < batch.len() ==> utf8((#[trigger] batch[j]).id) != id;
        assert(i == last);
    }
    if batch[last].vector is None && (docs.contains_key(id) && docs[id].record.has_vector
        || exists|i: int|
        0 <= i < last && utf8((#[trigger] batch[i]).id) == id && batch[i].vector is Some) {
        lemma_lost(docs, batch, ti, id, last);
    }
    let never = !(docs.contains_key(id) && docs[id].record.has_vector) && forall|i: int|
        0 <= i < last && utf8((#[trigger] batch[i]).id) == id ==> batch[i].vector is None;
    if never && lost_by(docs, batch, batch.len() as int, ti, id) {
        let i = choose|i: int|
            0 <= i < batch.len() && utf8((#[trigger] batch[i]).id) == id && loses_vector(
                docs,
                batch,
                i,
                ti,
            );
        assert(i <= last);
        lemma_never(docs, batch, ti, id, i);
    }
}

/// Some document up to `last` takes the embedding away.
proof fn lemma_lost(
    docs: Map<Seq<u8>, Doc>,
    batch: Seq<Document>,
    ti: bool,
    id: Seq<u8>,
    last: int,
)
    requires
        0 <= last < batch.len(),
        utf8(batch[last].id) == id,
        batch[last].vector is None,
        docs.contains_key(id) && docs[id].record.has_vector || exists|i: int|
            0 <= i < last && utf8((#[trigger] batch[i]).id) == id && batch[i].vector is Some,
    ensures
        lost_by(docs, batch, batch.len() as int, ti, id),
    decreases last,
{
    if exists|p: int|
        0 <= p < last && utf8((#[trigger] batch[p]).id) == id && forall|j: int|
            p < j < last ==> utf8((#[trigger] batch[j]).id) != id {
        let p = choose|p: int|
            0 <= p < last && utf8((#[trigger] batch[p]).id) == id && forall|j: int|
                p < j < last ==> utf8((#[trigger] batch[j]).id) != id;
        law_last_occurrence_wins(docs, batch, p, last, ti);
        if batch[p].vector is Some {
            assert(loses_vector(docs, batch, last, ti));
        } else {
            if exists|i: int|
                0 <= i < last && utf8((#[trigger] batch[i]).id) == id && batch[i].vector is Some {
                let i = choose|i: int|
                    0 <= i < last && utf8((#[trigger] batch[i]).id) == id && batch[i].vector is Some;
                assert(i < p);
            }
            lemma_lost(docs, batch, ti, id, p);
        }
    } else {
        assert forall|j: int| 0 <= j < last implies utf8((#[trigger] batch[j]).id) != id by {
            if utf8(batch[j].id) == id {
                lemma_latest(batch, id, j, last);
            }
        }
        law_other_documents_stay(docs, batch, id, last, ti);
        assert(loses_vector(docs, batch, last, ti));
    }
}

/// Where a document has an id, there is a last one before `n`.
proof fn lemma_latest(batch: Seq<Document>, id: Seq<u8>, i: int, n: int)
    requires
        0 <= i < n <= batch.len(),
        utf8(batch[i].id) == id,
    ensures
        exists|p: int|
            0 <= p < n && utf8((#[trigger] batch[p]).id) == id && forall|j: int|
                p < j < n ==> utf8((#[trigger] batch[j]).id) != id,
    decreases n - i,
{
    if exists|j: int| i < j < n && utf8((#[trigger] batch[j]).id) == id {
        let j = choose|j: int| i < j < n && utf8((#[trigger] batch[j]).id) == id;
        lemma_latest(batch, id, j, n);
    }
}

/// A document that nothing gave an embedding has none.
proof fn lemma_never(
    docs: Map<Seq<u8>, Doc>,
    batch: Seq<Document>,
    ti: bool,
    id: Seq<u8>,
    n: int,
)
    requires
        0 <= n <= batch.len(),
        !(docs.contains_key(id) && docs[id].record.has_vector),
        forall|i: int| 0 <= i < n && utf8((#[trigger] batch[i]).id) == id ==> batch[i].vector is None,
    ensures
        !(applied(docs, batch, n, ti).contains_key(id) && applied(
            docs,
            batch,
            n,
            ti,
        )[id].record.has_vector),
    decreases n,
{
    if n > 0 {
        lemma_never(docs, batch, ti, id, n - 1);
        if utf8(batch[n - 1].id) == id {
            assert(batch[n - 1].vector is None);
        }
    }
}

/// Opening a collection that was closed repairs nothing, and so does opening
/// one without embeddings. Otherwise each embedding without a document and each
/// document that lacks its embedding counts as one repair.
pub proof fn law_repairs_are_counted(
    m: Map<Seq<u8>, Seq<u8>>,
    docs: Map<Seq<u8>, Doc>,
    config: Config,
    ids: Seq<Seq<u8>>,
)
    requires
        docs.dom().finite(),
    ensures
        !m.contains_key(open_key()) || config.dim == 0 ==> repairs(m, docs, config, ids) == 0,
        m.contains_key(open_key()) && config.dim > 0 && orphans_of(docs, ids).len() + missing_of(
            docs,
            ids,
        ).len() <= u64::MAX ==> repairs(m, docs, config, ids) == orphans_of(docs, ids).len()
            + missing_of(docs, ids).len(),
        open_key() == seq![0x10u8, 0x6Fu8, 0x70u8, 0x65u8, 0x6Eu8],
{
}

} // verus!
