//! The collection: writes that keep its index, and the reads it serves.

use crate::bytes::{
    begins,
    copy_bytes, lemma_lex_asymmetric, lemma_lex_irreflexive, lemma_lex_total, lex_lt, same,
};
use crate::collection::documents::{
    accepted, all_faithful, applied, clean_terms, counters, counters_of, doc_of, faithful, keeps,
    lemma_counters, lemma_push_contains, lemma_replaceable, lemma_settles, lemma_stored,
    lemma_tally_removed, loses_vector, meta_tree, parse_metadata, prepare, prepared, record_in,
    replace, replaceable, reread, roomy, settled, settled_doc, settles, swappable, tally,
    total_terms, unindex, with_text, Config, Document, Prepared,
};
use crate::collection::filter::{Filter, Query};
use crate::collection::index::{all_ids, eval, query_ok, selected};
use crate::collection::keys::{doc_key, ids_key, key, stats_key, stats_key_bytes, DOC, IDS};
use crate::collection::mirror::{
    document_key, lemma_all_writable, lemma_own_keys, lemma_removed, lossy, mirrors, own_writable,
    record_bytes, Doc, Rec,
};
use crate::collection::places::{
    fallen, lemma_cleared_stay, lemma_fallen_beside, lemma_fallen_next, lemma_fallen_none,
    lemma_stand_beside, lemma_stand_next, lemma_stand_none, of_id, others_stay, record_key,
    recorded_ids, same_at, stand,
};
use crate::collection::records::{counter_bytes, encode_counters, Counters, DocRecord};
use crate::collection::text::{clean, terms_of};
use crate::error::Error;
use crate::json::{distinct_keys, utf8, Json};
use crate::ordered::{ascending, byte_lists, seek, ByteSet, Store};
use vstd::prelude::*;
use vstd::utf8::*;

verus! {

/// Collection statistics.
#[derive(Debug, Clone, Copy, PartialEq, Eq, Structural)]
pub struct CollectionStats {
    /// Documents stored.
    pub documents: u64,
    /// Documents with text.
    pub text_documents: u64,
    /// Documents with an embedding.
    pub vectors: u64,
    /// Embedding dimensionality (0 = none).
    pub dim: usize,
    /// Orphaned vectors removed and missing vectors found by the last
    /// recovery (non-zero only after a crash).
    pub repaired: u64,
}

/// A collection of documents.
#[derive(Debug, PartialEq, Eq)]
pub struct Collection {
    /// What is stored.
    pub store: Store,
    /// How it is laid out.
    pub config: Config,
    /// Problems that the last recovery found.
    pub repaired: u64,
}

/// A batch of writes that waits for its vectors to be on disk.
#[derive(Debug, PartialEq, Eq)]
pub struct Staged {
    /// What will be stored.
    pub store: Store,
    /// Ids whose embedding goes away with this batch.
    pub vectorless: Vec<Vec<u8>>,
}

/// Whether a collection accepts every document of a batch.
pub open spec fn batch_ok(batch: Seq<Document>, config: Config) -> bool {
    forall|i: int| 0 <= i < batch.len() ==> accepted(#[trigger] batch[i], config)
}

/// The last of the batch's documents with this id has no embedding.
pub open spec fn ends_vectorless(batch: Seq<Document>, id: Seq<u8>) -> bool {
    exists|i: int|
        0 <= i < batch.len() && utf8((#[trigger] batch[i]).id) == id && batch[i].vector is None
            && forall|j: int|
            i < j < batch.len() ==> utf8((#[trigger] batch[j]).id) != id
}

/// Some step before the `n`-th of a batch took the document's embedding.
pub open spec fn lost_by(
    docs: Map<Seq<u8>, Doc>,
    batch: Seq<Document>,
    n: int,
    ti: bool,
    id: Seq<u8>,
) -> bool {
    exists|i: int|
        0 <= i < n && utf8((#[trigger] batch[i]).id) == id && loses_vector(docs, batch, i, ti)
}

/// Checks every document of a batch before storage is touched.
fn prepare_all(batch: &Vec<Document>, config: Config) -> (r: Result<Vec<Prepared>, Error>)
    ensures
        match r {
            Ok(ps) => {
                &&& batch_ok(batch@, config)
                &&& ps@.len() == batch@.len()
                &&& forall|i: int|
                    0 <= i < batch@.len() ==> prepared(
                        #[trigger] ps@[i],
                        doc_of(batch@[i], config.text_index),
                        config.text_index,
                    )
                &&& all_faithful(batch@) ==> settles(batch@, config.text_index)
            },
            Err(e) => e is InvalidArgument && !batch_ok(batch@, config),
        },
{
    let mut out: Vec<Prepared> = Vec::new();
    let mut i: usize = 0;
    while i < batch.len()
        invariant
            i <= batch@.len(),
            out@.len() == i,
            forall|j: int| 0 <= j < i ==> accepted(#[trigger] batch@[j], config),
            forall|j: int|
                0 <= j < i ==> prepared(
                    #[trigger] out@[j],
                    doc_of(batch@[j], config.text_index),
                    config.text_index,
                ),
            forall|j: int| 0 <= j < i && faithful(#[trigger] batch@[j]) ==> reread(batch@[j]),
        decreases batch@.len() - i,
    {
        match prepare(&batch[i], config) {
            Ok(p) => {
                out.push(p);
            },
            Err(e) => {
                assert(!accepted(batch@[i as int], config));
                return Err(e);
            },
        }
        i += 1;
    }
    proof {
        if all_faithful(batch@) {
            lemma_settles(batch@, config.text_index);
        }
    }
    Ok(out)
}

/// Whether the last document of the batch with this id has no embedding.
fn finally_vectorless(batch: &Vec<Document>, id: &[u8]) -> (r: bool)
    ensures
        r == ends_vectorless(batch@, id@),
{
    let mut i: usize = batch.len();
    while i > 0
        invariant
            i <= batch@.len(),
            forall|j: int| i <= j < batch@.len() ==> utf8((#[trigger] batch@[j]).id) != id@,
        decreases i,
    {
        let at: usize = i - 1;
        if same(batch[at].id.as_str().as_bytes(), id) {
            let r: bool = batch[at].vector.is_none();
            proof {
                if ends_vectorless(batch@, id@) {
                    let w = choose|w: int|
                        0 <= w < batch@.len() && utf8((#[trigger] batch@[w]).id) == id@
                            && batch@[w].vector is None && forall|j: int|
                            w < j < batch@.len() ==> utf8((#[trigger] batch@[j]).id) != id@;
                    if w < at {
                        assert(utf8(batch@[at as int].id) != id@);
                    }
                    assert(w == at);
                }
                if r {
                    assert(utf8(batch@[at as int].id) == id@);
                }
            }
            return r;
        }
        i = at;
    }
    false
}

impl Collection {
    /// The store is in order.
    pub open spec fn wf(&self) -> bool {
        self.store.wf()
    }

    /// A collection without documents.
    pub fn create(config: Config) -> (c: Collection)
        ensures
            c.wf(),
            c.config == config,
            c.repaired == 0,
            keeps(c.store, Map::empty(), config.text_index),
    {
        let c: Collection = Collection { store: Store::new(), config, repaired: 0 };
        proof {
            let docs = Map::<Seq<u8>, Doc>::empty();
            assert(docs.dom() =~= Set::empty());
            assert(with_text(docs) =~= Set::empty());
            assert(total_terms(docs) == 0);
        }
        c
    }

    /// Works out what a batch of documents makes of the store, without storing
    /// it: every document lands or none does, and a repeated id is applied in
    /// order.
    #[verifier::rlimit(40)]
    pub fn stage(&self, batch: &Vec<Document>) -> (r: Result<Staged, Error>)
        requires
            self.wf(),
            forall|i: int| 0 <= i < batch@.len() ==> distinct_keys((#[trigger] batch@[i]).metadata@),
            counters_of(self.store@) is Some ==> roomy(counters_of(self.store@)->0, batch@.len()),
        ensures
            r is Ok ==> r->Ok_0.store.wf() && batch_ok(batch@, self.config),
            r is Ok ==> stand(
                self.store@,
                r->Ok_0.store@,
                batch@,
                batch@.len() as int,
                self.config.text_index,
            ),
            !batch_ok(batch@, self.config) ==> r is Err && r->Err_0 is InvalidArgument,
            batch@.len() == 0 ==> r is Ok && r->Ok_0.store@ == self.store@
                && r->Ok_0.vectorless@.len() == 0,
            batch_ok(batch@, self.config) && all_faithful(batch@) ==> settles(
                batch@,
                self.config.text_index,
            ),
            forall|docs: Map<Seq<u8>, Doc>| #[trigger]
                keeps(self.store, docs, self.config.text_index) && batch_ok(batch@, self.config)
                    && replaceable(docs, batch@, self.config.text_index) ==> {
                    let ti = self.config.text_index;
                    &&& r is Ok
                    &&& keeps(
                        r->Ok_0.store,
                        applied(docs, batch@, batch@.len() as int, ti),
                        ti,
                    )
                    &&& forall|id: Seq<u8>| #[trigger]
                        byte_lists(r->Ok_0.vectorless@).contains(id) == (lost_by(
                            docs,
                            batch@,
                            batch@.len() as int,
                            ti,
                            id,
                        ) && ends_vectorless(batch@, id))
                },
    {
        let ti: bool = self.config.text_index;
        let ghost n = batch@.len() as int;
        if batch.len() == 0 {
            proof {
                lemma_settles(batch@, ti);
                lemma_stand_none(self.store@, batch@, ti);
            }
            let staged: Staged = Staged { store: self.store.copy(), vectorless: Vec::new() };
            assert forall|docs: Map<Seq<u8>, Doc>| #[trigger]
                keeps(self.store, docs, ti) implies keeps(staged.store, docs, ti) by {}
            return Ok(staged);
        }
        let ready: Vec<Prepared> = match prepare_all(batch, self.config) {
            Ok(ps) => ps,
            Err(e) => {
                return Err(e);
            },
        };
        let start: Counters = match counters(&self.store) {
            Ok(c) => c,
            Err(e) => {
                return Err(e);
            },
        };
        let mut store: Store = self.store.copy();
        let mut c: Counters = start;
        let mut lost: Vec<Vec<u8>> = Vec::new();
        let mut i: usize = 0;
        proof {
            lemma_stand_none(self.store@, batch@, ti);
        }
        assert forall|docs: Map<Seq<u8>, Doc>, id: Seq<u8>| #[trigger]
            lost_by(docs, batch@, 0, ti, id) == false by {}
        while i < batch.len()
            invariant
                i <= batch@.len(),
                n == batch@.len(),
                self.wf(),
                ti == self.config.text_index,
                ready@.len() == batch@.len(),
                batch_ok(batch@, self.config),
                all_faithful(batch@) ==> settles(batch@, ti),
                forall|j: int|
                    0 <= j < batch@.len() ==> distinct_keys((#[trigger] batch@[j]).metadata@),
                forall|j: int|
                    0 <= j < batch@.len() ==> prepared(
                        #[trigger] ready@[j],
                        doc_of(batch@[j], ti),
                        ti,
                    ),
                store.wf(),
                stand(self.store@, store@, batch@, i as int, ti),
                counters_of(self.store@) == Some(start),
                roomy(start, batch@.len()),
                c.docs <= start.docs + i,
                c.text_docs <= start.text_docs + i,
                c.text_terms <= start.text_terms + i * 0xFFFF_FFFF,
                forall|docs: Map<Seq<u8>, Doc>| #[trigger]
                    keeps(self.store, docs, ti) && replaceable(docs, batch@, ti) ==> {
                        let now = applied(docs, batch@, i as int, ti);
                        &&& mirrors(store@, now, ti)
                        &&& tally(now, c)
                        &&& ti ==> clean_terms(now)
                        &&& own_writable(store@)
                        &&& forall|id: Seq<u8>| #[trigger]
                            byte_lists(lost@).contains(id) == lost_by(
                                docs,
                                batch@,
                                i as int,
                                ti,
                                id,
                            )
                    },
            decreases batch@.len() - i,
        {
            let ghost prior = store@;
            let ghost was = byte_lists(lost@);
            assert(accepted(batch@[i as int], self.config));
            assert(distinct_keys(batch@[i as int].metadata@));
            assert(prepared(ready@[i as int], doc_of(batch@[i as int], ti), ti));
            let (next, gone): (Counters, bool) = match replace(
                &mut store,
                &batch[i],
                &ready[i],
                c,
                ti,
            ) {
                Ok(p) => p,
                Err(e) => {
                    assert forall|docs: Map<Seq<u8>, Doc>| #[trigger]
                        keeps(self.store, docs, ti) && replaceable(docs, batch@, ti) implies false by {
                        let now = applied(docs, batch@, i as int, ti);
                        assert(mirrors(prior, now, ti));
                        lemma_replaceable(docs, batch@, ti, i as int);
                    }
                    return Err(e);
                },
            };
            let ghost id = utf8(batch@[i as int].id);
            if gone {
                lost.push(copy_bytes(batch[i].id.as_str().as_bytes()));
                assert(byte_lists(lost@) =~= was.push(id));
            }
            proof {
                lemma_stand_next(self.store@, prior, store@, batch@, i as int, ti);
                assert forall|docs: Map<Seq<u8>, Doc>| #[trigger]
                    keeps(self.store, docs, ti) && replaceable(docs, batch@, ti) implies {
                    let now = applied(docs, batch@, i + 1, ti);
                    &&& mirrors(store@, now, ti)
                    &&& tally(now, next)
                    &&& ti ==> clean_terms(now)
                    &&& own_writable(store@)
                    &&& forall|x: Seq<u8>| #[trigger]
                        byte_lists(lost@).contains(x) == lost_by(docs, batch@, i + 1, ti, x)
                } by {
                    let prev = applied(docs, batch@, i as int, ti);
                    assert(mirrors(prior, prev, ti));
                    let d = doc_of(batch@[i as int], ti);
                    let now = prev.insert(id, d);
                    assert(now == applied(docs, batch@, i + 1, ti));
                    lemma_replaceable(docs, batch@, ti, i as int);
                    assert(ti ==> clean_terms(now)) by {
                        assert forall|x: Seq<u8>| ti && #[trigger] now.contains_key(x)
                            && now[x].record.text is Some implies clean(
                            terms_of(now[x].record.text->0),
                        ) by {
                            if x != id {
                                assert(prev.contains_key(x));
                            }
                        }
                    }
                    assert(gone == loses_vector(docs, batch@, i as int, ti));
                    assert forall|x: Seq<u8>| #[trigger] byte_lists(lost@).contains(x) == lost_by(
                        docs,
                        batch@,
                        i + 1,
                        ti,
                        x,
                    ) by {
                        assert(was.contains(x) == lost_by(docs, batch@, i as int, ti, x));
                        if gone {
                            lemma_push_contains(was, id, x);
                        }
                        if lost_by(docs, batch@, i as int, ti, x) {
                            let j = choose|j: int|
                                0 <= j < i && utf8((#[trigger] batch@[j]).id) == x
                                    && loses_vector(docs, batch@, j, ti);
                            assert(lost_by(docs, batch@, i + 1, ti, x));
                        }
                        if lost_by(docs, batch@, i + 1, ti, x) {
                            let j = choose|j: int|
                                0 <= j < i + 1 && utf8((#[trigger] batch@[j]).id) == x
                                    && loses_vector(docs, batch@, j, ti);
                            if j < i {
                                assert(lost_by(docs, batch@, i as int, ti, x));
                            }
                        }
                        if gone && x == id {
                            assert(utf8(batch@[i as int].id) == x);
                            assert(lost_by(docs, batch@, i + 1, ti, x));
                        }
                    }
                }
            }
            c = next;
            i += 1;
        }
        let ghost m = store@;
        match encode_counters(c) {
            Some(bytes) => {
                store.insert(stats_key_bytes(), bytes);
            },
            None => {
                return Err(Error::Serialization("collection counters".to_owned()));
            },
        }
        let vectorless: Vec<Vec<u8>> = finally_lost(batch, &lost);
        proof {
            let k = stats_key();
            let none = Seq::<u8>::empty();
            assert(store@[k] =~= counter_bytes(c) + none);
            assert(begins(store@[k], counter_bytes(c)));
            lemma_counters(store@, c);
            assert(!document_key(k));
            lemma_stand_beside(self.store@, m, batch@, n, ti, k, counter_bytes(c));
            assert forall|docs: Map<Seq<u8>, Doc>| #[trigger]
                keeps(self.store, docs, ti) && replaceable(docs, batch@, ti) implies keeps(
                store,
                applied(docs, batch@, n, ti),
                ti,
            ) by {
                lemma_own_keys(m, applied(docs, batch@, n, ti), ti, k, counter_bytes(c));
                assert(own_writable(store@));
                lemma_all_writable(store@, applied(docs, batch@, n, ti), ti);
            }
        }
        Ok(Staged { store, vectorless })
    }

    /// Stores a staged batch.
    pub fn commit(&mut self, staged: Staged) -> (vectorless: Vec<Vec<u8>>)
        requires
            staged.store.wf(),
        ensures
            final(self).wf(),
            final(self).store == staged.store,
            final(self).config == old(self).config,
            final(self).repaired == old(self).repaired,
            vectorless == staged.vectorless,
    {
        self.store = staged.store;
        staged.vectorless
    }

    /// Inserts or replaces documents, atomically: every document lands or none
    /// does. Gives the ids whose embedding is to be removed.
    ///
    /// What a replaced document had in the index is worked out from what is
    /// stored of it. Where that is not read back as what was indexed, which takes
    /// a number that is no integer, the records stand as always, but nothing is
    /// said of the index.
    pub fn upsert(&mut self, batch: &Vec<Document>) -> (r: Result<Vec<Vec<u8>>, Error>)
        requires
            old(self).wf(),
            forall|i: int| 0 <= i < batch@.len() ==> distinct_keys((#[trigger] batch@[i]).metadata@),
            counters_of(old(self).store@) is Some ==> roomy(
                counters_of(old(self).store@)->0,
                batch@.len(),
            ),
        ensures
            final(self).wf(),
            final(self).config == old(self).config,
            final(self).repaired == old(self).repaired,
            r is Err ==> final(self).store == old(self).store,
            r is Ok ==> batch_ok(batch@, old(self).config),
            r is Ok ==> stand(
                old(self).store@,
                final(self).store@,
                batch@,
                batch@.len() as int,
                old(self).config.text_index,
            ),
            !batch_ok(batch@, old(self).config) ==> r is Err && r->Err_0 is InvalidArgument,
            batch_ok(batch@, old(self).config) && all_faithful(batch@) ==> settles(
                batch@,
                old(self).config.text_index,
            ),
            forall|docs: Map<Seq<u8>, Doc>| #[trigger]
                keeps(old(self).store, docs, old(self).config.text_index) && batch_ok(
                    batch@,
                    old(self).config,
                ) && replaceable(docs, batch@, old(self).config.text_index) ==> {
                    let ti = old(self).config.text_index;
                    &&& r is Ok
                    &&& keeps(
                        final(self).store,
                        applied(docs, batch@, batch@.len() as int, ti),
                        ti,
                    )
                    &&& forall|id: Seq<u8>| #[trigger]
                        byte_lists(r->Ok_0@).contains(id) == (lost_by(
                            docs,
                            batch@,
                            batch@.len() as int,
                            ti,
                            id,
                        ) && ends_vectorless(batch@, id))
                },
    {
        match self.stage(batch) {
            Ok(staged) => Ok(self.commit(staged)),
            Err(e) => Err(e),
        }
    }
}

/// Keeps the ids whose last document in the batch has no embedding.
fn finally_lost(batch: &Vec<Document>, lost: &Vec<Vec<u8>>) -> (out: Vec<Vec<u8>>)
    ensures
        forall|id: Seq<u8>| #[trigger]
            byte_lists(out@).contains(id) == (byte_lists(lost@).contains(id) && ends_vectorless(
                batch@,
                id,
            )),
{
    let mut out: Vec<Vec<u8>> = Vec::new();
    let ghost all = byte_lists(lost@);
    let mut i: usize = 0;
    assert(all.subrange(0, 0) =~= Seq::empty());
    while i < lost.len()
        invariant
            i <= lost@.len(),
            all == byte_lists(lost@),
            forall|id: Seq<u8>| #[trigger]
                byte_lists(out@).contains(id) == (all.subrange(0, i as int).contains(id)
                    && ends_vectorless(batch@, id)),
        decreases lost@.len() - i,
    {
        let ghost was = byte_lists(out@);
        let ghost one = all[i as int];
        assert(one == lost@[i as int]@);
        if finally_vectorless(batch, lost[i].as_slice()) {
            out.push(copy_bytes(lost[i].as_slice()));
            assert(byte_lists(out@) =~= was.push(one));
        }
        proof {
            assert(all.subrange(0, i + 1) =~= all.subrange(0, i as int).push(one));
            assert forall|id: Seq<u8>| #[trigger] byte_lists(out@).contains(id) == (all.subrange(
                0,
                i + 1,
            ).contains(id) && ends_vectorless(batch@, id)) by {
                lemma_push_contains(
                    all.subrange(0, i as int),
                    one,
                    id,
                );
                lemma_push_contains(was, one, id);
            }
        }
        i += 1;
    }
    assert(all.subrange(0, i as int) =~= all);
    out
}


// ---- deleting ---------------------------------------------------------------

/// The documents without the first `n` of the ids.
pub open spec fn without(docs: Map<Seq<u8>, Doc>, ids: Seq<String>, n: int) -> Map<Seq<u8>, Doc>
    decreases n,
{
    if n <= 0 {
        docs
    } else {
        without(docs, ids, n - 1).remove(utf8(ids[n - 1]))
    }
}

/// The documents of these ids can be taken out of the index.
pub open spec fn removable(docs: Map<Seq<u8>, Doc>, ids: Seq<String>) -> bool {
    forall|i: int| 0 <= i < ids.len() ==> swappable(docs, utf8(#[trigger] ids[i]))
}

/// What is left was there before.
proof fn lemma_without(docs: Map<Seq<u8>, Doc>, ids: Seq<String>, n: int)
    ensures
        without(docs, ids, n).submap_of(docs),
    decreases n,
{
    if n > 0 {
        lemma_without(docs, ids, n - 1);
    }
}

/// Taking documents away keeps a collection settled, and of a settled one all
/// can be taken away.
pub proof fn law_deletions_keep_a_collection_settled(docs: Map<Seq<u8>, Doc>, ids: Seq<String>)
    requires
        settled(docs),
    ensures
        removable(docs, ids),
        settled(without(docs, ids, ids.len() as int)),
{
    lemma_without(docs, ids, ids.len() as int);
    let left = without(docs, ids, ids.len() as int);
    assert forall|id: Seq<u8>| #[trigger] left.contains_key(id) implies settled_doc(left[id]) by {
        assert(left.dom().contains(id));
        assert(docs.contains_key(id));
    }
}

/// The first `n` ids that named a document when their turn came.
pub open spec fn removed_ids(docs: Map<Seq<u8>, Doc>, ids: Seq<String>, n: int) -> Seq<Seq<u8>>
    decreases n,
{
    if n <= 0 {
        Seq::empty()
    } else {
        let before = removed_ids(docs, ids, n - 1);
        let id = utf8(ids[n - 1]);
        if without(docs, ids, n - 1).contains_key(id) {
            before.push(id)
        } else {
            before
        }
    }
}

/// Takes one document away.
fn drop_document(store: &mut Store, id: &[u8], counters: Counters, ti: bool) -> (r: Result<
    Option<Counters>,
    Error,
>)
    requires
        old(store).wf(),
    ensures
        final(store).wf(),
        r is Ok && own_writable(old(store)@) ==> own_writable(final(store)@),
        r is Ok ==> {
            &&& r->Ok_0 is Some == old(store)@.contains_key(doc_key(id@))
            &&& others_stay(old(store)@, final(store)@, id@)
            &&& r->Ok_0 is Some ==> !final(store)@.contains_key(doc_key(id@))
                && !final(store)@.contains_key(ids_key(id@))
            &&& r->Ok_0 is None ==> final(store)@ == old(store)@
        },
        forall|docs: Map<Seq<u8>, Doc>| #[trigger]
            mirrors(old(store)@, docs, ti) && tally(docs, counters) && swappable(docs, id@) ==> {
                &&& r is Ok
                &&& r->Ok_0 is Some == docs.contains_key(id@)
                &&& mirrors(final(store)@, docs.remove(id@), ti)
                &&& tally(docs.remove(id@), if r->Ok_0 is Some { r->Ok_0->0 } else { counters })
            },
{
    let ghost m = store@;
    let found: Option<DocRecord> = match record_in(store, id) {
        Ok(f) => f,
        Err(e) => {
            assert forall|docs: Map<Seq<u8>, Doc>| #[trigger]
                mirrors(m, docs, ti) && tally(docs, counters) && swappable(docs, id@) implies false by {
                lemma_stored(m, docs, ti, id@);
            }
            return Err(e);
        },
    };
    match &found {
        None => {
            assert forall|docs: Map<Seq<u8>, Doc>| #[trigger]
                mirrors(m, docs, ti) && tally(docs, counters) && swappable(docs, id@) implies docs
                == docs.remove(id@) && !docs.contains_key(id@) by {
                lemma_stored(m, docs, ti, id@);
                assert(docs =~= docs.remove(id@));
            }
            Ok(None)
        },
        Some(was) => {
            let less: Counters = match unindex(store, id, was, counters, ti) {
                Ok(c) => c,
                Err(e) => {
                    assert forall|docs: Map<Seq<u8>, Doc>| #[trigger]
                        mirrors(m, docs, ti) && tally(docs, counters) && swappable(
                        docs,
                        id@,
                    ) implies false by {
                        lemma_stored(m, docs, ti, id@);
                    }
                    return Err(e);
                },
            };
            let ghost between = store@;
            store.remove(key(DOC, id).as_slice());
            store.remove(key(IDS, id).as_slice());
            proof {
                let d = Doc { record: was@, tree: meta_tree(was@.metadata) };
                lemma_cleared_stay(m, between, d, id@, ti);
                assert forall|k: Seq<u8>| record_key(k) && !of_id(k, id@) implies #[trigger] same_at(
                    m,
                    store@,
                    k,
                ) by {
                    assert(same_at(m, between, k));
                }
            }
            assert forall|docs: Map<Seq<u8>, Doc>| #[trigger]
                mirrors(m, docs, ti) && tally(docs, counters) && swappable(docs, id@) implies {
                &&& docs.contains_key(id@)
                &&& mirrors(store@, docs.remove(id@), ti)
                &&& tally(docs.remove(id@), less)
            } by {
                lemma_stored(m, docs, ti, id@);
                assert(was@ == docs[id@].record);
                assert(docs[id@] == Doc { record: was@, tree: meta_tree(was@.metadata) });
                lemma_tally_removed(docs, counters, id@);
                lemma_removed(m, between, docs, id@, ti);
            }
            Ok(Some(less))
        },
    }
}

impl Collection {
    /// Removes documents by id, atomically; gives the ids that existed.
    pub fn remove(&mut self, ids: &Vec<String>) -> (r: Result<Vec<Vec<u8>>, Error>)
        requires
            old(self).wf(),
        ensures
            final(self).wf(),
            final(self).config == old(self).config,
            final(self).repaired == old(self).repaired,
            r is Err ==> final(self).store == old(self).store,
            r is Ok ==> {
                &&& fallen(old(self).store@, final(self).store@, ids@, ids@.len() as int)
                &&& byte_lists(r->Ok_0@) == recorded_ids(
                    old(self).store@,
                    ids@,
                    ids@.len() as int,
                )
            },
            forall|docs: Map<Seq<u8>, Doc>| #[trigger]
                keeps(old(self).store, docs, old(self).config.text_index) && removable(docs, ids@)
                    ==> {
                    let n = ids@.len() as int;
                    &&& r is Ok
                    &&& byte_lists(r->Ok_0@) == removed_ids(docs, ids@, n)
                    &&& keeps(
                        final(self).store,
                        without(docs, ids@, n),
                        old(self).config.text_index,
                    )
                },
    {
        let ti: bool = self.config.text_index;
        let ghost n = ids@.len() as int;
        let mut c: Counters = match counters(&self.store) {
            Ok(c) => c,
            Err(e) => {
                return Err(e);
            },
        };
        let mut store: Store = self.store.copy();
        let mut gone: Vec<Vec<u8>> = Vec::new();
        let mut i: usize = 0;
        assert(byte_lists(gone@) =~= Seq::empty());
        proof {
            lemma_fallen_none(self.store@, ids@);
        }
        while i < ids.len()
            invariant
                i <= ids@.len(),
                n == ids@.len(),
                *self == *old(self),
                self.wf(),
                ti == self.config.text_index,
                store.wf(),
                fallen(self.store@, store@, ids@, i as int),
                byte_lists(gone@) == recorded_ids(self.store@, ids@, i as int),
                forall|docs: Map<Seq<u8>, Doc>| #[trigger]
                    keeps(self.store, docs, ti) && removable(docs, ids@) ==> {
                        let now = without(docs, ids@, i as int);
                        &&& mirrors(store@, now, ti)
                        &&& tally(now, c)
                        &&& ti ==> clean_terms(now)
                        &&& own_writable(store@)
                        &&& byte_lists(gone@) == removed_ids(docs, ids@, i as int)
                    },
            decreases ids@.len() - i,
        {
            let id: &[u8] = ids[i].as_str().as_bytes();
            let ghost prior = store@;
            let ghost was = byte_lists(gone@);
            let less: Option<Counters> = match drop_document(&mut store, id, c, ti) {
                Ok(l) => l,
                Err(e) => {
                    assert forall|docs: Map<Seq<u8>, Doc>| #[trigger]
                        keeps(self.store, docs, ti) && removable(docs, ids@) implies false by {
                        let now = without(docs, ids@, i as int);
                        lemma_without(docs, ids@, i as int);
                        assert(mirrors(prior, now, ti));
                        assert(swappable(now, id@));
                    }
                    return Err(e);
                },
            };
            let ghost before_c = c;
            match less {
                Some(l) => {
                    c = l;
                    gone.push(copy_bytes(id));
                    assert(byte_lists(gone@) =~= was.push(id@));
                },
                None => {},
            }
            proof {
                lemma_fallen_next(self.store@, prior, store@, ids@, i as int);
                assert forall|docs: Map<Seq<u8>, Doc>| #[trigger]
                    keeps(self.store, docs, ti) && removable(docs, ids@) implies {
                    let now = without(docs, ids@, i + 1);
                    &&& mirrors(store@, now, ti)
                    &&& tally(now, c)
                    &&& ti ==> clean_terms(now)
                    &&& own_writable(store@)
                    &&& byte_lists(gone@) == removed_ids(docs, ids@, i + 1)
                } by {
                    let prev = without(docs, ids@, i as int);
                    lemma_without(docs, ids@, i as int);
                    assert(mirrors(prior, prev, ti));
                    assert(swappable(prev, id@));
                    let now = prev.remove(id@);
                    assert(without(docs, ids@, i + 1) == now);
                    assert forall|x: Seq<u8>| ti && #[trigger] now.contains_key(x)
                        && now[x].record.text is Some implies clean(
                        terms_of(now[x].record.text->0),
                    ) by {
                        assert(prev.contains_key(x));
                    }
                }
            }
            i += 1;
        }
        let ghost m = store@;
        match encode_counters(c) {
            Some(bytes) => {
                store.insert(stats_key_bytes(), bytes);
            },
            None => {
                return Err(Error::Serialization("collection counters".to_owned()));
            },
        }
        proof {
            let k = stats_key();
            let none = Seq::<u8>::empty();
            assert(store@[k] =~= counter_bytes(c) + none);
            assert(begins(store@[k], counter_bytes(c)));
            lemma_counters(store@, c);
            assert(!document_key(k));
            lemma_fallen_beside(self.store@, m, ids@, n, k, counter_bytes(c));
            assert forall|docs: Map<Seq<u8>, Doc>| #[trigger]
                keeps(self.store, docs, ti) && removable(docs, ids@) implies keeps(
                store,
                without(docs, ids@, n),
                ti,
            ) by {
                lemma_own_keys(m, without(docs, ids@, n), ti, k, counter_bytes(c));
                assert(own_writable(store@));
                lemma_all_writable(store@, without(docs, ids@, n), ti);
            }
        }
        self.store = store;
        Ok(gone)
    }

    /// Deletes documents by id; returns how many existed.
    pub fn delete(&mut self, ids: &Vec<String>) -> (r: Result<u64, Error>)
        requires
            old(self).wf(),
        ensures
            final(self).wf(),
            final(self).config == old(self).config,
            final(self).repaired == old(self).repaired,
            r is Err ==> final(self).store == old(self).store,
            r is Ok ==> {
                &&& fallen(old(self).store@, final(self).store@, ids@, ids@.len() as int)
                &&& r->Ok_0 == recorded_ids(old(self).store@, ids@, ids@.len() as int).len()
            },
            forall|docs: Map<Seq<u8>, Doc>| #[trigger]
                keeps(old(self).store, docs, old(self).config.text_index) && removable(docs, ids@)
                    ==> {
                    let n = ids@.len() as int;
                    &&& r is Ok
                    &&& r->Ok_0 == removed_ids(docs, ids@, n).len()
                    &&& keeps(
                        final(self).store,
                        without(docs, ids@, n),
                        old(self).config.text_index,
                    )
                },
    {
        match self.remove(ids) {
            Ok(gone) => {
                assert(byte_lists(gone@).len() == gone@.len());
                Ok(gone.len() as u64)
            },
            Err(e) => Err(e),
        }
    }
}

// ---- reading ----------------------------------------------------------------

/// A document as it is read back from a record.
pub open spec fn shows(d: Document, id: Seq<u8>, r: Rec) -> bool {
    &&& utf8(d.id) == id
    &&& r.text is Some == d.text is Some
    &&& d.text is Some ==> d.text->0@ == r.text->0
    &&& d.metadata@ == meta_tree(r.metadata)
    &&& d.vector is None
}

/// The document that a record holds.
fn document_of(id: String, record: DocRecord) -> (d: Document)
    ensures
        shows(d, utf8(id), record@),
        distinct_keys(d.metadata@),
{
    let metadata: Json = parse_metadata(record.metadata.as_str());
    Document { id, text: record.text, metadata, vector: None }
}

/// A document that was asked for, and whether its embedding is to be fetched
/// as well.
#[derive(Debug, PartialEq, Eq)]
pub struct Fetched {
    /// The document, without its embedding.
    pub document: Document,
    /// Whether its embedding was asked for and there is one.
    pub wants_vector: bool,
}

/// Matching ids, or `None` for "everything" (no filter).
pub fn filter_ids(store: &Store, filter: Option<&Filter>) -> (r: Result<Option<ByteSet>, Error>)
    requires
        store.wf(),
    ensures
        r is Err ==> r->Err_0 is Corruption,
        r is Ok && r->Ok_0 is Some ==> r->Ok_0->0.wf(),
        r is Ok ==> r->Ok_0 is None == (wanted(filter) == Query::All),
        forall|docs: Map<Seq<u8>, Doc>, ti: bool| #[trigger]
            mirrors(store@, docs, ti) && query_ok(wanted(filter)) ==> r is Ok && (r->Ok_0 is Some
                ==> r->Ok_0->0@ == selected(docs, wanted(filter))),
{
    match filter {
        None => Ok(None),
        Some(f) => match f {
            Filter::All => Ok(None),
            _ => {
                let mut all: Option<ByteSet> = None;
                match eval(store, f, &mut all) {
                    Ok(ids) => Ok(Some(ids)),
                    Err(e) => Err(e),
                }
            },
        },
    }
}

/// The query of an optional filter.
pub open spec fn wanted(filter: Option<&Filter>) -> Query {
    match filter {
        Some(f) => f@,
        None => Query::All,
    }
}

/// `ids` lists the documents that satisfy a query and come after `after`, in
/// order.
pub open spec fn answer_list(
    docs: Map<Seq<u8>, Doc>,
    q: Query,
    after: Option<Seq<u8>>,
    ids: Seq<Seq<u8>>,
) -> bool {
    &&& ascending(ids)
    &&& ids.to_set() == selected(docs, q).filter(
        |id: Seq<u8>| comes_after(after, id),
    )
}

/// The first `limit` of a list; all of it for zero.
pub open spec fn limited(ids: Seq<Seq<u8>>, limit: int) -> Seq<Seq<u8>> {
    if limit != 0 && limit < ids.len() {
        ids.subrange(0, limit)
    } else {
        ids
    }
}

impl Collection {
    /// Embedding dimensionality (0 when the collection has no vectors).
    #[must_use]
    pub fn dim(&self) -> (d: usize)
        ensures
            d == self.config.dim,
    {
        self.config.dim
    }

    /// The code of the vector metric.
    #[must_use]
    pub fn metric(&self) -> (m: u8)
        ensures
            m == self.config.metric,
    {
        self.config.metric
    }

    /// The document with `id`; its embedding is to be fetched when
    /// `with_vector` and it has one.
    pub fn get(&self, id: &str, with_vector: bool) -> (r: Result<Option<Fetched>, Error>)
        requires
            self.wf(),
        ensures
            ({
                let k = doc_key(encode_utf8(id@));
                match r {
                    Ok(None) => !self.store@.contains_key(k),
                    Ok(Some(f)) => self.store@.contains_key(k) && exists|rec: Rec|
                        begins(self.store@[k], #[trigger] record_bytes(rec)) && shows(
                            f.document,
                            encode_utf8(id@),
                            rec,
                        ) && f.wants_vector == (with_vector && rec.has_vector && self.config.dim
                            > 0),
                    Err(e) => e is Serialization && self.store@.contains_key(k) && forall|rec: Rec|
                        !begins(self.store@[k], #[trigger] record_bytes(rec)),
                }
            }),
            forall|docs: Map<Seq<u8>, Doc>, ti: bool| #[trigger]
                mirrors(self.store@, docs, ti) ==> {
                    let b = encode_utf8(id@);
                    &&& r is Ok
                    &&& r->Ok_0 is Some == docs.contains_key(b)
                    &&& r->Ok_0 is Some ==> shows(r->Ok_0->0.document, b, docs[b].record)
                        && r->Ok_0->0.wants_vector == (with_vector && docs[b].record.has_vector
                        && self.config.dim > 0)
                },
    {
        let b: &[u8] = id.as_bytes();
        proof {
            assert forall|docs: Map<Seq<u8>, Doc>, ti: bool| #[trigger]
                mirrors(self.store@, docs, ti) implies {
                let k = doc_key(b@);
                &&& self.store@.contains_key(k) == docs.contains_key(b@)
                &&& docs.contains_key(b@) ==> begins(self.store@[k], record_bytes(docs[b@].record))
                &&& docs.contains_key(b@) ==> forall|rec: Rec|
                    begins(self.store@[k], #[trigger] record_bytes(rec)) ==> rec == docs[b@].record
            } by {
                lemma_stored(self.store@, docs, ti, b@);
            }
        }
        match record_in(&self.store, b) {
            Ok(Some(record)) => {
                let ghost rec = record@;
                let wants: bool = with_vector && record.has_vector && self.config.dim > 0;
                let document: Document = document_of(id.to_owned(), record);
                assert(begins(self.store@[doc_key(b@)], record_bytes(rec)));
                Ok(Some(Fetched { document, wants_vector: wants }))
            },
            Ok(None) => Ok(None),
            Err(e) => Err(e),
        }
    }

    /// Number of documents, or of those matching `filter`.
    pub fn count(&self, filter: Option<&Filter>) -> (r: Result<u64, Error>)
        requires
            self.wf(),
        ensures
            r is Err ==> r->Err_0 is Corruption || r->Err_0 is Serialization,
            forall|docs: Map<Seq<u8>, Doc>| #[trigger]
                keeps(self.store, docs, self.config.text_index) && query_ok(wanted(filter))
                    ==> r is Ok && r->Ok_0 == selected(docs, wanted(filter)).len(),
    {
        let ghost ti = self.config.text_index;
        match filter_ids(&self.store, filter) {
            Ok(Some(ids)) => {
                let n: usize = ids.len();
                assert forall|docs: Map<Seq<u8>, Doc>| #[trigger]
                    keeps(self.store, docs, ti) && query_ok(wanted(filter)) implies n == selected(
                    docs,
                    wanted(filter),
                ).len() by {
                    assert(mirrors(self.store@, docs, ti));
                }
                Ok(n as u64)
            },
            Ok(None) => match counters(&self.store) {
                Ok(c) => {
                    assert forall|docs: Map<Seq<u8>, Doc>| #[trigger]
                        keeps(self.store, docs, ti) implies c.docs == selected(
                        docs,
                        Query::All,
                    ).len() by {
                        assert(selected(docs, Query::All) =~= docs.dom());
                    }
                    Ok(c.docs)
                },
                Err(e) => Err(e),
            },
            Err(e) => {
                assert forall|docs: Map<Seq<u8>, Doc>| #[trigger]
                    keeps(self.store, docs, ti) && query_ok(wanted(filter)) implies false by {
                    assert(mirrors(self.store@, docs, ti));
                }
                Err(e)
            },
        }
    }

    /// Statistics; `vectors` is how many embeddings are stored.
    pub fn stats(&self, vectors: u64) -> (r: Result<CollectionStats, Error>)
        requires
            self.wf(),
        ensures
            match r {
                Ok(s) => counters_of(self.store@) is Some && s == (CollectionStats {
                    documents: counters_of(self.store@)->0.docs,
                    text_documents: counters_of(self.store@)->0.text_docs,
                    vectors: if self.config.dim > 0 {
                        vectors
                    } else {
                        0
                    },
                    dim: self.config.dim,
                    repaired: self.repaired,
                }),
                Err(e) => e is Serialization && counters_of(self.store@) is None,
            },
    {
        match counters(&self.store) {
            Ok(c) => Ok(
                CollectionStats {
                    documents: c.docs,
                    text_documents: c.text_docs,
                    vectors: if self.config.dim > 0 {
                        vectors
                    } else {
                        0
                    },
                    dim: self.config.dim,
                    repaired: self.repaired,
                },
            ),
            Err(e) => Err(e),
        }
    }
}


/// Where the ids behind `after` begin.
fn begin_after(ids: &ByteSet, after: Option<&str>) -> (p: usize)
    requires
        ids.wf(),
    ensures
        p <= ids.items@.len(),
        forall|i: int|
            0 <= i < ids.items@.len() ==> (i >= p <==> (after is Some ==> lex_lt(
                encode_utf8(after->0@),
                (#[trigger] ids.items@[i])@,
            ))),
{
    match after {
        None => 0,
        Some(a) => {
            let b: &[u8] = a.as_bytes();
            let ghost s = byte_lists(ids.items@);
            let n: usize = seek(&ids.items, b);
            let p: usize = if n < ids.items.len() && same(ids.items[n].as_slice(), b) {
                n + 1
            } else {
                n
            };
            assert forall|i: int| 0 <= i < ids.items@.len() implies (i >= p <==> lex_lt(
                b@,
                (#[trigger] ids.items@[i])@,
            )) by {
                assert(s[i] == ids.items@[i]@);
                lemma_lex_total(s[i], b@);
                lemma_lex_irreflexive(b@);
                if i < n {
                    assert(lex_lt(s[i], b@));
                    lemma_lex_asymmetric(s[i], b@);
                } else {
                    assert(!lex_lt(s[i], b@));
                    if s[i] == b@ && i > n {
                        assert(lex_lt(s[n as int], s[i]));
                        assert(s[n as int] == ids.items@[n as int]@);
                    }
                    if i > n {
                        assert(lex_lt(s[n as int], s[i]));
                        assert(s[n as int] == ids.items@[n as int]@);
                    }
                }
            }
            p
        },
    }
}

/// The bytes of an optional text.
pub open spec fn start_of(after: Option<&str>) -> Option<Seq<u8>> {
    match after {
        Some(a) => Some(encode_utf8(a@)),
        None => None,
    }
}

/// The ids of a list of documents.
pub open spec fn doc_ids(v: Seq<Document>) -> Seq<Seq<u8>> {
    Seq::new(v.len(), |i: int| utf8(v[i].id))
}

/// `x` comes after `after`, where there is one.
pub open spec fn comes_after(after: Option<Seq<u8>>, x: Seq<u8>) -> bool {
    after is Some ==> lex_lt(after->0, x)
}

/// The part of an ascending list behind `after`.
proof fn lemma_tail_set(s: Seq<Seq<u8>>, p: int, after: Option<Seq<u8>>)
    requires
        ascending(s),
        0 <= p <= s.len(),
        forall|i: int|
            0 <= i < s.len() ==> (i >= p) == comes_after(after, #[trigger] s[i]),
    ensures
        ascending(s.skip(p)),
        s.skip(p).to_set() == s.to_set().filter(|id: Seq<u8>| comes_after(after, id)),
{
    let t = s.skip(p);
    let f = |id: Seq<u8>| comes_after(after, id);
    assert forall|i: int, j: int| 0 <= i < j < t.len() implies lex_lt(
        #[trigger] t[i],
        #[trigger] t[j],
    ) by {
        assert(t[i] == s[p + i] && t[j] == s[p + j]);
    }
    assert forall|x: Seq<u8>| t.to_set().contains(x) == s.to_set().filter(f).contains(x) by {
        if t.contains(x) {
            let i = choose|i: int| 0 <= i < t.len() && t[i] == x;
            assert(s[p + i] == x);
        }
        if s.contains(x) && f(x) {
            let i = choose|i: int| 0 <= i < s.len() && s[i] == x;
            assert(i >= p);
            assert(t[i - p] == x);
        }
    }
    assert(t.to_set() =~= s.to_set().filter(f));
}

impl Collection {
    /// Documents matching `filter`, in id order, after `after` (exclusive),
    /// at most `limit` (0 = no limit). Vectors are not fetched.
    #[verifier::rlimit(60)]
    #[verifier::spinoff_prover]
    pub fn list(&self, filter: Option<&Filter>, limit: usize, after: Option<&str>) -> (r: Result<
        Vec<Document>,
        Error,
    >)
        requires
            self.wf(),
        ensures
            r is Err ==> r->Err_0 is Corruption || r->Err_0 is Serialization,
            forall|docs: Map<Seq<u8>, Doc>, ti: bool| #[trigger]
                mirrors(self.store@, docs, ti) && query_ok(wanted(filter)) ==> {
                    &&& r is Ok
                    &&& exists|ids: Seq<Seq<u8>>| #[trigger]
                        answer_list(
                            docs,
                            wanted(filter),
                            start_of(after),
                            ids,
                        ) && doc_ids(r->Ok_0@) == limited(ids, limit as int)
                    &&& forall|i: int|
                        0 <= i < r->Ok_0@.len() ==> shows(
                            #[trigger] r->Ok_0@[i],
                            utf8(r->Ok_0@[i].id),
                            docs[utf8(r->Ok_0@[i].id)].record,
                        )
                },
    {
        let ghost q = wanted(filter);
        let ghost behind: Option<Seq<u8>> = start_of(after);
        let ids: ByteSet = match filter_ids(&self.store, filter) {
            Ok(Some(ids)) => ids,
            Ok(None) => {
                let ids: ByteSet = all_ids(&self.store);
                assert forall|docs: Map<Seq<u8>, Doc>, ti: bool| #[trigger]
                    mirrors(self.store@, docs, ti) implies ids@ == selected(docs, q) by {
                    assert(selected(docs, Query::All) =~= docs.dom());
                }
                ids
            },
            Err(e) => {
                return Err(e);
            },
        };
        assert forall|docs: Map<Seq<u8>, Doc>, ti: bool| #[trigger]
            mirrors(self.store@, docs, ti) && query_ok(q) implies ids@ == selected(docs, q) by {}
        let p: usize = begin_after(&ids, after);
        let ghost s = byte_lists(ids.items@);
        let mut out: Vec<Document> = Vec::new();
        let mut i: usize = p;
        while i < ids.items.len() && (limit == 0 || out.len() < limit)
            invariant
                p <= i <= ids.items@.len(),
                self.wf(),
                q == wanted(filter),
                s == byte_lists(ids.items@),
                forall|docs: Map<Seq<u8>, Doc>, ti: bool| #[trigger]
                    mirrors(self.store@, docs, ti) && query_ok(q) ==> ids@ == selected(docs, q),
                limit != 0 ==> out@.len() <= limit,
                forall|docs: Map<Seq<u8>, Doc>, ti: bool| #[trigger]
                    mirrors(self.store@, docs, ti) && query_ok(q) ==> out@.len() == i - p && (
                    forall|j: int|
                        0 <= j < out@.len() ==> shows(
                            #[trigger] out@[j],
                            s[p + j],
                            docs[s[p + j]].record,
                        )),
            decreases ids.items@.len() - i,
        {
            let ghost was = out@;
            let ghost id = s[i as int];
            assert(id == ids.items@[i as int]@);
            assert(s.to_set().contains(id));
            assert forall|docs: Map<Seq<u8>, Doc>, ti: bool| #[trigger]
                mirrors(self.store@, docs, ti) && query_ok(q) implies {
                let k = doc_key(id);
                &&& docs.contains_key(id)
                &&& valid_utf8(id)
                &&& self.store@.contains_key(k)
                &&& begins(self.store@[k], record_bytes(docs[id].record))
                &&& forall|rec: Rec|
                    begins(self.store@[k], #[trigger] record_bytes(rec)) ==> rec == docs[id].record
            } by {
                assert(selected(docs, q).contains(id));
                lemma_stored(self.store@, docs, ti, id);
            }
            match record_in(&self.store, ids.items[i].as_slice()) {
                Ok(Some(record)) => {
                    let ghost rec = record@;
                    let name: String = lossy(ids.items[i].as_slice());
                    out.push(document_of(name, record));
                    assert forall|docs: Map<Seq<u8>, Doc>, ti: bool| #[trigger]
                        mirrors(self.store@, docs, ti) && query_ok(q) implies (forall|j: int|
                        0 <= j < out@.len() ==> shows(
                            #[trigger] out@[j],
                            s[p + j],
                            docs[s[p + j]].record,
                        )) by {
                        assert forall|j: int| 0 <= j < out@.len() implies shows(
                            #[trigger] out@[j],
                            s[p + j],
                            docs[s[p + j]].record,
                        ) by {
                            if j < was.len() {
                                assert(out@[j] == was[j]);
                            } else {
                                assert(rec == docs[id].record);
                            }
                        }
                    }
                },
                Ok(None) => {},
                Err(e) => {
                    return Err(e);
                },
            }
            i += 1;
        }
        proof {
            let from = p as int;
            assert forall|j: int| 0 <= j < s.len() implies (j >= from) == comes_after(
                behind,
                #[trigger] s[j],
            ) by {
                assert(s[j] == ids.items@[j]@);
            }
            lemma_tail_set(s, from, behind);
            let tail = s.skip(p as int);
            assert forall|docs: Map<Seq<u8>, Doc>, ti: bool| #[trigger]
                mirrors(self.store@, docs, ti) && query_ok(q) implies {
                &&& exists|ids: Seq<Seq<u8>>| #[trigger]
                    answer_list(docs, q, behind, ids) && doc_ids(out@) == limited(
                        ids,
                        limit as int,
                    )
                &&& forall|i: int|
                    0 <= i < out@.len() ==> shows(
                        #[trigger] out@[i],
                        utf8(out@[i].id),
                        docs[utf8(out@[i].id)].record,
                    )
            } by {
                assert(answer_list(docs, q, behind, tail));
                assert(doc_ids(out@) =~= limited(tail, limit as int)) by {
                    assert forall|j: int| 0 <= j < out@.len() implies utf8(
                        (#[trigger] out@[j]).id,
                    ) == tail[j] by {
                        assert(shows(out@[j], s[p + j], docs[s[p + j]].record));
                    }
                }
            }
        }
        Ok(out)
    }
}

} // verus!
