//! Opening and closing a collection, and recovering one that was not closed.

use crate::bytes::copy_bytes;
use crate::collection::api::Collection;
use crate::collection::documents::{
    counters_of, keeps, lemma_push_contains, lemma_stored, record_in, Config,
};
use crate::collection::index::all_ids;
use crate::collection::keys::{ids_key, key, open_key, open_key_bytes, stats_key, IDS};
use crate::collection::mirror::{
    document_key, lemma_key_tags, lemma_own_keys, lemma_owner, mirrors, owns, Doc,
};
use crate::collection::options::{
    compatible, fresh_layout, known, layout, CollectionOptions, MAX_DIM,
};
use crate::error::Error;
use crate::json::utf8;
use crate::ordered::{byte_lists, ByteSet, Store};
use vstd::prelude::*;

verus! {

/// A collection that was opened, and what its opening leaves to be done.
#[derive(Debug, PartialEq, Eq)]
pub struct Opened {
    /// The collection.
    pub collection: Collection,
    /// Ids of embeddings whose document never committed; they are to be
    /// removed.
    pub orphans: Vec<Vec<u8>>,
}

/// The bytes of a list of strings.
pub open spec fn id_list(v: Seq<String>) -> Seq<Seq<u8>> {
    Seq::new(v.len(), |i: int| utf8(v[i]))
}

/// The ids of a list that name no document, in order.
pub open spec fn orphans_of(docs: Map<Seq<u8>, Doc>, ids: Seq<Seq<u8>>) -> Seq<Seq<u8>>
    decreases ids.len(),
{
    if ids.len() == 0 {
        Seq::empty()
    } else {
        let before = orphans_of(docs, ids.drop_last());
        if docs.contains_key(ids.last()) {
            before
        } else {
            before.push(ids.last())
        }
    }
}

/// The documents that should have an embedding but are not among `ids`.
pub open spec fn missing_of(docs: Map<Seq<u8>, Doc>, ids: Seq<Seq<u8>>) -> Set<Seq<u8>> {
    docs.dom().filter(|id: Seq<u8>| docs[id].record.has_vector && !ids.contains(id))
}

/// A number, or the largest there is of 64 bits.
pub open spec fn clipped(n: nat) -> u64 {
    if n <= u64::MAX {
        n as u64
    } else {
        u64::MAX
    }
}

/// Finds the embeddings whose document never committed, in order.
fn find_orphans(store: &Store, vectors: &Vec<String>) -> (out: Vec<Vec<u8>>)
    requires
        store.wf(),
    ensures
        out@.len() <= vectors@.len(),
        forall|docs: Map<Seq<u8>, Doc>, ti: bool| #[trigger]
            mirrors(store@, docs, ti) ==> byte_lists(out@) == orphans_of(
                docs,
                id_list(vectors@),
            ),
{
    let mut out: Vec<Vec<u8>> = Vec::new();
    let ghost all = id_list(vectors@);
    let mut i: usize = 0;
    assert(all.subrange(0, 0) =~= Seq::empty());
    assert(byte_lists(out@) =~= Seq::empty());
    while i < vectors.len()
        invariant
            i <= vectors@.len(),
            store.wf(),
            all == id_list(vectors@),
            out@.len() <= i,
            forall|docs: Map<Seq<u8>, Doc>, ti: bool| #[trigger]
                mirrors(store@, docs, ti) ==> byte_lists(out@) == orphans_of(
                    docs,
                    all.subrange(0, i as int),
                ),
        decreases vectors@.len() - i,
    {
        let id: &[u8] = vectors[i].as_str().as_bytes();
        let ghost was = byte_lists(out@);
        let ghost more = all.subrange(0, i + 1);
        assert(more.drop_last() =~= all.subrange(0, i as int));
        assert(more.last() == id@);
        let there: bool = store.contains_key(key(IDS, id).as_slice());
        assert forall|docs: Map<Seq<u8>, Doc>, ti: bool| #[trigger]
            mirrors(store@, docs, ti) implies there == docs.contains_key(id@) by {
            lemma_listed(store@, docs, ti, id@);
        }
        if !there {
            out.push(copy_bytes(id));
            assert(byte_lists(out@) =~= was.push(id@));
        }
        i += 1;
    }
    assert(all.subrange(0, i as int) =~= all);
    out
}

/// A document is listed exactly where it exists.
proof fn lemma_listed(m: Map<Seq<u8>, Seq<u8>>, docs: Map<Seq<u8>, Doc>, ti: bool, id: Seq<u8>)
    requires
        mirrors(m, docs, ti),
    ensures
        m.contains_key(ids_key(id)) == docs.contains_key(id),
{
    let k = ids_key(id);
    if docs.contains_key(id) {
        assert(owns(docs[id], id, ti, k, Seq::empty()));
    }
    if m.contains_key(k) {
        assert(k[0] == IDS);
        let o = lemma_owner(m, docs, ti, k);
        lemma_key_tags(docs[o], o, k, m[k]);
        assert(ids_key(o).skip(1) =~= o);
        assert(k.skip(1) =~= id);
    }
}

/// Counts the documents whose embedding was lost.
#[verifier::rlimit(40)]
fn count_missing(store: &Store, vectors: &Vec<String>) -> (r: Result<usize, Error>)
    requires
        store.wf(),
    ensures
        r is Err ==> r->Err_0 is Serialization,
        forall|docs: Map<Seq<u8>, Doc>, ti: bool| #[trigger]
            mirrors(store@, docs, ti) ==> r is Ok && r->Ok_0 == missing_of(
                docs,
                id_list(vectors@),
            ).len(),
{
    let mut have: ByteSet = ByteSet::new();
    let ghost all = id_list(vectors@);
    let mut i: usize = 0;
    assert(all.subrange(0, 0) =~= Seq::empty());
    while i < vectors.len()
        invariant
            i <= vectors@.len(),
            all == id_list(vectors@),
            have.wf(),
            forall|x: Seq<u8>| #[trigger]
                have@.contains(x) == all.subrange(0, i as int).contains(x),
        decreases vectors@.len() - i,
    {
        let id: &[u8] = vectors[i].as_str().as_bytes();
        have.insert(copy_bytes(id));
        proof {
            assert(all.subrange(0, i + 1) =~= all.subrange(0, i as int).push(id@));
            assert forall|x: Seq<u8>| #[trigger] have@.contains(x) == all.subrange(
                0,
                i + 1,
            ).contains(x) by {
                lemma_push_contains(all.subrange(0, i as int), id@, x);
            }
        }
        i += 1;
    }
    assert(all.subrange(0, i as int) =~= all);
    let ids: ByteSet = all_ids(store);
    let ghost s = byte_lists(ids.items@);
    let mut lost: ByteSet = ByteSet::new();
    i = 0;
    while i < ids.items.len()
        invariant
            i <= ids.items@.len(),
            store.wf(),
            have.wf(),
            lost.wf(),
            s == byte_lists(ids.items@),
            forall|x: Seq<u8>| #[trigger] have@.contains(x) == all.contains(x),
            forall|docs: Map<Seq<u8>, Doc>, ti: bool| #[trigger]
                mirrors(store@, docs, ti) ==> s.to_set() == docs.dom(),
            forall|docs: Map<Seq<u8>, Doc>, ti: bool| #[trigger]
                mirrors(store@, docs, ti) ==> forall|x: Seq<u8>| #[trigger]
                    lost@.contains(x) == (s.subrange(0, i as int).contains(x) && missing_of(
                        docs,
                        all,
                    ).contains(x)),
        decreases ids.items@.len() - i,
    {
        let ghost id = s[i as int];
        let ghost was = lost@;
        assert(id == ids.items@[i as int]@);
        assert(s.to_set().contains(id));
        assert(s.subrange(0, i + 1) =~= s.subrange(0, i as int).push(id));
        match record_in(store, ids.items[i].as_slice()) {
            Ok(found) => {
                let gone: bool = match &found {
                    Some(record) => record.has_vector && !have.contains(ids.items[i].as_slice()),
                    None => false,
                };
                if gone {
                    lost.insert(copy_bytes(ids.items[i].as_slice()));
                }
                assert forall|docs: Map<Seq<u8>, Doc>, ti: bool| #[trigger]
                    mirrors(store@, docs, ti) implies forall|x: Seq<u8>| #[trigger]
                    lost@.contains(x) == (s.subrange(0, i + 1).contains(x) && missing_of(
                        docs,
                        all,
                    ).contains(x)) by {
                    lemma_stored(store@, docs, ti, id);
                    assert(docs.contains_key(id));
                    assert forall|x: Seq<u8>| #[trigger] lost@.contains(x) == (s.subrange(
                        0,
                        i + 1,
                    ).contains(x) && missing_of(docs, all).contains(x)) by {
                        lemma_push_contains(s.subrange(0, i as int), id, x);
                        assert(was.contains(x) == (s.subrange(0, i as int).contains(x)
                            && missing_of(docs, all).contains(x)));
                    }
                }
            },
            Err(e) => {
                assert forall|docs: Map<Seq<u8>, Doc>, ti: bool| #[trigger]
                    mirrors(store@, docs, ti) implies false by {
                    lemma_stored(store@, docs, ti, id);
                    assert(docs.contains_key(id));
                }
                return Err(e);
            },
        }
        i += 1;
    }
    assert(s.subrange(0, i as int) =~= s);
    assert forall|docs: Map<Seq<u8>, Doc>, ti: bool| #[trigger]
        mirrors(store@, docs, ti) implies lost@ == missing_of(docs, all) by {
        assert forall|x: Seq<u8>| lost@.contains(x) == missing_of(docs, all).contains(x) by {
            assert(s.to_set().contains(x) == docs.dom().contains(x));
        }
        assert(lost@ =~= missing_of(docs, all));
    }
    Ok(lost.len())
}

impl Collection {
    /// Finds what a crash left behind: embeddings whose document never
    /// committed, and how many problems there are, documents whose embedding
    /// was lost included.
    pub fn reconcile(&self, vectors: &Vec<String>) -> (r: Result<(Vec<Vec<u8>>, u64), Error>)
        requires
            self.wf(),
        ensures
            r is Err ==> r->Err_0 is Serialization,
            self.config.dim == 0 ==> r is Ok && r->Ok_0.0@.len() == 0 && r->Ok_0.1 == 0,
            forall|docs: Map<Seq<u8>, Doc>, ti: bool| #[trigger]
                mirrors(self.store@, docs, ti) && self.config.dim > 0 ==> {
                    &&& r is Ok
                    &&& byte_lists(r->Ok_0.0@) == orphans_of(docs, id_list(vectors@))
                    &&& r->Ok_0.1 == clipped(
                        r->Ok_0.0@.len() + missing_of(docs, id_list(vectors@)).len(),
                    )
                },
    {
        if self.config.dim == 0 {
            return Ok((Vec::new(), 0));
        }
        let orphans: Vec<Vec<u8>> = find_orphans(&self.store, vectors);
        match count_missing(&self.store, vectors) {
            Ok(n) => {
                let repaired: u64 = (orphans.len() as u64).saturating_add(n as u64);
                Ok((orphans, repaired))
            },
            Err(e) => Err(e),
        }
    }
}


/// The problems that opening a store finds: none where it was closed, or has
/// no embeddings.
pub open spec fn repairs(
    m: Map<Seq<u8>, Seq<u8>>,
    docs: Map<Seq<u8>, Doc>,
    config: Config,
    ids: Seq<Seq<u8>>,
) -> u64 {
    if m.contains_key(open_key()) && config.dim > 0 {
        clipped(orphans_of(docs, ids).len() + missing_of(docs, ids).len())
    } else {
        0
    }
}

impl Collection {
    /// Opens the collection that a store holds; `stored` is its layout, if it
    /// has one, and `vectors` are the ids of its embeddings.
    ///
    /// An "open" mark that survives from last time means that the previous
    /// session never closed cleanly: the two stores are reconciled.
    #[verifier::rlimit(40)]
    pub fn open(
        store: Store,
        stored: Option<Config>,
        options: CollectionOptions,
        vectors: &Vec<String>,
    ) -> (r: Result<Opened, Error>)
        requires
            store.wf(),
        ensures
            r is Ok ==> {
                let c = r->Ok_0.collection;
                &&& c.wf()
                &&& c.store@ == store@.insert(open_key(), seq![1u8])
                &&& match stored {
                    Some(s) => c.config == s && known(s) && compatible(s, options),
                    None => options.dim <= MAX_DIM && c.config == fresh_layout(options),
                }
            },
            match stored {
                Some(s) => !known(s) || !compatible(s, options),
                None => options.dim > MAX_DIM,
            } ==> r is Err && r->Err_0 is InvalidArgument,
            forall|docs: Map<Seq<u8>, Doc>, ti: bool| #[trigger]
                mirrors(store@, docs, ti) && match stored {
                    Some(s) => known(s) && compatible(s, options),
                    None => options.dim <= MAX_DIM,
                } ==> {
                    let c = r->Ok_0.collection;
                    let ids = id_list(vectors@);
                    &&& r is Ok
                    &&& mirrors(c.store@, docs, ti)
                    &&& keeps(store, docs, ti) ==> keeps(c.store, docs, ti)
                    &&& c.repaired == repairs(store@, docs, c.config, ids)
                    &&& byte_lists(r->Ok_0.orphans@) == if store@.contains_key(open_key())
                        && c.config.dim > 0 {
                        orphans_of(docs, ids)
                    } else {
                        Seq::empty()
                    }
                },
    {
        let config: Config = match layout(stored, options) {
            Ok(c) => c,
            Err(e) => {
                return Err(e);
            },
        };
        let ghost m = store@;
        let ghost given = store;
        let mark: Vec<u8> = open_key_bytes();
        let crashed: bool = store.contains_key(mark.as_slice());
        let mut collection: Collection = Collection { store, config, repaired: 0 };
        let mut orphans: Vec<Vec<u8>> = Vec::new();
        assert(byte_lists(orphans@) =~= Seq::empty());
        if crashed {
            match collection.reconcile(vectors) {
                Ok((ids, n)) => {
                    orphans = ids;
                    collection.repaired = n;
                    if config.dim == 0 {
                        assert(byte_lists(orphans@) =~= Seq::empty());
                    }
                    assert forall|docs: Map<Seq<u8>, Doc>, ti: bool| #[trigger]
                        mirrors(m, docs, ti) && config.dim > 0 implies byte_lists(orphans@).len()
                        == orphans_of(docs, id_list(vectors@)).len() by {}
                },
                Err(e) => {
                    return Err(e);
                },
            }
        }
        let one: Vec<u8> = vec![1];
        assert(one@ =~= seq![1u8]);
        collection.store.insert(mark, one);
        proof {
            assert(!document_key(open_key()));
            assert forall|docs: Map<Seq<u8>, Doc>, ti: bool| #[trigger]
                mirrors(m, docs, ti) implies mirrors(collection.store@, docs, ti) && (keeps(
                given,
                docs,
                ti,
            ) ==> keeps(collection.store, docs, ti)) by {
                lemma_own_keys(m, docs, ti, open_key(), seq![1u8]);
                assert(stats_key().len() != open_key().len());
                assert(counters_of(collection.store@) == counters_of(m));
            }
        }
        Ok(Opened { collection, orphans })
    }

    /// Removes the "open" mark: the next open need not reconcile.
    pub fn close(&mut self)
        requires
            old(self).wf(),
        ensures
            final(self).wf(),
            final(self).store@ == old(self).store@.remove(open_key()),
            final(self).config == old(self).config,
            final(self).repaired == old(self).repaired,
            forall|docs: Map<Seq<u8>, Doc>, ti: bool| #[trigger]
                mirrors(old(self).store@, docs, ti) ==> {
                    &&& mirrors(final(self).store@, docs, ti)
                    &&& keeps(old(self).store, docs, ti) ==> keeps(final(self).store, docs, ti)
                },
    {
        let ghost m = self.store@;
        let ghost given = &self.store;
        self.store.remove(open_key_bytes().as_slice());
        proof {
            assert(!document_key(open_key()));
            assert forall|docs: Map<Seq<u8>, Doc>, ti: bool| #[trigger]
                mirrors(m, docs, ti) implies mirrors(self.store@, docs, ti) && (keeps(
                *given,
                docs,
                ti,
            ) ==> keeps(self.store, docs, ti)) by {
                lemma_own_keys(m, docs, ti, open_key(), Seq::empty());
                assert(stats_key().len() != open_key().len());
                assert(counters_of(self.store@) == counters_of(m));
            }
        }
    }
}

} // verus!
