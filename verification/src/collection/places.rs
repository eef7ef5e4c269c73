//! Under which keys records stand, whatever else a store holds.

use crate::collection::documents::{applied, Document};
use crate::collection::keys::{doc_key, ids_key, DOC, IDS};
use crate::collection::mirror::{
    cleared, is_present_key, is_term_key, is_value_key, laid, lemma_key_tags, owns, record_bytes,
    Doc, Rec,
};
use crate::collection::text::terms_of;
use crate::json::utf8;
use vstd::prelude::*;

verus! {

/// A key under which a record stands or an id is listed.
pub open spec fn record_key(k: Seq<u8>) -> bool {
    k.len() > 0 && (k[0] == DOC || k[0] == IDS)
}

/// One of the two such keys of an id.
pub open spec fn of_id(k: Seq<u8>, id: Seq<u8>) -> bool {
    k == doc_key(id) || k == ids_key(id)
}

/// Two stores hold the same under a key.
pub open spec fn same_at(
    m: Map<Seq<u8>, Seq<u8>>,
    n: Map<Seq<u8>, Seq<u8>>,
    k: Seq<u8>,
) -> bool {
    (n.contains_key(k) <==> m.contains_key(k)) && (m.contains_key(k) ==> n[k] == m[k])
}

/// The record of an id stands in its place, and the id is listed.
pub open spec fn holds_record(m: Map<Seq<u8>, Seq<u8>>, id: Seq<u8>, r: Rec) -> bool {
    &&& m.contains_key(doc_key(id))
    &&& m[doc_key(id)] == record_bytes(r)
    &&& m.contains_key(ids_key(id))
}

/// The records of other ids stay.
pub open spec fn others_stay(
    m: Map<Seq<u8>, Seq<u8>>,
    n: Map<Seq<u8>, Seq<u8>>,
    id: Seq<u8>,
) -> bool {
    forall|k: Seq<u8>| record_key(k) && !of_id(k, id) ==> #[trigger] same_at(m, n, k)
}

/// Keys tell ids apart.
pub proof fn lemma_of_id(a: Seq<u8>, b: Seq<u8>)
    requires
        a != b,
    ensures
        !of_id(doc_key(a), b),
        !of_id(ids_key(a), b),
        record_key(doc_key(a)),
        record_key(ids_key(a)),
{
    assert(doc_key(a).skip(1) =~= a && doc_key(b).skip(1) =~= b);
    assert(ids_key(a).skip(1) =~= a && ids_key(b).skip(1) =~= b);
    assert(doc_key(a)[0] == DOC && doc_key(b)[0] == DOC);
    assert(ids_key(a)[0] == IDS && ids_key(b)[0] == IDS);
}

/// Index keys are no record keys.
pub(crate) proof fn lemma_cleared_stay(
    m: Map<Seq<u8>, Seq<u8>>,
    n: Map<Seq<u8>, Seq<u8>>,
    d: Doc,
    id: Seq<u8>,
    ti: bool,
)
    requires
        cleared(m, n, d, id, ti),
    ensures
        forall|k: Seq<u8>| record_key(k) ==> #[trigger] same_at(m, n, k),
{
    assert forall|k: Seq<u8>| record_key(k) implies #[trigger] same_at(m, n, k) by {
        lemma_key_tags(d, id, k, Seq::empty());
        if is_term_key(d, id, k) {
            let t = choose|t: Seq<u8>| #[trigger]
                terms_of(d.record.text->0).contains(t) && k == crate::collection::keys::term_key(
                    t,
                    id,
                );
            assert(k[0] == crate::collection::keys::TERM);
        }
        assert(n.contains_key(k) <==> m.contains_key(k));
    }
}

/// What a document owns besides its record are no record keys.
pub(crate) proof fn lemma_laid_stay(
    m: Map<Seq<u8>, Seq<u8>>,
    n: Map<Seq<u8>, Seq<u8>>,
    d: Doc,
    id: Seq<u8>,
    ti: bool,
)
    requires
        laid(m, n, d, id, ti),
    ensures
        holds_record(n, id, d.record),
        others_stay(m, n, id),
{
    assert(owns(d, id, ti, doc_key(id), record_bytes(d.record)));
    assert(owns(d, id, ti, ids_key(id), Seq::<u8>::empty()));
    assert forall|k: Seq<u8>| record_key(k) && !of_id(k, id) implies #[trigger] same_at(m, n, k) by {
        if n.contains_key(k) {
            lemma_key_tags(d, id, k, n[k]);
            assert(!is_value_key(d, id, k) && !is_present_key(d, id, k));
            assert(!owns(d, id, ti, k, n[k]));
        }
        if m.contains_key(k) {
            assert(n.contains_key(k));
        }
    }
}

// ---- storing ----------------------------------------------------------------

/// `k` is a record key of one of the documents.
pub open spec fn belongs(docs: Map<Seq<u8>, Doc>, k: Seq<u8>) -> bool {
    exists|id: Seq<u8>| #[trigger] docs.contains_key(id) && of_id(k, id)
}

/// The first `n` documents of a batch have their records in `now`, the last of
/// each id counting, and no other record differs from `was`.
#[verifier::opaque]
pub open spec fn stand(
    was: Map<Seq<u8>, Seq<u8>>,
    now: Map<Seq<u8>, Seq<u8>>,
    batch: Seq<Document>,
    n: int,
    ti: bool,
) -> bool {
    let docs = applied(Map::empty(), batch, n, ti);
    &&& forall|id: Seq<u8>| #[trigger]
        docs.contains_key(id) ==> holds_record(now, id, docs[id].record)
    &&& forall|k: Seq<u8>| record_key(k) && !belongs(docs, k) ==> #[trigger] same_at(was, now, k)
}

pub(crate) proof fn lemma_stand_none(m: Map<Seq<u8>, Seq<u8>>, batch: Seq<Document>, ti: bool)
    ensures
        stand(m, m, batch, 0, ti),
{
    reveal(stand);
}

/// One more document.
pub(crate) proof fn lemma_stand_next(
    was: Map<Seq<u8>, Seq<u8>>,
    mid: Map<Seq<u8>, Seq<u8>>,
    now: Map<Seq<u8>, Seq<u8>>,
    batch: Seq<Document>,
    i: int,
    ti: bool,
)
    requires
        0 <= i < batch.len(),
        stand(was, mid, batch, i, ti),
        holds_record(
            now,
            utf8(batch[i].id),
            crate::collection::documents::doc_of(batch[i], ti).record,
        ),
        others_stay(mid, now, utf8(batch[i].id)),
    ensures
        stand(was, now, batch, i + 1, ti),
{
    reveal(stand);
    let id = utf8(batch[i].id);
    let docs = applied(Map::empty(), batch, i, ti);
    let next = applied(Map::empty(), batch, i + 1, ti);
    assert(next == docs.insert(id, crate::collection::documents::doc_of(batch[i], ti)));
    assert forall|x: Seq<u8>| #[trigger] next.contains_key(x) implies holds_record(
        now,
        x,
        next[x].record,
    ) by {
        if x != id {
            assert(docs.contains_key(x));
            lemma_of_id(x, id);
            assert(same_at(mid, now, doc_key(x)));
            assert(same_at(mid, now, ids_key(x)));
        }
    }
    assert forall|k: Seq<u8>| record_key(k) && !belongs(next, k) implies #[trigger] same_at(
        was,
        now,
        k,
    ) by {
        assert(!of_id(k, id)) by {
            assert(next.contains_key(id));
        }
        assert(!belongs(docs, k)) by {
            if belongs(docs, k) {
                let x = choose|x: Seq<u8>| #[trigger] docs.contains_key(x) && of_id(k, x);
                assert(next.contains_key(x));
            }
        }
        assert(same_at(was, mid, k));
        assert(same_at(mid, now, k));
    }
}

/// Other keys do not matter.
pub(crate) proof fn lemma_stand_beside(
    was: Map<Seq<u8>, Seq<u8>>,
    now: Map<Seq<u8>, Seq<u8>>,
    batch: Seq<Document>,
    n: int,
    ti: bool,
    key: Seq<u8>,
    v: Seq<u8>,
)
    requires
        stand(was, now, batch, n, ti),
        !record_key(key),
    ensures
        stand(was, now.insert(key, v), batch, n, ti),
{
    reveal(stand);
    let after = now.insert(key, v);
    let docs = applied(Map::empty(), batch, n, ti);
    assert forall|id: Seq<u8>| #[trigger] docs.contains_key(id) implies holds_record(
        after,
        id,
        docs[id].record,
    ) by {
        assert(record_key(doc_key(id))) by {
            assert(doc_key(id)[0] == DOC);
        }
        assert(record_key(ids_key(id))) by {
            assert(ids_key(id)[0] == IDS);
        }
    }
    assert forall|k: Seq<u8>| record_key(k) && !belongs(docs, k) implies #[trigger] same_at(
        was,
        after,
        k,
    ) by {
        assert(same_at(was, now, k));
    }
}

// ---- deleting ---------------------------------------------------------------

/// One of the first `n` ids.
pub open spec fn named(ids: Seq<String>, n: int, id: Seq<u8>) -> bool {
    exists|j: int| 0 <= j < n && utf8(#[trigger] ids[j]) == id
}

/// `k` is a record key of one of the first `n` ids.
pub open spec fn names(ids: Seq<String>, n: int, k: Seq<u8>) -> bool {
    exists|j: int| 0 <= j < n && of_id(k, utf8(#[trigger] ids[j]))
}

/// Those of the first `n` ids under which a record stood, each once.
pub open spec fn recorded_ids(m: Map<Seq<u8>, Seq<u8>>, ids: Seq<String>, n: int) -> Seq<Seq<u8>>
    decreases n,
{
    if n <= 0 {
        Seq::empty()
    } else {
        let before = recorded_ids(m, ids, n - 1);
        let id = utf8(ids[n - 1]);
        if m.contains_key(doc_key(id)) && !named(ids, n - 1, id) {
            before.push(id)
        } else {
            before
        }
    }
}

/// No record of the first `n` ids is left in `now`, nor is an id listed that had
/// one, and no other record differs from `was`.
#[verifier::opaque]
pub open spec fn fallen(
    was: Map<Seq<u8>, Seq<u8>>,
    now: Map<Seq<u8>, Seq<u8>>,
    ids: Seq<String>,
    n: int,
) -> bool {
    &&& forall|j: int|
        0 <= j < n ==> {
            let id = utf8(#[trigger] ids[j]);
            !now.contains_key(doc_key(id)) && (was.contains_key(doc_key(id)) ==> !now.contains_key(
                ids_key(id),
            ))
        }
    &&& forall|k: Seq<u8>| record_key(k) && !names(ids, n, k) ==> #[trigger] same_at(was, now, k)
}

pub(crate) proof fn lemma_fallen_none(m: Map<Seq<u8>, Seq<u8>>, ids: Seq<String>)
    ensures
        fallen(m, m, ids, 0),
{
    reveal(fallen);
}

/// One more id.
pub(crate) proof fn lemma_fallen_next(
    was: Map<Seq<u8>, Seq<u8>>,
    mid: Map<Seq<u8>, Seq<u8>>,
    now: Map<Seq<u8>, Seq<u8>>,
    ids: Seq<String>,
    i: int,
)
    requires
        0 <= i < ids.len(),
        fallen(was, mid, ids, i),
        others_stay(mid, now, utf8(ids[i])),
        mid.contains_key(doc_key(utf8(ids[i]))) ==> !now.contains_key(doc_key(utf8(ids[i])))
            && !now.contains_key(ids_key(utf8(ids[i]))),
        !mid.contains_key(doc_key(utf8(ids[i]))) ==> now == mid,
    ensures
        fallen(was, now, ids, i + 1),
        mid.contains_key(doc_key(utf8(ids[i]))) == (was.contains_key(doc_key(utf8(ids[i])))
            && !named(ids, i, utf8(ids[i]))),
{
    reveal(fallen);
    let id = utf8(ids[i]);
    assert(record_key(doc_key(id))) by {
        assert(doc_key(id)[0] == DOC);
    }
    if named(ids, i, id) {
        let j = choose|j: int| 0 <= j < i && utf8(#[trigger] ids[j]) == id;
        assert(!mid.contains_key(doc_key(id)));
    } else {
        assert(!names(ids, i, doc_key(id))) by {
            if names(ids, i, doc_key(id)) {
                let j = choose|j: int| 0 <= j < i && of_id(doc_key(id), utf8(#[trigger] ids[j]));
                if utf8(ids[j]) != id {
                    lemma_of_id(id, utf8(ids[j]));
                }
            }
        }
        assert(same_at(was, mid, doc_key(id)));
    }
    assert forall|j: int| 0 <= j < i + 1 implies {
        let x = utf8(#[trigger] ids[j]);
        !now.contains_key(doc_key(x)) && (was.contains_key(doc_key(x)) ==> !now.contains_key(
            ids_key(x),
        ))
    } by {
        let x = utf8(ids[j]);
        if x != id {
            lemma_of_id(x, id);
            assert(same_at(mid, now, doc_key(x)));
            assert(same_at(mid, now, ids_key(x)));
        } else if !mid.contains_key(doc_key(id)) && was.contains_key(doc_key(id)) {
            let a = choose|a: int| 0 <= a < i && utf8(#[trigger] ids[a]) == id;
            assert(!mid.contains_key(ids_key(id)));
        }
    }
    assert forall|k: Seq<u8>| record_key(k) && !names(ids, i + 1, k) implies #[trigger] same_at(
        was,
        now,
        k,
    ) by {
        assert(!of_id(k, utf8(ids[i])));
        assert(!names(ids, i, k)) by {
            if names(ids, i, k) {
                let j = choose|j: int| 0 <= j < i && of_id(k, utf8(#[trigger] ids[j]));
                assert(of_id(k, utf8(ids[j])));
            }
        }
        assert(same_at(was, mid, k));
        assert(same_at(mid, now, k));
    }
}

/// Other keys do not matter.
pub(crate) proof fn lemma_fallen_beside(
    was: Map<Seq<u8>, Seq<u8>>,
    now: Map<Seq<u8>, Seq<u8>>,
    ids: Seq<String>,
    n: int,
    key: Seq<u8>,
    v: Seq<u8>,
)
    requires
        fallen(was, now, ids, n),
        !record_key(key),
    ensures
        fallen(was, now.insert(key, v), ids, n),
{
    reveal(fallen);
    let after = now.insert(key, v);
    assert forall|j: int| 0 <= j < n implies {
        let id = utf8(#[trigger] ids[j]);
        !after.contains_key(doc_key(id)) && (was.contains_key(doc_key(id))
            ==> !after.contains_key(ids_key(id)))
    } by {
        let id = utf8(ids[j]);
        assert(doc_key(id)[0] == DOC);
        assert(ids_key(id)[0] == IDS);
    }
    assert forall|k: Seq<u8>| record_key(k) && !names(ids, n, k) implies #[trigger] same_at(
        was,
        after,
        k,
    ) by {
        assert(same_at(was, now, k));
    }
}

} // verus!
