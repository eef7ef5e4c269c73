//! What holds of a collection as its callers see it.

use crate::bytes::{lemma_lex_asymmetric, lemma_lex_irreflexive, lemma_lex_total, lex_lt};
use crate::collection::api::{
    answer_list, limited, lost_by, removed_ids, shows, without,
};
use crate::collection::documents::{
    accepted, applied, doc_of, reread, tally, vector_ok, Config, Document,
};
use crate::collection::filter::{parsed, Query};
use crate::collection::filter_laws::{hits, taken};
use crate::collection::flatten::{can_index, key_ok};
use crate::collection::index::selected;
use crate::collection::mirror::{id_ok, record_bytes, short_keys, Doc};
use crate::collection::opening::{missing_of, orphans_of};
use crate::collection::ranking::{best, merges, Merged};
use crate::collection::records::Counters;
use crate::json::{utf8, Tree};
use crate::ordered::ascending;
use vstd::prelude::*;

verus! {

// ---- what is accepted -----------------------------------------------------------------------

/// A control character: U+0000 to U+001F, U+007F, and U+0080 to U+009F, which
/// take two bytes.
pub open spec fn controls(b: Seq<u8>, i: int) -> bool {
    ||| b[i] <= 31
    ||| b[i] == 127
    ||| b[i] == 194 && i + 1 < b.len() && 128 <= b[i + 1] <= 159
}

/// An id has 1 to 128 bytes, none of them of a control character. An embedding
/// has as many numbers as the collection has dimensions, all of them finite. A
/// metadata key has 1 to 256 bytes without NUL and without a dot.
pub proof fn law_ids_embeddings_and_keys(id: Seq<u8>, v: Seq<u32>, dim: int)
    ensures
        id_ok(id) <==> 1 <= id.len() <= 128 && forall|i: int|
            0 <= i < id.len() ==> !#[trigger] controls(id, i),
        vector_ok(v, dim) <==> v.len() == dim && forall|i: int|
            0 <= i < v.len() ==> (#[trigger] v[i]) % 0x8000_0000 < 0x7F80_0000,
        key_ok(id) <==> 1 <= id.len() <= 256 && !id.contains(0) && !id.contains(0x2E),
{
    if id_ok(id) {
        assert forall|i: int| 0 <= i < id.len() implies !#[trigger] controls(id, i) by {
            assert(!crate::collection::mirror::control_at(id, i));
        }
    } else if 1 <= id.len() <= 128 {
        let i = choose|i: int| crate::collection::mirror::control_at(id, i);
        assert(controls(id, i));
    }
}

/// A collection takes a document with such an id, whose metadata is an object or
/// nothing and can be indexed in 1024 entries, whose record takes at most eight
/// mebibytes, and whose embedding, if it has one, fits the collection.
pub proof fn law_documents_are_checked(d: Document, c: Config)
    ensures
        accepted(d, c) <==> {
            &&& id_ok(utf8(d.id))
            &&& d.metadata@ is Null || d.metadata@ is Object
            &&& can_index(d.metadata@, 1024)
            &&& record_bytes(doc_of(d, c.text_index).record).len() <= 8 * 1024 * 1024
            &&& short_keys(doc_of(d, c.text_index), utf8(d.id))
            &&& match d.vector {
                Some(v) => c.dim > 0 && vector_ok(v@, c.dim as int),
                None => true,
            }
        },
{
}

// ---- what comes back ------------------------------------------------------------------------

/// A document is read back as it was stored: its id, its text and whether it has
/// an embedding, and its metadata, as far as JSON text can tell it.
pub proof fn law_documents_are_read_back(
    docs: Map<Seq<u8>, Doc>,
    batch: Seq<Document>,
    i: int,
    ti: bool,
    back: Document,
)
    requires
        0 <= i < batch.len(),
        forall|j: int| i < j < batch.len() ==> utf8((#[trigger] batch[j]).id) != utf8(batch[i].id),
        shows(
            back,
            utf8(batch[i].id),
            applied(docs, batch, batch.len() as int, ti)[utf8(batch[i].id)].record,
        ),
    ensures
        ({
            let d = batch[i];
            let now = applied(docs, batch, batch.len() as int, ti);
            &&& now.contains_key(utf8(d.id))
            &&& utf8(back.id) == utf8(d.id)
            &&& match d.text {
                Some(t) => back.text is Some && back.text->0@ == t@,
                None => back.text is None,
            }
            &&& reread(d) ==> back.metadata@ == d.metadata@
            &&& now[utf8(d.id)].record.has_vector == (d.vector is Some)
            &&& now[utf8(d.id)].tree == d.metadata@
        }),
{
    crate::collection::documents::law_last_occurrence_wins(
        docs,
        batch,
        i,
        batch.len() as int,
        ti,
    );
}

/// A batch of documents adds those ids that were not there and no others, and
/// asks for the removal of an embedding only where a document had one that its
/// new version lacks.
pub proof fn law_batches_add_their_ids(
    docs: Map<Seq<u8>, Doc>,
    batch: Seq<Document>,
    n: int,
    ti: bool,
    id: Seq<u8>,
)
    requires
        0 <= n <= batch.len(),
    ensures
        applied(docs, batch, n, ti).contains_key(id) <==> docs.contains_key(id) || exists|i: int|
            0 <= i < n && utf8((#[trigger] batch[i]).id) == id,
        lost_by(docs, batch, n, ti, id) ==> exists|i: int|
            0 <= i < n && utf8((#[trigger] batch[i]).id) == id && batch[i].vector is None,
        n > 0 && docs.contains_key(utf8(batch[0].id)) && docs[utf8(
            batch[0].id,
        )].record.has_vector && batch[0].vector is None ==> lost_by(
            docs,
            batch,
            n,
            ti,
            utf8(batch[0].id),
        ),
    decreases n,
{
    if n > 0 {
        law_batches_add_their_ids(docs, batch, n - 1, ti, id);
        let last = utf8(batch[n - 1].id);
        if applied(docs, batch, n, ti).contains_key(id) && !docs.contains_key(id) {
            if id != last {
                let i = choose|i: int| 0 <= i < n - 1 && utf8((#[trigger] batch[i]).id) == id;
                assert(utf8(batch[i].id) == id);
            }
        }
        if docs.contains_key(utf8(batch[0].id)) && docs[utf8(batch[0].id)].record.has_vector
            && batch[0].vector is None {
            assert(applied(docs, batch, 0, ti) == docs);
            assert(crate::collection::documents::loses_vector(docs, batch, 0, ti));
        }
    }
}

/// Deleting leaves exactly the documents that are not named, as they were, and
/// names those that were there, each once.
pub proof fn law_deletions_remove_what_is_named(
    docs: Map<Seq<u8>, Doc>,
    ids: Seq<String>,
    n: int,
    id: Seq<u8>,
)
    requires
        0 <= n <= ids.len(),
    ensures
        ({
            let named = exists|i: int| 0 <= i < n && utf8(#[trigger] ids[i]) == id;
            let left = without(docs, ids, n);
            &&& left.contains_key(id) <==> docs.contains_key(id) && !named
            &&& left.contains_key(id) ==> left[id] == docs[id]
            &&& removed_ids(docs, ids, n).contains(id) <==> docs.contains_key(id) && named
            &&& removed_ids(docs, ids, n).no_duplicates()
        }),
    decreases n,
{
    if n > 0 {
        law_deletions_remove_what_is_named(docs, ids, n - 1, id);
        let last = utf8(ids[n - 1]);
        law_deletions_remove_what_is_named(docs, ids, n - 1, last);
        let before = removed_ids(docs, ids, n - 1);
        let now = removed_ids(docs, ids, n);
        if exists|i: int| 0 <= i < n && utf8(#[trigger] ids[i]) == id {
            let i = choose|i: int| 0 <= i < n && utf8(#[trigger] ids[i]) == id;
            if i < n - 1 {
                assert(utf8(ids[i]) == id);
            }
        }
        if without(docs, ids, n - 1).contains_key(last) {
            assert(now == before.push(last));
            assert(!before.contains(last));
            assert(now[now.len() - 1] == last);
            if before.contains(id) {
                let i = choose|i: int| 0 <= i < before.len() && before[i] == id;
                assert(now[i] == id);
            }
            if now.contains(id) && id != last {
                let i = choose|i: int| 0 <= i < now.len() && now[i] == id;
                assert(before[i] == id);
            }
            assert forall|a: int, b: int| 0 <= a < b < now.len() implies now[a] != now[b] by {
                if b == before.len() {
                    assert(before.contains(before[a]));
                }
            }
        }
    }
}

/// The counters tell how many documents there are and how many have text, and
/// so they change by one with a document that comes or goes.
pub proof fn law_counters_follow_the_documents(
    docs: Map<Seq<u8>, Doc>,
    c: Counters,
    id: Seq<u8>,
    d: Doc,
    more: Counters,
)
    requires
        tally(docs, c),
        !docs.contains_key(id),
        tally(docs.insert(id, d), more),
    ensures
        more.docs == c.docs + 1,
        more.text_docs == c.text_docs + if d.record.text is Some {
            1int
        } else {
            0
        },
        more.text_terms == c.text_terms + if d.record.text is Some {
            d.record.text_len as int
        } else {
            0
        },
{
    let now = docs.insert(id, d);
    assert(now.remove(id) =~= docs);
    crate::collection::documents::lemma_tally_removed(now, more, id);
    let less = crate::collection::documents::uncounted(more, d.record);
    vstd::set_lib::lemma_len_subset(
        crate::collection::documents::with_text(now),
        now.dom(),
    );
    crate::collection::documents::lemma_total_without(now, id);
    if d.record.text is Some {
        assert(crate::collection::documents::with_text(now).contains(id));
        assert(crate::collection::documents::with_text(now).len() > 0);
    }
}

// ---- selecting and listing ------------------------------------------------------------------

/// A filter selects the documents whose metadata matches it, and an empty one
/// selects all.
pub proof fn law_filters_select_what_matches(docs: Map<Seq<u8>, Doc>, t: Tree, id: Seq<u8>)
    ensures
        taken(t, 0) ==> (selected(docs, parsed(t, 0)->0).contains(id) <==> docs.contains_key(id)
            && hits(t, 0, docs[id].tree)),
        selected(docs, Query::All) == docs.dom(),
{
    assert(selected(docs, Query::All) =~= docs.dom());
}

/// A list holds the ids of the documents that are selected and come behind the
/// starting point, each once and in byte order; of a limit the first are taken.
pub proof fn law_lists_are_ordered_and_complete(
    docs: Map<Seq<u8>, Doc>,
    q: Query,
    after: Option<Seq<u8>>,
    ids: Seq<Seq<u8>>,
    n: int,
    id: Seq<u8>,
)
    requires
        answer_list(docs, q, after, ids),
        n >= 0,
    ensures
        ids.contains(id) <==> selected(docs, q).contains(id) && match after {
            Some(a) => lex_lt(a, id),
            None => true,
        },
        forall|i: int, j: int| 0 <= i < j < ids.len() ==> lex_lt(#[trigger] ids[i], #[trigger] ids[j]),
        limited(ids, n).len() == if n == 0 || ids.len() <= n {
            ids.len() as int
        } else {
            n
        },
        forall|i: int| 0 <= i < limited(ids, n).len() ==> #[trigger] limited(ids, n)[i] == ids[i],
{
    assert(ids.to_set().contains(id) == ids.contains(id));
}

/// Pages follow on from one another: a page of a list and the list behind its
/// last id make up the list.
pub proof fn law_pages_follow(
    docs: Map<Seq<u8>, Doc>,
    q: Query,
    after: Option<Seq<u8>>,
    all: Seq<Seq<u8>>,
    n: int,
    rest: Seq<Seq<u8>>,
)
    requires
        answer_list(docs, q, after, all),
        n >= 1,
        all.len() > 0,
        answer_list(docs, q, Some(limited(all, n).last()), rest),
    ensures
        limited(all, n) + rest == all,
{
    let page = limited(all, n);
    let p = page.len() as int;
    let last = page.last();
    assert(last == all[p - 1]);
    let tail = all.skip(p);
    assert(page =~= all.take(p));
    assert forall|x: Seq<u8>| tail.contains(x) == rest.contains(x) by {
        assert(rest.to_set().contains(x) == rest.contains(x));
        assert(all.to_set().contains(x) == all.contains(x));
        if tail.contains(x) {
            let i = choose|i: int| 0 <= i < tail.len() && tail[i] == x;
            assert(all[p + i] == x);
            assert(lex_lt(all[p - 1], all[p + i]));
        }
        if rest.contains(x) {
            assert(selected(docs, q).contains(x) && lex_lt(last, x));
            if after is Some {
                assert(all.to_set().contains(last)) by {
                    assert(all.contains(all[p - 1]));
                }
                crate::bytes::lemma_lex_transitive(after->0, last, x);
            }
            assert(all.to_set().contains(x));
            let i = choose|i: int| 0 <= i < all.len() && all[i] == x;
            if i < p {
                lemma_lex_irreflexive(last);
                if i < p - 1 {
                    assert(lex_lt(all[i], all[p - 1]));
                    lemma_lex_asymmetric(all[i], all[p - 1]);
                }
            }
            assert(tail[i - p] == x);
        }
    }
    assert(ascending(tail)) by {
        assert forall|i: int, j: int| 0 <= i < j < tail.len() implies lex_lt(
            #[trigger] tail[i],
            #[trigger] tail[j],
        ) by {
            assert(lex_lt(all[p + i], all[p + j]));
        }
    }
    assert(tail.to_set() =~= rest.to_set()) by {
        assert forall|x: Seq<u8>| tail.to_set().contains(x) == rest.to_set().contains(x) by {
            assert(tail.contains(x) == rest.contains(x));
        }
    }
    crate::ordered::law_a_set_has_one_ascending_list(tail, rest);
    assert(page + rest =~= all);
}

// ---- reconciling ----------------------------------------------------------------------------

/// After a crash the embeddings without a document are told, and the documents
/// that should have an embedding and lack it.
pub proof fn law_strays_are_found(docs: Map<Seq<u8>, Doc>, ids: Seq<Seq<u8>>, id: Seq<u8>)
    ensures
        orphans_of(docs, ids).contains(id) <==> ids.contains(id) && !docs.contains_key(id),
        missing_of(docs, ids).contains(id) <==> docs.contains_key(id)
            && docs[id].record.has_vector && !ids.contains(id),
    decreases ids.len(),
{
    if ids.len() > 0 {
        let less = ids.drop_last();
        law_strays_are_found(docs, less, id);
        let before = orphans_of(docs, less);
        let now = orphans_of(docs, ids);
        if less.contains(id) {
            let i = choose|i: int| 0 <= i < less.len() && less[i] == id;
            assert(ids[i] == id);
        }
        if ids.contains(id) && ids.last() != id {
            let i = choose|i: int| 0 <= i < ids.len() && ids[i] == id;
            assert(less[i] == id);
        }
        if ids.last() == id {
            assert(ids[ids.len() - 1] == id);
        }
        if before.contains(id) {
            let i = choose|i: int| 0 <= i < before.len() && before[i] == id;
            assert(now[i] == id);
        }
        if now.contains(id) {
            let i = choose|i: int| 0 <= i < now.len() && now[i] == id;
            if i < before.len() {
                assert(before[i] == id);
            }
        }
        if now.len() > before.len() {
            assert(now[before.len() as int] == ids.last());
        }
    }
}

// ---- ranking --------------------------------------------------------------------------------

/// The first single-precision number is the higher, by its bits: any without a
/// sign is above any with one, and among those with a sign the order is
/// reversed.
pub open spec fn higher(a: u32, b: u32) -> bool {
    if a < 0x8000_0000 {
        b >= 0x8000_0000 || a > b
    } else {
        b >= 0x8000_0000 && a < b
    }
}

/// The best come first: no entry stands before one with a higher score, or
/// before one with the same score and an earlier id, and what is cut off is no
/// better than what is kept.
pub proof fn law_the_best_come_first(
    list: Seq<(Seq<u8>, u32)>,
    n: int,
    ix: Seq<usize>,
    out: Seq<(Seq<u8>, u32)>,
    i: int,
    j: int,
    k: int,
)
    requires
        best(list, n, ix, out),
        n >= 0,
        0 <= i < j < out.len(),
        out.len() <= k < list.len(),
    ensures
        !higher(out[j].1, out[i].1),
        out[i].1 == out[j].1 ==> !lex_lt(out[j].0, out[i].0),
        out.len() == n,
        !higher(list[ix[k] as int].1, out[j].1),
        list[ix[k] as int].1 == out[j].1 ==> !lex_lt(list[ix[k] as int].0, out[j].0),
{
    let (a, b, c) = (list[ix[i] as int], list[ix[j] as int], list[ix[k] as int]);
    assert(out[i] == a && out[j] == b);
    lemma_lex_irreflexive(a.0);
    lemma_lex_irreflexive(b.0);
    if lex_lt(a.0, b.0) {
        lemma_lex_asymmetric(a.0, b.0);
    }
    if lex_lt(b.0, c.0) {
        lemma_lex_asymmetric(b.0, c.0);
    }
    lemma_lex_total(a.0, b.0);
}

/// The same of a whole ranking, from which nothing is cut off.
pub proof fn law_rankings_descend(
    list: Seq<(Seq<u8>, u32)>,
    n: int,
    ix: Seq<usize>,
    out: Seq<(Seq<u8>, u32)>,
    i: int,
    j: int,
)
    requires
        best(list, n, ix, out),
        0 <= i < j < out.len(),
    ensures
        !higher(out[j].1, out[i].1),
        out[i].1 == out[j].1 ==> !lex_lt(out[j].0, out[i].0),
        n >= list.len() ==> out.len() == list.len(),
{
    let (a, b) = (list[ix[i] as int], list[ix[j] as int]);
    assert(out[i] == a && out[j] == b);
    lemma_lex_irreflexive(a.0);
    if lex_lt(a.0, b.0) {
        lemma_lex_asymmetric(a.0, b.0);
    }
}

/// Two rankings come together by id: each id of either has one entry, which
/// tells its place in both where it stands in both.
pub proof fn law_merged_rankings_tell_places(
    v: Seq<Seq<u8>>,
    t: Seq<Seq<u8>>,
    out: Seq<Merged>,
    k: int,
)
    requires
        v.len() <= usize::MAX,
        t.len() <= usize::MAX,
        v.no_duplicates(),
        t.no_duplicates(),
        merges(v, t, out),
        0 <= k < out.len(),
    ensures
        match out[k].vector {
            Some(p) => p < v.len() && v[p as int] == out[k].id@,
            None => !v.contains(out[k].id@),
        },
        match out[k].text {
            Some(p) => p < t.len() && t[p as int] == out[k].id@,
            None => !t.contains(out[k].id@),
        },
        out[k].vector is Some || out[k].text is Some,
        forall|j: int| 0 <= j < out.len() && j != k ==> (#[trigger] out[j]).id@ != out[k].id@,
        forall|i: int| 0 <= i < v.len() ==> exists|j: int|
            0 <= j < out.len() && (#[trigger] out[j]).id@ == #[trigger] v[i] && out[j].vector
                == Some(i as usize),
        forall|i: int| 0 <= i < t.len() ==> exists|j: int|
            0 <= j < out.len() && (#[trigger] out[j]).id@ == #[trigger] t[i] && out[j].text == Some(
                i as usize,
            ),
{
    crate::collection::ranking::lemma_last_in(v, out[k].id@);
    crate::collection::ranking::lemma_last_in(t, out[k].id@);
    assert forall|i: int| 0 <= i < v.len() implies exists|j: int|
        0 <= j < out.len() && (#[trigger] out[j]).id@ == #[trigger] v[i] && out[j].vector == Some(
            i as usize,
        ) by {
        assert(v.contains(v[i]));
        let j = choose|j: int| 0 <= j < out.len() && (#[trigger] out[j]).id@ == v[i];
        crate::collection::ranking::lemma_last_in(v, v[i]);
        assert(out[j].vector == Some(i as usize));
    }
    assert forall|i: int| 0 <= i < t.len() implies exists|j: int|
        0 <= j < out.len() && (#[trigger] out[j]).id@ == #[trigger] t[i] && out[j].text == Some(
            i as usize,
        ) by {
        assert(t.contains(t[i]));
        let j = choose|j: int| 0 <= j < out.len() && (#[trigger] out[j]).id@ == t[i];
        crate::collection::ranking::lemma_last_in(t, t[i]);
        assert(out[j].text == Some(i as usize));
    }
}

} // verus!
