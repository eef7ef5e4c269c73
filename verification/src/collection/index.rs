//! Answering filters from the index.

use crate::btree::scan::{listing, pairs, Bound};
use crate::bytes::{copy_bytes, copy_range, push_bytes, Order};
use crate::collection::filter::{
    clause, clauses, data, field_query, grouped, has_equal, holds, in_range, operands,
    operator_queries, operator_query, parsed, part_list, parts, present_at, query, reaches,
    segments, Filter, Query, RangeOp,
};
use crate::collection::keys::{
    code_len, encoded_len, key, meta_base, meta_prefix, IDS, META, PRESENT,
};
use crate::collection::mirror::{
    coded_ids, codes_ok, id_after_code, ids_where, lemma_coded_ids, lemma_equal_bounds,
    lemma_has_successor, lemma_listed_ids, lemma_present_ids, lemma_range_bounds, lossy_bytes, mirrors,
    range_bounds, scalar_base, shown, suffixes, within, Doc,
};
use crate::collection::scalar::{compared, is_nan, Datum, Scalar};
use crate::error::Error;
use crate::json::{utf8, Tree};
use crate::ordered::{bounded, ByteSet, Store};
use crate::prefix::{law_successor_ends_the_prefix, prefix_successor, starts};
use vstd::prelude::*;
use vstd::utf8::*;

verus! {

/// Whether the index can answer a query as the documents would: no field
/// holds a NUL, no operand is NaN, and no conjunction is empty.
pub open spec fn query_ok(q: Query) -> bool
    decreases q,
{
    match q {
        Query::All => true,
        Query::Eq(field, v) => !field.contains(0) && datum_ok(v),
        Query::Ne(field, v) => !field.contains(0) && datum_ok(v),
        Query::Range(field, _, v) => !field.contains(0) && datum_ok(v),
        Query::In(field, vs) => !field.contains(0) && data_ok(vs),
        Query::Nin(field, vs) => !field.contains(0) && data_ok(vs),
        Query::Exists(field, _) => !field.contains(0),
        Query::And(qs) => qs.len() > 0 && forall|i: int|
            0 <= i < qs.len() ==> query_ok(#[trigger] qs[i]),
        Query::Or(qs) => forall|i: int| 0 <= i < qs.len() ==> query_ok(#[trigger] qs[i]),
        Query::Not(p) => query_ok(*p),
    }
}

/// Whether a scalar is a number where it claims to be one.
pub open spec fn datum_ok(d: Datum) -> bool {
    d is Number ==> !is_nan(d->Number_0)
}

/// Whether all scalars are.
pub open spec fn data_ok(vs: Seq<Datum>) -> bool {
    forall|i: int| 0 <= i < vs.len() ==> datum_ok(#[trigger] vs[i])
}

/// The documents whose metadata satisfies a query.
pub open spec fn selected(docs: Map<Seq<u8>, Doc>, q: Query) -> Set<Seq<u8>> {
    docs.dom().filter(|id: Seq<u8>| holds(q, docs[id].tree))
}

/// What follows the prefix in the keys that start with it.
pub fn listed(store: &Store, prefix: &[u8]) -> (r: ByteSet)
    requires
        store.wf(),
    ensures
        r.wf(),
        r@ == suffixes(store@, prefix@),
{
    let lo: Bound = Bound::Included(copy_bytes(prefix));
    let hi: Bound = match prefix_successor(prefix) {
        Some(end) => Bound::Excluded(end),
        None => Bound::Unbounded,
    };
    let found: Vec<(Vec<u8>, Vec<u8>)> = store.range(&lo, &hi);
    let ghost m = bounded(store@, lo, hi);
    let ghost e = pairs(found@);
    let n: usize = prefix.len();
    assert forall|k: Seq<u8>| #[trigger] m.contains_key(k) == (store@.contains_key(k) && starts(
        k,
        prefix@,
    )) by {
        law_successor_ends_the_prefix(prefix@, k);
    }
    let mut ids: ByteSet = ByteSet::new();
    let mut i: usize = 0;
    while i < found.len()
        invariant
            i <= found@.len(),
            n == prefix@.len(),
            e == pairs(found@),
            listing(m, e),
            ids.wf(),
            forall|k: Seq<u8>| #[trigger]
                m.contains_key(k) == (store@.contains_key(k) && starts(k, prefix@)),
            forall|id: Seq<u8>| #[trigger]
                ids@.contains(id) == exists|j: int|
                    0 <= j < i && id == shown((#[trigger] e[j]).0.skip(n as int)),
        decreases found@.len() - i,
    {
        assert(e[i as int].0 == found@[i as int].0@);
        assert(m.contains_key(e[i as int].0));
        let suffix: Vec<u8> = copy_range(found[i].0.as_slice(), n, found[i].0.len());
        assert(suffix@ =~= e[i as int].0.skip(n as int));
        let ghost was = ids@;
        ids.insert(lossy_bytes(suffix.as_slice()));
        assert forall|id: Seq<u8>| #[trigger] ids@.contains(id) == exists|j: int|
            0 <= j < i + 1 && id == shown((#[trigger] e[j]).0.skip(n as int)) by {
            if was.contains(id) {
                let j = choose|j: int| 0 <= j < i && id == shown((#[trigger] e[j]).0.skip(n as int));
            }
        }
        i += 1;
    }
    proof {
        let all = suffixes(store@, prefix@);
        assert forall|id: Seq<u8>| ids@.contains(id) == all.contains(id) by {
            if ids@.contains(id) {
                let j = choose|j: int|
                    0 <= j < e.len() && id == shown((#[trigger] e[j]).0.skip(n as int));
                assert(m.contains_key(e[j].0));
            }
            if all.contains(id) {
                let k = choose|k: Seq<u8>| #[trigger]
                    store@.contains_key(k) && starts(k, prefix@) && id == shown(
                        k.skip(prefix@.len() as int),
                    );
                assert(m.contains_key(k));
                let j = choose|j: int| 0 <= j < e.len() && (#[trigger] e[j]).0 == k;
                assert(id == shown(e[j].0.skip(n as int)));
            }
        }
        assert(ids@ =~= all);
    }
    ids
}

/// The ids behind the encoded scalars of the keys between the bounds, which
/// stand `n` bytes in.
pub fn coded(store: &Store, lo: &Bound, hi: &Bound, n: usize) -> (r: Result<ByteSet, Error>)
    requires
        store.wf(),
    ensures
        match r {
            Ok(ids) => ids.wf() && codes_ok(store@, *lo, *hi, n as int) && ids@ == coded_ids(
                store@,
                *lo,
                *hi,
                n as int,
            ),
            Err(e) => e is Corruption && !codes_ok(store@, *lo, *hi, n as int),
        },
{
    let found: Vec<(Vec<u8>, Vec<u8>)> = store.range(lo, hi);
    let ghost m = bounded(store@, *lo, *hi);
    let ghost e = pairs(found@);
    assert forall|k: Seq<u8>| #[trigger] m.contains_key(k) == (store@.contains_key(k) && within(
        *lo,
        *hi,
        k,
    )) by {}
    let mut ids: ByteSet = ByteSet::new();
    let mut i: usize = 0;
    while i < found.len()
        invariant
            i <= found@.len(),
            e == pairs(found@),
            listing(m, e),
            ids.wf(),
            forall|k: Seq<u8>| #[trigger]
                m.contains_key(k) == (store@.contains_key(k) && within(*lo, *hi, k)),
            forall|j: int|
                0 <= j < i && e[j].0.len() >= n ==> code_len((#[trigger] e[j]).0.skip(n as int)) is Some
                    && n + code_len(e[j].0.skip(n as int))->0 <= e[j].0.len(),
            forall|id: Seq<u8>| #[trigger]
                ids@.contains(id) == exists|j: int|
                    0 <= j < i && (#[trigger] e[j]).0.len() >= n && id == shown(
                        id_after_code(e[j].0, n as int),
                    ),
        decreases found@.len() - i,
    {
        let ghost k = e[i as int].0;
        assert(k == found@[i as int].0@);
        assert(m.contains_key(k));
        let ghost was = ids@;
        if found[i].0.len() >= n {
            let suffix: Vec<u8> = copy_range(found[i].0.as_slice(), n, found[i].0.len());
            assert(suffix@ =~= k.skip(n as int));
            match encoded_len(suffix.as_slice()) {
                Some(c) => {
                    if c > suffix.len() {
                        assert(store@.contains_key(k));
                        return Err(Error::corrupt("malformed metadata index key"));
                    }
                    let id: Vec<u8> = copy_range(suffix.as_slice(), c, suffix.len());
                    assert(id@ =~= id_after_code(k, n as int));
                    ids.insert(lossy_bytes(id.as_slice()));
                },
                None => {
                    assert(store@.contains_key(k));
                    return Err(Error::corrupt("malformed metadata index key"));
                },
            }
        }
        assert forall|id: Seq<u8>| #[trigger] ids@.contains(id) == exists|j: int|
            0 <= j < i + 1 && (#[trigger] e[j]).0.len() >= n && id == shown(
                id_after_code(e[j].0, n as int),
            ) by {
            if was.contains(id) {
                let j = choose|j: int|
                    0 <= j < i && (#[trigger] e[j]).0.len() >= n && id == shown(
                        id_after_code(e[j].0, n as int),
                    );
            }
        }
        i += 1;
    }
    proof {
        assert forall|k: Seq<u8>| #[trigger]
            store@.contains_key(k) && within(*lo, *hi, k) && k.len() >= n implies code_len(
            k.skip(n as int),
        ) is Some && n + code_len(k.skip(n as int))->0 <= k.len() by {
            assert(m.contains_key(k));
            let j = choose|j: int| 0 <= j < e.len() && (#[trigger] e[j]).0 == k;
        }
        let all = coded_ids(store@, *lo, *hi, n as int);
        assert forall|id: Seq<u8>| ids@.contains(id) == all.contains(id) by {
            if ids@.contains(id) {
                let j = choose|j: int|
                    0 <= j < e.len() && (#[trigger] e[j]).0.len() >= n && id == shown(
                        id_after_code(e[j].0, n as int),
                    );
                assert(m.contains_key(e[j].0));
            }
            if all.contains(id) {
                let k = choose|k: Seq<u8>| #[trigger]
                    store@.contains_key(k) && within(*lo, *hi, k) && k.len() >= n && id == shown(
                        id_after_code(k, n as int),
                    );
                assert(m.contains_key(k));
                let j = choose|j: int| 0 <= j < e.len() && (#[trigger] e[j]).0 == k;
                assert(id == shown(id_after_code(e[j].0, n as int)));
            }
        }
        assert(ids@ =~= all);
    }
    Ok(ids)
}

/// Every id in the collection.
pub fn all_ids(store: &Store) -> (r: ByteSet)
    requires
        store.wf(),
    ensures
        r.wf(),
        r@ == suffixes(store@, seq![IDS]),
        forall|docs: Map<Seq<u8>, Doc>, ti: bool| #[trigger]
            mirrors(store@, docs, ti) ==> r@ == docs.dom(),
{
    let empty: Vec<u8> = Vec::new();
    let prefix: Vec<u8> = key(IDS, empty.as_slice());
    assert(prefix@ =~= seq![IDS]);
    proof {
        assert forall|docs: Map<Seq<u8>, Doc>, ti: bool| #[trigger]
            mirrors(store@, docs, ti) implies suffixes(store@, seq![IDS]) == docs.dom() by {
            lemma_listed_ids(store@, docs, ti);
        }
    }
    listed(store, prefix.as_slice())
}

/// Ids of documents where `field` is present.
pub fn ids_present(store: &Store, field: &[u8]) -> (r: ByteSet)
    requires
        store.wf(),
    ensures
        r.wf(),
        r@ == suffixes(store@, meta_base(field@) + seq![PRESENT]),
        forall|docs: Map<Seq<u8>, Doc>, ti: bool| #[trigger]
            mirrors(store@, docs, ti) && !field@.contains(0) ==> r@ == docs.dom().filter(
                |id: Seq<u8>| present_at(docs[id].tree, segments(field@)),
            ),
{
    let mut prefix: Vec<u8> = meta_prefix(field);
    prefix.push(PRESENT);
    assert(prefix@ =~= meta_base(field@) + seq![PRESENT]);
    proof {
        assert forall|docs: Map<Seq<u8>, Doc>, ti: bool| #[trigger]
            mirrors(store@, docs, ti) && !field@.contains(0) implies suffixes(
            store@,
            meta_base(field@) + seq![PRESENT],
        ) == docs.dom().filter(|id: Seq<u8>| present_at(docs[id].tree, segments(field@))) by {
            lemma_present_ids(store@, docs, ti, field@);
        }
    }
    listed(store, prefix.as_slice())
}

/// The scalars equal to `v`.
pub open spec fn equal_to(v: Datum) -> spec_fn(Datum) -> bool {
    |d: Datum| compared(d, v) == Some(Order::Equal)
}

/// The scalars that `op` accepts of `v`.
pub open spec fn ranged(op: RangeOp, v: Datum) -> spec_fn(Datum) -> bool {
    |d: Datum| in_range(op, compared(d, v))
}

/// Ids of documents whose `field` holds `value`.
pub fn ids_eq(store: &Store, field: &[u8], value: &Scalar) -> (r: Result<ByteSet, Error>)
    requires
        store.wf(),
    ensures
        r is Ok ==> r->Ok_0.wf(),
        r is Err ==> r->Err_0 is Corruption,
        forall|docs: Map<Seq<u8>, Doc>, ti: bool| #[trigger]
            mirrors(store@, docs, ti) && !field@.contains(0) && datum_ok(value@) ==> r is Ok
                && r->Ok_0@ == ids_where(docs, field@, equal_to(value@)),
{
    let base: Vec<u8> = meta_prefix(field);
    let mut prefix: Vec<u8> = copy_bytes(base.as_slice());
    let code: Vec<u8> = value.encode();
    push_bytes(&mut prefix, code.as_slice());
    assert(prefix@ == scalar_base(field@, value@));
    let hi: Bound = match prefix_successor(prefix.as_slice()) {
        Some(end) => Bound::Excluded(end),
        None => Bound::Unbounded,
    };
    let lo: Bound = Bound::Included(prefix);
    proof {
        assert(scalar_base(field@, value@)[0] == META);
        lemma_has_successor(scalar_base(field@, value@));
        assert forall|docs: Map<Seq<u8>, Doc>, ti: bool| #[trigger]
            mirrors(store@, docs, ti) && !field@.contains(0) && datum_ok(value@) implies codes_ok(
            store@,
            lo,
            hi,
            base@.len() as int,
        ) && coded_ids(store@, lo, hi, base@.len() as int) == ids_where(
            docs,
            field@,
            equal_to(value@),
        ) by {
            lemma_equal_bounds(field@, value@, lo, hi);
            lemma_coded_ids(store@, docs, ti, field@, lo, hi, equal_to(value@));
        }
    }
    coded(store, &lo, &hi, base.len())
}

/// Ids of documents whose `field` holds a value in the range.
pub fn ids_in_range(store: &Store, field: &[u8], op: RangeOp, value: &Scalar) -> (r: Result<
    ByteSet,
    Error,
>)
    requires
        store.wf(),
    ensures
        r is Ok ==> r->Ok_0.wf(),
        r is Err ==> r->Err_0 is Corruption,
        forall|docs: Map<Seq<u8>, Doc>, ti: bool| #[trigger]
            mirrors(store@, docs, ti) && !field@.contains(0) && datum_ok(value@) ==> r is Ok
                && r->Ok_0@ == ids_where(docs, field@, ranged(op, value@)),
{
    let base: Vec<u8> = meta_prefix(field);
    let mut at: Vec<u8> = copy_bytes(base.as_slice());
    let code: Vec<u8> = value.encode();
    push_bytes(&mut at, code.as_slice());
    assert(at@ == scalar_base(field@, value@));
    let after: Vec<u8> = match prefix_successor(at.as_slice()) {
        Some(end) => end,
        None => copy_bytes(at.as_slice()),
    };
    let mut low: Vec<u8> = copy_bytes(base.as_slice());
    low.push(value.type_tag());
    let mut high: Vec<u8> = copy_bytes(base.as_slice());
    high.push(value.type_tag() + 1);
    let (lo, hi): (Bound, Bound) = match op {
        RangeOp::Gt => (Bound::Included(after), Bound::Excluded(high)),
        RangeOp::Gte => (Bound::Included(at), Bound::Excluded(high)),
        RangeOp::Lt => (Bound::Included(low), Bound::Excluded(at)),
        RangeOp::Lte => (Bound::Included(low), Bound::Excluded(after)),
    };
    proof {
        assert(scalar_base(field@, value@)[0] == META);
        lemma_has_successor(scalar_base(field@, value@));
        assert(range_bounds(field@, op, value@, lo, hi));
        assert forall|docs: Map<Seq<u8>, Doc>, ti: bool| #[trigger]
            mirrors(store@, docs, ti) && !field@.contains(0) && datum_ok(value@) implies codes_ok(
            store@,
            lo,
            hi,
            base@.len() as int,
        ) && coded_ids(store@, lo, hi, base@.len() as int) == ids_where(
            docs,
            field@,
            ranged(op, value@),
        ) by {
            lemma_range_bounds(field@, op, value@, lo, hi);
            lemma_coded_ids(store@, docs, ti, field@, lo, hi, ranged(op, value@));
        }
    }
    coded(store, &lo, &hi, base.len())
}


// ---- evaluation -------------------------------------------------------------

/// `r` answers the query for every set of documents that the store mirrors.
pub open spec fn answers(store: Store, q: Query, r: Set<Seq<u8>>) -> bool {
    forall|docs: Map<Seq<u8>, Doc>, ti: bool| #[trigger]
        mirrors(store@, docs, ti) && query_ok(q) ==> r == selected(docs, q)
}

/// Every id in the collection, loaded at most once per evaluation.
fn universe(store: &Store, all: &mut Option<ByteSet>) -> (r: ByteSet)
    requires
        store.wf(),
        cached(store, *old(all)),
    ensures
        cached(store, *final(all)),
        r.wf(),
        forall|docs: Map<Seq<u8>, Doc>, ti: bool| #[trigger]
            mirrors(store@, docs, ti) ==> r@ == docs.dom(),
{
    proof {
        assert forall|docs: Map<Seq<u8>, Doc>, ti: bool| #[trigger]
            mirrors(store@, docs, ti) implies suffixes(store@, seq![IDS]) == docs.dom() by {
            lemma_listed_ids(store@, docs, ti);
        }
    }
    match all {
        Some(ids) => ids.copy(),
        None => {
            let ids: ByteSet = all_ids(store);
            let r: ByteSet = ids.copy();
            *all = Some(ids);
            r
        },
    }
}

/// What is kept of the ids, if anything, is all of them.
pub open spec fn cached(store: &Store, all: Option<ByteSet>) -> bool {
    all matches Some(ids) ==> ids.wf() && ids@ == suffixes(store@, seq![IDS])
}

/// The ids outside `hit`.
fn complement(store: &Store, hit: ByteSet, all: &mut Option<ByteSet>) -> (r: ByteSet)
    requires
        store.wf(),
        hit.wf(),
        cached(store, *old(all)),
    ensures
        cached(store, *final(all)),
        r.wf(),
        forall|docs: Map<Seq<u8>, Doc>, ti: bool| #[trigger]
            mirrors(store@, docs, ti) ==> r@ == docs.dom().difference(hit@),
{
    let ids: ByteSet = universe(store, all);
    ids.difference(&hit)
}

/// Ids of documents whose `field` holds one of the values.
fn ids_any(store: &Store, field: &String, vs: &Vec<Scalar>) -> (r: Result<ByteSet, Error>)
    requires
        store.wf(),
    ensures
        r is Ok ==> r->Ok_0.wf() && answers(
            *store,
            Query::In(utf8(*field), data(vs@)),
            r->Ok_0@,
        ),
        r is Err ==> r->Err_0 is Corruption,
        forall|docs: Map<Seq<u8>, Doc>, ti: bool| #[trigger]
            mirrors(store@, docs, ti) && query_ok(Query::In(utf8(*field), data(vs@))) ==> r is Ok,
{
    let mut out: ByteSet = ByteSet::new();
    let ghost name = utf8(*field);
    let ghost ds = data(vs@);
    let mut i: usize = 0;
    while i < vs.len()
        invariant
            i <= vs@.len(),
            store.wf(),
            out.wf(),
            name == utf8(*field),
            ds == data(vs@),
            forall|docs: Map<Seq<u8>, Doc>, ti: bool| #[trigger]
                mirrors(store@, docs, ti) && query_ok(Query::In(name, ds)) ==> (forall|
                    id: Seq<u8>,
                |
                    #[trigger] out@.contains(id) == (docs.contains_key(id) && exists|j: int|
                        0 <= j < i && has_equal(
                            docs[id].tree,
                            name,
                            #[trigger] ds[j],
                        ))),
        decreases vs@.len() - i,
    {
        let ghost was = out@;
        assert(ds[i as int] == vs@[i as int]@);
        let hit: ByteSet = match ids_eq(store, field.as_str().as_bytes(), &vs[i]) {
            Ok(ids) => ids,
            Err(e) => {
                assert forall|docs: Map<Seq<u8>, Doc>, ti: bool| #[trigger]
                    mirrors(store@, docs, ti) && query_ok(Query::In(name, ds)) implies false by {
                    assert(datum_ok(ds[i as int]));
                }
                return Err(e);
            },
        };
        let ghost h = hit@;
        out.union(hit);
        proof {
            assert forall|docs: Map<Seq<u8>, Doc>, ti: bool| #[trigger]
                mirrors(store@, docs, ti) && query_ok(Query::In(name, ds)) implies (forall|
                id: Seq<u8>,
            |
                #[trigger] out@.contains(id) == (docs.contains_key(id) && exists|j: int|
                    0 <= j < i + 1 && has_equal(
                        docs[id].tree,
                        name,
                        #[trigger] ds[j],
                    ))) by {
                assert(datum_ok(ds[i as int]));
                assert(h == ids_where(docs, name, equal_to(ds[i as int])));
                assert forall|id: Seq<u8>| #[trigger] out@.contains(id) == (docs.contains_key(id)
                    && exists|j: int|
                    0 <= j < i + 1 && has_equal(
                        docs[id].tree,
                        name,
                        #[trigger] ds[j],
                    )) by {
                    assert(was.contains(id) == (docs.contains_key(id) && exists|j: int|
                        0 <= j < i && has_equal(
                            docs[id].tree,
                            name,
                            #[trigger] ds[j],
                        )));
                    if h.contains(id) {
                        let d = choose|d: Datum| #[trigger]
                            reaches(
                                docs[id].tree,
                                segments(name),
                                d,
                            ) && equal_to(ds[i as int])(d);
                        assert(has_equal(
                            docs[id].tree,
                            name,
                            ds[i as int],
                        ));
                    }
                    if docs.contains_key(id) && has_equal(
                        docs[id].tree,
                        name,
                        ds[i as int],
                    ) {
                        let d = choose|d: Datum| #[trigger]
                            reaches(
                                docs[id].tree,
                                segments(name),
                                d,
                            ) && compared(d, ds[i as int]) == Some(Order::Equal);
                        assert(equal_to(ds[i as int])(d));
                        assert(h.contains(id));
                    }
                }
            }
        }
        i += 1;
    }
    assert forall|docs: Map<Seq<u8>, Doc>, ti: bool| #[trigger]
        mirrors(store@, docs, ti) && query_ok(Query::In(name, ds)) implies out@ == selected(
        docs,
        Query::In(name, ds),
    ) by {
        assert(out@ =~= selected(docs, Query::In(name, ds)));
    }
    Ok(out)
}

proof fn lemma_selected_eq(docs: Map<Seq<u8>, Doc>, field: Seq<u8>, v: Datum)
    ensures
        selected(docs, Query::Eq(field, v)) == ids_where(docs, field, equal_to(v)),
{
    let (a, b) = (selected(docs, Query::Eq(field, v)), ids_where(docs, field, equal_to(v)));
    assert forall|id: Seq<u8>| a.contains(id) == b.contains(id) by {
        let t = docs[id].tree;
        if a.contains(id) {
            let d = choose|d: Datum| #[trigger]
                reaches(t, segments(field), d) && compared(d, v) == Some(
                    Order::Equal,
                );
            assert(equal_to(v)(d));
        }
        if b.contains(id) {
            let d = choose|d: Datum| #[trigger]
                reaches(t, segments(field), d) && equal_to(v)(d);
        }
    }
    assert(a =~= b);
}

proof fn lemma_selected_range(docs: Map<Seq<u8>, Doc>, field: Seq<u8>, op: RangeOp, v: Datum)
    ensures
        selected(docs, Query::Range(field, op, v)) == ids_where(docs, field, ranged(op, v)),
{
    let (a, b) = (
        selected(docs, Query::Range(field, op, v)),
        ids_where(docs, field, ranged(op, v)),
    );
    assert forall|id: Seq<u8>| a.contains(id) == b.contains(id) by {
        let t = docs[id].tree;
        if a.contains(id) {
            let d = choose|d: Datum| #[trigger]
                reaches(t, segments(field), d)
                    && in_range(op, compared(d, v));
            assert(ranged(op, v)(d));
        }
        if b.contains(id) {
            let d = choose|d: Datum| #[trigger]
                reaches(t, segments(field), d) && ranged(op, v)(d);
        }
    }
    assert(a =~= b);
}

/// The documents outside a query's answer answer its opposite.
proof fn lemma_selected_not(docs: Map<Seq<u8>, Doc>, q: Query, p: Query)
    requires
        forall|t: Tree| #[trigger] holds(q, t) == !holds(p, t),
    ensures
        selected(docs, q) == docs.dom().difference(selected(docs, p)),
{
    assert(selected(docs, q) =~= docs.dom().difference(selected(docs, p)));
}

/// Evaluates `filter` to the set of matching ids, from the index.
///
/// Agrees with [`Filter::matches`]: equality, ranges and `$in` read value
/// entries, `$exists` reads presence entries, and the negations are
/// complements within the id set.
#[verifier::rlimit(60)]
#[verifier::spinoff_prover]
pub fn eval(store: &Store, filter: &Filter, all: &mut Option<ByteSet>) -> (r: Result<
    ByteSet,
    Error,
>)
    requires
        store.wf(),
        cached(store, *old(all)),
    ensures
        cached(store, *final(all)),
        r is Ok ==> r->Ok_0.wf() && answers(*store, filter@, r->Ok_0@),
        r is Err ==> r->Err_0 is Corruption,
        forall|docs: Map<Seq<u8>, Doc>, ti: bool| #[trigger]
            mirrors(store@, docs, ti) && query_ok(filter@) ==> r is Ok,
    decreases *filter,
{
    match filter {
        Filter::All => {
            let ids: ByteSet = universe(store, all);
            assert forall|docs: Map<Seq<u8>, Doc>, ti: bool| #[trigger]
                mirrors(store@, docs, ti) implies ids@ == selected(docs, Query::All) by {
                assert(ids@ =~= selected(docs, Query::All));
            }
            Ok(ids)
        },
        Filter::Eq(field, v) => {
            let r: Result<ByteSet, Error> = ids_eq(store, field.as_str().as_bytes(), v);
            assert forall|docs: Map<Seq<u8>, Doc>, ti: bool| #[trigger]
                mirrors(store@, docs, ti) && query_ok(filter@) implies r is Ok && r->Ok_0@
                == selected(docs, filter@) by {
                lemma_selected_eq(docs, utf8(*field), v@);
            }
            r
        },
        Filter::In(field, vs) => ids_any(store, field, vs),
        Filter::Range(field, op, v) => {
            let r: Result<ByteSet, Error> = ids_in_range(
                store,
                field.as_str().as_bytes(),
                *op,
                v,
            );
            assert forall|docs: Map<Seq<u8>, Doc>, ti: bool| #[trigger]
                mirrors(store@, docs, ti) && query_ok(filter@) implies r is Ok && r->Ok_0@
                == selected(docs, filter@) by {
                lemma_selected_range(docs, utf8(*field), *op, v@);
            }
            r
        },
        Filter::Exists(field, want) => {
            let present: ByteSet = ids_present(store, field.as_str().as_bytes());
            let ghost there = Query::Exists(utf8(*field), true);
            assert forall|docs: Map<Seq<u8>, Doc>, ti: bool| #[trigger]
                mirrors(store@, docs, ti) && query_ok(filter@) implies present@ == selected(
                docs,
                there,
            ) by {
                assert(present@ =~= selected(docs, there));
            }
            if *want {
                return Ok(present);
            }
            let r: ByteSet = complement(store, present, all);
            assert forall|docs: Map<Seq<u8>, Doc>, ti: bool| #[trigger]
                mirrors(store@, docs, ti) && query_ok(filter@) implies r@ == selected(
                docs,
                filter@,
            ) by {
                lemma_selected_not(docs, filter@, there);
            }
            Ok(r)
        },
        Filter::Ne(field, v) => {
            let ghost same = Query::Eq(utf8(*field), v@);
            match ids_eq(store, field.as_str().as_bytes(), v) {
                Ok(eq) => {
                    let ghost hit = eq@;
                    let r: ByteSet = complement(store, eq, all);
                    assert forall|docs: Map<Seq<u8>, Doc>, ti: bool| #[trigger]
                        mirrors(store@, docs, ti) && query_ok(filter@) implies r@ == selected(
                        docs,
                        filter@,
                    ) by {
                        lemma_selected_eq(docs, utf8(*field), v@);
                        lemma_selected_not(docs, filter@, same);
                    }
                    Ok(r)
                },
                Err(e) => Err(e),
            }
        },
        Filter::Nin(field, vs) => {
            let ghost same = Query::In(utf8(*field), data(vs@));
            match ids_any(store, field, vs) {
                Ok(hit) => {
                    let r: ByteSet = complement(store, hit, all);
                    assert forall|docs: Map<Seq<u8>, Doc>, ti: bool| #[trigger]
                        mirrors(store@, docs, ti) && query_ok(filter@) implies r@ == selected(
                        docs,
                        filter@,
                    ) by {
                        assert(query_ok(same));
                        lemma_selected_not(docs, filter@, same);
                    }
                    Ok(r)
                },
                Err(e) => {
                    assert(query_ok(filter@) == query_ok(same));
                    Err(e)
                },
            }
        },
        Filter::And(fs) => eval_and(store, filter, fs, all),
        Filter::Or(fs) => eval_or(store, filter, fs, all),
        Filter::Not(f) => {
            match eval(store, f, all) {
                Ok(hit) => {
                    let r: ByteSet = complement(store, hit, all);
                    assert forall|docs: Map<Seq<u8>, Doc>, ti: bool| #[trigger]
                        mirrors(store@, docs, ti) && query_ok(filter@) implies r@ == selected(
                        docs,
                        filter@,
                    ) by {
                        lemma_selected_not(docs, filter@, f@);
                    }
                    Ok(r)
                },
                Err(e) => Err(e),
            }
        },
    }
}

/// The documents that satisfy the first `n` queries of a conjunction.
pub open spec fn selected_all(docs: Map<Seq<u8>, Doc>, qs: Seq<Query>, n: int) -> Set<Seq<u8>> {
    docs.dom().filter(
        |id: Seq<u8>| forall|j: int| 0 <= j < n ==> holds(#[trigger] qs[j], docs[id].tree),
    )
}

/// The documents that satisfy one of the first `n` queries.
pub open spec fn selected_any(docs: Map<Seq<u8>, Doc>, qs: Seq<Query>, n: int) -> Set<Seq<u8>> {
    docs.dom().filter(
        |id: Seq<u8>| exists|j: int| 0 <= j < n && holds(#[trigger] qs[j], docs[id].tree),
    )
}

#[verifier::rlimit(60)]
#[verifier::spinoff_prover]
fn eval_and(
    store: &Store,
    filter: &Filter,
    fs: &Vec<Filter>,
    all: &mut Option<ByteSet>,
) -> (r: Result<ByteSet, Error>)
    requires
        store.wf(),
        cached(store, *old(all)),
        *filter == Filter::And(*fs),
    ensures
        cached(store, *final(all)),
        r is Ok ==> r->Ok_0.wf() && answers(*store, filter@, r->Ok_0@),
        r is Err ==> r->Err_0 is Corruption,
        forall|docs: Map<Seq<u8>, Doc>, ti: bool| #[trigger]
            mirrors(store@, docs, ti) && query_ok(filter@) ==> r is Ok,
    decreases *fs,
{
    let ghost qs = filter@->And_0;
    if fs.len() == 0 {
        let none: ByteSet = ByteSet::new();
        return Ok(none);
    }
    let mut acc: ByteSet = ByteSet::new();
    let mut i: usize = 0;
    while i < fs.len()
        invariant
            i <= fs@.len(),
            fs@.len() > 0,
            store.wf(),
            cached(store, *all),
            *filter == Filter::And(*fs),
            filter@ == Query::And(qs),
            qs.len() == fs@.len(),
            forall|j: int| 0 <= j < qs.len() ==> #[trigger] qs[j] == query(fs@[j]),
            acc.wf(),
            i > 0 ==> forall|docs: Map<Seq<u8>, Doc>, ti: bool| #[trigger]
                mirrors(store@, docs, ti) && query_ok(filter@) ==> acc@ == selected_all(
                    docs,
                    qs,
                    i as int,
                ),
        decreases fs@.len() - i,
    {
        assert(qs[i as int] == fs@[i as int]@);
        let ghost was = acc@;
        let set: ByteSet = match eval(store, &fs[i], all) {
            Ok(set) => set,
            Err(e) => {
                assert forall|docs: Map<Seq<u8>, Doc>, ti: bool| #[trigger]
                    mirrors(store@, docs, ti) && query_ok(filter@) implies false by {
                    assert(filter@->And_0[i as int] == qs[i as int]);
                    assert(query_ok(qs[i as int]));
                }
                return Err(e);
            },
        };
        let ghost one = set@;
        if i == 0 {
            acc = set;
        } else {
            acc = acc.intersection(&set);
        }
        proof {
            assert forall|docs: Map<Seq<u8>, Doc>, ti: bool| #[trigger]
                mirrors(store@, docs, ti) && query_ok(filter@) implies acc@ == selected_all(
                docs,
                qs,
                i + 1,
            ) by {
                assert(filter@->And_0[i as int] == qs[i as int]);
                assert(query_ok(qs[i as int]));
                assert(one == selected(docs, qs[i as int]));
                assert forall|id: Seq<u8>| acc@.contains(id) == selected_all(
                    docs,
                    qs,
                    i + 1,
                ).contains(id) by {
                    if i > 0 {
                        assert(was.contains(id) == selected_all(docs, qs, i as int).contains(id));
                    }
                    if docs.contains_key(id) && (forall|j: int|
                        0 <= j < i + 1 ==> holds(#[trigger] qs[j], docs[id].tree)) {
                        assert(holds(qs[i as int], docs[id].tree));
                    }
                }
                assert(acc@ =~= selected_all(docs, qs, i + 1));
            }
        }
        i += 1;
        if acc.len() == 0 {
            assert forall|docs: Map<Seq<u8>, Doc>, ti: bool| #[trigger]
                mirrors(store@, docs, ti) && query_ok(filter@) implies acc@ == selected(
                docs,
                filter@,
            ) by {
                assert forall|id: Seq<u8>| !selected(docs, filter@).contains(id) by {
                    if selected(docs, filter@).contains(id) {
                        lemma_and_all(qs, docs[id].tree);
                        assert(acc@.contains(id));
                    }
                }
                assert(acc@ =~= selected(docs, filter@));
            }
            return Ok(acc);
        }
    }
    assert forall|docs: Map<Seq<u8>, Doc>, ti: bool| #[trigger]
        mirrors(store@, docs, ti) && query_ok(filter@) implies acc@ == selected(docs, filter@) by {
        assert forall|id: Seq<u8>| acc@.contains(id) == selected(docs, filter@).contains(id) by {
            if docs.contains_key(id) {
                lemma_and_all(qs, docs[id].tree);
            }
        }
        assert(acc@ =~= selected(docs, filter@));
    }
    Ok(acc)
}

proof fn lemma_and_all(qs: Seq<Query>, t: Tree)
    ensures
        holds(Query::And(qs), t) == (forall|j: int|
            0 <= j < qs.len() ==> holds(#[trigger] qs[j], t)),
{
    let q = Query::And(qs);
    assert(q->And_0 == qs);
    if holds(q, t) {
        assert forall|j: int| 0 <= j < qs.len() implies holds(#[trigger] qs[j], t) by {
            assert(q->And_0[j] == qs[j]);
        }
    }
}

proof fn lemma_or_any(qs: Seq<Query>, t: Tree)
    ensures
        holds(Query::Or(qs), t) == (exists|j: int|
            0 <= j < qs.len() && holds(#[trigger] qs[j], t)),
{
    let q = Query::Or(qs);
    assert(q->Or_0 == qs);
    if exists|j: int| 0 <= j < qs.len() && holds(#[trigger] qs[j], t) {
        let j = choose|j: int| 0 <= j < qs.len() && holds(#[trigger] qs[j], t);
        assert(q->Or_0[j] == qs[j]);
    }
}

#[verifier::rlimit(60)]
#[verifier::spinoff_prover]
fn eval_or(
    store: &Store,
    filter: &Filter,
    fs: &Vec<Filter>,
    all: &mut Option<ByteSet>,
) -> (r: Result<ByteSet, Error>)
    requires
        store.wf(),
        cached(store, *old(all)),
        *filter == Filter::Or(*fs),
    ensures
        cached(store, *final(all)),
        r is Ok ==> r->Ok_0.wf() && answers(*store, filter@, r->Ok_0@),
        r is Err ==> r->Err_0 is Corruption,
        forall|docs: Map<Seq<u8>, Doc>, ti: bool| #[trigger]
            mirrors(store@, docs, ti) && query_ok(filter@) ==> r is Ok,
    decreases *fs,
{
    let ghost qs = filter@->Or_0;
    let mut acc: ByteSet = ByteSet::new();
    let mut i: usize = 0;
    assert forall|docs: Map<Seq<u8>, Doc>| acc@ == #[trigger] selected_any(docs, qs, 0) by {
        assert(acc@ =~= selected_any(docs, qs, 0));
    }
    while i < fs.len()
        invariant
            i <= fs@.len(),
            store.wf(),
            cached(store, *all),
            *filter == Filter::Or(*fs),
            filter@ == Query::Or(qs),
            qs.len() == fs@.len(),
            forall|j: int| 0 <= j < qs.len() ==> #[trigger] qs[j] == query(fs@[j]),
            acc.wf(),
            forall|docs: Map<Seq<u8>, Doc>, ti: bool| #[trigger]
                mirrors(store@, docs, ti) && query_ok(filter@) ==> acc@ == selected_any(
                    docs,
                    qs,
                    i as int,
                ),
        decreases fs@.len() - i,
    {
        assert(qs[i as int] == fs@[i as int]@);
        let ghost was = acc@;
        let set: ByteSet = match eval(store, &fs[i], all) {
            Ok(set) => set,
            Err(e) => {
                assert forall|docs: Map<Seq<u8>, Doc>, ti: bool| #[trigger]
                    mirrors(store@, docs, ti) && query_ok(filter@) implies false by {
                    assert(filter@->Or_0[i as int] == qs[i as int]);
                    assert(query_ok(qs[i as int]));
                }
                return Err(e);
            },
        };
        let ghost one = set@;
        acc.union(set);
        proof {
            assert forall|docs: Map<Seq<u8>, Doc>, ti: bool| #[trigger]
                mirrors(store@, docs, ti) && query_ok(filter@) implies acc@ == selected_any(
                docs,
                qs,
                i + 1,
            ) by {
                assert(filter@->Or_0[i as int] == qs[i as int]);
                assert(query_ok(qs[i as int]));
                assert(one == selected(docs, qs[i as int]));
                assert forall|id: Seq<u8>| acc@.contains(id) == selected_any(
                    docs,
                    qs,
                    i + 1,
                ).contains(id) by {
                    assert(was.contains(id) == selected_any(docs, qs, i as int).contains(id));
                    if docs.contains_key(id) && holds(qs[i as int], docs[id].tree) {
                        assert(exists|j: int|
                            0 <= j < i + 1 && holds(#[trigger] qs[j], docs[id].tree));
                    }
                }
                assert(acc@ =~= selected_any(docs, qs, i + 1));
            }
        }
        i += 1;
    }
    assert forall|docs: Map<Seq<u8>, Doc>, ti: bool| #[trigger]
        mirrors(store@, docs, ti) && query_ok(filter@) implies acc@ == selected(docs, filter@) by {
        assert forall|id: Seq<u8>| acc@.contains(id) == selected(docs, filter@).contains(id) by {
            if docs.contains_key(id) {
                lemma_or_any(qs, docs[id].tree);
            }
        }
        assert(acc@ =~= selected(docs, filter@));
    }
    Ok(acc)
}


// ---- parsed filters ---------------------------------------------------------

/// Whether every query can be answered.
spec fn queries_ok(qs: Seq<Query>) -> bool {
    forall|i: int| 0 <= i < qs.len() ==> query_ok(#[trigger] qs[i])
}

proof fn lemma_queries_push(qs: Seq<Query>, q: Query)
    requires
        queries_ok(qs),
        query_ok(q),
    ensures
        queries_ok(qs.push(q)),
{
    let all = qs.push(q);
    assert forall|i: int| 0 <= i < all.len() implies query_ok(#[trigger] all[i]) by {
        if i < qs.len() {
            assert(all[i] == qs[i]);
        }
    }
}

proof fn lemma_and_ok(qs: Seq<Query>)
    requires
        queries_ok(qs),
        qs.len() > 0,
    ensures
        query_ok(Query::And(qs)),
{
    let q = Query::And(qs);
    assert(q->And_0 == qs);
}

proof fn lemma_or_ok(qs: Seq<Query>)
    requires
        queries_ok(qs),
    ensures
        query_ok(Query::Or(qs)),
{
    let q = Query::Or(qs);
    assert(q->Or_0 == qs);
}

proof fn lemma_grouped_ok(qs: Seq<Query>)
    requires
        queries_ok(qs),
    ensures
        query_ok(grouped(qs)),
{
    if qs.len() == 1 {
        assert(query_ok(qs[0]));
    } else if qs.len() > 1 {
        lemma_and_ok(qs);
    }
}

proof fn lemma_operands_ok(items: Seq<Tree>)
    requires
        operands(items) is Some,
    ensures
        data_ok(operands(items)->0),
    decreases items.len(),
{
    if items.len() > 0 {
        lemma_operands_ok(items.drop_last());
        let ds = operands(items.drop_last())->0;
        let all = operands(items)->0;
        assert forall|i: int| 0 <= i < all.len() implies datum_ok(#[trigger] all[i]) by {
            if i < ds.len() {
                assert(all[i] == ds[i]);
            }
        }
    }
}

proof fn lemma_operator_ok(field: Seq<u8>, name: Seq<u8>, arg: Tree)
    requires
        !field.contains(0),
        operator_query(field, name, arg) is Some,
    ensures
        query_ok(operator_query(field, name, arg)->0),
{
    match arg {
        Tree::List(items) => {
            if operands(items) is Some {
                lemma_operands_ok(items);
            }
        },
        _ => {},
    }
}

proof fn lemma_operators_ok(field: Seq<u8>, ops: Seq<(Seq<u8>, Tree)>)
    requires
        !field.contains(0),
        operator_queries(field, ops) is Some,
    ensures
        queries_ok(operator_queries(field, ops)->0),
    decreases ops.len(),
{
    if ops.len() > 0 {
        lemma_operators_ok(field, ops.drop_last());
        lemma_operator_ok(field, ops.last().0, ops.last().1);
        lemma_queries_push(
            operator_queries(field, ops.drop_last())->0,
            operator_query(field, ops.last().0, ops.last().1)->0,
        );
    }
}

proof fn lemma_field_ok(field: Seq<u8>, t: Tree)
    requires
        field_query(field, t) is Some,
    ensures
        query_ok(field_query(field, t)->0),
{
    match t {
        Tree::Object(ops) => {
            lemma_operators_ok(field, ops);
            lemma_grouped_ok(operator_queries(field, ops)->0);
        },
        _ => {},
    }
}

/// The index can answer every filter that is parsed from a document, whatever
/// the depth.
pub proof fn law_parsed_filters_can_be_answered(t: Tree, depth: nat)
    requires
        parsed(t, depth) is Some,
    ensures
        query_ok(parsed(t, depth)->0),
    decreases t,
{
    match t {
        Tree::Object(members) => {
            lemma_clauses_ok(members, depth);
            lemma_grouped_ok(clauses(members, depth)->0);
        },
        _ => {},
    }
}

proof fn lemma_clauses_ok(members: Seq<(Seq<u8>, Tree)>, depth: nat)
    requires
        clauses(members, depth) is Some,
    ensures
        queries_ok(clauses(members, depth)->0),
    decreases members,
{
    if members.len() > 0 {
        let n = members.len() - 1;
        lemma_clauses_ok(members.subrange(0, n), depth);
        lemma_clause_ok(members[n], depth);
        lemma_queries_push(
            clauses(members.subrange(0, n), depth)->0,
            clause(members[n], depth)->0,
        );
    }
}

proof fn lemma_clause_ok(member: (Seq<u8>, Tree), depth: nat)
    requires
        clause(member, depth) is Some,
    ensures
        query_ok(clause(member, depth)->0),
    decreases member,
{
    let (name, t) = member;
    if name == encode_utf8("$and"@) {
        lemma_parts_ok(t, depth + 1);
        lemma_and_ok(parts(t, depth + 1)->0);
    } else if name == encode_utf8("$or"@) {
        lemma_parts_ok(t, depth + 1);
        lemma_or_ok(parts(t, depth + 1)->0);
    } else if name == encode_utf8("$not"@) {
        law_parsed_filters_can_be_answered(t, depth + 1);
    } else {
        lemma_field_ok(name, t);
    }
}

proof fn lemma_parts_ok(t: Tree, depth: nat)
    requires
        parts(t, depth) is Some,
    ensures
        queries_ok(parts(t, depth)->0),
        parts(t, depth)->0.len() > 0,
    decreases t,
{
    match t {
        Tree::List(items) => {
            lemma_part_list_ok(items, depth);
        },
        _ => {},
    }
}

proof fn lemma_part_list_ok(items: Seq<Tree>, depth: nat)
    requires
        part_list(items, depth) is Some,
    ensures
        queries_ok(part_list(items, depth)->0),
        part_list(items, depth)->0.len() == items.len(),
    decreases items,
{
    if items.len() > 0 {
        let n = items.len() - 1;
        lemma_part_list_ok(items.subrange(0, n), depth);
        law_parsed_filters_can_be_answered(items[n], depth);
        lemma_queries_push(
            part_list(items.subrange(0, n), depth)->0,
            parsed(items[n], depth)->0,
        );
    }
}

} // verus!
