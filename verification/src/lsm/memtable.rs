//! The in-memory write buffer of the LSM tree.
//!
//! Every write lands here first. When a MemTable exceeds its size budget it is
//! *frozen* — becoming immutable — and handed to the flush path, which turns it
//! into an SSTable. A fresh MemTable takes over immediately.
//!
//! Entries are keyed by [`InternalKey`] = `(user_key, seqno)` and ordered by
//! `user_key` ascending, then `seqno` **descending**.
//!
//! A delete writes `None` rather than removing the entry: older versions of the
//! same key may still live in lower SSTable levels, and only a tombstone that
//! is merged *through* those levels can hide them.

use crate::bytes::{
    copy_bytes, lemma_lex_asymmetric, lemma_lex_irreflexive, lemma_lex_transitive, lex_lt, same,
    Order,
};
use crate::lsm::version::{
    first_seen, in_order, is_newest, items, lemma_first_seen, lemma_listed, lemma_run_seen,
    lemma_version_irreflexive,
    lemma_version_total, lemma_version_transitive, lemma_versions, order_versions, ranks,
    seen, slot_of, version_lt, versions, InternalKey, Item, Lookup, ValueSlot, Version,
};
use vstd::prelude::*;

verus! {

/// Per-entry bookkeeping overhead charged against the size budget.
pub const ENTRY_OVERHEAD: usize = 64;

/// What an entry is charged.
pub open spec fn charge(e: Item) -> int {
    e.0.0.len() + (match e.1 {
        Some(v) => v.len() as int,
        None => 0,
    }) + ENTRY_OVERHEAD
}

/// What a list of entries is charged.
pub open spec fn charges(run: Seq<Item>) -> int
    decreases run.len(),
{
    if run.len() == 0 {
        0
    } else {
        charges(run.drop_last()) + charge(run.last())
    }
}

/// A sorted, in-memory batch of versioned writes.
#[derive(Debug, PartialEq, Eq)]
pub struct MemTable {
    /// The entries, in order.
    pub entries: Vec<(InternalKey, ValueSlot)>,
    /// Approximate heap bytes held by keys, values and per-entry overhead.
    pub size_bytes: usize,
    /// Lowest sequence number present.
    pub min_seqno: u64,
    /// Highest sequence number present.
    pub max_seqno: u64,
}

impl View for MemTable {
    type V = Map<Version, Option<Seq<u8>>>;

    open spec fn view(&self) -> Map<Version, Option<Seq<u8>>> {
        versions(items(self.entries@))
    }
}

/// `lo` and `hi` are the lowest and the highest sequence number of a run.
pub open spec fn spans(run: Seq<Item>, lo: u64, hi: u64) -> bool {
    &&& run.len() == 0 ==> lo == u64::MAX && hi == 0
    &&& forall|i: int| 0 <= i < run.len() ==> lo <= (#[trigger] run[i]).0.1 <= hi
    &&& run.len() > 0 ==> (exists|i: int| 0 <= i < run.len() && (#[trigger] run[i]).0.1 == lo) && (
    exists|i: int| 0 <= i < run.len() && (#[trigger] run[i]).0.1 == hi)
}

/// The entries before `v` among entries in order.
pub(crate) fn seek_version(entries: &Vec<(InternalKey, ValueSlot)>, key: &[u8], seqno: u64) -> (n:
    usize)
    requires
        in_order(items(entries@)),
    ensures
        ranks(items(entries@), (key@, seqno), n as int),
{
    let ghost run = items(entries@);
    let ghost v = (key@, seqno);
    let mut lo: usize = 0;
    let mut hi: usize = entries.len();
    while lo < hi
        invariant
            run == items(entries@),
            v == (key@, seqno),
            in_order(run),
            0 <= lo <= hi <= run.len(),
            forall|i: int| 0 <= i < lo ==> version_lt((#[trigger] run[i]).0, v),
            forall|i: int| hi <= i < run.len() ==> !version_lt((#[trigger] run[i]).0, v),
        decreases hi - lo,
    {
        let mid: usize = lo + (hi - lo) / 2;
        assert(run[mid as int].0 == entries@[mid as int].0@);
        let o: Order = order_versions(
            entries[mid].0.user_key.as_slice(),
            entries[mid].0.seqno,
            key,
            seqno,
        );
        if o == Order::Less {
            assert forall|i: int| 0 <= i < mid + 1 implies version_lt((#[trigger] run[i]).0, v) by {
                if i < mid {
                    lemma_version_transitive(run[i].0, run[mid as int].0, v);
                }
            }
            lo = mid + 1;
        } else {
            proof {
                lemma_version_irreflexive(v);
                lemma_not_before(run, mid as int, v);
            }
            hi = mid;
        }
    }
    lo
}

proof fn lemma_not_before(run: Seq<Item>, mid: int, v: Version)
    requires
        in_order(run),
        0 <= mid < run.len(),
        !version_lt(run[mid].0, v),
    ensures
        forall|i: int| mid <= i < run.len() ==> !version_lt((#[trigger] run[i]).0, v),
{
    assert forall|i: int| mid <= i < run.len() implies !version_lt((#[trigger] run[i]).0, v) by {
        if i > mid && version_lt(run[i].0, v) {
            lemma_version_transitive(run[mid].0, run[i].0, v);
        }
    }
}

pub(crate) proof fn lemma_charges_insert(run: Seq<Item>, n: int, e: Item)
    requires
        0 <= n <= run.len(),
    ensures
        charges(run.insert(n, e)) == charges(run) + charge(e),
    decreases run.len() - n,
{
    let now = run.insert(n, e);
    if n == run.len() {
        assert(now.drop_last() =~= run);
    } else {
        lemma_charges_insert(run.drop_last(), n, e);
        assert(now.drop_last() =~= run.drop_last().insert(n, e));
    }
}

proof fn lemma_charges_update(run: Seq<Item>, n: int, e: Item)
    requires
        0 <= n < run.len(),
    ensures
        charges(run.update(n, e)) == charges(run) - charge(run[n]) + charge(e),
    decreases run.len() - n,
{
    let now = run.update(n, e);
    if n == run.len() - 1 {
        assert(now.drop_last() =~= run.drop_last());
    } else {
        lemma_charges_update(run.drop_last(), n, e);
        assert(now.drop_last() =~= run.drop_last().update(n, e));
    }
}

proof fn lemma_charges_bound(run: Seq<Item>, n: int)
    requires
        0 <= n < run.len(),
    ensures
        0 <= charge(run[n]) <= charges(run),
    decreases run.len(),
{
    lemma_charges_nonnegative(run.drop_last());
    if n < run.len() - 1 {
        lemma_charges_bound(run.drop_last(), n);
    }
}

proof fn lemma_charges_nonnegative(run: Seq<Item>)
    ensures
        charges(run) >= 0,
    decreases run.len(),
{
    if run.len() > 0 {
        lemma_charges_nonnegative(run.drop_last());
    }
}

/// Another copy of a slot.
pub(crate) fn copy_slot(v: &ValueSlot) -> (r: ValueSlot)
    ensures
        slot_of(r) == slot_of(*v),
{
    match v {
        Some(b) => Some(copy_bytes(b.as_slice())),
        None => None,
    }
}

impl Default for MemTable {
    fn default() -> (t: Self)
        ensures
            t.wf(),
            t@ == Map::<Version, Option<Seq<u8>>>::empty(),
            t.entries@.len() == 0,
    {
        MemTable::new()
    }
}

impl MemTable {
    /// The entries are in order and accounted for.
    pub open spec fn wf(&self) -> bool {
        &&& in_order(items(self.entries@))
        &&& self.size_bytes == charges(items(self.entries@))
        &&& spans(items(self.entries@), self.min_seqno, self.max_seqno)
    }

    /// Creates an empty MemTable.
    #[must_use]
    pub fn new() -> (t: Self)
        ensures
            t.wf(),
            t@ == Map::<Version, Option<Seq<u8>>>::empty(),
            t.entries@.len() == 0,
    {
        let t: MemTable = MemTable {
            entries: Vec::new(),
            size_bytes: 0,
            min_seqno: u64::MAX,
            max_seqno: 0,
        };
        assert(t@ =~= Map::empty());
        t
    }

    /// Approximate heap usage in bytes — the trigger for a flush.
    #[must_use]
    pub fn size_bytes(&self) -> (n: usize)
        ensures
            n == self.size_bytes,
            self.wf() ==> n == charges(items(self.entries@)),
    {
        self.size_bytes
    }

    /// Number of versioned entries (not distinct user keys).
    #[must_use]
    pub fn len(&self) -> (n: usize)
        ensures
            n == self.entries@.len(),
    {
        self.entries.len()
    }

    /// True when no writes have been recorded.
    #[must_use]
    pub fn is_empty(&self) -> (r: bool)
        ensures
            r == (self.entries@.len() == 0),
    {
        self.entries.len() == 0
    }

    /// Lowest sequence number held, or `None` when empty.
    #[must_use]
    pub fn min_seqno(&self) -> (r: Option<u64>)
        requires
            self.wf(),
        ensures
            r is None <==> self.entries@.len() == 0,
            r is Some ==> spans(items(self.entries@), r->0, self.max_seqno),
    {
        if self.entries.len() == 0 {
            None
        } else {
            Some(self.min_seqno)
        }
    }

    /// Highest sequence number held, or `None` when empty.
    #[must_use]
    pub fn max_seqno(&self) -> (r: Option<u64>)
        requires
            self.wf(),
        ensures
            r is None <==> self.entries@.len() == 0,
            r is Some ==> spans(items(self.entries@), self.min_seqno, r->0),
    {
        if self.entries.len() == 0 {
            None
        } else {
            Some(self.max_seqno)
        }
    }

    /// Records `key = value` at `seqno`.
    pub fn insert(&mut self, key: Vec<u8>, value: Vec<u8>, seqno: u64)
        requires
            old(self).wf(),
            old(self).size_bytes + key@.len() + value@.len() + ENTRY_OVERHEAD <= usize::MAX,
        ensures
            final(self).wf(),
            final(self)@ == old(self)@.insert((key@, seqno), Some(value@)),
    {
        self.put_slot(key, Some(value), seqno);
    }

    /// Records a tombstone for `key` at `seqno`.
    pub fn delete(&mut self, key: Vec<u8>, seqno: u64)
        requires
            old(self).wf(),
            old(self).size_bytes + key@.len() + ENTRY_OVERHEAD <= usize::MAX,
        ensures
            final(self).wf(),
            final(self)@ == old(self)@.insert((key@, seqno), None),
    {
        self.put_slot(key, None, seqno);
    }

    fn put_slot(&mut self, key: Vec<u8>, slot: ValueSlot, seqno: u64)
        requires
            old(self).wf(),
            old(self).size_bytes + charge(((key@, seqno), slot_of(slot))) <= usize::MAX,
        ensures
            final(self).wf(),
            final(self)@ == old(self)@.insert((key@, seqno), slot_of(slot)),
    {
        let ghost run = items(self.entries@);
        let ghost v = (key@, seqno);
        let ghost e = (v, slot_of(slot));
        let value_len: usize = match &slot {
            Some(b) => b.len(),
            None => 0,
        };
        let key_len: usize = key.len();
        let cost: usize = key_len + value_len + ENTRY_OVERHEAD;
        let n: usize = seek_version(&self.entries, key.as_slice(), seqno);
        let known: bool = n < self.entries.len() && self.entries[n].0.seqno == seqno && same(
            self.entries[n].0.user_key.as_slice(),
            key.as_slice(),
        );
        let ghost m = self@;
        if known {
            assert(run[n as int] == (
                self.entries@[n as int].0@,
                slot_of(self.entries@[n as int].1),
            ));
            assert(run[n as int].0 == v);
            proof {
                lemma_charges_update(run, n as int, e);
                lemma_charges_bound(run, n as int);
            }
            let refund: usize = key_len + (match &self.entries[n].1 {
                Some(b) => b.len(),
                None => 0,
            }) + ENTRY_OVERHEAD;
            self.entries.set(n, (InternalKey { user_key: key, seqno }, slot));
            self.size_bytes = self.size_bytes - refund + cost;
            let ghost now = items(self.entries@);
            proof {
                assert(now =~= run.update(n as int, e));
                assert forall|i: int, j: int| 0 <= i < j < now.len() implies version_lt(
                    (#[trigger] now[i]).0,
                    (#[trigger] now[j]).0,
                ) by {
                    assert(now[i].0 == run[i].0 && now[j].0 == run[j].0);
                }
                lemma_spans_same(run, now, self.min_seqno, self.max_seqno);
                lemma_versions_insert(run, now, v, e.1);
                assert(self.min_seqno <= seqno <= self.max_seqno) by {
                    assert(run[n as int].0.1 == seqno);
                }
            }
        } else {
            proof {
                lemma_charges_insert(run, n as int, e);
                if n < run.len() && run[n as int].0 == v {
                    assert(self.entries@[n as int].0.user_key@ == key@);
                }
            }
            self.entries.insert(n, (InternalKey { user_key: key, seqno }, slot));
            self.size_bytes = self.size_bytes + cost;
            let ghost now = items(self.entries@);
            proof {
                assert(now =~= run.insert(n as int, e));
                lemma_insert_in_order(run, n as int, e);
                lemma_spans_insert(run, n as int, e, self.min_seqno, self.max_seqno);
                lemma_versions_insert(run, now, v, e.1);
            }
            if seqno < self.min_seqno {
                self.min_seqno = seqno;
            }
            if seqno > self.max_seqno {
                self.max_seqno = seqno;
            }
        }
    }

    /// Reads `key` as visible to `snapshot`.
    ///
    /// Returns the newest version whose `seqno <= snapshot`, distinguishing a
    /// tombstone ([`Lookup::Deleted`]) from "not here" ([`Lookup::Absent`]) so
    /// the caller knows whether to search lower levels.
    #[must_use]
    pub fn get(&self, key: &[u8], snapshot: u64) -> (r: Lookup)
        requires
            self.wf(),
        ensures
            r@ == seen(self@, key@, snapshot),
    {
        look_up(&self.entries, key, snapshot)
    }

    /// Empties the table, returning its entries in sorted order.
    ///
    /// Used by the flush path, which consumes a frozen table exactly once.
    #[must_use]
    pub fn drain(&mut self) -> (out: Vec<(InternalKey, ValueSlot)>)
        requires
            old(self).wf(),
        ensures
            final(self).wf(),
            final(self).entries@.len() == 0,
            out == old(self).entries,
            in_order(items(out@)),
    {
        let mut out: Vec<(InternalKey, ValueSlot)> = Vec::new();
        std::mem::swap(&mut out, &mut self.entries);
        self.size_bytes = 0;
        self.min_seqno = u64::MAX;
        self.max_seqno = 0;
        out
    }
}

/// The keys of a run.
pub open spec fn keys_of(run: Seq<Item>) -> Set<Seq<u8>> {
    Set::new(|k: Seq<u8>| exists|i: int| 0 <= i < run.len() && (#[trigger] run[i]).0.0 == k)
}

/// What a snapshot shows of a list of keys.
pub open spec fn shown(v: Seq<(Vec<u8>, ValueSlot)>) -> Seq<(Seq<u8>, Option<Seq<u8>>)> {
    Seq::new(v.len(), |i: int| (v[i].0@, slot_of(v[i].1)))
}

/// `out` lists, in key order, every key of which the snapshot sees something,
/// with what it sees.
pub open spec fn views(
    m: Map<Version, Option<Seq<u8>>>,
    snapshot: u64,
    out: Seq<(Seq<u8>, Option<Seq<u8>>)>,
) -> bool {
    &&& forall|i: int, j: int|
        0 <= i < j < out.len() ==> lex_lt((#[trigger] out[i]).0, (#[trigger] out[j]).0)
    &&& forall|i: int|
        0 <= i < out.len() ==> seen(m, (#[trigger] out[i]).0, snapshot) == Some(out[i].1)
    &&& forall|k: Seq<u8>|
        (#[trigger] seen(m, k, snapshot)) is Some ==> exists|i: int|
            0 <= i < out.len() && (#[trigger] out[i]).0 == k
}

/// What a snapshot sees of a key among entries in order.
pub(crate) fn look_up(entries: &Vec<(InternalKey, ValueSlot)>, key: &[u8], snapshot: u64) -> (r:
    Lookup)
    requires
        in_order(items(entries@)),
    ensures
        r@ == seen(versions(items(entries@)), key@, snapshot),
{
    let n: usize = seek_version(entries, key, snapshot);
    let ghost run = items(entries@);
    proof {
        lemma_run_seen(run, key@, snapshot, n as int);
    }
    if n < entries.len() {
        assert(run[n as int] == (entries@[n as int].0@, slot_of(entries@[n as int].1)));
        if same(entries[n].0.user_key.as_slice(), key) {
            return match &entries[n].1 {
                Some(v) => Lookup::Found(copy_bytes(v.as_slice())),
                None => Lookup::Deleted,
            };
        }
    }
    Lookup::Absent
}

/// One entry for each key of which a snapshot sees something, among entries
/// in order.
pub(crate) fn collapse(entries: &Vec<(InternalKey, ValueSlot)>, snapshot: u64) -> (out: Vec<
    (Vec<u8>, ValueSlot),
>)
    requires
        in_order(items(entries@)),
    ensures
        views(versions(items(entries@)), snapshot, shown(out@)),
{
    let ghost run = items(entries@);
    let ghost mut from: Seq<int> = Seq::empty();
    let mut out: Vec<(Vec<u8>, ValueSlot)> = Vec::new();
    let mut i: usize = 0;
    while i < entries.len()
        invariant
            i <= entries@.len(),
            in_order(items(entries@)),
            run == items(entries@),
            viewed(run, from, i as int, snapshot),
            shown(out@) == picked(run, from),
        decreases entries@.len() - i,
    {
        let ghost was = shown(out@);
        let ghost e = run[i as int];
        assert(e == (entries@[i as int].0@, slot_of(entries@[i as int].1)));
        let visible: bool = entries[i].0.seqno <= snapshot;
        let n: usize = out.len();
        assert(was.len() == from.len());
        let repeated: bool = n > 0 && same(
            out[n - 1].0.as_slice(),
            entries[i].0.user_key.as_slice(),
        );
        proof {
            if n > 0 {
                assert(was[n - 1] == picked(run, from)[n - 1]);
            }
            lemma_view_step(run, from, i as int, snapshot, repeated);
        }
        if visible && !repeated {
            out.push(
                (
                    copy_bytes(entries[i].0.user_key.as_slice()),
                    copy_slot(&entries[i].1),
                ),
            );
            assert(shown(out@) =~= was.push((e.0.0, e.1)));
            proof {
                assert(picked(run, from.push(i as int)) =~= was.push((e.0.0, e.1)));
                from = from.push(i as int);
            }
        }
        i += 1;
    }
    proof {
        lemma_viewed(run, from, snapshot);
    }
    out
}

/// Records a version among entries in order.
pub(crate) fn put_version(
    entries: &mut Vec<(InternalKey, ValueSlot)>,
    key: Vec<u8>,
    seqno: u64,
    slot: ValueSlot,
)
    requires
        in_order(items(old(entries)@)),
    ensures
        in_order(items(final(entries)@)),
        versions(items(final(entries)@)) == versions(items(old(entries)@)).insert(
            (key@, seqno),
            slot_of(slot),
        ),
        forall|i: int|
            0 <= i < final(entries)@.len() ==> (#[trigger] final(entries)@[i]).0.seqno == seqno
                || exists|j: int|
                0 <= j < old(entries)@.len() && (#[trigger] old(entries)@[j]).0.seqno
                    == final(entries)@[i].0.seqno,
{
    let ghost run = items(entries@);
    let ghost was = entries@;
    let ghost v = (key@, seqno);
    let ghost e = (v, slot_of(slot));
    let n: usize = seek_version(entries, key.as_slice(), seqno);
    let known: bool = n < entries.len() && entries[n].0.seqno == seqno && same(
        entries[n].0.user_key.as_slice(),
        key.as_slice(),
    );
    if known {
        assert(run[n as int].0 == v);
        entries.set(n, (InternalKey { user_key: key, seqno }, slot));
        let ghost now = items(entries@);
        proof {
            assert(now =~= run.update(n as int, e));
            assert forall|i: int, j: int| 0 <= i < j < now.len() implies version_lt(
                (#[trigger] now[i]).0,
                (#[trigger] now[j]).0,
            ) by {
                assert(now[i].0 == run[i].0 && now[j].0 == run[j].0);
            }
            lemma_versions_insert(run, now, v, e.1);
            assert forall|i: int| 0 <= i < entries@.len() implies (#[trigger] entries@[i]).0.seqno
                == seqno || exists|j: int|
                0 <= j < was.len() && (#[trigger] was[j]).0.seqno == entries@[i].0.seqno by {
                assert(i == n || entries@[i] == was[i]);
            }
        }
    } else {
        proof {
            if n < run.len() && run[n as int].0 == v {
                assert(entries@[n as int].0.user_key@ == key@);
            }
        }
        entries.insert(n, (InternalKey { user_key: key, seqno }, slot));
        let ghost now = items(entries@);
        proof {
            assert(now =~= run.insert(n as int, e));
            lemma_insert_in_order(run, n as int, e);
            lemma_versions_insert(run, now, v, e.1);
            assert forall|i: int| 0 <= i < entries@.len() implies (#[trigger] entries@[i]).0.seqno
                == seqno || exists|j: int|
                0 <= j < was.len() && (#[trigger] was[j]).0.seqno == entries@[i].0.seqno by {
                if i < n {
                    assert(entries@[i] == was[i]);
                } else if i > n {
                    assert(entries@[i] == was[i - 1]);
                }
            }
        }
    }
}

impl MemTable {
    /// Collapses to one entry per user key as visible to `snapshot`.
    ///
    /// Tombstones are retained (as `None`) because callers merging against
    /// lower levels still need them to mask older versions.
    #[must_use]
    pub fn snapshot_view(&self, snapshot: u64) -> (out: Vec<(Vec<u8>, ValueSlot)>)
        requires
            self.wf(),
        ensures
            views(self@, snapshot, shown(out@)),
    {
        collapse(&self.entries, snapshot)
    }

    /// Smallest and largest user keys held, for SSTable range metadata.
    #[must_use]
    pub fn key_range(&self) -> (r: Option<(Vec<u8>, Vec<u8>)>)
        requires
            self.wf(),
        ensures
            r is None <==> self.entries@.len() == 0,
            r is Some ==> {
                let (first, last) = ((r->0).0@, (r->0).1@);
                let keys = keys_of(items(self.entries@));
                &&& keys.contains(first)
                &&& keys.contains(last)
                &&& forall|k: Seq<u8>| #[trigger]
                    keys.contains(k) ==> (k == first || lex_lt(first, k)) && (k == last || lex_lt(
                        k,
                        last,
                    ))
            },
    {
        let n: usize = self.entries.len();
        if n == 0 {
            return None;
        }
        let ghost run = items(self.entries@);
        let first: Vec<u8> = copy_bytes(self.entries[0].0.user_key.as_slice());
        let last: Vec<u8> = copy_bytes(self.entries[n - 1].0.user_key.as_slice());
        proof {
            let keys = keys_of(run);
            assert(run[0].0.0 == first@);
            assert(run[n - 1].0.0 == last@);
            assert forall|k: Seq<u8>| #[trigger] keys.contains(k) implies (k == first@ || lex_lt(
                first@,
                k,
            )) && (k == last@ || lex_lt(k, last@)) by {
                let i = choose|i: int| 0 <= i < run.len() && (#[trigger] run[i]).0.0 == k;
                if i > 0 {
                    assert(version_lt(run[0].0, run[i].0));
                }
                if i < n - 1 {
                    assert(version_lt(run[i].0, run[n - 1].0));
                }
            }
        }
        Some((first, last))
    }

    /// Distinct user keys, for sizing a Bloom filter before a flush.
    #[must_use]
    pub fn distinct_key_count(&self) -> (n: usize)
        requires
            self.wf(),
        ensures
            n == keys_of(items(self.entries@)).len(),
    {
        let ghost run = items(self.entries@);
        let mut count: usize = 0;
        let mut i: usize = 0;
        assert(keys_of(run.subrange(0, 0)) =~= Set::empty());
        while i < self.entries.len()
            invariant
                i <= self.entries@.len(),
                self.wf(),
                run == items(self.entries@),
                count <= i,
                keys_of(run.subrange(0, i as int)).finite(),
                count == keys_of(run.subrange(0, i as int)).len(),
            decreases self.entries@.len() - i,
        {
            let repeated: bool = i > 0 && same(
                self.entries[i - 1].0.user_key.as_slice(),
                self.entries[i].0.user_key.as_slice(),
            );
            proof {
                let (a, b) = (run.subrange(0, i as int), run.subrange(0, i + 1));
                let k = run[i as int].0.0;
                assert(k == self.entries@[i as int].0.user_key@);
                assert forall|x: Seq<u8>| keys_of(b).contains(x) == (keys_of(a).contains(x) || x
                    == k) by {
                    if keys_of(a).contains(x) {
                        let j = choose|j: int| 0 <= j < a.len() && (#[trigger] a[j]).0.0 == x;
                        assert(b[j] == a[j]);
                    }
                    assert(b[i as int].0.0 == k);
                    if keys_of(b).contains(x) {
                        let j = choose|j: int| 0 <= j < b.len() && (#[trigger] b[j]).0.0 == x;
                        if j < i {
                            assert(a[j] == b[j]);
                        }
                    }
                }
                assert(keys_of(b) =~= keys_of(a).insert(k));
                if repeated {
                    assert(a[i - 1].0.0 == self.entries@[i - 1].0.user_key@);
                    assert(keys_of(a).contains(k));
                    assert(keys_of(b) =~= keys_of(a));
                } else if keys_of(a).contains(k) {
                    let j = choose|j: int| 0 <= j < a.len() && (#[trigger] a[j]).0.0 == k;
                    assert(a[j] == run[j]);
                    let p = run[i - 1].0.0;
                    assert(p == self.entries@[i - 1].0.user_key@);
                    assert(version_lt(run[i - 1].0, run[i as int].0));
                    if j < i - 1 {
                        assert(version_lt(run[j].0, run[i - 1].0));
                        lemma_lex_irreflexive(k);
                        if lex_lt(k, p) && lex_lt(p, k) {
                            lemma_lex_asymmetric(k, p);
                        }
                    }
                    assert(false);
                }
            }
            if !repeated {
                count += 1;
            }
            i += 1;
        }
        assert(run.subrange(0, i as int) =~= run);
        count
    }
}

/// The entries at the places listed.
spec fn picked(run: Seq<Item>, from: Seq<int>) -> Seq<(Seq<u8>, Option<Seq<u8>>)> {
    Seq::new(from.len(), |a: int| (run[from[a]].0.0, run[from[a]].1))
}

/// `from` lists, ascending, the places below `i` of what the snapshot sees.
spec fn viewed(run: Seq<Item>, from: Seq<int>, i: int, snapshot: u64) -> bool {
    &&& 0 <= i <= run.len()
    &&& forall|a: int|
        0 <= a < from.len() ==> 0 <= #[trigger] from[a] < i && first_seen(run, from[a], snapshot)
    &&& forall|a: int, b: int| 0 <= a < b < from.len() ==> #[trigger] from[a] < #[trigger] from[b]
    &&& forall|j: int| 0 <= j < i && #[trigger] first_seen(run, j, snapshot) ==> from.contains(j)
}

/// A version that the snapshot sees has the first such version of its key
/// at or before it.
proof fn lemma_first_of_key(run: Seq<Item>, j: int, snapshot: u64) -> (f: int)
    requires
        0 <= j < run.len(),
        run[j].0.1 <= snapshot,
    ensures
        0 <= f <= j,
        run[f].0.0 == run[j].0.0,
        first_seen(run, f, snapshot),
    decreases j,
{
    if first_seen(run, j, snapshot) {
        j
    } else {
        let i = choose|i: int|
            0 <= i < j && (#[trigger] run[i]).0.0 == run[j].0.0 && run[i].0.1 <= snapshot;
        lemma_first_of_key(run, i, snapshot)
    }
}

proof fn lemma_view_step(run: Seq<Item>, from: Seq<int>, i: int, snapshot: u64, repeated: bool)
    requires
        in_order(run),
        i < run.len(),
        viewed(run, from, i, snapshot),
        repeated == (from.len() > 0 && run[from.last()].0.0 == run[i].0.0),
    ensures
        viewed(
            run,
            if run[i].0.1 <= snapshot && !repeated {
                from.push(i)
            } else {
                from
            },
            i + 1,
            snapshot,
        ),
{
    if repeated {
        let l = from.last();
        assert(first_seen(run, l, snapshot)) by {
            assert(from[from.len() - 1] == l);
        }
        assert(run[l].0.0 == run[i].0.0);
        assert(!first_seen(run, i, snapshot));
    } else if run[i].0.1 <= snapshot {
        assert(first_seen(run, i, snapshot)) by {
            if !first_seen(run, i, snapshot) {
                let f = lemma_first_of_key(run, i, snapshot);
                assert(from.contains(f));
                let a = choose|a: int| 0 <= a < from.len() && from[a] == f;
                let l = from.last();
                assert(from[from.len() - 1] == l);
                if a < from.len() - 1 {
                    assert(version_lt(run[f].0, run[l].0));
                    assert(version_lt(run[l].0, run[i].0));
                    lemma_lex_irreflexive(run[i].0.0);
                    if lex_lt(run[f].0.0, run[l].0.0) && lex_lt(run[l].0.0, run[i].0.0) {
                        lemma_lex_transitive(run[f].0.0, run[l].0.0, run[i].0.0);
                    }
                }
            }
        }
        let now = from.push(i);
        assert forall|j: int| 0 <= j < i + 1 && #[trigger] first_seen(
            run,
            j,
            snapshot,
        ) implies now.contains(j) by {
            if j < i {
                let a = choose|a: int| 0 <= a < from.len() && from[a] == j;
                assert(now[a] == j);
            } else {
                assert(now[from.len() as int] == j);
            }
        }
    }
}

proof fn lemma_viewed(run: Seq<Item>, from: Seq<int>, snapshot: u64)
    requires
        in_order(run),
        viewed(run, from, run.len() as int, snapshot),
    ensures
        views(versions(run), snapshot, picked(run, from)),
{
    let out = picked(run, from);
    let m = versions(run);
    assert forall|a: int, b: int| 0 <= a < b < out.len() implies lex_lt(
        (#[trigger] out[a]).0,
        (#[trigger] out[b]).0,
    ) by {
        assert(from[a] < from[b]);
        assert(first_seen(run, from[a], snapshot));
        assert(first_seen(run, from[b], snapshot));
        assert(version_lt(run[from[a]].0, run[from[b]].0));
    }
    assert forall|a: int| 0 <= a < out.len() implies seen(m, (#[trigger] out[a]).0, snapshot)
        == Some(out[a].1) by {
        assert(first_seen(run, from[a], snapshot));
        lemma_first_seen(run, from[a], snapshot);
    }
    assert forall|k: Seq<u8>| (#[trigger] seen(m, k, snapshot)) is Some implies exists|a: int|
        0 <= a < out.len() && (#[trigger] out[a]).0 == k by {
        let s = choose|s: u64| is_newest(m, k, snapshot, s);
        let j = lemma_listed(run, (k, s));
        let f = lemma_first_of_key(run, j, snapshot);
        assert(from.contains(f));
        let a = choose|a: int| 0 <= a < from.len() && from[a] == f;
        assert(out[a].0 == k);
    }
}

/// A version put at its rank keeps the order.
pub proof fn lemma_insert_in_order(run: Seq<Item>, n: int, e: Item)
    requires
        in_order(run),
        ranks(run, e.0, n),
        n < run.len() ==> run[n].0 != e.0,
    ensures
        in_order(run.insert(n, e)),
{
    let now = run.insert(n, e);
    assert forall|i: int, j: int| 0 <= i < j < now.len() implies version_lt(
        (#[trigger] now[i]).0,
        (#[trigger] now[j]).0,
    ) by {
        if i == n {
            assert(now[j] == run[j - 1]);
            lemma_version_total(run[n].0, e.0);
            assert(version_lt(e.0, run[n].0));
            if j - 1 > n {
                lemma_version_transitive(e.0, run[n].0, run[j - 1].0);
            }
        } else if j == n {
            assert(now[i] == run[i]);
        } else {
            let a = if i < n {
                i
            } else {
                i - 1
            };
            let b = if j < n {
                j
            } else {
                j - 1
            };
            assert(now[i] == run[a] && now[j] == run[b]);
        }
    }
}

proof fn lemma_spans_same(run: Seq<Item>, now: Seq<Item>, lo: u64, hi: u64)
    requires
        spans(run, lo, hi),
        now.len() == run.len(),
        forall|i: int| 0 <= i < run.len() ==> (#[trigger] now[i]).0 == run[i].0,
    ensures
        spans(now, lo, hi),
{
    if run.len() > 0 {
        let a = choose|i: int| 0 <= i < run.len() && (#[trigger] run[i]).0.1 == lo;
        let b = choose|i: int| 0 <= i < run.len() && (#[trigger] run[i]).0.1 == hi;
        assert(now[a].0.1 == lo && now[b].0.1 == hi);
    }
}

proof fn lemma_spans_insert(run: Seq<Item>, n: int, e: Item, lo: u64, hi: u64)
    requires
        spans(run, lo, hi),
        0 <= n <= run.len(),
    ensures
        spans(
            run.insert(n, e),
            if e.0.1 < lo {
                e.0.1
            } else {
                lo
            },
            if e.0.1 > hi {
                e.0.1
            } else {
                hi
            },
        ),
{
    let now = run.insert(n, e);
    assert(now[n] == e);
    assert forall|i: int| 0 <= i < now.len() implies now[i] == e || exists|j: int|
        0 <= j < run.len() && #[trigger] run[j] == now[i] by {
        if i < n {
            assert(run[i] == now[i]);
        } else if i > n {
            assert(run[i - 1] == now[i]);
        }
    }
    if run.len() > 0 {
        let a = choose|i: int| 0 <= i < run.len() && (#[trigger] run[i]).0.1 == lo;
        let b = choose|i: int| 0 <= i < run.len() && (#[trigger] run[i]).0.1 == hi;
        let x = if a < n {
            a
        } else {
            a + 1
        };
        let y = if b < n {
            b
        } else {
            b + 1
        };
        assert(now[x] == run[a] && now[y] == run[b]);
    }
}

/// What a run with one more or one changed version makes of the map.
pub proof fn lemma_versions_insert(
    run: Seq<Item>,
    now: Seq<Item>,
    v: Version,
    slot: Option<Seq<u8>>,
)
    requires
        in_order(run),
        in_order(now),
        exists|n: int| 0 <= n < run.len() && run[n].0 == v && now == run.update(n, (v, slot)) || 0
            <= n <= run.len() && now == run.insert(n, (v, slot)),
    ensures
        versions(now) == versions(run).insert(v, slot),
{
    let n = choose|n: int|
        0 <= n < run.len() && run[n].0 == v && now == run.update(n, (v, slot)) || 0 <= n
            <= run.len() && now == run.insert(n, (v, slot));
    let (a, b) = (versions(now), versions(run).insert(v, slot));
    let e = (v, slot);
    assert(now[n] == e);
    lemma_versions(now, n);
    assert forall|x: Version| a.contains_key(x) == b.contains_key(x) by {
        if a.contains_key(x) {
            let i = lemma_listed(now, x);
            if now.len() == run.len() {
                assert(run[i].0 == x || x == v);
            } else if i < n {
                assert(run[i].0 == x);
            } else if i > n {
                assert(run[i - 1].0 == x);
            }
        }
        if versions(run).contains_key(x) {
            let i = lemma_listed(run, x);
            if now.len() == run.len() {
                assert(now[i].0 == x);
            } else if i < n {
                assert(now[i].0 == x);
            } else {
                assert(now[i + 1].0 == x);
            }
        }
    }
    assert forall|x: Version| #[trigger] a.contains_key(x) implies a[x] == b[x] by {
        if x != v {
            let i = lemma_listed(now, x);
            lemma_versions(now, i);
            let j = if now.len() == run.len() || i < n {
                i
            } else {
                i - 1
            };
            assert(run[j] == now[i]);
            lemma_versions(run, j);
        }
    }
    assert(a =~= b);
}

} // verus!
