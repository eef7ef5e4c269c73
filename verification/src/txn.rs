//! Snapshot isolation: the committed versions that the tree does not hold yet,
//! and the snapshots and staged writes of the live transactions.

use crate::bytes::{copy_bytes, lex_lt};
use crate::error::{Error, Result};
use crate::lsm::memtable::{
    collapse, copy_slot, lemma_versions_insert, look_up, put_version, seek_version, shown, views,
};
use crate::lsm::version::{
    in_order, is_newest, items, lists, seen, slot_of, version_lt, versions, InternalKey, Item,
    Lookup, ValueSlot, Version,
};
use vstd::prelude::*;

verus! {

/// A staged write.
#[derive(Debug, PartialEq, Eq)]
pub enum Write {
    /// The key gets a value.
    Put(Vec<u8>),
    /// The key goes.
    Delete,
}

impl Write {
    /// What the write says about its key.
    pub open spec fn says(&self) -> Option<Seq<u8>> {
        match *self {
            Write::Put(v) => Some(v@),
            Write::Delete => None,
        }
    }

    /// The write as a version of its key.
    pub fn into_slot(self) -> (s: ValueSlot)
        ensures
            slot_of(s) == self.says(),
    {
        match self {
            Write::Put(v) => Some(v),
            Write::Delete => None,
        }
    }
}

/// What a key is given: a value, or its removal.
pub type Says = Option<Seq<u8>>;

/// A committed transaction as the log holds it.
#[derive(Debug, PartialEq, Eq)]
pub struct Commit {
    /// When it was committed.
    pub ts: u64,
    /// What it wrote. Of two writes of one key the later one counts.
    pub writes: Vec<(Vec<u8>, ValueSlot)>,
}

/// The writes of a list, the later ones counting.
pub open spec fn map_of(list: Seq<(Seq<u8>, Says)>) -> Map<Seq<u8>, Says>
    decreases list.len(),
{
    if list.len() == 0 {
        Map::empty()
    } else {
        map_of(list.drop_last()).insert(list.last().0, list.last().1)
    }
}

/// A commit: its time and its writes.
pub type Record = (u64, Map<Seq<u8>, Says>);

impl View for Commit {
    type V = Record;

    open spec fn view(&self) -> Record {
        (self.ts, map_of(shown(self.writes@)))
    }
}

/// Versions with the writes of a commit among them.
pub open spec fn stamped(m: Map<Version, Says>, ts: u64, w: Map<Seq<u8>, Says>) -> Map<
    Version,
    Says,
> {
    Map::new(
        |v: Version| m.contains_key(v) || (v.1 == ts && w.contains_key(v.0)),
        |v: Version|
            if v.1 == ts && w.contains_key(v.0) {
                w[v.0]
            } else {
                m[v]
            },
    )
}

/// Versions newer than `ts`.
pub open spec fn after(m: Map<Version, Says>, ts: u64) -> Map<Version, Says> {
    Map::new(|v: Version| m.contains_key(v) && v.1 > ts, |v: Version| m[v])
}

/// What a live transaction goes by.
pub struct Sight {
    /// The newest commit that it sees.
    pub snapshot: u64,
    /// Whether it may write.
    pub read_only: bool,
    /// What it has written.
    pub writes: Map<Seq<u8>, Says>,
}

/// A live transaction.
#[derive(Debug, PartialEq, Eq)]
pub struct Transaction {
    /// Its id.
    pub id: u64,
    /// The newest commit that it sees.
    pub snapshot: u64,
    /// Whether it may write.
    pub read_only: bool,
    /// What it has written, in key order.
    pub writes: Vec<(InternalKey, ValueSlot)>,
}

/// The staged writes of a list of entries.
pub open spec fn writes_of(w: Seq<(InternalKey, ValueSlot)>) -> Map<Seq<u8>, Says> {
    Map::new(
        |k: Seq<u8>| versions(items(w)).contains_key((k, 0u64)),
        |k: Seq<u8>| versions(items(w))[(k, 0u64)],
    )
}

impl View for Transaction {
    type V = Sight;

    open spec fn view(&self) -> Sight {
        Sight {
            snapshot: self.snapshot,
            read_only: self.read_only,
            writes: writes_of(self.writes@),
        }
    }
}

impl Transaction {
    /// The writes are in order, all of one age.
    pub open spec fn wf(&self) -> bool {
        &&& in_order(items(self.writes@))
        &&& forall|i: int| 0 <= i < self.writes@.len() ==> (#[trigger] self.writes@[i]).0.seqno == 0
    }

    fn stage(&mut self, key: Vec<u8>, slot: ValueSlot)
        requires
            old(self).wf(),
        ensures
            final(self).wf(),
            final(self).id == old(self).id,
            final(self)@ == (Sight {
                writes: old(self)@.writes.insert(key@, slot_of(slot)),
                ..old(self)@
            }),
    {
        let ghost was = self@.writes;
        put_version(&mut self.writes, key, 0, slot);
        assert(self@.writes =~= was.insert(key@, slot_of(slot)));
    }

    fn own(&self, key: &[u8]) -> (r: Lookup)
        requires
            self.wf(),
        ensures
            r@ == if self@.writes.contains_key(key@) {
                Some(self@.writes[key@])
            } else {
                None
            },
    {
        proof {
            lemma_own(self.writes@, key@);
        }
        look_up(&self.writes, key, 0)
    }
}

/// What the staged writes show of a key.
proof fn lemma_own(w: Seq<(InternalKey, ValueSlot)>, key: Seq<u8>)
    ensures
        seen(versions(items(w)), key, 0) == if writes_of(w).contains_key(key) {
            Some(writes_of(w)[key])
        } else {
            None
        },
{
    let m = versions(items(w));
    if m.contains_key((key, 0u64)) {
        assert(is_newest(m, key, 0, 0));
    }
}

// ---- the live transactions ------------------------------------------------------------

/// Ids ascend.
pub open spec fn ascend(active: Seq<Transaction>) -> bool {
    forall|i: int, j: int|
        0 <= i < j < active.len() ==> (#[trigger] active[i]).id < (#[trigger] active[j]).id
}

/// The transactions of a list, by id.
pub open spec fn txns(active: Seq<Transaction>) -> Map<u64, Sight> {
    Map::new(
        |id: u64| exists|i: int| 0 <= i < active.len() && (#[trigger] active[i]).id == id,
        |id: u64| active[choose|i: int| 0 <= i < active.len() && (#[trigger] active[i]).id == id]@,
    )
}

proof fn lemma_txns_at(active: Seq<Transaction>, i: int)
    requires
        ascend(active),
        0 <= i < active.len(),
    ensures
        txns(active).contains_key(active[i].id),
        txns(active)[active[i].id] == active[i]@,
{
    let id = active[i].id;
    let j = choose|j: int| 0 <= j < active.len() && (#[trigger] active[j]).id == id;
    assert(active[i].id == id);
    assert(!(i < j) && !(j < i));
}

proof fn lemma_txns_push(active: Seq<Transaction>, t: Transaction)
    requires
        ascend(active),
        forall|i: int| 0 <= i < active.len() ==> (#[trigger] active[i]).id < t.id,
    ensures
        ascend(active.push(t)),
        txns(active.push(t)) == txns(active).insert(t.id, t@),
{
    let now = active.push(t);
    assert(now[active.len() as int] == t);
    assert forall|id: u64|
        txns(now).contains_key(id) <==> txns(active).insert(t.id, t@).contains_key(id) by {
        if txns(now).contains_key(id) {
            let i = choose|i: int| 0 <= i < now.len() && (#[trigger] now[i]).id == id;
            if i < active.len() {
                assert(active[i].id == id);
            }
        }
        if txns(active).contains_key(id) {
            let i = choose|i: int| 0 <= i < active.len() && (#[trigger] active[i]).id == id;
            assert(now[i].id == id);
        }
    }
    assert forall|id: u64| txns(now).contains_key(id) implies #[trigger] txns(now)[id] == txns(
        active,
    ).insert(t.id, t@)[id] by {
        let i = choose|i: int| 0 <= i < now.len() && (#[trigger] now[i]).id == id;
        lemma_txns_at(now, i);
        if i < active.len() {
            assert(now[i] == active[i]);
            lemma_txns_at(active, i);
        }
    }
    assert(txns(now) =~= txns(active).insert(t.id, t@));
}

proof fn lemma_txns_remove(active: Seq<Transaction>, n: int)
    requires
        ascend(active),
        0 <= n < active.len(),
    ensures
        ascend(active.remove(n)),
        txns(active.remove(n)) == txns(active).remove(active[n].id),
{
    let now = active.remove(n);
    assert forall|i: int| 0 <= i < now.len() implies #[trigger] now[i] == active[if i < n {
        i
    } else {
        i + 1
    }] by {}
    assert forall|i: int, j: int| 0 <= i < j < now.len() implies (#[trigger] now[i]).id < (
    #[trigger] now[j]).id by {
        let (a, b) = (
            if i < n {
                i
            } else {
                i + 1
            },
            if j < n {
                j
            } else {
                j + 1
            },
        );
        assert(active[a].id < active[b].id);
    }
    let want = txns(active).remove(active[n].id);
    assert forall|id: u64| txns(now).contains_key(id) <==> want.contains_key(id) by {
        if txns(now).contains_key(id) {
            let i = choose|i: int| 0 <= i < now.len() && (#[trigger] now[i]).id == id;
            let a = if i < n {
                i
            } else {
                i + 1
            };
            assert(active[a].id == id);
            assert(a != n);
            if a < n {
                assert(active[a].id < active[n].id);
            } else {
                assert(active[n].id < active[a].id);
            }
        }
        if want.contains_key(id) {
            let a = choose|a: int| 0 <= a < active.len() && (#[trigger] active[a]).id == id;
            let i = if a < n {
                a
            } else {
                a - 1
            };
            assert(now[i].id == id);
        }
    }
    assert forall|id: u64| txns(now).contains_key(id) implies #[trigger] txns(now)[id]
        == want[id] by {
        let i = choose|i: int| 0 <= i < now.len() && (#[trigger] now[i]).id == id;
        lemma_txns_at(now, i);
        let a = if i < n {
            i
        } else {
            i + 1
        };
        assert(now[i] == active[a]);
        lemma_txns_at(active, a);
    }
    assert(txns(now) =~= want);
}

proof fn lemma_txns_update(active: Seq<Transaction>, n: int, t: Transaction)
    requires
        ascend(active),
        0 <= n < active.len(),
        t.id == active[n].id,
    ensures
        ascend(active.update(n, t)),
        txns(active.update(n, t)) == txns(active).insert(t.id, t@),
{
    let now = active.update(n, t);
    let want = txns(active).insert(t.id, t@);
    assert forall|i: int, j: int| 0 <= i < j < now.len() implies (#[trigger] now[i]).id < (
    #[trigger] now[j]).id by {
        assert(active[i].id < active[j].id);
    }
    assert forall|id: u64| txns(now).contains_key(id) <==> want.contains_key(id) by {
        if txns(now).contains_key(id) {
            let i = choose|i: int| 0 <= i < now.len() && (#[trigger] now[i]).id == id;
            assert(active[i].id == id);
        }
        if txns(active).contains_key(id) {
            let i = choose|i: int| 0 <= i < active.len() && (#[trigger] active[i]).id == id;
            assert(now[i].id == id);
        }
        assert(now[n].id == t.id);
    }
    assert forall|id: u64| txns(now).contains_key(id) implies #[trigger] txns(now)[id]
        == want[id] by {
        let i = choose|i: int| 0 <= i < now.len() && (#[trigger] now[i]).id == id;
        lemma_txns_at(now, i);
        if i != n {
            assert(now[i] == active[i]);
            lemma_txns_at(active, i);
            if i < n {
                assert(active[i].id < active[n].id);
            } else {
                assert(active[n].id < active[i].id);
            }
        }
    }
    assert(txns(now) =~= want);
}

// ---- the store ------------------------------------------------------------------------

/// What a [`VersionStore`] holds.
pub struct Timeline {
    /// The committed versions that the tree does not hold yet.
    pub versions: Map<Version, Says>,
    /// The live transactions.
    pub txns: Map<u64, Sight>,
    /// The time of the next commit.
    pub next_ts: u64,
    /// The id of the next transaction.
    pub next_txn: u64,
}

/// Committed versions and live transactions.
#[derive(Debug, PartialEq, Eq)]
pub struct VersionStore {
    /// The versions, in order.
    pub entries: Vec<(InternalKey, ValueSlot)>,
    /// The live transactions, in the order in which they began.
    pub active: Vec<Transaction>,
    /// The time of the next commit.
    pub next_ts: u64,
    /// The id of the next transaction.
    pub next_txn: u64,
}

impl View for VersionStore {
    type V = Timeline;

    open spec fn view(&self) -> Timeline {
        Timeline {
            versions: versions(items(self.entries@)),
            txns: txns(self.active@),
            next_ts: self.next_ts,
            next_txn: self.next_txn,
        }
    }
}

/// What a transaction sees of a key: its own write, or what its snapshot
/// shows. `None` leaves the question to the tree.
pub open spec fn sees(t: Timeline, id: u64, key: Seq<u8>) -> Option<Says> {
    if t.txns[id].writes.contains_key(key) {
        Some(t.txns[id].writes[key])
    } else {
        seen(t.versions, key, t.txns[id].snapshot)
    }
}

/// The next transaction id once `id` was seen in use.
pub open spec fn next_beyond(next: u64, id: u64) -> u64 {
    if id < next {
        next
    } else if id == u64::MAX {
        u64::MAX
    } else {
        (id + 1) as u64
    }
}

/// A timeline with one more write of a transaction.
pub open spec fn staged(t: Timeline, id: u64, key: Seq<u8>, s: Says) -> Timeline {
    Timeline {
        txns: t.txns.insert(
            id,
            Sight { writes: t.txns[id].writes.insert(key, s), ..t.txns[id] },
        ),
        ..t
    }
}

/// A timeline with one more transaction, under the next id.
pub open spec fn began(t: Timeline, read_only: bool) -> Timeline {
    Timeline {
        txns: t.txns.insert(
            t.next_txn,
            Sight { snapshot: (t.next_ts - 1) as u64, read_only, writes: Map::empty() },
        ),
        next_txn: (t.next_txn + 1) as u64,
        ..t
    }
}

/// A key that the transaction writes was committed after its snapshot.
pub open spec fn conflicts(t: Timeline, id: u64) -> bool {
    exists|v: Version| #[trigger]
        t.versions.contains_key(v) && t.txns[id].writes.contains_key(v.0) && v.1
            > t.txns[id].snapshot
}

/// `w` is the newest commit that every live snapshot sees.
pub open spec fn is_watermark(t: Timeline, w: u64) -> bool {
    &&& forall|id: u64| #[trigger] t.txns.contains_key(id) ==> w <= t.txns[id].snapshot
    &&& w == t.next_ts - 1 || exists|id: u64| #[trigger]
        t.txns.contains_key(id) && t.txns[id].snapshot == w
    &&& w < t.next_ts
}

/// What a looked-up version says.
pub open spec fn told(v: Option<ValueSlot>) -> Option<Says> {
    match v {
        Some(s) => Some(slot_of(s)),
        None => None,
    }
}

/// A version outlives its lookup.
fn tell(l: Lookup) -> (r: Option<ValueSlot>)
    ensures
        told(r) == l@,
{
    match l {
        Lookup::Found(v) => Some(Some(v)),
        Lookup::Deleted => Some(None),
        Lookup::Absent => None,
    }
}

impl VersionStore {
    /// Versions are in order and in the past, transactions too.
    pub open spec fn wf(&self) -> bool {
        &&& in_order(items(self.entries@))
        &&& forall|i: int|
            0 <= i < self.entries@.len() ==> (#[trigger] self.entries@[i]).0.seqno < self.next_ts
        &&& ascend(self.active@)
        &&& forall|i: int|
            0 <= i < self.active@.len() ==> (#[trigger] self.active@[i]).wf() && self.active@[i].id
                < self.next_txn && self.active@[i].snapshot < self.next_ts
        &&& self.next_ts > 0
    }

    /// A store without versions, whose first commit happens at `first_ts`.
    pub fn new(first_ts: u64, next_txn: u64) -> (s: Self)
        requires
            first_ts > 0,
        ensures
            s.wf(),
            s@ == (Timeline {
                versions: Map::empty(),
                txns: Map::empty(),
                next_ts: first_ts,
                next_txn,
            }),
    {
        let s: VersionStore = VersionStore {
            entries: Vec::new(),
            active: Vec::new(),
            next_ts: first_ts,
            next_txn,
        };
        assert(s@.versions =~= Map::<Version, Says>::empty());
        assert(s@.txns =~= Map::<u64, Sight>::empty());
        s
    }

    /// Never hands out `id` again.
    pub fn observe_txn_id(&mut self, id: u64)
        requires
            old(self).wf(),
        ensures
            final(self).wf(),
            final(self)@ == (Timeline {
                next_txn: if id < old(self).next_txn {
                    old(self).next_txn
                } else if id == u64::MAX {
                    u64::MAX
                } else {
                    (id + 1) as u64
                },
                ..old(self)@
            }),
            final(self)@.next_txn == next_beyond(old(self)@.next_txn, id),
    {
        if id >= self.next_txn {
            self.next_txn = if id == u64::MAX {
                u64::MAX
            } else {
                id + 1
            };
        }
    }

    /// Where a transaction stands.
    fn find(&self, id: u64) -> (r: Result<usize>)
        requires
            self.wf(),
        ensures
            match r {
                Ok(i) => i < self.active@.len() && self.active@[i as int].id == id
                    && self@.txns.contains_key(id) && self@.txns[id] == self.active@[i as int]@,
                Err(e) => e == Error::TxnNotFound(id) && !self@.txns.contains_key(id),
            },
    {
        let mut i: usize = 0;
        while i < self.active.len()
            invariant
                i <= self.active@.len(),
                self.wf(),
                forall|j: int| 0 <= j < i ==> (#[trigger] self.active@[j]).id != id,
            decreases self.active@.len() - i,
        {
            if self.active[i].id == id {
                proof {
                    lemma_txns_at(self.active@, i as int);
                }
                return Ok(i);
            }
            i += 1;
        }
        Err(Error::TxnNotFound(id))
    }

    /// Begins a transaction and returns its id.
    pub fn begin(&mut self, read_only: bool) -> (r: Result<u64>)
        requires
            old(self).wf(),
        ensures
            final(self).wf(),
            match r {
                Ok(id) => id == old(self).next_txn && final(self)@ == (Timeline {
                    txns: old(self)@.txns.insert(
                        id,
                        Sight {
                            snapshot: (old(self).next_ts - 1) as u64,
                            read_only,
                            writes: Map::empty(),
                        },
                    ),
                    next_txn: (id + 1) as u64,
                    ..old(self)@
                }),
                Err(e) => e is Full && old(self).next_txn == u64::MAX && final(self)@ == old(self)@,
            },
    {
        if self.next_txn == u64::MAX {
            return Err(Error::full("transaction ids are exhausted"));
        }
        let id: u64 = self.next_txn;
        let t: Transaction = Transaction {
            id,
            snapshot: self.next_ts - 1,
            read_only,
            writes: Vec::new(),
        };
        proof {
            lemma_txns_push(self.active@, t);
            assert(t@.writes =~= Map::empty());
        }
        self.active.push(t);
        self.next_txn = id + 1;
        Ok(id)
    }

    /// Fails unless the transaction is live and may write.
    pub fn check_writable(&self, id: u64) -> (r: Result<()>)
        requires
            self.wf(),
        ensures
            match r {
                Ok(_) => self@.txns.contains_key(id) && !self@.txns[id].read_only,
                Err(e) => if self@.txns.contains_key(id) {
                    e is InvalidArgument && self@.txns[id].read_only
                } else {
                    e == Error::TxnNotFound(id)
                },
            },
    {
        match self.find(id) {
            Ok(i) => if self.active[i].read_only {
                Err(Error::invalid("transaction is read-only"))
            } else {
                Ok(())
            },
            Err(e) => Err(e),
        }
    }

    /// Stages a write in a transaction.
    pub fn stage(&mut self, id: u64, key: Vec<u8>, write: Write) -> (r: Result<()>)
        requires
            old(self).wf(),
        ensures
            final(self).wf(),
            match r {
                Ok(_) => old(self)@.txns.contains_key(id) && !old(self)@.txns[id].read_only
                    && final(self)@ == (Timeline {
                    txns: old(self)@.txns.insert(
                        id,
                        Sight {
                            writes: old(self)@.txns[id].writes.insert(key@, write.says()),
                            ..old(self)@.txns[id]
                        },
                    ),
                    ..old(self)@
                }),
                Err(e) => final(self)@ == old(self)@ && if old(self)@.txns.contains_key(id) {
                    e is InvalidArgument && old(self)@.txns[id].read_only
                } else {
                    e == Error::TxnNotFound(id)
                },
            },
            r is Ok ==> final(self)@ == staged(old(self)@, id, key@, write.says()),
    {
        self.check_writable(id)?;
        let i: usize = self.find(id)?;
        let ghost was = self.active@;
        self.active[i].stage(key, write.into_slot());
        proof {
            lemma_txns_update(was, i as int, self.active@[i as int]);
            assert(self.active@ =~= was.update(i as int, self.active@[i as int]));
            assert(self@.txns[id] == self.active@[i as int]@);
        }
        Ok(())
    }

    /// Reads a key as a transaction sees it; `None` leaves it to the tree.
    pub fn read(&self, id: u64, key: &[u8]) -> (r: Result<Option<ValueSlot>>)
        requires
            self.wf(),
        ensures
            match r {
                Ok(v) => self@.txns.contains_key(id) && told(v) == sees(self@, id, key@),
                Err(e) => e == Error::TxnNotFound(id) && !self@.txns.contains_key(id),
            },
    {
        let i: usize = self.find(id)?;
        let own: Lookup = self.active[i].own(key);
        match own {
            Lookup::Absent => Ok(tell(look_up(&self.entries, key, self.active[i].snapshot))),
            _ => Ok(tell(own)),
        }
    }

    /// What a snapshot sees of a key; `None` leaves it to the tree.
    pub fn visible(&self, key: &[u8], snapshot: u64) -> (r: Option<ValueSlot>)
        requires
            self.wf(),
        ensures
            told(r) == seen(self@.versions, key@, snapshot),
    {
        tell(look_up(&self.entries, key, snapshot))
    }

    /// The latest commit time.
    pub fn current_ts(&self) -> (ts: u64)
        requires
            self.wf(),
        ensures
            ts == self@.next_ts - 1,
    {
        self.next_ts - 1
    }

    /// The id of the next transaction.
    pub fn peek_txn_id(&self) -> (id: u64)
        ensures
            id == self@.next_txn,
    {
        self.next_txn
    }

    /// How many transactions are live.
    pub fn active_count(&self) -> (n: usize)
        requires
            self.wf(),
        ensures
            n == self.active@.len(),
            n == 0 <==> self@.txns == Map::<u64, Sight>::empty(),
    {
        proof {
            if self.active@.len() > 0 {
                lemma_txns_at(self.active@, 0);
            } else {
                assert(self@.txns =~= Map::<u64, Sight>::empty());
            }
        }
        self.active.len()
    }

    /// Ends a transaction without publishing its writes.
    pub fn rollback(&mut self, id: u64) -> (r: Result<()>)
        requires
            old(self).wf(),
        ensures
            final(self).wf(),
            match r {
                Ok(_) => old(self)@.txns.contains_key(id) && final(self)@ == (Timeline {
                    txns: old(self)@.txns.remove(id),
                    ..old(self)@
                }),
                Err(e) => e == Error::TxnNotFound(id) && !old(self)@.txns.contains_key(id)
                    && final(self)@ == old(self)@,
            },
    {
        let i: usize = self.find(id)?;
        let ghost was = self.active@;
        proof {
            lemma_txns_remove(was, i as int);
            assert forall|j: int| 0 <= j < was.remove(i as int).len() implies #[trigger] was.remove(
                i as int,
            )[j] == was[if j < i {
                j
            } else {
                j + 1
            }] by {}
        }
        let gone: Transaction = self.active.remove(i);
        assert(self.active@ == was.remove(i as int));
        Ok(())
    }
}

// ---- committing -----------------------------------------------------------------------

/// Staged writes grow by one entry at a time.
proof fn lemma_writes_step(w: Seq<(InternalKey, ValueSlot)>, j: int)
    requires
        in_order(items(w)),
        forall|i: int| 0 <= i < w.len() ==> (#[trigger] w[i]).0.seqno == 0,
        0 <= j < w.len(),
    ensures
        writes_of(w.take(j + 1)) == writes_of(w.take(j)).insert(
            w[j].0.user_key@,
            slot_of(w[j].1),
        ),
{
    let run = items(w.take(j));
    let now = items(w.take(j + 1));
    let e: Item = (w[j].0@, slot_of(w[j].1));
    assert(now =~= run.insert(j, e));
    let whole = items(w);
    assert forall|a: int, b: int| 0 <= a < b < now.len() implies version_lt(
        (#[trigger] now[a]).0,
        (#[trigger] now[b]).0,
    ) by {
        assert(now[a] == whole[a] && now[b] == whole[b]);
    }
    assert forall|a: int, b: int| 0 <= a < b < run.len() implies version_lt(
        (#[trigger] run[a]).0,
        (#[trigger] run[b]).0,
    ) by {
        assert(run[a] == whole[a] && run[b] == whole[b]);
    }
    lemma_versions_insert(run, now, e.0, e.1);
    assert(writes_of(w.take(j + 1)) =~= writes_of(w.take(j)).insert(
        w[j].0.user_key@,
        slot_of(w[j].1),
    ));
}

impl VersionStore {
    /// Fails when a key that the transaction writes was committed after its
    /// snapshot.
    pub fn detect_conflict(&self, id: u64) -> (r: Result<()>)
        requires
            self.wf(),
        ensures
            match r {
                Ok(_) => self@.txns.contains_key(id) && !conflicts(self@, id),
                Err(e) => if self@.txns.contains_key(id) {
                    e is Conflict && conflicts(self@, id)
                } else {
                    e == Error::TxnNotFound(id)
                },
            },
    {
        let i: usize = self.find(id)?;
        let snapshot: u64 = self.active[i].snapshot;
        let ghost w = self.active@[i as int].writes@;
        let ghost run = items(self.entries@);
        let mut j: usize = 0;
        while j < self.active[i].writes.len()
            invariant
                self.wf(),
                i < self.active@.len(),
                w == self.active@[i as int].writes@,
                run == items(self.entries@),
                self@.txns.contains_key(id),
                self@.txns[id] == self.active@[i as int]@,
                snapshot == self.active@[i as int].snapshot,
                j <= w.len(),
                forall|a: int, v: Version|
                    0 <= a < j && #[trigger] self@.versions.contains_key(v) && v.0 == (
                    #[trigger] w[a]).0.user_key@ ==> v.1 <= snapshot,
            decreases w.len() - j,
        {
            let key: &[u8] = self.active[i].writes[j].0.user_key.as_slice();
            let n: usize = seek_version(&self.entries, key, u64::MAX);
            let newer: bool = n < self.entries.len() && crate::bytes::same(
                self.entries[n].0.user_key.as_slice(),
                key,
            ) && self.entries[n].0.seqno > snapshot;
            if newer {
                proof {
                    let v = run[n as int].0;
                    assert(v == self.entries@[n as int].0@);
                    assert(lists(run, v));
                    assert(items(w)[j as int].0 == (key@, 0u64));
                    assert(lists(items(w), (key@, 0u64)));
                    assert(self@.versions.contains_key(v));
                    assert(self@.txns[id].writes.contains_key(v.0));
                }
                return Err(Error::Conflict);
            }
            proof {
                assert forall|v: Version| #[trigger]
                    self@.versions.contains_key(v) && v.0 == key@ implies v.1 <= snapshot by {
                    let x = choose|x: int| 0 <= x < run.len() && (#[trigger] run[x]).0 == v;
                    crate::bytes::lemma_lex_irreflexive(key@);
                    if x < n {
                        assert(version_lt(run[x].0, (key@, u64::MAX)));
                    } else {
                        if x > n {
                            assert(version_lt(run[n as int].0, run[x].0));
                            assert(!version_lt(run[n as int].0, (key@, u64::MAX)));
                            let k = run[n as int].0.0;
                            if k != key@ {
                                crate::bytes::lemma_lex_total(k, key@);
                                crate::bytes::lemma_lex_asymmetric(k, key@);
                            }
                        }
                        assert(self.entries@[n as int].0.user_key@ == key@);
                    }
                }
            }
            j += 1;
        }
        proof {
            if conflicts(self@, id) {
                let v = choose|v: Version| #[trigger]
                    self@.versions.contains_key(v) && self@.txns[id].writes.contains_key(v.0)
                        && v.1 > self@.txns[id].snapshot;
                let a = choose|a: int| 0 <= a < items(w).len() && (#[trigger] items(w)[a]).0 == (
                    v.0,
                    0u64,
                );
                assert(w[a].0.user_key@ == v.0);
            }
        }
        Ok(())
    }

    /// What the log has to hold before the transaction is committed.
    pub fn record(&self, id: u64) -> (r: Result<Commit>)
        requires
            self.wf(),
        ensures
            match r {
                Ok(c) => self@.txns.contains_key(id) && c@ == (
                    self@.next_ts,
                    self@.txns[id].writes,
                ) && (c.writes@.len() == 0 <==> self@.txns[id].writes =~= Map::<
                    Seq<u8>,
                    Says,
                >::empty()),
                Err(e) => e == Error::TxnNotFound(id) && !self@.txns.contains_key(id),
            },
    {
        let i: usize = self.find(id)?;
        let ghost w = self.active@[i as int].writes@;
        let mut out: Vec<(Vec<u8>, ValueSlot)> = Vec::new();
        let mut j: usize = 0;
        proof {
            assert(writes_of(w.take(0)) =~= Map::<Seq<u8>, Says>::empty());
            assert(shown(out@) =~= Seq::empty());
        }
        while j < self.active[i].writes.len()
            invariant
                self.wf(),
                i < self.active@.len(),
                w == self.active@[i as int].writes@,
                j <= w.len(),
                out@.len() == j,
                map_of(shown(out@)) == writes_of(w.take(j as int)),
            decreases w.len() - j,
        {
            let ghost was = shown(out@);
            out.push(
                (
                    copy_bytes(self.active[i].writes[j].0.user_key.as_slice()),
                    copy_slot(&self.active[i].writes[j].1),
                ),
            );
            proof {
                lemma_writes_step(w, j as int);
                assert(shown(out@).drop_last() =~= was);
            }
            j += 1;
        }
        assert(w.take(j as int) =~= w);
        proof {
            if out@.len() > 0 {
                let last = shown(out@).last();
                assert(map_of(shown(out@)).contains_key(last.0));
            } else {
                assert(shown(out@) =~= Seq::empty());
            }
        }
        Ok(Commit { ts: self.next_ts, writes: out })
    }

    /// Publishes a commit.
    pub fn apply_recovered(&mut self, c: &Commit)
        requires
            old(self).wf(),
            c.ts < u64::MAX,
        ensures
            final(self).wf(),
            final(self)@ == (Timeline {
                versions: stamped(old(self)@.versions, c@.0, c@.1),
                next_ts: if c.ts < old(self).next_ts {
                    old(self).next_ts
                } else {
                    (c.ts + 1) as u64
                },
                ..old(self)@
            }),
            final(self).active == old(self).active,
    {
        let ghost base = self@.versions;
        if c.ts >= self.next_ts {
            self.next_ts = c.ts + 1;
        }
        let mut j: usize = 0;
        proof {
            assert(shown(c.writes@).take(0) =~= Seq::empty());
            assert(stamped(base, c.ts, Map::empty()) =~= base);
        }
        while j < c.writes.len()
            invariant
                self.wf(),
                c.ts < self.next_ts,
                self.next_ts == if c.ts < old(self).next_ts {
                    old(self).next_ts
                } else {
                    (c.ts + 1) as u64
                },
                self.next_txn == old(self).next_txn,
                self.active == old(self).active,
                j <= c.writes@.len(),
                self@.versions == stamped(base, c.ts, map_of(shown(c.writes@).take(j as int))),
            decreases c.writes@.len() - j,
        {
            let ghost list = shown(c.writes@);
            let ghost w = map_of(list.take(j as int));
            let ghost (k, s) = list[j as int];
            put_version(
                &mut self.entries,
                copy_bytes(c.writes[j].0.as_slice()),
                c.ts,
                copy_slot(&c.writes[j].1),
            );
            proof {
                assert(list.take(j + 1).drop_last() =~= list.take(j as int));
                assert(stamped(base, c.ts, w.insert(k, s)) =~= stamped(base, c.ts, w).insert(
                    (k, c.ts),
                    s,
                ));
            }
            j += 1;
        }
        assert(shown(c.writes@).take(j as int) =~= shown(c.writes@));
    }

    /// Commits a transaction that does not conflict: its writes become
    /// versions of one new time.
    pub fn commit(&mut self, id: u64) -> (r: Result<Commit>)
        requires
            old(self).wf(),
        ensures
            final(self).wf(),
            match r {
                Ok(c) => old(self)@.txns.contains_key(id) && old(self).next_ts < u64::MAX && c@ == (
                    old(self)@.next_ts,
                    old(self)@.txns[id].writes,
                ) && final(self)@ == (Timeline {
                    versions: stamped(old(self)@.versions, c@.0, c@.1),
                    txns: old(self)@.txns.remove(id),
                    next_ts: (old(self).next_ts + 1) as u64,
                    ..old(self)@
                }),
                Err(e) => final(self)@ == old(self)@ && if old(self)@.txns.contains_key(id) {
                    e is Full && old(self).next_ts == u64::MAX
                } else {
                    e == Error::TxnNotFound(id)
                },
            },
    {
        let c: Commit = self.record(id)?;
        if self.next_ts == u64::MAX {
            return Err(Error::full("commit times are exhausted"));
        }
        self.rollback(id)?;
        self.apply_recovered(&c);
        Ok(c)
    }

    /// The newest commit that every live snapshot sees: what is not newer may
    /// go to the tree.
    pub fn merge_watermark(&self) -> (w: u64)
        requires
            self.wf(),
        ensures
            is_watermark(self@, w),
    {
        let mut w: u64 = self.next_ts - 1;
        let mut i: usize = 0;
        while i < self.active.len()
            invariant
                self.wf(),
                i <= self.active@.len(),
                w < self.next_ts,
                forall|j: int| 0 <= j < i ==> w <= (#[trigger] self.active@[j]).snapshot,
                w == self.next_ts - 1 || exists|j: int|
                    0 <= j < i && (#[trigger] self.active@[j]).snapshot == w,
            decreases self.active@.len() - i,
        {
            if self.active[i].snapshot < w {
                w = self.active[i].snapshot;
                assert(self.active@[i as int].snapshot == w);
            }
            i += 1;
        }
        proof {
            if w != self.next_ts - 1 {
                let j = choose|j: int| 0 <= j < i && (#[trigger] self.active@[j]).snapshot == w;
                lemma_txns_at(self.active@, j);
                assert(self@.txns.contains_key(self.active@[j].id));
            }
            assert forall|id: u64| #[trigger] self@.txns.contains_key(id) implies w
                <= self@.txns[id].snapshot by {
                let j = choose|j: int|
                    0 <= j < self.active@.len() && (#[trigger] self.active@[j]).id == id;
                lemma_txns_at(self.active@, j);
            }
        }
        w
    }
}

// ---- what stays when the tree has caught up -------------------------------------------

/// The commits of a list.
pub open spec fn records(log: Seq<Commit>) -> Seq<Record> {
    Seq::new(log.len(), |i: int| log[i]@)
}

/// Versions with every commit of a log among them.
pub open spec fn replay(m: Map<Version, Says>, log: Seq<Record>) -> Map<Version, Says>
    decreases log.len(),
{
    if log.len() == 0 {
        m
    } else {
        stamped(replay(m, log.drop_last()), log.last().0, log.last().1)
    }
}

/// Commit times ascend.
pub open spec fn in_time(log: Seq<Record>) -> bool {
    forall|i: int, j: int| 0 <= i < j < log.len() ==> (#[trigger] log[i]).0 < (#[trigger] log[j]).0
}

/// A log whose times ascend says of a version what the commit of its time
/// says.
proof fn lemma_replay_at(log: Seq<Record>, v: Version)
    requires
        in_time(log),
    ensures
        forall|g: int|
            0 <= g < log.len() && (#[trigger] log[g]).0 == v.1 ==> replay(
                Map::empty(),
                log,
            ).contains_key(v) == log[g].1.contains_key(v.0) && (log[g].1.contains_key(v.0)
                ==> replay(Map::empty(), log)[v] == log[g].1[v.0]),
        (forall|g: int| 0 <= g < log.len() ==> (#[trigger] log[g]).0 != v.1) ==> !replay(
            Map::empty(),
            log,
        ).contains_key(v),
    decreases log.len(),
{
    if log.len() > 0 {
        let short = log.drop_last();
        assert forall|i: int, j: int| 0 <= i < j < short.len() implies (#[trigger] short[i]).0 < (
        #[trigger] short[j]).0 by {
            assert(log[i].0 < log[j].0);
        }
        lemma_replay_at(short, v);
        assert forall|g: int| 0 <= g < log.len() && (#[trigger] log[g]).0 == v.1 implies replay(
            Map::empty(),
            log,
        ).contains_key(v) == log[g].1.contains_key(v.0) && (log[g].1.contains_key(v.0) ==> replay(
            Map::empty(),
            log,
        )[v] == log[g].1[v.0]) by {
            if g < log.len() - 1 {
                assert(short[g] == log[g]);
                assert(log[g].0 < log[log.len() - 1].0);
            } else {
                assert forall|h: int| 0 <= h < short.len() implies (#[trigger] short[h]).0
                    != v.1 by {
                    assert(log[h].0 < log[g].0);
                }
            }
        }
        if forall|g: int| 0 <= g < log.len() ==> (#[trigger] log[g]).0 != v.1 {
            assert forall|h: int| 0 <= h < short.len() implies (#[trigger] short[h]).0 != v.1 by {
                assert(short[h] == log[h]);
            }
            assert(log[log.len() - 1].0 != v.1);
        }
    }
}

/// Commits before a time.
fn seek_ts(log: &Vec<Commit>, ts: u64) -> (n: usize)
    requires
        in_time(records(log@)),
    ensures
        n <= log@.len(),
        forall|i: int| 0 <= i < n ==> (#[trigger] log@[i]).ts < ts,
        forall|i: int| n <= i < log@.len() ==> (#[trigger] log@[i]).ts >= ts,
{
    let mut lo: usize = 0;
    let mut hi: usize = log.len();
    let ghost r = records(log@);
    while lo < hi
        invariant
            r == records(log@),
            in_time(r),
            lo <= hi <= log@.len(),
            forall|i: int| 0 <= i < lo ==> (#[trigger] log@[i]).ts < ts,
            forall|i: int| hi <= i < log@.len() ==> (#[trigger] log@[i]).ts >= ts,
        decreases hi - lo,
    {
        let mid: usize = lo + (hi - lo) / 2;
        if log[mid].ts < ts {
            assert forall|i: int| 0 <= i < mid + 1 implies (#[trigger] log@[i]).ts < ts by {
                if i < mid {
                    assert(r[i].0 < r[mid as int].0);
                }
            }
            lo = mid + 1;
        } else {
            assert forall|i: int| mid <= i < log@.len() implies (#[trigger] log@[i]).ts >= ts by {
                if i > mid {
                    assert(r[mid as int].0 < r[i].0);
                }
            }
            hi = mid;
        }
    }
    lo
}

/// A log with one more write.
proof fn lemma_log_grows(a: Seq<Record>, b: Seq<Record>, n: int, k: Seq<u8>, ts: u64, s: Says)
    requires
        in_time(a),
        in_time(b),
        0 <= n <= a.len(),
        (n < a.len() && a[n].0 == ts && b == a.update(n, (ts, a[n].1.insert(k, s)))) || (b
            == a.insert(n, (ts, Map::<Seq<u8>, Says>::empty().insert(k, s))) && forall|i: int|
            0 <= i < a.len() ==> (#[trigger] a[i]).0 != ts),
    ensures
        replay(Map::empty(), b) == replay(Map::empty(), a).insert((k, ts), s),
{
    let was = replay(Map::empty(), a);
    let now = replay(Map::empty(), b);
    assert(b[n].0 == ts);
    assert forall|v: Version|
        #![trigger now.dom().contains(v)]
        #![trigger now[v]]
        now.contains_key(v) == was.insert((k, ts), s).contains_key(v) && (now.contains_key(v)
            ==> now[v] == was.insert((k, ts), s)[v]) by {
        lemma_replay_at(a, v);
        lemma_replay_at(b, v);
        if v.1 == ts {
            assert(b[n].0 == v.1);
            if a.len() == b.len() {
                assert(a[n].0 == v.1);
            }
        } else if exists|g: int| 0 <= g < a.len() && (#[trigger] a[g]).0 == v.1 {
            let g = choose|g: int| 0 <= g < a.len() && (#[trigger] a[g]).0 == v.1;
            let h = if a.len() == b.len() || g < n {
                g
            } else {
                g + 1
            };
            assert(b[h] == a[g]);
            assert(b[h].0 == v.1);
        } else {
            assert forall|h: int| 0 <= h < b.len() implies (#[trigger] b[h]).0 != v.1 by {
                if h != n {
                    let g = if a.len() == b.len() || h < n {
                        h
                    } else {
                        h - 1
                    };
                    assert(b[h] == a[g]);
                }
            }
        }
    }
    assert(now =~= was.insert((k, ts), s));
}

/// The versions of the first entries of a list.
proof fn lemma_versions_step(w: Seq<(InternalKey, ValueSlot)>, i: int)
    requires
        in_order(items(w)),
        0 <= i < w.len(),
    ensures
        in_order(items(w.take(i))),
        versions(items(w.take(i + 1))) == versions(items(w.take(i))).insert(
            w[i].0@,
            slot_of(w[i].1),
        ),
{
    let run = items(w.take(i));
    let now = items(w.take(i + 1));
    let whole = items(w);
    let e: Item = (w[i].0@, slot_of(w[i].1));
    assert(now =~= run.insert(i, e));
    assert forall|a: int, b: int| 0 <= a < b < now.len() implies version_lt(
        (#[trigger] now[a]).0,
        (#[trigger] now[b]).0,
    ) by {
        assert(now[a] == whole[a] && now[b] == whole[b]);
    }
    assert forall|a: int, b: int| 0 <= a < b < run.len() implies version_lt(
        (#[trigger] run[a]).0,
        (#[trigger] run[b]).0,
    ) by {
        assert(run[a] == whole[a] && run[b] == whole[b]);
    }
    lemma_versions_insert(run, now, e.0, e.1);
}

impl VersionStore {
    /// Forgets the versions that are not newer than `w`.
    pub fn drop_merged(&mut self, w: u64)
        requires
            old(self).wf(),
        ensures
            final(self).wf(),
            final(self)@ == (Timeline {
                versions: after(old(self)@.versions, w),
                ..old(self)@
            }),
            final(self).active == old(self).active,
    {
        let ghost all = self.entries@;
        let ghost run = items(all);
        let mut kept: Vec<(InternalKey, ValueSlot)> = Vec::new();
        let mut i: usize = 0;
        proof {
            assert(versions(items(kept@)) =~= after(versions(items(all.take(0))), w));
        }
        while i < self.entries.len()
            invariant
                *self == *old(self),
                self.wf(),
                all == self.entries@,
                run == items(all),
                in_order(run),
                i <= all.len(),
                in_order(items(kept@)),
                forall|a: int|
                    0 <= a < kept@.len() ==> (#[trigger] kept@[a]).0.seqno < self.next_ts && exists|
                        j: int,
                    |
                        0 <= j < i && (#[trigger] run[j]).0 == kept@[a].0@,
                versions(items(kept@)) == after(versions(items(all.take(i as int))), w),
            decreases all.len() - i,
        {
            let ghost was = items(kept@);
            let ghost had = kept@;
            let ghost e: Item = run[i as int];
            assert(e == (all[i as int].0@, slot_of(all[i as int].1)));
            proof {
                lemma_versions_step(all, i as int);
            }
            if self.entries[i].0.seqno > w {
                kept.push(
                    (
                        InternalKey {
                            user_key: copy_bytes(self.entries[i].0.user_key.as_slice()),
                            seqno: self.entries[i].0.seqno,
                        },
                        copy_slot(&self.entries[i].1),
                    ),
                );
                proof {
                    let now = items(kept@);
                    assert(now =~= was.insert(was.len() as int, e));
                    assert forall|a: int, b: int| 0 <= a < b < now.len() implies version_lt(
                        (#[trigger] now[a]).0,
                        (#[trigger] now[b]).0,
                    ) by {
                        assert(now[a] == was[a]);
                        if b < was.len() {
                            assert(now[b] == was[b]);
                        } else {
                            assert(had[a].0@ == was[a].0);
                            let j = choose|j: int| 0 <= j < i && (#[trigger] run[j]).0
                                == had[a].0@;
                            assert(version_lt(run[j].0, run[i as int].0));
                        }
                    }
                    lemma_versions_insert(was, now, e.0, e.1);
                    assert(versions(items(kept@)) =~= after(
                        versions(items(all.take(i + 1))),
                        w,
                    ));
                    assert forall|a: int| 0 <= a < kept@.len() implies (
                    #[trigger] kept@[a]).0.seqno < self.next_ts && exists|j: int|
                        0 <= j < i + 1 && (#[trigger] run[j]).0 == kept@[a].0@ by {
                        if a < had.len() {
                            assert(kept@[a] == had[a]);
                            let j = choose|j: int| 0 <= j < i && (#[trigger] run[j]).0
                                == had[a].0@;
                            assert(run[j].0 == kept@[a].0@);
                        } else {
                            assert(run[i as int].0 == kept@[a].0@);
                        }
                    }
                }
            } else {
                proof {
                    assert(versions(items(kept@)) =~= after(
                        versions(items(all.take(i + 1))),
                        w,
                    ));
                    assert forall|a: int| 0 <= a < kept@.len() implies (
                    #[trigger] kept@[a]).0.seqno < self.next_ts && exists|j: int|
                        0 <= j < i + 1 && (#[trigger] run[j]).0 == kept@[a].0@ by {
                        let j = choose|j: int| 0 <= j < i && (#[trigger] run[j]).0
                            == kept@[a].0@;
                        assert(run[j].0 == kept@[a].0@);
                    }
                }
            }
            i += 1;
        }
        assert(all.take(i as int) =~= all);
        self.entries = kept;
    }

    /// The versions that remain, as the log has to hold them.
    pub fn retained_commits(&self) -> (out: Vec<Commit>)
        requires
            self.wf(),
        ensures
            in_time(records(out@)),
            replay(Map::empty(), records(out@)) == self@.versions,
            forall|i: int| 0 <= i < out@.len() ==> (#[trigger] out@[i]).ts < self.next_ts,
    {
        let ghost all = self.entries@;
        let mut out: Vec<Commit> = Vec::new();
        let mut i: usize = 0;
        proof {
            assert(versions(items(all.take(0))) =~= Map::<Version, Says>::empty());
            assert(records(out@) =~= Seq::empty());
        }
        while i < self.entries.len()
            invariant
                self.wf(),
                all == self.entries@,
                i <= all.len(),
                in_time(records(out@)),
                replay(Map::empty(), records(out@)) == versions(items(all.take(i as int))),
                forall|j: int| 0 <= j < out@.len() ==> (#[trigger] out@[j]).ts < self.next_ts,
            decreases all.len() - i,
        {
            let ghost a = records(out@);
            let ghost had = out@;
            let ts: u64 = self.entries[i].0.seqno;
            let key: Vec<u8> = copy_bytes(self.entries[i].0.user_key.as_slice());
            let slot: ValueSlot = copy_slot(&self.entries[i].1);
            let ghost (k, s) = (key@, slot_of(slot));
            let n: usize = seek_ts(&out, ts);
            if n < out.len() && out[n].ts == ts {
                let ghost list = shown(out@[n as int].writes@);
                out[n].writes.push((key, slot));
                proof {
                    let b = records(out@);
                    assert(shown(out@[n as int].writes@).drop_last() =~= list);
                    assert(b =~= a.update(n as int, (ts, a[n as int].1.insert(k, s))));
                    assert(in_time(b)) by {
                        assert forall|x: int, y: int| 0 <= x < y < b.len() implies (
                        #[trigger] b[x]).0 < (#[trigger] b[y]).0 by {
                            assert(a[x].0 < a[y].0);
                        }
                    }
                    lemma_log_grows(a, b, n as int, k, ts, s);
                }
            } else {
                let mut writes: Vec<(Vec<u8>, ValueSlot)> = Vec::new();
                let ghost none = shown(writes@);
                writes.push((key, slot));
                proof {
                    assert(none =~= Seq::empty());
                    assert(shown(writes@).drop_last() =~= none);
                    assert(map_of(none) =~= Map::<Seq<u8>, Says>::empty());
                }
                out.insert(n, Commit { ts, writes });
                proof {
                    let b = records(out@);
                    assert(b =~= a.insert(
                        n as int,
                        (ts, Map::<Seq<u8>, Says>::empty().insert(k, s)),
                    ));
                    assert forall|x: int| 0 <= x < a.len() implies (#[trigger] a[x]).0 != ts by {
                        assert(had[x].ts == a[x].0);
                        if x > n {
                            assert(a[n as int].0 < a[x].0);
                        }
                    }
                    assert(in_time(b)) by {
                        assert forall|x: int, y: int| 0 <= x < y < b.len() implies (
                        #[trigger] b[x]).0 < (#[trigger] b[y]).0 by {
                            if x == n {
                                assert(b[y] == a[y - 1]);
                                assert(had[y - 1].ts >= ts);
                            } else if y == n {
                                assert(had[x].ts < ts);
                            } else {
                                let (p, q) = (
                                    if x < n {
                                        x
                                    } else {
                                        x - 1
                                    },
                                    if y < n {
                                        y
                                    } else {
                                        y - 1
                                    },
                                );
                                assert(a[p].0 < a[q].0);
                            }
                        }
                    }
                    lemma_log_grows(a, b, n as int, k, ts, s);
                    assert forall|j: int| 0 <= j < out@.len() implies (#[trigger] out@[j]).ts
                        < self.next_ts by {
                        if j < n {
                            assert(out@[j] == had[j]);
                        } else if j > n {
                            assert(out@[j] == had[j - 1]);
                        }
                    }
                }
            }
            proof {
                lemma_versions_step(all, i as int);
            }
            i += 1;
        }
        assert(all.take(i as int) =~= all);
        out
    }
}

impl VersionStore {
    /// The writes of a transaction, and what its snapshot sees of the versions.
    pub(crate) fn layers(&self, id: u64) -> (r: Result<
        (Vec<(Vec<u8>, ValueSlot)>, Vec<(Vec<u8>, ValueSlot)>),
    >)
        requires
            self.wf(),
        ensures
            match r {
                Ok((own, base)) => self@.txns.contains_key(id) && views(
                    self@.versions,
                    self@.txns[id].snapshot,
                    shown(base@),
                ) && own_list(self@.txns[id].writes, shown(own@)),
                Err(e) => e == Error::TxnNotFound(id) && !self@.txns.contains_key(id),
            },
    {
        let i: usize = self.find(id)?;
        let own = collapse(&self.active[i].writes, 0);
        let base = collapse(&self.entries, self.active[i].snapshot);
        proof {
            let w = self.active@[i as int].writes@;
            let l = shown(own@);
            let m = self@.txns[id].writes;
            assert forall|x: int| 0 <= x < l.len() implies m.contains_key((#[trigger] l[x]).0)
                && m[l[x].0] == l[x].1 by {
                lemma_own(w, l[x].0);
            }
            assert forall|k: Seq<u8>| #[trigger] m.contains_key(k) implies exists|x: int|
                0 <= x < l.len() && (#[trigger] l[x]).0 == k by {
                lemma_own(w, k);
                assert(seen(versions(items(w)), k, 0) is Some);
            }
        }
        Ok((own, base))
    }
}

/// `l` lists the writes `m` in key order.
pub open spec fn own_list(m: Map<Seq<u8>, Says>, l: Seq<(Seq<u8>, Says)>) -> bool {
    &&& forall|i: int, j: int|
        0 <= i < j < l.len() ==> lex_lt((#[trigger] l[i]).0, (#[trigger] l[j]).0)
    &&& forall|i: int| 0 <= i < l.len() ==> m.contains_key((#[trigger] l[i]).0) && m[l[i].0] == l[i].1
    &&& forall|k: Seq<u8>| #[trigger]
        m.contains_key(k) ==> exists|i: int| 0 <= i < l.len() && (#[trigger] l[i]).0 == k
}

} // verus!
