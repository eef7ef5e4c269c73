//! Single writes and batches, each in a transaction of its own.

use crate::bytes::copy_bytes;
use crate::database::laws::{law_commits_are_published, lemma_past, past};
use crate::database::{
    committed, ended, held_in, latest, look_txn, nameable, nothing_to_commit, writable, Database,
};
use crate::error::{Error, Result};
use crate::lsm::version::{seen, Version};
use crate::txn::{conflicts, stamped, Commit, Timeline};
use vstd::prelude::*;

verus! {

/// One step of a batch.
#[derive(Debug, PartialEq, Eq)]
pub enum BatchOp {
    /// Inserts or overwrites.
    Put(Vec<u8>, Vec<u8>),
    /// Deletes; the key has to be there.
    Delete(Vec<u8>),
    /// Deletes a key if it is there.
    DeleteIfExists(Vec<u8>),
}

/// What a step makes of the contents; nothing where it is refused.
pub open spec fn step(m: Map<Seq<u8>, Seq<u8>>, op: BatchOp) -> Option<Map<Seq<u8>, Seq<u8>>> {
    match op {
        BatchOp::Put(k, v) => if writable(k@, v@) {
            Some(m.insert(k@, v@))
        } else {
            None
        },
        BatchOp::Delete(k) => if nameable(k@) && m.contains_key(k@) {
            Some(m.remove(k@))
        } else {
            None
        },
        BatchOp::DeleteIfExists(k) => if nameable(k@) {
            Some(m.remove(k@))
        } else {
            None
        },
    }
}

/// What a batch makes of the contents; nothing where a step is refused.
pub open spec fn outcome(m: Map<Seq<u8>, Seq<u8>>, ops: Seq<BatchOp>) -> Option<
    Map<Seq<u8>, Seq<u8>>,
>
    decreases ops.len(),
{
    if ops.len() == 0 {
        Some(m)
    } else {
        match outcome(m, ops.drop_last()) {
            Some(p) => step(p, ops.last()),
            None => None,
        }
    }
}

/// How a step is refused.
pub open spec fn refusal(op: BatchOp, e: Error) -> bool {
    match op {
        BatchOp::Delete(k) => if nameable(k@) {
            e is NotFound
        } else {
            e is InvalidArgument
        },
        _ => e is InvalidArgument,
    }
}

/// Some step is refused, with this error.
pub open spec fn refused(m: Map<Seq<u8>, Seq<u8>>, ops: Seq<BatchOp>, e: Error) -> bool {
    exists|i: int|
        0 <= i < ops.len() && (#[trigger] outcome(m, ops.take(i))) is Some && step(
            outcome(m, ops.take(i))->0,
            ops[i],
        ) is None && refusal(ops[i], e)
}

/// A refused step refuses the batch.
proof fn lemma_refused(m: Map<Seq<u8>, Seq<u8>>, ops: Seq<BatchOp>, i: int)
    requires
        0 <= i < ops.len(),
        outcome(m, ops.take(i + 1)) is None,
    ensures
        outcome(m, ops) is None,
    decreases ops.len(),
{
    if i == ops.len() - 1 {
        assert(ops.take(i + 1) =~= ops);
    } else {
        assert(ops.drop_last().take(i + 1) =~= ops.take(i + 1));
        lemma_refused(m, ops.drop_last(), i);
    }
}

/// A transaction sees the contents `m`.
pub open spec fn shows(t: Timeline, tree: Map<Seq<u8>, Seq<u8>>, id: u64, m: Map<Seq<u8>, Seq<u8>>) -> bool {
    forall|k: Seq<u8>| #[trigger] look_txn(t, tree, id, k) == held_in(m, k)
}

/// `t` is `s` with one more live transaction.
spec fn with_txn(s: Timeline, t: Timeline, id: u64) -> bool {
    &&& t.versions == s.versions
    &&& t.next_ts == s.next_ts
    &&& t.txns.contains_key(id)
    &&& t.txns.remove(id) =~= s.txns
    &&& t.txns[id].snapshot == s.next_ts - 1
    &&& !t.txns[id].read_only
}

/// A transaction sees one state.
proof fn lemma_one_sight(
    t: Timeline,
    tree: Map<Seq<u8>, Seq<u8>>,
    id: u64,
    a: Map<Seq<u8>, Seq<u8>>,
    b: Map<Seq<u8>, Seq<u8>>,
)
    requires
        shows(t, tree, id, a),
        shows(t, tree, id, b),
    ensures
        a == b,
{
    assert forall|k: Seq<u8>|
        #![trigger a.dom().contains(k)]
        #![trigger b.dom().contains(k)]
        #![trigger a[k]]
        held_in(a, k) == held_in(b, k) by {
        assert(look_txn(t, tree, id, k) == held_in(a, k));
        assert(look_txn(t, tree, id, k) == held_in(b, k));
    }
    assert(a =~= b);
}

/// Nothing but what one live write transaction has staged differs.
pub open spec fn staged_only(was: Database, now: Database, txn: u64) -> bool {
    &&& now.pager@ == was.pager@
    &&& now.pager.dirty() == was.pager.dirty()
    &&& now.next_auto_checkpoint == was.next_auto_checkpoint
    &&& now.options == was.options
    &&& now.tree == was.tree
    &&& now.versions@.versions == was.versions@.versions
    &&& now.versions@.next_ts == was.versions@.next_ts
    &&& now.versions@.next_txn == was.versions@.next_txn
    &&& now.versions@.txns.contains_key(txn)
    &&& now.versions@.txns.remove(txn) =~= was.versions@.txns.remove(txn)
    &&& now.versions@.txns[txn].snapshot == was.versions@.txns[txn].snapshot
    &&& !now.versions@.txns[txn].read_only
}

impl Database {
    fn take_step(&mut self, txn: u64, op: &BatchOp, Ghost(m): Ghost<Map<Seq<u8>, Seq<u8>>>) -> (r:
        Result<()>)
        requires
            old(self).inv(),
            old(self).versions@.txns.contains_key(txn),
            !old(self).versions@.txns[txn].read_only,
        ensures
            final(self).inv(),
            final(self).pager@ == old(self).pager@,
            final(self).pager.dirty() == old(self).pager.dirty(),
            final(self).next_auto_checkpoint == old(self).next_auto_checkpoint,
            final(self).options == old(self).options,
            final(self).tree == old(self).tree,
            final(self).versions@.versions == old(self).versions@.versions,
            final(self).versions@.next_ts == old(self).versions@.next_ts,
            final(self).versions@.next_txn == old(self).versions@.next_txn,
            final(self).versions@.txns.contains_key(txn),
            final(self).versions@.txns.remove(txn) =~= old(self).versions@.txns.remove(txn),
            final(self).versions@.txns[txn].snapshot == old(self).versions@.txns[txn].snapshot,
            !final(self).versions@.txns[txn].read_only,
            old(self).wf() && shows(old(self).versions@, old(self).stored(), txn, m) ==> match r {
                Ok(_) => step(m, *op) is Some && shows(
                    final(self).versions@,
                    final(self).stored(),
                    txn,
                    step(m, *op)->0,
                ),
                Err(e) => step(m, *op) is None && refusal(*op, e),
            },
    {
        let ghost t = self.versions@;
        let ghost tree = self.stored();
        let ghost ok = self.wf() && shows(t, tree, txn, m);
        match op {
            BatchOp::Put(k, v) => {
                let r = self.insert(txn, k.as_slice(), v.as_slice());
                proof {
                    if ok && r is Ok {
                        let now = m.insert(k@, v@);
                        assert forall|x: Seq<u8>| #[trigger]
                            look_txn(self.versions@, self.stored(), txn, x) == held_in(now, x) by {
                            assert(look_txn(t, tree, txn, x) == held_in(m, x));
                        }
                    }
                }
                r
            },
            BatchOp::Delete(k) => {
                assert(ok ==> look_txn(t, tree, txn, k@) == held_in(m, k@));
                let r = self.delete(txn, k.as_slice());
                proof {
                    if ok && r is Ok {
                        lemma_gone(t, self.versions@, tree, txn, m, k@);
                    }
                }
                r
            },
            BatchOp::DeleteIfExists(k) => {
                assert(ok ==> look_txn(t, tree, txn, k@) == held_in(m, k@));
                match self.delete(txn, k.as_slice()) {
                    Ok(_) => {
                        proof {
                            if ok {
                                lemma_gone(t, self.versions@, tree, txn, m, k@);
                            }
                        }
                        Ok(())
                    },
                    Err(Error::NotFound) => {
                        assert(ok ==> m.remove(k@) =~= m);
                        Ok(())
                    },
                    Err(e) => Err(e),
                }
            },
        }
    }

    /// Takes the steps of a batch in turn, up to the first that is refused.
    fn stage_steps(
        &mut self,
        txn: u64,
        ops: &Vec<BatchOp>,
        Ghost(base): Ghost<Map<Seq<u8>, Seq<u8>>>,
    ) -> (r: Result<()>)
        requires
            old(self).inv(),
            old(self).versions@.txns.contains_key(txn),
            !old(self).versions@.txns[txn].read_only,
        ensures
            final(self).inv(),
            staged_only(*old(self), *final(self), txn),
            old(self).wf() && shows(old(self).versions@, old(self).stored(), txn, base) ==> match r {
                Ok(_) => outcome(base, ops@) is Some && shows(
                    final(self).versions@,
                    final(self).stored(),
                    txn,
                    outcome(base, ops@)->0,
                ),
                Err(e) => outcome(base, ops@) is None && refused(base, ops@, e),
            },
    {
        let ghost ok = self.wf() && shows(self.versions@, self.stored(), txn, base);
        let ghost mut m = base;
        let mut i: usize = 0;
        assert(ops@.take(0) =~= Seq::empty());
        while i < ops.len()
            invariant
                i <= ops@.len(),
                self.inv(),
                staged_only(*old(self), *self, txn),
                ok == (old(self).wf() && shows(
                    old(self).versions@,
                    old(self).stored(),
                    txn,
                    base,
                )),
                ok ==> shows(self.versions@, self.stored(), txn, m) && outcome(
                    base,
                    ops@.take(i as int),
                ) == Some(m),
            decreases ops@.len() - i,
        {
            proof {
                assert(ops@.take(i + 1).drop_last() =~= ops@.take(i as int));
                assert(ops@.take(i + 1).last() == ops@[i as int]);
            }
            match self.take_step(txn, &ops[i], Ghost(m)) {
                Ok(_) => {
                    proof {
                        m = step(m, ops@[i as int])->0;
                    }
                },
                Err(e) => {
                    proof {
                        if ok {
                            lemma_refused(base, ops@, i as int);
                            assert(outcome(base, ops@.take(i as int)) is Some);
                        }
                    }
                    return Err(e);
                },
            }
            i += 1;
        }
        assert(ops@.take(i as int) =~= ops@);
        Ok(())
    }

    /// Stages a batch in a transaction, up to the first step that is refused;
    /// the caller rolls the transaction back then.
    pub fn stage_batch(&mut self, txn: u64, ops: &Vec<BatchOp>) -> (r: Result<()>)
        requires
            old(self).inv(),
        ensures
            final(self).inv(),
            !old(self).versions@.txns.contains_key(txn) ==> *final(self) == *old(self) && r == Err::<
                (),
                Error,
            >(Error::TxnNotFound(txn)),
            old(self).versions@.txns.contains_key(txn) && old(self).versions@.txns[txn].read_only
                ==> *final(self) == *old(self) && r is Err && r->Err_0 is InvalidArgument,
            old(self).versions@.txns.contains_key(txn) && !old(self).versions@.txns[txn].read_only
                ==> staged_only(*old(self), *final(self), txn),
            old(self).versions@.txns.contains_key(txn) && !old(self).versions@.txns[txn].read_only
                && old(self).wf() ==> forall|m: Map<Seq<u8>, Seq<u8>>| #[trigger]
                shows(old(self).versions@, old(self).stored(), txn, m) ==> match r {
                    Ok(_) => outcome(m, ops@) is Some && shows(
                        final(self).versions@,
                        final(self).stored(),
                        txn,
                        outcome(m, ops@)->0,
                    ),
                    Err(e) => outcome(m, ops@) is None && refused(m, ops@, e),
                },
    {
        self.versions.check_writable(txn)?;
        let ghost m = choose|m: Map<Seq<u8>, Seq<u8>>|
            shows(self.versions@, self.stored(), txn, m);
        proof {
            assert forall|a: Map<Seq<u8>, Seq<u8>>| #[trigger]
                shows(self.versions@, self.stored(), txn, a) implies a == m by {
                lemma_one_sight(self.versions@, self.stored(), txn, a, m);
            }
        }
        self.stage_steps(txn, ops, Ghost(m))
    }

    /// Runs a batch in a fresh write transaction and commits it; where a step
    /// or the commit fails, nothing is left of it. All writes land atomically.
    pub fn write_batch(&mut self, ops: &Vec<BatchOp>) -> (r: Result<Option<Commit>>)
        requires
            old(self).inv(),
        ensures
            final(self).inv(),
            final(self).pager@ == old(self).pager@,
            final(self).pager.dirty() == old(self).pager.dirty(),
            final(self).next_auto_checkpoint == old(self).next_auto_checkpoint,
            final(self).options == old(self).options,
            final(self).tree == old(self).tree,
            final(self).versions@.txns =~= old(self).versions@.txns,
            match r {
                Ok(Some(c)) => c@.0 == old(self).versions@.next_ts && final(self).versions@.versions
                    == stamped(old(self).versions@.versions, c@.0, c@.1)
                    && final(self).versions@.next_ts == old(self).versions@.next_ts + 1,
                _ => final(self).versions@.versions == old(self).versions@.versions
                    && final(self).versions@.next_ts == old(self).versions@.next_ts,
            },
            old(self).wf() ==> match r {
                Ok(_) => outcome(old(self).live(), ops@) == Some(final(self).live()),
                Err(e) => final(self).live() == old(self).live() && (refused(
                    old(self).live(),
                    ops@,
                    e,
                ) && outcome(old(self).live(), ops@) is None || e is Full && (
                old(self).versions@.next_txn == u64::MAX || old(self).versions@.next_ts
                    == u64::MAX)),
            },
    {
        let ghost s = self.versions@;
        let ghost base = self.live();
        let ghost tree = self.stored();
        let ghost ok = self.wf();
        proof {
            lemma_past(self.versions);
        }
        let txn: u64 = self.begin(false)?;
        proof {
            assert(self.versions@.txns.remove(txn) =~= s.txns);
            assert forall|k: Seq<u8>| #[trigger]
                look_txn(self.versions@, tree, txn, k) == held_in(base, k) by {
                assert(seen(s.versions, k, (s.next_ts - 1) as u64) == crate::txn::sees(
                    self.versions@,
                    txn,
                    k,
                ));
            }
        }
        let staged = self.stage_steps(txn, ops, Ghost(base));
        if let Err(e) = staged {
            self.rollback(txn)?;
            proof {
                assert(latest(self.versions@, tree) =~= base);
            }
            return Err(e);
        }
        let ghost m = outcome(base, ops@)->0;
        let ghost t = self.versions@;
        proof {
            if conflicts(t, txn) {
                let v = choose|v: Version| #[trigger]
                    t.versions.contains_key(v) && t.txns[txn].writes.contains_key(v.0) && v.1
                        > t.txns[txn].snapshot;
                assert(s.versions.contains_key(v));
            }
        }
        match self.commit(txn) {
            Ok(c) => {
                proof {
                    lemma_back(s, t, txn);
                    if ok {
                        lemma_committed(s, t, self.versions@, tree, txn, m, c is Some);
                    }
                }
                Ok(c)
            },
            Err(e) => {
                self.rollback(txn)?;
                proof {
                    assert(latest(self.versions@, tree) =~= base);
                }
                Err(e)
            },
        }
    }

    /// Inserts or overwrites one key.
    pub fn put_auto(&mut self, key: &[u8], value: &[u8]) -> (r: Result<Option<Commit>>)
        requires
            old(self).inv(),
        ensures
            final(self).inv(),
            final(self).pager@ == old(self).pager@,
            final(self).pager.dirty() == old(self).pager.dirty(),
            final(self).next_auto_checkpoint == old(self).next_auto_checkpoint,
            final(self).options == old(self).options,
            final(self).tree == old(self).tree,
            final(self).versions@.txns =~= old(self).versions@.txns,
            match r {
                Ok(Some(c)) => c@.0 == old(self).versions@.next_ts && final(self).versions@.versions
                    == stamped(old(self).versions@.versions, c@.0, c@.1)
                    && final(self).versions@.next_ts == old(self).versions@.next_ts + 1,
                _ => final(self).versions@.versions == old(self).versions@.versions
                    && final(self).versions@.next_ts == old(self).versions@.next_ts,
            },
            old(self).wf() ==> match r {
                Ok(_) => writable(key@, value@) && final(self).live() == old(self).live().insert(
                    key@,
                    value@,
                ),
                Err(e) => final(self).live() == old(self).live() && (e is InvalidArgument
                    && !writable(key@, value@) || e is Full && (old(self).versions@.next_txn
                    == u64::MAX || old(self).versions@.next_ts == u64::MAX)),
            },
    {
        let mut ops: Vec<BatchOp> = Vec::new();
        ops.push(BatchOp::Put(copy_bytes(key), copy_bytes(value)));
        proof {
            lemma_single(self.live(), ops@);
        }
        self.write_batch(&ops)
    }

    /// Deletes one key, which has to be there.
    pub fn delete_auto(&mut self, key: &[u8]) -> (r: Result<Option<Commit>>)
        requires
            old(self).inv(),
        ensures
            final(self).inv(),
            final(self).pager@ == old(self).pager@,
            final(self).pager.dirty() == old(self).pager.dirty(),
            final(self).next_auto_checkpoint == old(self).next_auto_checkpoint,
            final(self).options == old(self).options,
            final(self).tree == old(self).tree,
            final(self).versions@.txns =~= old(self).versions@.txns,
            match r {
                Ok(Some(c)) => c@.0 == old(self).versions@.next_ts && final(self).versions@.versions
                    == stamped(old(self).versions@.versions, c@.0, c@.1)
                    && final(self).versions@.next_ts == old(self).versions@.next_ts + 1,
                _ => final(self).versions@.versions == old(self).versions@.versions
                    && final(self).versions@.next_ts == old(self).versions@.next_ts,
            },
            old(self).wf() ==> match r {
                Ok(_) => nameable(key@) && old(self).live().contains_key(key@) && final(self).live()
                    == old(self).live().remove(key@),
                Err(e) => final(self).live() == old(self).live() && (e is InvalidArgument
                    && !nameable(key@) || e is NotFound && !old(self).live().contains_key(key@)
                    || e is Full && (old(self).versions@.next_txn == u64::MAX || old(
                    self,
                ).versions@.next_ts == u64::MAX)),
            },
    {
        let mut ops: Vec<BatchOp> = Vec::new();
        ops.push(BatchOp::Delete(copy_bytes(key)));
        proof {
            lemma_single(self.live(), ops@);
        }
        self.write_batch(&ops)
    }
}

/// A batch of one step.
proof fn lemma_single(m: Map<Seq<u8>, Seq<u8>>, ops: Seq<BatchOp>)
    requires
        ops.len() == 1,
    ensures
        outcome(m, ops) == step(m, ops[0]),
        forall|e: Error| #[trigger] refused(m, ops, e) ==> refusal(ops[0], e),
{
    assert(ops.drop_last() =~= Seq::empty());
    assert(outcome(m, ops.drop_last()) == Some(m));
}

/// A staged delete hides its key and no other.
proof fn lemma_gone(
    t: Timeline,
    now: Timeline,
    tree: Map<Seq<u8>, Seq<u8>>,
    id: u64,
    m: Map<Seq<u8>, Seq<u8>>,
    k: Seq<u8>,
)
    requires
        shows(t, tree, id, m),
        now.versions == t.versions,
        now.txns[id].snapshot == t.txns[id].snapshot,
        now.txns[id].writes == t.txns[id].writes.insert(k, None),
    ensures
        shows(now, tree, id, m.remove(k)),
{
    assert forall|x: Seq<u8>| #[trigger] look_txn(now, tree, id, x) == held_in(m.remove(k), x) by {
        assert(look_txn(t, tree, id, x) == held_in(m, x));
    }
}

/// A transaction that is over is not live.
proof fn lemma_back(s: Timeline, t: Timeline, id: u64)
    requires
        with_txn(s, t, id),
    ensures
        committed(t, id).txns =~= s.txns,
        ended(t, id).txns =~= s.txns,
{
}

/// What a committed transaction saw is what everyone sees.
proof fn lemma_committed(
    s: Timeline,
    t: Timeline,
    now: Timeline,
    tree: Map<Seq<u8>, Seq<u8>>,
    id: u64,
    m: Map<Seq<u8>, Seq<u8>>,
    published: bool,
)
    requires
        past(s),
        with_txn(s, t, id),
        shows(t, tree, id, m),
        if published {
            now == committed(t, id) && t.next_ts < u64::MAX
        } else {
            now == ended(t, id) && nothing_to_commit(t, id)
        },
    ensures
        latest(now, tree) == m,
        now.txns =~= s.txns,
{
    let a = latest(now, tree);
    assert(past(t));
    assert forall|k: Seq<u8>|
        #![trigger a.dom().contains(k)]
        #![trigger a[k]]
        #![trigger m.dom().contains(k)]
        held_in(a, k) == held_in(m, k) by {
        assert(look_txn(t, tree, id, k) == held_in(m, k));
        if published {
            law_commits_are_published(t, tree, id, k);
        }
    }
    assert(a =~= m);
}

} // verus!
