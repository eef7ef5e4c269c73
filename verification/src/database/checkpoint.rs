//! Moving committed versions into the tree.

use crate::btree::grow::storable;
use crate::btree::laws::law_flush_keeps_the_tree;
use crate::btree::leaf::spill;
use crate::btree::moves::room;
use crate::btree::repack::{taken, unpackable};
use crate::btree::{contents, good, tree_at, tree_ok, Tree};
use crate::database::{held_in, look, Database};
use crate::error::{Error, Result};
use crate::lsm::memtable::{collapse, shown, views};
use crate::lsm::version::{is_newest, lemma_seen, seen, slot_of, ValueSlot, Version};
use crate::overlay::{got, keys_up, knows, lemma_got, Layer};
use crate::page::{meta_of, page_id_of, MetaData, SENTINEL};
use crate::pager::{
    flushed, free_of, free_ok, grown, grows, lemma_free_unique, lemma_grown_invisible,
    lemma_grows_same, lemma_grows_then, visible, writes_out, Flush, Pager, PagerState,
};
use crate::txn::{
    after, in_time, is_watermark, records, replay, Commit, Says, Sight, Timeline, VersionStore,
};
use vstd::prelude::*;

verus! {

broadcast use {lemma_grows_same, lemma_grows_then};

// ---- what stays the same ------------------------------------------------------------------

/// The newest commit that every live snapshot sees.
pub open spec fn watermark(t: Timeline) -> u64 {
    choose|w: u64| is_watermark(t, w)
}

/// There is one watermark.
pub proof fn lemma_watermark(t: Timeline, w: u64)
    requires
        is_watermark(t, w),
    ensures
        watermark(t) == w,
{
    let u = watermark(t);
    assert(is_watermark(t, u));
    if u != t.next_ts - 1 {
        let id = choose|id: u64| #[trigger] t.txns.contains_key(id) && t.txns[id].snapshot == u;
        assert(w <= u);
    }
    if w != t.next_ts - 1 {
        let id = choose|id: u64| #[trigger] t.txns.contains_key(id) && t.txns[id].snapshot == w;
        assert(u <= w);
    }
}

/// Where there is a version that a snapshot sees, there is a newest one.
pub proof fn lemma_newest(m: Map<Version, Says>, key: Seq<u8>, snapshot: u64, t: u64) -> (s: u64)
    requires
        m.contains_key((key, t)),
        t <= snapshot,
    ensures
        is_newest(m, key, snapshot, s),
        t <= s,
        seen(m, key, snapshot) == Some(m[(key, s)]),
    decreases snapshot - t,
{
    if exists|u: u64| #[trigger] m.contains_key((key, u)) && t < u <= snapshot {
        let u = choose|u: u64| #[trigger] m.contains_key((key, u)) && t < u <= snapshot;
        lemma_newest(m, key, snapshot, u)
    } else {
        assert(is_newest(m, key, snapshot, t));
        lemma_seen(m, key, snapshot, t);
        t
    }
}

/// The tree with every version up to `w` in it.
pub open spec fn settled(
    versions: Map<Version, Says>,
    tree: Map<Seq<u8>, Seq<u8>>,
    w: u64,
) -> Map<Seq<u8>, Seq<u8>> {
    Map::new(
        |k: Seq<u8>| look(versions, tree, k, w) is Some,
        |k: Seq<u8>| look(versions, tree, k, w)->0,
    )
}

/// Snapshots at or after the watermark see the same once the versions up to
/// it have moved into the tree.
pub proof fn lemma_settled(
    versions: Map<Version, Says>,
    tree: Map<Seq<u8>, Seq<u8>>,
    w: u64,
    k: Seq<u8>,
    s: u64,
)
    requires
        w <= s,
    ensures
        look(after(versions, w), settled(versions, tree, w), k, s) == look(versions, tree, k, s),
{
    let m = after(versions, w);
    if exists|t: u64| #[trigger] versions.contains_key((k, t)) && w < t <= s {
        let t = choose|t: u64| #[trigger] versions.contains_key((k, t)) && w < t <= s;
        let n = lemma_newest(versions, k, s, t);
        assert(is_newest(m, k, s, n)) by {
            assert(m.contains_key((k, n)));
            assert forall|u: u64| #[trigger] m.contains_key((k, u)) && u <= s implies u <= n by {
                assert(versions.contains_key((k, u)));
            }
        }
        lemma_seen(m, k, s, n);
    } else {
        assert(seen(m, k, s) is None) by {
            if exists|n: u64| is_newest(m, k, s, n) {
                let n = choose|n: u64| is_newest(m, k, s, n);
                assert(versions.contains_key((k, n)));
            }
        }
        assert(seen(versions, k, s) == seen(versions, k, w)) by {
            if exists|n: u64| is_newest(versions, k, s, n) {
                let n = choose|n: u64| is_newest(versions, k, s, n);
                assert(versions.contains_key((k, n)));
                assert(is_newest(versions, k, w, n));
                lemma_seen(versions, k, w, n);
                lemma_seen(versions, k, s, n);
            } else if exists|n: u64| is_newest(versions, k, w, n) {
                let n = choose|n: u64| is_newest(versions, k, w, n);
                let x = lemma_newest(versions, k, s, n);
            }
        }
    }
}

/// A tree that differs only in keys with versions up to `w` shows the same.
pub proof fn lemma_shadowed(
    versions: Map<Version, Says>,
    tree: Map<Seq<u8>, Seq<u8>>,
    other: Map<Seq<u8>, Seq<u8>>,
    w: u64,
    k: Seq<u8>,
    s: u64,
)
    requires
        w <= s,
        seen(versions, k, w) is None ==> held_in(other, k) == held_in(tree, k),
    ensures
        look(versions, other, k, s) == look(versions, tree, k, s),
{
    if seen(versions, k, w) is Some {
        let n = choose|n: u64| is_newest(versions, k, w, n);
        let x = lemma_newest(versions, k, s, n);
    }
}

// ---- merging ------------------------------------------------------------------------------

/// A map with the entries of a layer put into it.
pub open spec fn applied(m: Map<Seq<u8>, Seq<u8>>, l: Layer) -> Map<Seq<u8>, Seq<u8>>
    decreases l.len(),
{
    if l.len() == 0 {
        m
    } else {
        let p = applied(m, l.drop_last());
        match l.last().1 {
            Some(v) => p.insert(l.last().0, v),
            None => p.remove(l.last().0),
        }
    }
}

/// What a map holds with a layer put into it.
pub proof fn lemma_applied(m: Map<Seq<u8>, Seq<u8>>, l: Layer, k: Seq<u8>)
    requires
        keys_up(l),
    ensures
        held_in(applied(m, l), k) == match got(l, k) {
            Some(s) => s,
            None => held_in(m, k),
        },
    decreases l.len(),
{
    if l.len() > 0 {
        let short = l.drop_last();
        let last = l.last();
        assert forall|i: int, j: int| 0 <= i < j < short.len() implies crate::bytes::lex_lt(
            (#[trigger] short[i]).0,
            (#[trigger] short[j]).0,
        ) by {
            assert(crate::bytes::lex_lt(l[i].0, l[j].0));
        }
        lemma_applied(m, short, k);
        lemma_got(l, l.len() - 1);
        if k != last.0 {
            if knows(short, k) {
                let i = choose|i: int| 0 <= i < short.len() && (#[trigger] short[i]).0 == k;
                lemma_got(short, i);
                assert(l[i].0 == k);
                lemma_got(l, i);
            } else if knows(l, k) {
                let i = choose|i: int| 0 <= i < l.len() && (#[trigger] l[i]).0 == k;
                assert(i < short.len());
                assert(short[i].0 == k);
            }
        }
    }
}

/// A tree is no higher than a greater number.
proof fn lemma_lower(s: PagerState, h: nat, g: nat)
    requires
        tree_ok(s, h),
        h <= g,
    ensures
        tree_ok(s, g),
{
    let (t, x) = choose|t: Tree, x: nat| x <= h && #[trigger] tree_at(s, t, x);
    assert(tree_at(s, t, x));
}

/// Why a merge of a layer into the pairs `m` stops at entry `j`: it cannot be
/// stored, the page ids run out while it is stored, or the pairs up to there
/// cannot be put into a lower tree.
pub open spec fn stops(
    before: Pager,
    after: Pager,
    m: Map<Seq<u8>, Seq<u8>>,
    l: Layer,
    j: int,
    e: Error,
) -> bool {
    match l[j].1 {
        Some(v) => {
            let left = SENTINEL - taken(before, after);
            ||| e is InvalidArgument && !storable(l[j].0, v)
            ||| e is Full && left < v.len() / 4056 + 67
            ||| unpackable(applied(m, l.take(j)), left, e)
        },
        None => false,
    }
}

impl Database {
    /// Puts a collapsed list of versions into the tree.
    ///
    /// Reads follow a tree down 64 levels. One that has come to this height is
    /// filled anew before it takes more.
    #[verifier::rlimit(40)]
    #[verifier::spinoff_prover]
    fn merge_into_tree(&mut self, plan: &Vec<(Vec<u8>, ValueSlot)>) -> (r: Result<()>)
        requires
            old(self).inv(),
        ensures
            final(self).inv(),
            final(self).versions == old(self).versions,
            final(self).next_auto_checkpoint == old(self).next_auto_checkpoint,
            final(self).options == old(self).options,
            final(self).tree == old(self).tree,
            grows(old(self).pager, final(self).pager),
            tree_ok(old(self).pager@, 64) ==> match r {
                Ok(_) => {
                    &&& tree_ok(final(self).pager@, 64)
                    &&& final(self).stored() == applied(old(self).stored(), shown(plan@))
                    &&& final(self).pager@.pages.contains_key(SENTINEL)
                        ==> old(self).pager@.pages.contains_key(SENTINEL)
                },
                Err(e) => exists|j: int|
                    0 <= j < plan@.len() && #[trigger] stops(
                        old(self).pager,
                        final(self).pager,
                        old(self).stored(),
                        shown(plan@),
                        j,
                        e,
                    ),
            },
            plan@.len() == 0 ==> r is Ok,
    {
        let ghost l = shown(plan@);
        let ghost base = self.stored();
        let ghost began = self.pager;
        let ghost ok = tree_ok(self.pager@, 64);
        let mut bound: usize = 64;
        let mut i: usize = 0;
        assert(l.take(0) =~= Seq::empty());
        while i < plan.len()
            invariant
                l == shown(plan@),
                i <= plan@.len(),
                self.inv(),
                self.versions == old(self).versions,
                self.next_auto_checkpoint == old(self).next_auto_checkpoint,
                self.options == old(self).options,
                self.tree == old(self).tree,
                base == old(self).stored(),
                began == old(self).pager,
                ok == tree_ok(old(self).pager@, 64),
                grows(began, self.pager),
                bound <= 64,
                ok ==> tree_ok(self.pager@, bound as nat) && self.stored() == applied(
                    base,
                    l.take(i as int),
                ),
                ok && self.pager@.pages.contains_key(SENTINEL) ==> began@.pages.contains_key(
                    SENTINEL,
                ),
            decreases plan@.len() - i,
        {
            let ghost now = applied(base, l.take(i as int));
            proof {
                assert(l.take(i + 1).drop_last() =~= l.take(i as int));
                assert(l[i as int] == l.take(i + 1).last());
                assert(l[i as int] == (plan@[i as int].0@, slot_of(plan@[i as int].1)));
                assert(ok ==> now == self.stored());
                if ok {
                    lemma_lower(self.pager@, bound as nat, 64);
                }
            }
            match &plan[i].1 {
                Some(v) => {
                    if bound >= 64 {
                        bound = self.tree.depth(&mut self.pager)?;
                    }
                    if bound >= 64 {
                        let ghost high = self.pager;
                        let lower = self.tree.repack(&mut self.pager);
                        if let Err(e) = lower {
                            proof {
                                if ok {
                                    lemma_taken(began, high, self.pager);
                                    lemma_unpackable(
                                        now,
                                        SENTINEL - taken(high, self.pager),
                                        SENTINEL - taken(began, self.pager),
                                        e,
                                    );
                                    assert(stops(began, self.pager, base, l, i as int, e));
                                }
                            }
                            return Err(e);
                        }
                        bound = 16;
                    }
                    let ghost s = self.pager@;
                    let ghost mid = self.pager;
                    proof {
                        assert(spill(plan@[i as int].0@, v@) <= v@.len() / 4056 + 1);
                        assert(room(s) >= SENTINEL - s.meta.page_count);
                    }
                    let done = self.tree.insert(&mut self.pager, plan[i].0.as_slice(), v.as_slice());
                    if let Err(e) = done {
                        proof {
                            if ok {
                                assert(tree_ok(s, bound as nat));
                                lemma_grows_then(began, mid, self.pager);
                                reveal(grows);
                                assert(stops(began, self.pager, base, l, i as int, e));
                            }
                        }
                        return Err(e);
                    }
                    proof {
                        if ok {
                            assert(tree_ok(s, bound as nat));
                            lemma_lower(s, bound as nat, 64);
                            assert(storable(plan@[i as int].0@, v@));
                        }
                    }
                    bound += 1;
                },
                None => {
                    let ghost s = self.pager@;
                    let done = self.tree.delete(&mut self.pager, plan[i].0.as_slice());
                    proof {
                        assert(ok ==> tree_ok(s, bound as nat));
                        if ok && done is Err {
                            assert(contents(s).remove(plan@[i as int].0@) =~= contents(s));
                        }
                    }
                    match done {
                        Ok(_) => {},
                        Err(Error::NotFound) => {},
                        Err(e) => {
                            return Err(e);
                        },
                    }
                },
            }
            i += 1;
        }
        assert(l.take(i as int) =~= l);
        Ok(())
    }
}

/// Ids that are taken later are taken in the end.
proof fn lemma_taken(a: Pager, b: Pager, c: Pager)
    requires
        grows(a, b),
        grows(b, c),
    ensures
        taken(b, c) <= taken(a, c),
{
    reveal(grows);
}

/// With fewer ids left, no more can be done.
proof fn lemma_unpackable(m: Map<Seq<u8>, Seq<u8>>, many: int, few: int, e: Error)
    requires
        unpackable(m, many, e),
        few <= many,
    ensures
        unpackable(m, few, e),
{
}

/// Metadata that the tree does not depend on may change.
proof fn lemma_meta_frame(s: PagerState, s2: PagerState, t: Tree, h: nat)
    requires
        tree_at(s, t, h),
        s2.pages == s.pages,
        s2.meta.root == s.meta.root,
        s2.meta.page_count == s.meta.page_count,
        s2.meta.free_list == s.meta.free_list,
    ensures
        tree_at(s2, t, h),
        contents(s2) == contents(s),
{
    reveal(good);
    let f = free_of(s);
    assert(free_ok(s, f));
    assert(free_ok(s2, f));
    lemma_free_unique(s2, f);
    assert(contents(s2) =~= contents(s));
}

/// What a checkpoint leaves to be written.
pub struct Checkpoint {
    /// The pages to write, if any changed.
    pub flush: Option<Flush>,
    /// Every version up to this time is in the tree.
    pub tree_ts: u64,
    /// The commits that the log has to keep.
    pub retained: Vec<Commit>,
}

/// What has to be written turns the file `was` into `now`, page by page.
pub open spec fn turns(
    was: Seq<Seq<u8>>,
    now: Seq<Seq<u8>>,
    meta: MetaData,
    flush: Option<Flush>,
) -> bool {
    match flush {
        Some(f) => {
            &&& writes_out(was, now, f)
            &&& f.pages@.len() > 0
            &&& page_id_of(f.pages@[0]@) == 0
            &&& meta_of(now[0]) == Some(meta)
            &&& forall|i: int, j: int|
                0 <= i < j < f.pages@.len() ==> page_id_of(#[trigger] f.pages@[i]@) < page_id_of(
                    #[trigger] f.pages@[j]@,
                )
        },
        None => now == was,
    }
}

/// The pages that the file gained before a flush are zeros, as they would be
/// behind its old end.
proof fn lemma_turns(was: Seq<Seq<u8>>, mid: Seq<Seq<u8>>, now: Seq<Seq<u8>>, f: Flush)
    requires
        was.len() <= mid.len(),
        mid == grown(was, mid.len() as int),
        writes_out(mid, now, f),
    ensures
        writes_out(was, now, f),
{
}

impl Database {
    fn note_meta(&mut self, tree_ts: u64, next_txn_id: u64, last_lsn: u64)
        requires
            old(self).inv(),
        ensures
            final(self).inv(),
            tree_ok(old(self).pager@, 64) ==> tree_ok(final(self).pager@, 64)
                && final(self).stored() == old(self).stored(),
            final(self).versions == old(self).versions,
            final(self).next_auto_checkpoint == old(self).next_auto_checkpoint,
            final(self).options == old(self).options,
            final(self).tree == old(self).tree,
            final(self).pager@ == (PagerState {
                meta: MetaData { tree_ts, next_txn_id, last_lsn, ..old(self).pager@.meta },
                ..old(self).pager@
            }),
            grows(old(self).pager, final(self).pager),
    {
        let ghost s = self.pager@;
        let mut meta: MetaData = self.pager.meta();
        meta.tree_ts = tree_ts;
        meta.next_txn_id = next_txn_id;
        meta.last_lsn = last_lsn;
        self.pager.set_meta(meta);
        proof {
            if tree_ok(s, 64) {
                let (t, h) = choose|t: Tree, g: nat| g <= 64 && #[trigger] tree_at(s, t, g);
                lemma_meta_frame(s, self.pager@, t, h);
                assert(tree_at(self.pager@, t, h));
            }
        }
    }

    fn write_out(&mut self) -> (r: Result<Option<Flush>>)
        requires
            old(self).inv(),
        ensures
            final(self).inv(),
            tree_ok(old(self).pager@, 64) ==> tree_ok(final(self).pager@, 64)
                && final(self).stored() == old(self).stored(),
            final(self).versions == old(self).versions,
            final(self).next_auto_checkpoint == old(self).next_auto_checkpoint,
            final(self).options == old(self).options,
            final(self).tree == old(self).tree,
            final(self).pager@.meta == old(self).pager@.meta,
            match r {
                Ok(flush) => turns(
                    old(self).pager.file(),
                    final(self).pager.file(),
                    final(self).pager@.meta,
                    flush,
                ) && final(self).pager.dirty() == Map::<u32, Seq<u8>>::empty() && (flush is None
                    ==> !old(self).pager.meta_changed()),
                Err(e) => e is InvalidArgument && old(self).pager@.pages.contains_key(SENTINEL),
            },
    {
        let ghost s = self.pager@;
        let ghost file = self.pager.file();
        let ghost dirty = self.pager.dirty();
        let ghost idle = dirty.dom().len() == 0 && !self.pager.meta_changed();
        proof {
            self.pager.lemma_placed();
        }
        let plan: Option<Flush> = self.pager.flush_out()?;
        proof {
            assert(!idle ==> flushed(file, dirty, s.meta, self.pager.file()));
            if tree_ok(s, 64) {
                let (t, h) = choose|t: Tree, g: nat| g <= 64 && #[trigger] tree_at(s, t, g);
                if !idle {
                    law_flush_keeps_the_tree(file, dirty, self.pager.file(), s, self.pager@, t, h);
                }
                assert(tree_at(self.pager@, t, h));
            }
        }
        Ok(plan)
    }

    /// Merges committed versions into the tree and says what has to be
    /// written: first the pages, then the log.
    ///
    /// Versions that a live snapshot still pins stay in the log. `lsn` is the
    /// log's sequence number.
    pub fn checkpoint(&mut self, lsn: u64) -> (r: Result<Checkpoint>)
        requires
            old(self).inv(),
        ensures
            final(self).inv(),
            old(self).wf() ==> final(self).wf(),
            final(self).next_auto_checkpoint == old(self).next_auto_checkpoint,
            final(self).options == old(self).options,
            final(self).tree == old(self).tree,
            final(self).versions.active == old(self).versions.active,
            final(self).versions@.next_ts == old(self).versions@.next_ts,
            final(self).versions@.next_txn == old(self).versions@.next_txn,
            forall|k: Seq<u8>, s: u64|
                old(self).wf() && watermark(old(self).versions@) <= s ==> #[trigger] look(
                    final(self).versions@.versions,
                    final(self).stored(),
                    k,
                    s,
                ) == look(old(self).versions@.versions, old(self).stored(), k, s),
            match r {
                Ok(c) => {
                    let w = watermark(old(self).versions@);
                    &&& final(self).versions@.versions == after(old(self).versions@.versions, w)
                    &&& old(self).wf() ==> final(self).stored() == settled(
                        old(self).versions@.versions,
                        old(self).stored(),
                        w,
                    )
                    &&& c.tree_ts == if w < old(self).pager@.meta.tree_ts {
                        old(self).pager@.meta.tree_ts
                    } else {
                        w
                    }
                    &&& final(self).pager@.meta.tree_ts == c.tree_ts
                    &&& final(self).pager@.meta.next_txn_id == old(self).versions@.next_txn
                    &&& final(self).pager@.meta.last_lsn == lsn
                    &&& final(self).pager.dirty() == Map::<u32, Seq<u8>>::empty()
                    &&& turns(
                        old(self).pager.file(),
                        final(self).pager.file(),
                        final(self).pager@.meta,
                        c.flush,
                    )
                    &&& in_time(records(c.retained@))
                    &&& replay(Map::empty(), records(c.retained@)) == final(self).versions@.versions
                },
                Err(e) => {
                    &&& final(self).versions == old(self).versions
                    &&& old(self).wf() ==> {
                        &&& final(self).pager.dirty() == Map::<u32, Seq<u8>>::empty()
                        &&& final(self).pager@ == old(self).pager@
                        &&& exists|l: Layer, j: int|
                            views(
                                old(self).versions@.versions,
                                watermark(old(self).versions@),
                                l,
                            ) && 0 <= j < l.len() && #[trigger] stops(
                                old(self).pager,
                                final(self).pager,
                                old(self).stored(),
                                l,
                                j,
                                e,
                            )
                    }
                },
            },
    {
        let ghost ok = self.wf();
        let ghost base = self.stored();
        let ghost versions = self.versions@.versions;
        let before: MetaData = self.pager.meta();
        let w: u64 = self.versions.merge_watermark();
        proof {
            lemma_watermark(self.versions@, w);
        }
        let plan = collapse(&self.versions.entries, w);
        let ghost l = shown(plan@);
        proof {
            crate::overlay::lemma_views(versions, w, l);
        }
        let ghost began = self.pager;
        let merged = self.merge_into_tree(&plan);
        if let Err(e) = merged {
            // The versions are untouched; what was half applied is dropped, so
            // that memory matches the durable state again.
            let ghost mid = self.pager;
            self.pager.discard_dirty(before);
            proof {
                if ok {
                    lemma_dropped(began, mid);
                    let j = choose|j: int|
                        0 <= j < plan@.len() && #[trigger] stops(began, mid, base, l, j, e);
                    assert(stops(began, self.pager, base, l, j, e));
                }
            }
            return Err(e);
        }
        proof {
            assert forall|k: Seq<u8>, s: u64| ok && w <= s implies #[trigger] look(
                versions,
                self.stored(),
                k,
                s,
            ) == look(versions, base, k, s) by {
                assert(l =~= l.take(l.len() as int));
                lemma_part(base, l, l, k);
                lemma_shadowed(versions, base, self.stored(), w, k, s);
            }
        }
        let next_txn: u64 = self.versions.peek_txn_id();
        proof {
            assert forall|k: Seq<u8>| ok implies held_in(self.stored(), k) == look(
                versions,
                base,
                k,
                w,
            ) by {
                lemma_applied(base, l, k);
                assert(got(l, k) == seen(versions, k, w));
            }
            assert forall|k: Seq<u8>|
                #![trigger self.stored().dom().contains(k)]
                #![trigger self.stored()[k]]
                ok implies held_in(self.stored(), k) == look(versions, base, k, w) by {}
            assert(ok ==> self.stored() =~= settled(versions, base, w));
        }
        let tree_ts: u64 = if w < before.tree_ts {
            before.tree_ts
        } else {
            w
        };
        self.note_meta(tree_ts, next_txn, lsn);
        let ghost full = self.pager;
        proof {
            if ok {
                began.lemma_placed();
                assert(!began@.pages.contains_key(SENTINEL));
                assert(!full@.pages.contains_key(SENTINEL));
            }
        }
        let flush: Option<Flush> = self.write_out()?;
        proof {
            assert(grows(began, full));
            reveal(grows);
            if flush is Some {
                lemma_turns(began.file(), full.file(), self.pager.file(), flush->0);
            }
        }
        self.versions.drop_merged(w);
        proof {
            assert forall|k: Seq<u8>, s: u64| ok && w <= s implies #[trigger] look(
                self.versions@.versions,
                self.stored(),
                k,
                s,
            ) == look(versions, base, k, s) by {
                lemma_settled(versions, base, w, k, s);
            }
        }
        let retained: Vec<Commit> = self.versions.retained_commits();
        Ok(Checkpoint { flush, tree_ts, retained })
    }
}

/// Without what was staged since, the pages are those that the file had.
proof fn lemma_dropped(began: Pager, mid: Pager)
    requires
        began.inv(),
        grows(began, mid),
        began.dirty() == Map::<u32, Seq<u8>>::empty(),
    ensures
        visible(mid.file(), Map::empty()) == began@.pages,
{
    reveal(grows);
    began.lemma_placed();
    lemma_grown_invisible(began.file(), mid.file().len() as int, Map::empty());
}

/// A part of a layer changes only keys of the layer.
proof fn lemma_part(m: Map<Seq<u8>, Seq<u8>>, l: Layer, part: Layer, k: Seq<u8>)
    requires
        keys_up(l),
        part.len() <= l.len(),
        part == l.take(part.len() as int),
    ensures
        got(l, k) is None ==> held_in(applied(m, part), k) == held_in(m, k),
{
    assert forall|i: int, j: int| 0 <= i < j < part.len() implies crate::bytes::lex_lt(
        (#[trigger] part[i]).0,
        (#[trigger] part[j]).0,
    ) by {
        assert(crate::bytes::lex_lt(l[i].0, l[j].0));
    }
    lemma_applied(m, part, k);
    if knows(part, k) {
        let i = choose|i: int| 0 <= i < part.len() && (#[trigger] part[i]).0 == k;
        assert(l[i].0 == k);
        assert(knows(l, k));
    }
}

/// The size of the log at which the next checkpoint is due, after one that left
/// so many bytes.
pub open spec fn next_due(wal_bytes: u64, configured: u64) -> u64 {
    if 2 * wal_bytes > u64::MAX {
        u64::MAX
    } else if 2 * wal_bytes > configured {
        (2 * wal_bytes) as u64
    } else {
        configured
    }
}

impl Database {
    /// Whether a log of this size calls for a checkpoint.
    pub fn checkpoint_due(&self, wal_bytes: u64) -> (r: bool)
        ensures
            r == (wal_bytes >= self.next_auto_checkpoint),
    {
        wal_bytes >= self.next_auto_checkpoint
    }

    /// Notes that a checkpoint is on disk and left a log of this size.
    ///
    /// Versions pinned by a long-lived reader are logged again every time, so
    /// the next one backs off relative to what the log still holds.
    pub fn checkpointed(&mut self, wal_bytes: u64)
        ensures
            *final(self) == (Database {
                next_auto_checkpoint: final(self).next_auto_checkpoint,
                ..*old(self)
            }),
            final(self).next_auto_checkpoint == if 2 * wal_bytes > u64::MAX {
                u64::MAX
            } else if 2 * wal_bytes > old(self).options.checkpoint_bytes {
                (2 * wal_bytes) as u64
            } else {
                old(self).options.checkpoint_bytes
            },
            final(self).next_auto_checkpoint == next_due(
                wal_bytes,
                old(self).options.checkpoint_bytes,
            ),
    {
        let twice: u64 = if wal_bytes > u64::MAX / 2 {
            u64::MAX
        } else {
            wal_bytes * 2
        };
        self.next_auto_checkpoint = if twice > self.options.checkpoint_bytes {
            twice
        } else {
            self.options.checkpoint_bytes
        };
    }

    /// Takes over the contents of another database file, whose pages the pager
    /// already holds; no transaction may be open.
    pub fn adopt(&mut self, pager: Pager) -> (r: Result<()>)
        requires
            old(self).inv(),
            pager.inv(),
        ensures
            final(self).inv(),
            r is Ok && tree_ok(pager@, 64) && pager.dirty() == Map::<u32, Seq<u8>>::empty()
                ==> final(self).wf(),
            match r {
                Ok(_) => old(self).versions@.txns == Map::<u64, Sight>::empty()
                    && pager@.meta.tree_ts < u64::MAX && final(self).pager == pager
                    && final(self).next_auto_checkpoint == old(self).options.checkpoint_bytes
                    && final(self).versions@ == (Timeline {
                    versions: Map::empty(),
                    txns: Map::empty(),
                    next_ts: (pager@.meta.tree_ts + 1) as u64,
                    next_txn: pager@.meta.next_txn_id,
                }),
                Err(e) => *final(self) == *old(self) && if old(self).versions@.txns == Map::<
                    u64,
                    Sight,
                >::empty() {
                    e is Corruption && pager@.meta.tree_ts == u64::MAX
                } else {
                    e is InvalidArgument
                },
            },
    {
        if self.versions.active_count() > 0 {
            return Err(Error::invalid("transactions are open on this handle"));
        }
        let meta: MetaData = pager.meta();
        if meta.tree_ts == u64::MAX {
            return Err(Error::corrupt("the tree's time is out of range"));
        }
        self.pager = pager;
        self.versions = VersionStore::new(meta.tree_ts + 1, meta.next_txn_id);
        self.next_auto_checkpoint = self.options.checkpoint_bytes;
        Ok(())
    }
}

} // verus!
