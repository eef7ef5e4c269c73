//! Reading a database in key order, and counting its keys.

use crate::btree::check::{is_sound, reports, sound, TreeReport};
use crate::btree::scan::{
    cut, listing, lower_ok, pairs, scanned, sorted, upper_ok, Bound, Entry,
};
use crate::btree::{contents, tree_ok, Tree};
use crate::bytes::{
    copy_bytes, lemma_lex_asymmetric, lemma_lex_irreflexive, lemma_lex_transitive, lex_le, lex_lt,
};
use crate::database::checkpoint::{applied, lemma_applied};
use crate::database::{held_in, look_txn, Database, Stats};
use crate::error::{Error, Result};
use crate::lsm::memtable::{collapse, shown, views};
use crate::lsm::merge::clipped;
use crate::lsm::version::{seen, ValueSlot};
use crate::overlay::{
    among, covered, got, held, keys_up, knows, lemma_held, lemma_views, merge_pairs, overlays,
    picks, within, Layer,
};
use crate::page::MetaData;
use crate::pager::{CacheStats, PagerState};
use crate::prefix::{law_successor_ends_the_prefix, prefix_successor, starts};
use crate::txn::{sees, Says};
use vstd::prelude::*;

verus! {

/// The pairs of the tree can be counted.
pub open spec fn listable(s: PagerState) -> bool {
    forall|e: Seq<Entry>| #[trigger] listing(contents(s), e) ==> e.len() < usize::MAX
}

/// What is below the end of a range leaves what is below it inside.
proof fn lemma_upper(hi: Bound, a: Seq<u8>, b: Seq<u8>)
    requires
        upper_ok(hi, b),
        lex_le(a, b),
    ensures
        upper_ok(hi, a),
{
    match hi {
        Bound::Unbounded => {},
        Bound::Included(e) => {
            if a != b && b != e@ {
                lemma_lex_transitive(a, b, e@);
            }
        },
        Bound::Excluded(e) => {
            if a != b {
                lemma_lex_transitive(a, b, e@);
            }
        },
    }
}

/// A scan lists what the map holds, and everything up to where it stopped.
proof fn lemma_scanned(
    m: Map<Seq<u8>, Seq<u8>>,
    lo: Bound,
    hi: Bound,
    n: int,
    out: Seq<Entry>,
)
    requires
        scanned(m, lo, hi, n, out),
    ensures
        sorted(out),
        forall|k: Seq<u8>|
            (#[trigger] held(out, k)) is Some ==> within(lo, hi, k) && held_in(m, k) == held(out, k),
        forall|k: Seq<u8>| #[trigger]
            m.contains_key(k) && within(lo, hi, k) && (out.len() < n || (out.len() > 0 && lex_le(
                k,
                out.last().0,
            ))) ==> held(out, k) == Some(m[k]),
        exists|e: Seq<Entry>| #[trigger] listing(m, e) && out.len() <= e.len(),
{
    let (e, a, b) = choose|e: Seq<Entry>, a: int, b: int| #[trigger]
        cut(e, lo, hi, n, out, a, b) && listing(m, e);
    assert(listing(m, e) && out.len() <= e.len());
    assert forall|i: int, j: int| 0 <= i < j < out.len() implies lex_lt(
        #[trigger] out[i].0,
        #[trigger] out[j].0,
    ) by {
        assert(lex_lt(e[a + i].0, e[a + j].0));
    }
    assert forall|k: Seq<u8>| (#[trigger] held(out, k)) is Some implies within(lo, hi, k)
        && held_in(m, k) == held(out, k) by {
        let x = choose|x: int| 0 <= x < out.len() && (#[trigger] out[x]).0 == k;
        lemma_held(out, x);
        assert(e[a + x] == out[x]);
    }
    assert forall|k: Seq<u8>| #[trigger]
        m.contains_key(k) && within(lo, hi, k) && (out.len() < n || (out.len() > 0 && lex_le(
            k,
            out.last().0,
        ))) implies held(out, k) == Some(m[k]) by {
        let i = choose|i: int| 0 <= i < e.len() && (#[trigger] e[i]).0 == k;
        if i < a {
            assert(!lower_ok(lo, e[i].0));
        }
        if i >= b {
            assert(lex_le(e[b].0, k)) by {
                if b < i {
                    assert(lex_lt(e[b].0, e[i].0));
                }
            }
            lemma_upper(hi, e[b].0, k);
            assert(out.len() == n);
            assert(lex_lt(e[b - 1].0, e[b].0));
            assert(out.last() == e[b - 1]);
            // `k` would have to be both at most the last pair and beyond it.
            lemma_lex_irreflexive(k);
            if e[b].0 != k {
                lemma_lex_transitive(e[b - 1].0, e[b].0, k);
            }
            if k != out.last().0 {
                lemma_lex_asymmetric(k, out.last().0);
            }
        }
        assert(out[i - a] == e[i]);
        lemma_held(out, i - a);
    }
}

/// What is seen inside a range.
pub open spec fn ranged(
    f: spec_fn(Seq<u8>) -> Option<Says>,
    tree: Map<Seq<u8>, Seq<u8>>,
    lo: Bound,
    hi: Bound,
    k: Seq<u8>,
) -> Option<Seq<u8>> {
    if within(lo, hi, k) {
        match f(k) {
            Some(s) => s,
            None => held_in(tree, k),
        }
    } else {
        None
    }
}

/// The limit that a number stands for: none for zero.
pub open spec fn cap(limit: usize) -> int {
    if limit == 0 {
        usize::MAX as int
    } else {
        limit as int
    }
}

/// Pairs of the tree that reach far enough give the pairs of the range.
proof fn lemma_ranged(
    f: spec_fn(Seq<u8>) -> Option<Says>,
    m: Map<Seq<u8>, Seq<u8>>,
    lo: Bound,
    hi: Bound,
    tree: Seq<Entry>,
    over: Layer,
    n: int,
    limit: int,
    out: Seq<Entry>,
)
    requires
        overlays(f, lo, hi, over),
        scanned(m, lo, hi, n, tree),
        picks(|k: Seq<u8>| covered(tree, over, k), limit, out),
        tree.len() < n || (tree.len() > 0 && tree.len() >= limit + over.len()) || limit == 0,
        tree.len() >= limit + over.len() ==> out.len() == limit && forall|x: int|
            0 <= x < out.len() ==> lex_le((#[trigger] out[x]).0, tree.last().0),
    ensures
        picks(|k: Seq<u8>| ranged(f, m, lo, hi, k), limit, out),
{
    lemma_scanned(m, lo, hi, n, tree);
    let g = |k: Seq<u8>| covered(tree, over, k);
    let r = |k: Seq<u8>| ranged(f, m, lo, hi, k);
    assert forall|k: Seq<u8>| (#[trigger] covered(tree, over, k)) is Some implies ranged(
        f,
        m,
        lo,
        hi,
        k,
    ) == covered(tree, over, k) by {
        assert(got(over, k) == if within(lo, hi, k) {
            f(k)
        } else {
            None
        });
        if got(over, k) is None {
            assert(held(tree, k) is Some);
        }
    }
    assert forall|x: int| 0 <= x < out.len() implies r((#[trigger] out[x]).0) == Some(
        out[x].1,
    ) by {
        assert(g(out[x].0) == Some(out[x].1));
        assert(covered(tree, over, out[x].0) is Some);
    }
    assert forall|k: Seq<u8>, x: int|
        0 <= x < out.len() && lex_le(k, (#[trigger] out[x]).0) && (#[trigger] r(k)) is Some implies among(
        out,
        k,
    ) by {
        assert(got(over, k) == f(k));
        if got(over, k) is None {
            assert(m.contains_key(k));
            if tree.len() >= n {
                assert(lex_le(out[x].0, tree.last().0));
                if k != out[x].0 && out[x].0 != tree.last().0 {
                    lemma_lex_transitive(k, out[x].0, tree.last().0);
                }
            }
            assert(held(tree, k) == Some(m[k]));
        }
        assert(g(k) is Some);
    }
    if out.len() < limit {
        assert forall|k: Seq<u8>| (#[trigger] r(k)) is Some implies among(out, k) by {
            assert(got(over, k) == f(k));
            if got(over, k) is None {
                assert(m.contains_key(k));
                assert(held(tree, k) == Some(m[k]));
            }
            assert(g(k) is Some);
        }
    }
}

impl Database {
    /// The tree's pairs of a range with a layer over them.
    fn merge_scan(
        &mut self,
        layer: Vec<(Vec<u8>, ValueSlot)>,
        lo: &Bound,
        hi: &Bound,
        limit: usize,
        Ghost(f): Ghost<spec_fn(Seq<u8>) -> Option<Says>>,
    ) -> (r: Result<Vec<(Vec<u8>, Vec<u8>)>>)
        requires
            old(self).inv(),
            overlays(f, *lo, *hi, shown(layer@)),
        ensures
            final(self).inv(),
            final(self).pager@ == old(self).pager@,
            final(self).pager.dirty() == old(self).pager.dirty(),
            final(self).versions == old(self).versions,
            final(self).next_auto_checkpoint == old(self).next_auto_checkpoint,
            final(self).options == old(self).options,
            final(self).tree == old(self).tree,
            old(self).wf() && listable(old(self).pager@) ==> (r matches Ok(out) && picks(
                |k: Seq<u8>| ranged(f, old(self).stored(), *lo, *hi, k),
                cap(limit),
                pairs(out@),
            )),
    {
        let most: usize = if limit == 0 {
            usize::MAX
        } else {
            limit
        };
        // A tombstone hides at most one pair of the tree.
        let reach: usize = if most > usize::MAX - layer.len() {
            usize::MAX
        } else {
            most + layer.len()
        };
        let ghost m = self.stored();
        let tree = self.tree.range_iter(&mut self.pager, lo, hi, reach)?;
        proof {
            if old(self).wf() {
                lemma_scanned(m, *lo, *hi, reach as int, pairs(tree@));
            }
            if old(self).wf() && listable(self.pager@) {
                let e = choose|e: Seq<Entry>| #[trigger] listing(m, e) && tree@.len() <= e.len();
                assert(listing(contents(self.pager@), e));
                assert(tree@.len() < usize::MAX);
            }
        }
        let out = merge_pairs(&tree, &layer, most);
        proof {
            if old(self).wf() && listable(self.pager@) {
                assert(pairs(tree@).len() == tree@.len());
                assert(tree@.len() <= reach) by {
                    let (e, a, b) = choose|e: Seq<Entry>, a: int, b: int| #[trigger]
                        cut(e, *lo, *hi, reach as int, pairs(tree@), a, b) && listing(m, e);
                }
                lemma_ranged(
                    f,
                    m,
                    *lo,
                    *hi,
                    pairs(tree@),
                    shown(layer@),
                    reach as int,
                    most as int,
                    pairs(out@),
                );
            }
        }
        Ok(out)
    }

    /// Collects up to `limit` of the latest committed pairs with keys in a
    /// range, ascending (0 = no limit).
    pub fn range(&mut self, lo: &Bound, hi: &Bound, limit: usize) -> (r: Result<
        Vec<(Vec<u8>, Vec<u8>)>,
    >)
        requires
            old(self).inv(),
        ensures
            final(self).inv(),
            final(self).pager@ == old(self).pager@,
            final(self).pager.dirty() == old(self).pager.dirty(),
            final(self).versions == old(self).versions,
            final(self).next_auto_checkpoint == old(self).next_auto_checkpoint,
            final(self).options == old(self).options,
            final(self).tree == old(self).tree,
            old(self).wf() && listable(old(self).pager@) ==> (r matches Ok(out) && picks(
                |k: Seq<u8>|
                    if within(*lo, *hi, k) {
                        held_in(old(self).live(), k)
                    } else {
                        None
                    },
                cap(limit),
                pairs(out@),
            )),
    {
        let snapshot: u64 = self.versions.current_ts();
        let ghost t = self.versions@;
        let ghost m = self.stored();
        let ghost f = |k: Seq<u8>| seen(t.versions, k, snapshot);
        let layer = self.versions.overlay(snapshot, lo, hi);
        let r = self.merge_scan(layer, lo, hi, limit, Ghost(f));
        proof {
            if old(self).wf() && listable(self.pager@) {
                let a = |k: Seq<u8>| ranged(f, m, *lo, *hi, k);
                let b = |k: Seq<u8>|
                    if within(*lo, *hi, k) {
                        held_in(old(self).live(), k)
                    } else {
                        None
                    };
                assert(forall|k: Seq<u8>| #[trigger] a(k) == b(k));
                lemma_picks_same(a, b, cap(limit), pairs(r->Ok_0@));
            }
        }
        r
    }

    /// Collects what a transaction sees for keys in a range: its snapshot plus
    /// its own uncommitted writes (`limit` 0 = no limit).
    pub fn scan_txn(&mut self, txn_id: u64, lo: &Bound, hi: &Bound, limit: usize) -> (r: Result<
        Vec<(Vec<u8>, Vec<u8>)>,
    >)
        requires
            old(self).inv(),
        ensures
            final(self).inv(),
            final(self).pager@ == old(self).pager@,
            final(self).pager.dirty() == old(self).pager.dirty(),
            final(self).versions == old(self).versions,
            final(self).next_auto_checkpoint == old(self).next_auto_checkpoint,
            final(self).options == old(self).options,
            final(self).tree == old(self).tree,
            !old(self).versions@.txns.contains_key(txn_id) ==> (r matches Err(e) && e
                == Error::TxnNotFound(txn_id)),
            old(self).wf() && old(self).versions@.txns.contains_key(txn_id) && listable(
                old(self).pager@,
            ) ==> (
            r matches Ok(out) && picks(
                |k: Seq<u8>|
                    if within(*lo, *hi, k) {
                        look_txn(old(self).versions@, old(self).stored(), txn_id, k)
                    } else {
                        None
                    },
                cap(limit),
                pairs(out@),
            )),
    {
        let ghost t = self.versions@;
        let ghost m = self.stored();
        let ghost f = |k: Seq<u8>| sees(t, txn_id, k);
        let layer = self.versions.txn_overlay(txn_id, lo, hi)?;
        let r = self.merge_scan(layer, lo, hi, limit, Ghost(f));
        proof {
            if old(self).wf() && listable(self.pager@) {
                let a = |k: Seq<u8>| ranged(f, m, *lo, *hi, k);
                let b = |k: Seq<u8>|
                    if within(*lo, *hi, k) {
                        look_txn(t, m, txn_id, k)
                    } else {
                        None
                    };
                assert(forall|k: Seq<u8>| #[trigger] a(k) == b(k));
                lemma_picks_same(a, b, cap(limit), pairs(r->Ok_0@));
            }
        }
        r
    }

    /// Every visible key/value pair, in ascending key order.
    pub fn scan(&mut self) -> (r: Result<Vec<(Vec<u8>, Vec<u8>)>>)
        requires
            old(self).inv(),
        ensures
            final(self).inv(),
            final(self).pager@ == old(self).pager@,
            final(self).pager.dirty() == old(self).pager.dirty(),
            final(self).versions == old(self).versions,
            final(self).next_auto_checkpoint == old(self).next_auto_checkpoint,
            final(self).options == old(self).options,
            final(self).tree == old(self).tree,
            old(self).wf() && listable(old(self).pager@) ==> (r matches Ok(out) && picks(
                |k: Seq<u8>| held_in(old(self).live(), k),
                usize::MAX as int,
                pairs(out@),
            )),
    {
        let r = self.range(&Bound::Unbounded, &Bound::Unbounded, 0);
        proof {
            if old(self).wf() && listable(self.pager@) {
                let a = |k: Seq<u8>|
                    if within(Bound::Unbounded, Bound::Unbounded, k) {
                        held_in(old(self).live(), k)
                    } else {
                        None
                    };
                let b = |k: Seq<u8>| held_in(old(self).live(), k);
                assert(forall|k: Seq<u8>| #[trigger] a(k) == b(k));
                lemma_picks_same(a, b, usize::MAX as int, pairs(r->Ok_0@));
            }
        }
        r
    }

    /// Full structural check of the tree.
    pub fn check(&mut self) -> (r: Result<TreeReport>)
        requires
            old(self).inv(),
        ensures
            final(self).inv(),
            final(self).pager@ == old(self).pager@,
            final(self).pager.dirty() == old(self).pager.dirty(),
            final(self).versions == old(self).versions,
            final(self).next_auto_checkpoint == old(self).next_auto_checkpoint,
            final(self).options == old(self).options,
            final(self).tree == old(self).tree,
            match r {
                Ok(report) => exists|t: Tree, h: nat, free: Seq<u32>|
                    sound(old(self).pager@, t, h, free) && reports(
                        report,
                        old(self).pager@,
                        t,
                        h,
                        free,
                        old(self).tree.fill_spec().min as int,
                    ),
                Err(e) => e is Corruption && !is_sound(old(self).pager@),
            },
            tree_ok(old(self).pager@, 63) ==> r is Ok && r->Ok_0.keys == contents(
                old(self).pager@,
            ).dom().len(),
    {
        self.tree.check(&mut self.pager)
    }

    /// Verifies the invariants of the tree and every page checksum.
    pub fn verify(&mut self) -> (r: Result<()>)
        requires
            old(self).inv(),
        ensures
            final(self).inv(),
            final(self).pager@ == old(self).pager@,
            final(self).pager.dirty() == old(self).pager.dirty(),
            final(self).versions == old(self).versions,
            final(self).next_auto_checkpoint == old(self).next_auto_checkpoint,
            final(self).options == old(self).options,
            final(self).tree == old(self).tree,
            match r {
                Ok(_) => exists|t: Tree, h: nat, free: Seq<u32>|
                    sound(old(self).pager@, t, h, free),
                Err(e) => e is Corruption && !is_sound(old(self).pager@),
            },
    {
        self.check()?;
        Ok(())
    }
}

/// Two ways of saying the same pick the same.
proof fn lemma_picks_same(
    a: spec_fn(Seq<u8>) -> Option<Seq<u8>>,
    b: spec_fn(Seq<u8>) -> Option<Seq<u8>>,
    limit: int,
    out: Seq<Entry>,
)
    requires
        picks(a, limit, out),
        forall|k: Seq<u8>| #[trigger] a(k) == b(k),
    ensures
        picks(b, limit, out),
{
    assert(a =~= b);
}

impl Database {
    /// Collects up to `limit` of the latest committed pairs whose key starts
    /// with `prefix` (0 = no limit).
    pub fn scan_prefix(&mut self, prefix: &[u8], limit: usize) -> (r: Result<
        Vec<(Vec<u8>, Vec<u8>)>,
    >)
        requires
            old(self).inv(),
        ensures
            final(self).inv(),
            final(self).pager@ == old(self).pager@,
            final(self).pager.dirty() == old(self).pager.dirty(),
            final(self).versions == old(self).versions,
            final(self).next_auto_checkpoint == old(self).next_auto_checkpoint,
            final(self).options == old(self).options,
            final(self).tree == old(self).tree,
            old(self).wf() && listable(old(self).pager@) ==> (r matches Ok(out) && picks(
                |k: Seq<u8>|
                    if starts(k, prefix@) {
                        held_in(old(self).live(), k)
                    } else {
                        None
                    },
                cap(limit),
                pairs(out@),
            )),
    {
        let hi: Bound = match prefix_successor(prefix) {
            Some(end) => Bound::Excluded(end),
            None => Bound::Unbounded,
        };
        let lo: Bound = if prefix.len() == 0 {
            Bound::Unbounded
        } else {
            Bound::Included(copy_bytes(prefix))
        };
        let r = self.range(&lo, &hi, limit);
        proof {
            if old(self).wf() && listable(self.pager@) {
                let a = |k: Seq<u8>|
                    if within(lo, hi, k) {
                        held_in(old(self).live(), k)
                    } else {
                        None
                    };
                let b = |k: Seq<u8>|
                    if starts(k, prefix@) {
                        held_in(old(self).live(), k)
                    } else {
                        None
                    };
                assert forall|k: Seq<u8>| #[trigger] a(k) == b(k) by {
                    law_successor_ends_the_prefix(prefix@, k);
                    if prefix@.len() == 0 {
                        assert(lex_le(prefix@, k)) by {
                            if k.len() == 0 {
                                assert(k =~= prefix@);
                            }
                        }
                    }
                }
                lemma_picks_same(a, b, cap(limit), pairs(r->Ok_0@));
            }
        }
        r
    }

    /// Number of visible keys.
    ///
    /// Counts the tree's keys and corrects for the in-memory versions, so it
    /// never reads a value.
    pub fn len(&mut self) -> (r: Result<u64>)
        requires
            old(self).inv(),
        ensures
            final(self).inv(),
            final(self).pager@ == old(self).pager@,
            final(self).pager.dirty() == old(self).pager.dirty(),
            final(self).versions == old(self).versions,
            final(self).next_auto_checkpoint == old(self).next_auto_checkpoint,
            final(self).options == old(self).options,
            final(self).tree == old(self).tree,
            old(self).wf() ==> old(self).live().dom().finite() && (r matches Ok(n) && n == clipped(
                old(self).live().dom().len() as int,
            )),
    {
        let ghost m = self.stored();
        let ghost ok = self.wf();
        let stored: u64 = self.tree.len(&mut self.pager)?;
        proof {
            if ok {
                let e = choose|e: Seq<Entry>| #[trigger] listing(m, e) && e.len() == stored;
                lemma_listing_count(m, e);
            }
        }
        let snapshot: u64 = self.versions.current_ts();
        let list = collapse(&self.versions.entries, snapshot);
        let ghost l = shown(list@);
        proof {
            lemma_views(self.versions@.versions, snapshot, l);
        }
        let mut count: u128 = stored as u128;
        let mut i: usize = 0;
        assert(l.take(0) =~= Seq::empty());
        while i < list.len()
            invariant
                i <= list@.len(),
                l == shown(list@),
                keys_up(l),
                self.inv(),
                self.pager@ == old(self).pager@,
                self.pager.dirty() == old(self).pager.dirty(),
                self.versions == old(self).versions,
                self.next_auto_checkpoint == old(self).next_auto_checkpoint,
                self.options == old(self).options,
                self.tree == old(self).tree,
                m == self.stored(),
                ok == old(self).wf(),
                ok ==> applied(m, l.take(i as int)).dom().finite() && applied(
                    m,
                    l.take(i as int),
                ).dom().len() == count,
                count <= stored + i,
            decreases list@.len() - i,
        {
            let in_tree: bool = self.tree.contains(&mut self.pager, list[i].0.as_slice())?;
            proof {
                let p = applied(m, l.take(i as int));
                let k = l[i as int].0;
                assert(l.take(i + 1).drop_last() =~= l.take(i as int));
                assert(l.take(i + 1).last() == l[i as int]);
                lemma_not_yet(m, l, i as int);
                assert(ok ==> p.contains_key(k) == in_tree);
                assert(p.insert(k, Seq::empty()).dom() =~= p.dom().insert(k));
                assert(p.remove(k).dom() =~= p.dom().remove(k));
                if let Some(v) = l[i as int].1 {
                    assert(p.insert(k, v).dom() =~= p.dom().insert(k));
                    if p.contains_key(k) {
                        assert(p.dom().insert(k) =~= p.dom());
                    }
                } else if !p.contains_key(k) {
                    assert(p.dom().remove(k) =~= p.dom());
                }
            }
            if list[i].1.is_some() && !in_tree {
                count += 1;
            } else if list[i].1.is_none() && in_tree && count > 0 {
                count -= 1;
            }
            i += 1;
        }
        proof {
            assert(l.take(i as int) =~= l);
            let live = old(self).live();
            assert forall|k: Seq<u8>| held_in(applied(m, l), k) == held_in(live, k) by {
                lemma_applied(m, l, k);
            }
            assert forall|k: Seq<u8>|
                #![trigger applied(m, l).dom().contains(k)]
                #![trigger applied(m, l)[k]]
                held_in(applied(m, l), k) == held_in(live, k) by {}
            assert(applied(m, l) =~= live);
        }
        if count > u64::MAX as u128 {
            Ok(u64::MAX)
        } else {
            Ok(count as u64)
        }
    }

    /// True when the database holds no visible keys.
    pub fn is_empty(&mut self) -> (r: Result<bool>)
        requires
            old(self).inv(),
        ensures
            final(self).inv(),
            final(self).pager@ == old(self).pager@,
            final(self).pager.dirty() == old(self).pager.dirty(),
            final(self).versions == old(self).versions,
            final(self).next_auto_checkpoint == old(self).next_auto_checkpoint,
            final(self).options == old(self).options,
            final(self).tree == old(self).tree,
            old(self).wf() ==> (r matches Ok(b) && b == (old(self).live() =~= Map::<
                Seq<u8>,
                Seq<u8>,
            >::empty())),
    {
        let n: u64 = self.len()?;
        proof {
            let d = old(self).live().dom();
            if old(self).wf() && d.len() == 0 {
                assert(d =~= Set::empty());
                assert(old(self).live() =~= Map::<Seq<u8>, Seq<u8>>::empty());
            } else if old(self).live() =~= Map::<Seq<u8>, Seq<u8>>::empty() {
                assert(d =~= Set::empty());
            }
        }
        Ok(n == 0)
    }

    /// Runtime statistics, with the size of the log.
    pub fn stats(&self, wal_bytes: u64) -> (s: Stats)
        requires
            self.inv(),
        ensures
            s.page_count == self.pager@.meta.page_count,
            s.active_txns == self.versions.active@.len(),
            exists|l: Layer| #[trigger]
                views(self.versions@.versions, u64::MAX, l) && s.pending_keys == l.len(),
            s.wal_bytes == wal_bytes,
            s.commit_ts == self.versions@.next_ts - 1,
            s.tree_ts == self.pager@.meta.tree_ts,
            s.cache_hits == self.pager.hits_spec(),
            s.cache_misses == self.pager.misses_spec(),
    {
        let cache: CacheStats = self.pager.cache_stats();
        let meta: MetaData = self.pager.meta();
        let pending = collapse(&self.versions.entries, u64::MAX);
        assert(views(self.versions@.versions, u64::MAX, shown(pending@)));
        Stats {
            page_count: meta.page_count,
            active_txns: self.versions.active_count(),
            pending_keys: pending.len(),
            wal_bytes,
            commit_ts: self.versions.current_ts(),
            tree_ts: meta.tree_ts,
            cache_hits: cache.hits,
            cache_misses: cache.misses,
        }
    }
}

/// A listing is as long as the map is large.
proof fn lemma_listing_count(m: Map<Seq<u8>, Seq<u8>>, e: Seq<Entry>)
    requires
        listing(m, e),
    ensures
        m.dom().finite(),
        m.dom().len() == e.len(),
{
    let ks = Seq::new(e.len(), |i: int| e[i].0);
    assert(ks.no_duplicates()) by {
        assert forall|i: int, j: int| 0 <= i < j < ks.len() implies ks[i] != ks[j] by {
            assert(lex_lt(e[i].0, e[j].0));
            lemma_lex_irreflexive(e[i].0);
        }
    }
    ks.unique_seq_to_set();
    assert(ks.to_set() =~= m.dom()) by {
        assert forall|k: Seq<u8>| #[trigger] m.dom().contains(k) implies ks.to_set().contains(
            k,
        ) by {
            assert(m.contains_key(k));
            let i = choose|i: int| 0 <= i < e.len() && (#[trigger] e[i]).0 == k;
            assert(ks[i] == k);
            assert(ks.contains(k));
        }
        assert forall|k: Seq<u8>| #[trigger] ks.to_set().contains(k) implies m.dom().contains(
            k,
        ) by {
            let i = choose|i: int| 0 <= i < ks.len() && ks[i] == k;
            assert(e[i].0 == k);
        }
    }
}

/// The next key of a layer is untouched so far.
proof fn lemma_not_yet(m: Map<Seq<u8>, Seq<u8>>, l: Layer, i: int)
    requires
        keys_up(l),
        0 <= i < l.len(),
    ensures
        applied(m, l.take(i)).contains_key(l[i].0) == m.contains_key(l[i].0),
{
    let part = l.take(i);
    assert forall|x: int, y: int| 0 <= x < y < part.len() implies lex_lt(
        (#[trigger] part[x]).0,
        (#[trigger] part[y]).0,
    ) by {
        assert(lex_lt(l[x].0, l[y].0));
    }
    lemma_applied(m, part, l[i].0);
    if knows(part, l[i].0) {
        let x = choose|x: int| 0 <= x < part.len() && (#[trigger] part[x]).0 == l[i].0;
        assert(lex_lt(l[x].0, l[i].0));
        lemma_lex_irreflexive(l[i].0);
    }
}

// ---- copying in batches ----------------------------------------------------------------------

/// Bytes after which a batch of a copy is complete.
pub const BATCH_BYTES: u64 = 0x80_0000;

/// Keys after which a batch of a copy is complete.
pub const BATCH_KEYS: usize = 20_000;

/// The bytes of some pairs.
pub open spec fn weight(l: Seq<Entry>) -> int
    decreases l.len(),
{
    if l.len() == 0 {
        0
    } else {
        weight(l.drop_last()) + l.last().0.len() + l.last().1.len()
    }
}

/// How many of these pairs the next batch of a copy takes: a batch is complete
/// once it holds enough bytes or enough keys.
pub fn batch_len(list: &Vec<(Vec<u8>, Vec<u8>)>) -> (n: usize)
    ensures
        n <= list@.len(),
        n <= BATCH_KEYS,
        forall|i: int| 0 <= i < n ==> weight(#[trigger] pairs(list@).take(i)) < BATCH_BYTES,
        n < list@.len() ==> n == BATCH_KEYS || weight(pairs(list@).take(n as int)) >= BATCH_BYTES,
{
    let ghost l = pairs(list@);
    let mut bytes: u64 = 0;
    let mut n: usize = 0;
    assert(l.take(0) =~= Seq::empty());
    while n < list.len() && n < BATCH_KEYS && bytes < BATCH_BYTES
        invariant
            l == pairs(list@),
            n <= list@.len(),
            n <= BATCH_KEYS,
            bytes < BATCH_BYTES ==> bytes == weight(l.take(n as int)),
            bytes >= BATCH_BYTES ==> weight(l.take(n as int)) >= BATCH_BYTES,
            forall|i: int| 0 <= i < n ==> weight(#[trigger] l.take(i)) < BATCH_BYTES,
        decreases list@.len() - n,
    {
        proof {
            assert(l.take(n + 1).drop_last() =~= l.take(n as int));
            assert(l.take(n + 1).last() == (list@[n as int].0@, list@[n as int].1@));
        }
        bytes = bytes.saturating_add(list[n].0.len() as u64).saturating_add(
            list[n].1.len() as u64,
        );
        n += 1;
    }
    n
}

} // verus!
