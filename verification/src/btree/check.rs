//! The full structural check of a tree and the free list.

use crate::btree::laws::{law_check_counts_the_keys, law_good_tree_is_sound};
use crate::btree::scan::{leaves, leaves_upto, leftmost, LeafChainGuard};
use crate::btree::{
    chain_head, chained, child_at, child_of, contents, distinct, id_of, ids_of, in_range, kids_apart,
    tree_at, tree_ok, uniform, BTree, KeyBound, Tree, MAX_DEPTH,
};
use crate::bytes::{before, lemma_lex_total, lemma_lex_transitive, lex_lt, u32_at};
use crate::error::{Error, Result};
use crate::page::{
    cell_of, extra_of, free_of as free_bytes, key_at, leaf_ok, leaf_overflows, lemma_page_len,
    num_keys_of, overflow_payload_of, slot_ok, type_of, LeafCell, MetaData, Page, PageType,
    SENTINEL, USABLE_SPACE,
};
use crate::pager::{
    chain_data, chain_ok, free_ok, grows, lemma_grows_same, lemma_grows_then, link, Pager,
    PagerState,
};
use std::collections::HashSet;
use vstd::prelude::*;

verus! {

broadcast use {
    lemma_page_len,
    lemma_grows_same,
    lemma_grows_then,
    vstd::std_specs::hash::group_hash_axioms,
};

/// Result of a full structural check.
#[derive(Debug, Clone, Copy, PartialEq, Eq, Structural)]
pub struct TreeReport {
    /// Levels from the root to the leaves (1 for a lone root leaf).
    pub depth: u32,
    /// Keys stored in the tree.
    pub keys: u64,
    /// Leaf pages reachable from the root.
    pub leaf_pages: u32,
    /// Internal pages reachable from the root.
    pub internal_pages: u32,
    /// Overflow pages reachable from leaf cells.
    pub overflow_pages: u32,
    /// Pages on the free list.
    pub free_pages: u32,
    /// Allocated pages that are neither reachable nor free: space leaked by a
    /// crash between allocation and checkpoint.
    pub unreachable_pages: u32,
    /// Non-root leaves below the fill factor's least occupancy.
    pub underfull_leaves: u32,
}

impl Default for TreeReport {
    fn default() -> (r: Self)
        ensures
            r == (TreeReport {
                depth: 0,
                keys: 0,
                leaf_pages: 0,
                internal_pages: 0,
                overflow_pages: 0,
                free_pages: 0,
                unreachable_pages: 0,
                underfull_leaves: 0,
            }),
    {
        TreeReport {
            depth: 0,
            keys: 0,
            leaf_pages: 0,
            internal_pages: 0,
            overflow_pages: 0,
            free_pages: 0,
            unreachable_pages: 0,
            underfull_leaves: 0,
        }
    }
}

// ---- what is checked -----------------------------------------------------------------------

/// Every slot has a key, in the range, and the keys strictly ascend.
pub open spec fn keys_in(b: Seq<u8>, lo: KeyBound, hi: KeyBound) -> bool {
    &&& forall|i: int|
        0 <= i < num_keys_of(b) ==> (#[trigger] key_at(b, i)) is Some && in_range(
            key_at(b, i)->0,
            lo,
            hi,
        )
    &&& forall|i: int, j: int|
        0 <= i < j < num_keys_of(b) ==> lex_lt(
            (#[trigger] key_at(b, i))->0,
            (#[trigger] key_at(b, j))->0,
        )
}

/// The lower bound that slot `j` of a page assigns to its child.
pub open spec fn slot_lo(b: Seq<u8>, j: int, lo: KeyBound) -> KeyBound {
    if j == 0 {
        lo
    } else {
        key_at(b, j - 1)
    }
}

/// The upper bound that slot `j` of a page assigns to its child.
pub open spec fn slot_hi(b: Seq<u8>, j: int, hi: KeyBound) -> KeyBound {
    if j == num_keys_of(b) {
        hi
    } else {
        key_at(b, j)
    }
}

/// The pages have the shape of tree `t`: typed as its nodes are, keys ascending
/// inside the ranges that the parents assign, child pointers as its edges, and
/// overflow chains as its leaves hold them.
pub open spec fn shape(pages: Map<u32, Seq<u8>>, t: Tree, lo: KeyBound, hi: KeyBound) -> bool
    decreases t,
{
    match t {
        Tree::Leaf { id, chains } => {
            let b = pages[id];
            &&& pages.contains_key(id)
            &&& type_of(b) == Some(PageType::Leaf)
            &&& keys_in(b, lo, hi)
            &&& chains.len() == num_keys_of(b)
            &&& forall|i: int| 0 <= i < chains.len() ==> cell_fits(pages, b, i, #[trigger] chains[i])
        },
        Tree::Node { id, kids } => {
            let b = pages[id];
            &&& pages.contains_key(id)
            &&& type_of(b) == Some(PageType::Internal)
            &&& keys_in(b, lo, hi)
            &&& kids.len() == num_keys_of(b) + 1
            &&& forall|j: int|
                0 <= j < kids.len() ==> id_of(#[trigger] kids[j]) == child_of(b, j) && shape(
                    pages,
                    kids[j],
                    slot_lo(b, j, lo),
                    slot_hi(b, j, hi),
                )
        },
    }
}

/// Every page lies in the file, page 0 apart.
pub open spec fn in_file(n: u32, ids: Set<u32>) -> bool {
    forall|x: u32| #[trigger] ids.contains(x) ==> 1 <= x < n
}

/// What a tree adds up to.
pub struct Tally {
    /// Leaf pages.
    pub leaf: nat,
    /// Internal pages.
    pub internal: nat,
    /// Overflow pages.
    pub overflow: nat,
    /// Keys.
    pub keys: nat,
    /// Leaves below the least occupancy.
    pub underfull: nat,
}

/// The sum of two tallies.
pub open spec fn plus(a: Tally, b: Tally) -> Tally {
    Tally {
        leaf: a.leaf + b.leaf,
        internal: a.internal + b.internal,
        overflow: a.overflow + b.overflow,
        keys: a.keys + b.keys,
        underfull: a.underfull + b.underfull,
    }
}

/// Nothing.
pub open spec fn nothing() -> Tally {
    Tally { leaf: 0, internal: 0, overflow: 0, keys: 0, underfull: 0 }
}

/// Pages of a list of chains.
pub open spec fn chain_pages(chains: Seq<Seq<u32>>) -> nat
    decreases chains.len(),
{
    if chains.len() == 0 {
        0
    } else {
        chain_pages(chains.drop_last()) + chains.last().len()
    }
}

/// A non-root leaf uses less than `min` bytes.
pub open spec fn underfull(b: Seq<u8>, min: int, deep: bool) -> bool {
    deep && USABLE_SPACE - free_bytes(b) < min
}

/// What tree `t` adds up to, its root being a non-root when `deep`.
pub open spec fn tally(pages: Map<u32, Seq<u8>>, t: Tree, min: int, deep: bool) -> Tally
    decreases t, 0int,
{
    match t {
        Tree::Leaf { id, chains } => Tally {
            leaf: 1,
            internal: 0,
            overflow: chain_pages(chains),
            keys: num_keys_of(pages[id]) as nat,
            underfull: if underfull(pages[id], min, deep) {
                1
            } else {
                0
            },
        },
        Tree::Node { id, kids } => plus(
            tally_upto(pages, kids, kids.len() as int, min),
            (Tally { leaf: 0, internal: 1, overflow: 0, keys: 0, underfull: 0 }),
        ),
    }
}

/// What the first `n` trees of a list of children add up to.
pub open spec fn tally_upto(pages: Map<u32, Seq<u8>>, kids: Seq<Tree>, n: int, min: int) -> Tally
    decreases kids, n,
{
    if n <= 0 || n > kids.len() {
        nothing()
    } else {
        plus(tally_upto(pages, kids, n - 1, min), tally(pages, kids[n - 1], min, true))
    }
}

/// The database is sound: the pages below the root have the shape of tree `t`,
/// with all leaves `h` levels down and no page reachable twice; the chain of
/// leaves visits exactly its leaves in order; and `free` is a well-formed free
/// list of pages that the tree does not use.
#[verifier::opaque]
pub open spec fn sound(s: PagerState, t: Tree, h: nat, free: Seq<u32>) -> bool {
    &&& h <= 63
    &&& id_of(t) == s.meta.root
    &&& shape(s.pages, t, None, None)
    &&& uniform(t, h)
    &&& distinct(t)
    &&& in_file(s.meta.page_count, ids_of(t))
    &&& leftmost(s.pages, s.meta.root, 64) == Some(link(leaves(t), 0))
    &&& forall|i: int|
        0 <= i < leaves(t).len() ==> extra_of(s.pages[#[trigger] leaves(t)[i]]) == link(
            leaves(t),
            i + 1,
        )
    &&& free_ok(s, free)
    &&& forall|i: int| 0 <= i < free.len() ==> !ids_of(t).contains(#[trigger] free[i])
}

/// The report on a sound database.
#[verifier::opaque]
pub open spec fn reports(
    r: TreeReport,
    s: PagerState,
    t: Tree,
    h: nat,
    free: Seq<u32>,
    min: int,
) -> bool {
    let c = tally(s.pages, t, min, false);
    let used = c.leaf + c.internal + c.overflow + free.len() + 1;
    &&& r.depth == h + 1
    &&& r.keys == c.keys
    &&& r.leaf_pages == c.leaf
    &&& r.internal_pages == c.internal
    &&& r.overflow_pages == c.overflow
    &&& r.free_pages == free.len()
    &&& r.unreachable_pages == (if s.meta.page_count >= used {
        s.meta.page_count - used
    } else {
        0
    })
    &&& r.underfull_leaves == c.underfull
}

// ---- the walk's state ------------------------------------------------------------------------

struct CheckState {
    seen: HashSet<u32>,
    leaves: Vec<u32>,
    leaf_depth: Option<u32>,
    report: TreeReport,
    page_count: u32,
}

impl CheckState {
    spec fn inv(&self) -> bool {
        let r = self.report;
        &&& self.seen@.finite()
        &&& self.seen@.len() == r.leaf_pages + r.internal_pages + r.overflow_pages + r.free_pages
        &&& in_file(self.page_count, self.seen@)
        &&& r.keys <= r.leaf_pages * 0xFFFF
        &&& r.underfull_leaves <= r.leaf_pages
    }

    /// Marks a page as reached, and tells whether it was not before.
    fn mark(&mut self, id: u32) -> (fresh: bool)
        requires
            old(self).seen@.finite(),
        ensures
            fresh == !old(self).seen@.contains(id),
            final(self).seen@ == old(self).seen@.insert(id),
            final(self).seen@.finite(),
            final(self).seen@.len() == old(self).seen@.len() + (if fresh {
                1int
            } else {
                0int
            }),
            final(self).leaves == old(self).leaves,
            final(self).leaf_depth == old(self).leaf_depth,
            final(self).report == old(self).report,
            final(self).page_count == old(self).page_count,
    {
        self.seen.insert(id)
    }
}

/// Distinct pages of a file are fewer than it has.
proof fn lemma_few(n: u32, ids: Set<u32>)
    requires
        ids.finite(),
        in_file(n, ids),
    ensures
        ids.len() < n || ids.len() == 0,
    decreases n,
{
    if n <= 1 {
        assert(ids =~= Set::<u32>::empty());
    } else {
        let last = (n - 1) as u32;
        let rest = ids.remove(last);
        assert forall|x: u32| #[trigger] rest.contains(x) implies 1 <= x < last by {
            assert(ids.contains(x));
        }
        lemma_few(last, rest);
    }
}

/// Whether the keys of a page ascend inside a range.
fn check_keys(page: &Page, lo: Option<&[u8]>, hi: Option<&[u8]>) -> (r: Result<()>)
    ensures
        match r {
            Ok(_) => keys_in(page@, bound(lo), bound(hi)),
            Err(e) => e is Corruption && !keys_in(page@, bound(lo), bound(hi)),
        },
{
    let ghost b = page@;
    let n: usize = page.num_keys() as usize;
    let mut previous: Option<&[u8]> = None;
    let mut i: usize = 0;
    while i < n
        invariant
            i <= n,
            b == page@,
            n == num_keys_of(b),
            bound(previous) == (if i == 0 {
                None
            } else {
                key_at(b, i - 1)
            }),
            forall|j: int|
                0 <= j < i ==> (#[trigger] key_at(b, j)) is Some && in_range(
                    key_at(b, j)->0,
                    bound(lo),
                    bound(hi),
                ),
            forall|x: int, y: int|
                0 <= x < y < i ==> lex_lt(
                    (#[trigger] key_at(b, x))->0,
                    (#[trigger] key_at(b, y))->0,
                ),
        decreases n - i,
    {
        let key: &[u8] = page.cell_key(i)?;
        let ordered: bool = match previous {
            Some(p) => before(p, key),
            None => true,
        };
        if !ordered {
            return Err(Error::corrupt("key ordering violated in a page"));
        }
        let low: bool = match lo {
            Some(l) => before(key, l),
            None => false,
        };
        let high: bool = match hi {
            Some(h) => !before(key, h),
            None => false,
        };
        proof {
            if lo is Some {
                lemma_lex_total(key@, lo->0@);
                crate::btree::lemma_le_lt(lo->0@, key@);
            }
        }
        if low || high {
            return Err(Error::corrupt("a key lies outside the range its parent assigns"));
        }
        proof {
            assert(key_at(b, i as int) == Some(key@));
            assert forall|x: int| 0 <= x < i implies lex_lt(
                (#[trigger] key_at(b, x))->0,
                key_at(b, i as int)->0,
            ) by {
                if x < i - 1 {
                    lemma_lex_transitive(
                        key_at(b, x)->0,
                        key_at(b, i - 1)->0,
                        key_at(b, i as int)->0,
                    );
                }
            }
        }
        previous = Some(key);
        i += 1;
    }
    Ok(())
}

/// The contents of a bound.
pub open spec fn bound(o: Option<&[u8]>) -> KeyBound {
    match o {
        Some(x) => Some(x@),
        None => None,
    }
}

/// The walk reached the pages `ids` and nothing else.
spec fn reached(a: CheckState, b: CheckState, ids: Set<u32>) -> bool {
    &&& b.page_count == a.page_count
    &&& b.seen@ == a.seen@.union(ids)
    &&& a.seen@.disjoint(ids)
    &&& in_file(a.page_count, ids)
}

/// A chain as it was expected.
pub open spec fn chain_fits(
    pages: Map<u32, Seq<u8>>,
    head: u32,
    total: u32,
    ids: Seq<u32>,
    seen: Set<u32>,
    n: u32,
) -> bool {
    &&& chain_ok(pages, head, ids)
    &&& chain_data(pages, ids).len() == total
    &&& forall|i: int| 0 <= i < ids.len() ==> 1 <= #[trigger] ids[i] < n && !seen.contains(ids[i])
}

/// How long the data of a chain is when it grows by a page.
proof fn lemma_chain_push(pages: Map<u32, Seq<u8>>, ids: Seq<u32>, id: u32)
    ensures
        chain_data(pages, ids.push(id)).len() == chain_data(pages, ids).len()
            + overflow_payload_of(pages[id])->0.len(),
    decreases ids.len(),
{
    reveal_with_fuel(chain_data, 2);
    if ids.len() == 0 {
        assert(ids.push(id).skip(1) =~= Seq::<u32>::empty());
        assert(ids.push(id)[0] == id);
    } else {
        assert(ids.push(id).skip(1) =~= ids.skip(1).push(id));
        assert(ids.push(id)[0] == ids[0]);
        lemma_chain_push(pages, ids.skip(1), id);
    }
}

/// Walks an overflow chain, counting its pages.
#[verifier::rlimit(40)]
#[verifier::spinoff_prover]
fn check_overflow(
    pager: &mut Pager,
    head: u32,
    total_len: u32,
    state: &mut CheckState,
    Ghost(want): Ghost<Option<Seq<u32>>>,
) -> (r: Result<(u32, Ghost<Seq<u32>>)>)
    requires
        old(pager).inv(),
        old(state).seen@.finite(),
        in_file(old(state).page_count, old(state).seen@),
    ensures
        final(pager).inv(),
        grows(*old(pager), *final(pager)),
        final(pager).dirty() == old(pager).dirty(),
        final(pager)@ == old(pager)@,
        final(state).leaves == old(state).leaves,
        final(state).leaf_depth == old(state).leaf_depth,
        final(state).report == old(state).report,
        final(state).page_count == old(state).page_count,
        match r {
            Ok(out) => {
                let ids = out.1@;
                &&& chain_fits(
                    old(pager)@.pages,
                    head,
                    total_len,
                    ids,
                    old(state).seen@,
                    old(state).page_count,
                )
                &&& out.0 == ids.len()
                &&& reached(*old(state), *final(state), ids.to_set())
                &&& final(state).seen@.finite()
                &&& final(state).seen@.len() == old(state).seen@.len() + ids.len()
                &&& want is Some && chain_fits(
                    old(pager)@.pages,
                    head,
                    total_len,
                    want->0,
                    old(state).seen@,
                    old(state).page_count,
                ) ==> ids == want->0
            },
            Err(e) => e is Corruption && !(want is Some && chain_fits(
                old(pager)@.pages,
                head,
                total_len,
                want->0,
                old(state).seen@,
                old(state).page_count,
            )),
        },
{
    let ghost s = pager@;
    let ghost p = s.pages;
    let ghost st0 = *state;
    let ghost w: Seq<u32> = if want is Some {
        want->0
    } else {
        Seq::empty()
    };
    let ghost ok = want is Some && chain_fits(
        p,
        head,
        total_len,
        w,
        st0.seen@,
        st0.page_count,
    );
    let mut cursor: u32 = head;
    let mut pages: u32 = 0;
    let mut bytes: u64 = 0;
    let ghost mut ids: Seq<u32> = Seq::empty();
    proof {
        assert(st0.seen@.union(ids.to_set()) =~= st0.seen@);
        assert(w.take(0) =~= Seq::<u32>::empty());
    }
    while cursor != SENTINEL
        invariant
            pager.inv(),
            grows(*old(pager), *pager),
            pager.dirty() == old(pager).dirty(),
            pager@ == s,
            s == old(pager)@,
            p == s.pages,
            st0 == *old(state),
            ok == (want is Some && chain_fits(p, head, total_len, w, st0.seen@, st0.page_count)),
            want is Some ==> w == want->0,
            state.leaves == st0.leaves,
            state.leaf_depth == st0.leaf_depth,
            state.report == st0.report,
            state.page_count == st0.page_count,
            state.seen@.finite(),
            in_file(st0.page_count, state.seen@),
            state.seen@ == st0.seen@.union(ids.to_set()),
            state.seen@.len() == st0.seen@.len() + ids.len(),
            pages == ids.len(),
            ids.no_duplicates(),
            bytes == chain_data(p, ids).len(),
            bytes <= ids.len() * 4096,
            ids.len() > 0 ==> ids[0] == head,
            ids.len() == 0 ==> cursor == head,
            ids.len() > 0 ==> extra_of(p[ids[ids.len() - 1]]) == cursor,
            forall|i: int|
                0 <= i < ids.len() ==> 1 <= #[trigger] ids[i] < st0.page_count
                    && !st0.seen@.contains(ids[i]) && p.contains_key(ids[i])
                    && overflow_payload_of(p[ids[i]]) is Some,
            forall|i: int|
                0 <= i < ids.len() - 1 ==> extra_of(p[#[trigger] ids[i]]) == link(ids, i + 1),
            ok ==> ids.len() <= w.len() && ids == w.take(ids.len() as int) && cursor == link(
                w,
                ids.len() as int,
            ),
        decreases st0.page_count - state.seen@.len(),
    {
        proof {
            lemma_few(st0.page_count, state.seen@);
            if ok {
                assert(ids.len() < w.len());
                assert(w[ids.len() as int] == cursor);
                assert(!ids.contains(cursor)) by {
                    if ids.contains(cursor) {
                        let i = choose|i: int| 0 <= i < ids.len() && ids[i] == cursor;
                        assert(w[i] == ids[i]);
                    }
                }
            }
        }
        if cursor == 0 || cursor >= state.page_count {
            return Err(Error::corrupt("overflow chain points outside the file"));
        }
        let ghost seen1 = state.seen@;
        if !state.mark(cursor) {
            proof {
                if ok {
                    assert(ids.to_set().contains(cursor));
                }
            }
            return Err(Error::corrupt("an overflow page is reachable twice"));
        }
        let page: Page = pager.read_page(cursor)?;
        let payload: &[u8] = page.read_overflow()?;
        let ghost prior = ids;
        proof {
            lemma_chain_push(p, prior, cursor);
            ids = prior.push(cursor);
            assert(!prior.contains(cursor)) by {
                if prior.contains(cursor) {
                    assert(prior.to_set().contains(cursor));
                }
            }
            lemma_push_set(prior, cursor);
            assert(state.seen@ =~= st0.seen@.union(ids.to_set()));
            lemma_few(st0.page_count, state.seen@);
            assert(ids.no_duplicates()) by {
                assert forall|x: int, y: int|
                    0 <= x < ids.len() && 0 <= y < ids.len() && x != y implies ids[x] != ids[y] by {
                    if x < prior.len() {
                        assert(prior.contains(prior[x]));
                    }
                    if y < prior.len() {
                        assert(prior.contains(prior[y]));
                    }
                }
            }
            assert forall|i: int| 0 <= i < ids.len() - 1 implies extra_of(p[#[trigger] ids[i]])
                == link(ids, i + 1) by {
                if i < prior.len() - 1 {
                    assert(extra_of(p[prior[i]]) == link(prior, i + 1));
                }
            }
            if ok {
                assert(w.take(ids.len() as int) =~= ids);
                assert(w[prior.len() as int] == cursor);
                assert(extra_of(p[w[prior.len() as int]]) == link(w, prior.len() as int + 1));
            }
        }
        bytes = bytes + payload.len() as u64;
        pages = pages + 1;
        cursor = page.extra();
    }
    proof {
        if ok {
            assert(ids.len() == w.len()) by {
                if ids.len() < w.len() {
                    assert(w[ids.len() as int] != SENTINEL);
                }
            }
            assert(w.take(ids.len() as int) =~= w);
        }
        assert forall|i: int| 0 <= i < ids.len() implies extra_of(p[#[trigger] ids[i]]) == link(
            ids,
            i + 1,
        ) by {}
    }
    if bytes != total_len as u64 {
        return Err(Error::corrupt("overflow chain holds other than the declared length"));
    }
    proof {
        assert(chain_ok(p, head, ids));
        assert(st0.seen@.disjoint(ids.to_set())) by {
            assert forall|x: u32| ids.to_set().contains(x) implies !st0.seen@.contains(x) by {
                let i = choose|i: int| 0 <= i < ids.len() && ids[i] == x;
            }
        }
        assert(in_file(st0.page_count, ids.to_set())) by {
            assert forall|x: u32| #[trigger] ids.to_set().contains(x) implies 1 <= x
                < st0.page_count by {
                let i = choose|i: int| 0 <= i < ids.len() && ids[i] == x;
            }
        }
    }
    Ok((pages, Ghost(ids)))
}

/// The set of a sequence that grew.
proof fn lemma_push_set(ids: Seq<u32>, id: u32)
    ensures
        ids.push(id).to_set() =~= ids.to_set().insert(id),
{
    let t = ids.push(id);
    assert forall|x: u32| t.contains(x) <==> ids.contains(x) || x == id by {
        if ids.contains(x) {
            let i = choose|i: int| 0 <= i < ids.len() && ids[i] == x;
            assert(t[i] == x);
        }
        if x == id {
            assert(t[ids.len() as int] == x);
        }
        if t.contains(x) {
            let i = choose|i: int| 0 <= i < t.len() && t[i] == x;
            if i < ids.len() {
                assert(ids[i] == x);
            }
        }
    }
}

/// The pages of a list of chains.
pub open spec fn chains_ids(chains: Seq<Seq<u32>>) -> Set<u32> {
    Set::new(|x: u32| exists|i: int| 0 <= i < chains.len() && (#[trigger] chains[i]).contains(x))
}

/// `ids` are the overflow pages of cell `i` of a leaf.
pub open spec fn cell_fits(pages: Map<u32, Seq<u8>>, b: Seq<u8>, i: int, ids: Seq<u32>) -> bool {
    leaf_ok(cell_of(b, i)) && chained(pages, cell_of(b, i), ids)
}

/// The chains of a leaf as they were expected.
pub open spec fn leaf_fits(
    pages: Map<u32, Seq<u8>>,
    b: Seq<u8>,
    chains: Seq<Seq<u32>>,
    seen: Set<u32>,
    n: u32,
) -> bool {
    &&& chains.len() == num_keys_of(b)
    &&& forall|i: int| 0 <= i < chains.len() ==> cell_fits(pages, b, i, #[trigger] chains[i])
    &&& crate::btree::chains_apart(chains)
    &&& forall|i: int, x: u32|
        0 <= i < chains.len() && (#[trigger] chains[i].contains(x)) ==> 1 <= x < n && !seen.contains(
            x,
        )
}

/// Walks the overflow chains of a leaf's cells.
#[verifier::rlimit(60)]
#[verifier::spinoff_prover]
fn check_chains(
    pager: &mut Pager,
    page: &Page,
    state: &mut CheckState,
    Ghost(want): Ghost<Option<Seq<Seq<u32>>>>,
) -> (r: Result<Ghost<Seq<Seq<u32>>>>)
    requires
        old(pager).inv(),
        old(state).inv(),
        forall|i: int| 0 <= i < num_keys_of(page@) ==> slot_ok(page@, i),
    ensures
        final(pager).inv(),
        grows(*old(pager), *final(pager)),
        final(pager).dirty() == old(pager).dirty(),
        final(pager)@ == old(pager)@,
        final(state).leaves == old(state).leaves,
        final(state).leaf_depth == old(state).leaf_depth,
        match r {
            Ok(out) => {
                let chains = out@;
                &&& leaf_fits(
                    old(pager)@.pages,
                    page@,
                    chains,
                    old(state).seen@,
                    old(state).page_count,
                )
                &&& reached(*old(state), *final(state), chains_ids(chains))
                &&& final(state).inv()
                &&& final(state).report == (TreeReport {
                    overflow_pages: final(state).report.overflow_pages,
                    ..old(state).report
                })
                &&& final(state).report.overflow_pages == old(state).report.overflow_pages
                    + chain_pages(chains)
                &&& want is Some && leaf_fits(
                    old(pager)@.pages,
                    page@,
                    want->0,
                    old(state).seen@,
                    old(state).page_count,
                ) ==> chains == want->0
            },
            Err(e) => e is Corruption && !(want is Some && leaf_fits(
                old(pager)@.pages,
                page@,
                want->0,
                old(state).seen@,
                old(state).page_count,
            )),
        },
{
    let ghost s = pager@;
    let ghost p = s.pages;
    let ghost b = page@;
    let ghost st0 = *state;
    let ghost w: Seq<Seq<u32>> = if want is Some {
        want->0
    } else {
        Seq::empty()
    };
    let ghost ok = want is Some && leaf_fits(p, b, w, st0.seen@, st0.page_count);
    let n: usize = page.num_keys() as usize;
    let mut i: usize = 0;
    let ghost mut chains: Seq<Seq<u32>> = Seq::empty();
    proof {
        assert(chains_ids(chains) =~= Set::<u32>::empty());
        assert(st0.seen@.union(chains_ids(chains)) =~= st0.seen@);
        assert(w.take(0) =~= Seq::<Seq<u32>>::empty());
    }
    while i < n
        invariant
            pager.inv(),
            grows(*old(pager), *pager),
            pager.dirty() == old(pager).dirty(),
            pager@ == s,
            s == old(pager)@,
            p == s.pages,
            b == page@,
            st0 == *old(state),
            n == num_keys_of(b),
            i <= n,
            forall|j: int| 0 <= j < num_keys_of(b) ==> slot_ok(b, j),
            want is Some ==> w == want->0,
            ok == (want is Some && leaf_fits(p, b, w, st0.seen@, st0.page_count)),
            state.leaves == st0.leaves,
            state.leaf_depth == st0.leaf_depth,
            state.inv(),
            state.page_count == st0.page_count,
            state.report == (TreeReport {
                overflow_pages: state.report.overflow_pages,
                ..st0.report
            }),
            state.report.overflow_pages == st0.report.overflow_pages + chain_pages(chains),
            chains.len() == i,
            state.seen@ == st0.seen@.union(chains_ids(chains)),
            forall|j: int| 0 <= j < i ==> cell_fits(p, b, j, #[trigger] chains[j]),
            crate::btree::chains_apart(chains),
            forall|j: int, x: u32|
                0 <= j < i && (#[trigger] chains[j].contains(x)) ==> 1 <= x < st0.page_count
                    && !st0.seen@.contains(x),
            ok ==> chains == w.take(i as int),
        decreases n - i,
    {
        let ghost st1 = *state;
        let ghost before_chains = chains;
        proof {
            if ok {
                assert(cell_fits(p, b, i as int, w[i as int]));
            }
        }
        let cell: LeafCell = page.leaf_cell(i)?;
        let ghost mut got: Seq<u32> = Seq::empty();
        match cell.overflow {
            Some(head) => {
                proof {
                    if ok {
                        lemma_want_chain(p, b, w, st0.seen@, st0.page_count, i as int, head);
                    }
                }
                let ghost one: Option<Seq<u32>> = if want is Some {
                    Some(w[i as int])
                } else {
                    None
                };
                let (count, Ghost(ids)) = check_overflow(
                    pager,
                    head,
                    cell.total_len,
                    state,
                    Ghost(one),
                )?;
                proof {
                    got = ids;
                    lemma_few(st0.page_count, state.seen@);
                    assert(cell_fits(p, b, i as int, got));
                }
                state.report.overflow_pages = state.report.overflow_pages + count;
            },
            None => {
                proof {
                    assert(st1.seen@.union(got.to_set()) =~= st1.seen@);
                    assert(cell_fits(p, b, i as int, got));
                }
            },
        }
        proof {
            chains = before_chains.push(got);
            lemma_chains_grow(before_chains, got);
            assert(state.seen@ =~= st0.seen@.union(chains_ids(chains)));
            assert forall|j: int| 0 <= j < chains.len() implies cell_fits(
                p,
                b,
                j,
                #[trigger] chains[j],
            ) by {
                if j < i {
                    assert(chains[j] == before_chains[j]);
                }
            }
            assert forall|j: int, x: u32|
                0 <= j < chains.len() && (#[trigger] chains[j].contains(x)) implies 1 <= x
                < st0.page_count && !st0.seen@.contains(x) by {
                if j < i {
                    assert(before_chains[j].contains(x));
                } else {
                    assert(got.contains(x));
                    let k = choose|k: int| 0 <= k < got.len() && got[k] == x;
                    assert(!st1.seen@.contains(got[k]));
                }
            }
            assert(crate::btree::chains_apart(chains)) by {
                assert forall|x: int, y: int, v: u32|
                    0 <= x < y < chains.len() && #[trigger] chains[x].contains(v) implies !#[trigger] chains[y].contains(
                    v,
                ) by {
                    assert(before_chains[x].contains(v));
                    if y < i {
                        assert(chains[y] == before_chains[y]);
                    } else if got.contains(v) {
                        let k = choose|k: int| 0 <= k < got.len() && got[k] == v;
                        assert(chains_ids(before_chains).contains(v));
                        assert(!st1.seen@.contains(got[k]));
                    }
                }
            }
            if ok {
                assert(got == w[i as int]);
                assert(w.take(i + 1) =~= w.take(i as int).push(w[i as int]));
            }
        }
        i += 1;
    }
    proof {
        if ok {
            assert(w.take(i as int) =~= w);
        }
        assert(st0.seen@.disjoint(chains_ids(chains))) by {
            assert forall|x: u32| chains_ids(chains).contains(x) implies !st0.seen@.contains(x) by {
                let j = choose|j: int| 0 <= j < chains.len() && (#[trigger] chains[j]).contains(x);
            }
        }
        assert(in_file(st0.page_count, chains_ids(chains))) by {
            assert forall|x: u32| #[trigger] chains_ids(chains).contains(x) implies 1 <= x
                < st0.page_count by {
                let j = choose|j: int| 0 <= j < chains.len() && (#[trigger] chains[j]).contains(x);
            }
        }
    }
    Ok(Ghost(chains))
}

/// An expected chain is expected where the walk of a leaf gets to it.
proof fn lemma_want_chain(
    p: Map<u32, Seq<u8>>,
    b: Seq<u8>,
    w: Seq<Seq<u32>>,
    seen: Set<u32>,
    n: u32,
    i: int,
    head: u32,
)
    requires
        leaf_fits(p, b, w, seen, n),
        0 <= i < w.len(),
        leaf_overflows(cell_of(b, i)),
        head == chain_head(cell_of(b, i)),
    ensures
        chain_fits(
            p,
            head,
            u32_at(cell_of(b, i), 4),
            w[i],
            seen.union(chains_ids(w.take(i))),
            n,
        ),
{
    assert(cell_fits(p, b, i, w[i]));
    let before = seen.union(chains_ids(w.take(i)));
    assert forall|k: int| 0 <= k < w[i].len() implies 1 <= #[trigger] w[i][k] < n
        && !before.contains(w[i][k]) by {
        let x = w[i][k];
        assert(w[i].contains(x));
        if chains_ids(w.take(i)).contains(x) {
            let j = choose|j: int|
                0 <= j < w.take(i).len() && (#[trigger] w.take(i)[j]).contains(x);
            assert(w[j].contains(x));
        }
    }
}

/// The pages of a list of chains that grew.
proof fn lemma_chains_grow(chains: Seq<Seq<u32>>, ids: Seq<u32>)
    ensures
        chains_ids(chains.push(ids)) =~= chains_ids(chains).union(ids.to_set()),
        chain_pages(chains.push(ids)) == chain_pages(chains) + ids.len(),
{
    let t = chains.push(ids);
    assert(t.drop_last() =~= chains);
    assert forall|x: u32| chains_ids(t).contains(x) <==> chains_ids(chains).contains(x)
        || ids.contains(x) by {
        if chains_ids(chains).contains(x) {
            let i = choose|i: int| 0 <= i < chains.len() && (#[trigger] chains[i]).contains(x);
            assert(t[i].contains(x));
        }
        if ids.contains(x) {
            assert(t[chains.len() as int].contains(x));
        }
        if chains_ids(t).contains(x) {
            let i = choose|i: int| 0 <= i < t.len() && (#[trigger] t[i]).contains(x);
            if i < chains.len() {
                assert(chains[i].contains(x));
            }
        }
    }
}

// ---- growing lists of children -----------------------------------------------------------------

proof fn lemma_leaves_same(a: Seq<Tree>, b: Seq<Tree>, n: int)
    requires
        0 <= n <= a.len(),
        n <= b.len(),
        forall|i: int| 0 <= i < n ==> a[i] == b[i],
    ensures
        leaves_upto(a, n) == leaves_upto(b, n),
    decreases n,
{
    if n > 0 {
        lemma_leaves_same(a, b, n - 1);
    }
}

proof fn lemma_tally_same(pages: Map<u32, Seq<u8>>, a: Seq<Tree>, b: Seq<Tree>, n: int, min: int)
    requires
        0 <= n <= a.len(),
        n <= b.len(),
        forall|i: int| 0 <= i < n ==> a[i] == b[i],
    ensures
        tally_upto(pages, a, n, min) == tally_upto(pages, b, n, min),
    decreases n,
{
    if n > 0 {
        lemma_tally_same(pages, a, b, n - 1, min);
    }
}

/// One more child.
proof fn lemma_kid_pushed(pages: Map<u32, Seq<u8>>, kids: Seq<Tree>, t: Tree, min: int)
    ensures
        ({
            let n = kids.len() as int;
            &&& leaves_upto(kids.push(t), n + 1) == leaves_upto(kids, n) + leaves(t)
            &&& tally_upto(pages, kids.push(t), n + 1, min) == plus(
                tally_upto(pages, kids, n, min),
                tally(pages, t, min, true),
            )
            &&& kid_set(kids.push(t)) =~= kid_set(kids).union(ids_of(t))
        }),
{
    let n = kids.len() as int;
    let all = kids.push(t);
    lemma_leaves_same(all, kids, n);
    lemma_tally_same(pages, all, kids, n, min);
    assert(all[n] == t);
    assert forall|x: u32| kid_set(all).contains(x) <==> kid_set(kids).contains(x) || ids_of(
        t,
    ).contains(x) by {
        if kid_set(kids).contains(x) {
            let i = choose|i: int| 0 <= i < kids.len() && ids_of(#[trigger] kids[i]).contains(x);
            assert(ids_of(all[i]).contains(x));
        }
        if ids_of(t).contains(x) {
            assert(ids_of(all[n]).contains(x));
        }
        if kid_set(all).contains(x) {
            let i = choose|i: int| 0 <= i < all.len() && ids_of(#[trigger] all[i]).contains(x);
            if i < n {
                assert(ids_of(kids[i]).contains(x));
            }
        }
    }
}

/// The pages of a list of children.
pub open spec fn kid_set(kids: Seq<Tree>) -> Set<u32> {
    Set::new(|x: u32| exists|i: int| 0 <= i < kids.len() && ids_of(#[trigger] kids[i]).contains(x))
}

// ---- checking nodes ----------------------------------------------------------------------------------

/// A report with a tally added.
pub open spec fn tallied(r0: TreeReport, r1: TreeReport, c: Tally) -> bool {
    &&& r1.depth == r0.depth
    &&& r1.keys == r0.keys + c.keys
    &&& r1.leaf_pages == r0.leaf_pages + c.leaf
    &&& r1.internal_pages == r0.internal_pages + c.internal
    &&& r1.overflow_pages == r0.overflow_pages + c.overflow
    &&& r1.free_pages == r0.free_pages
    &&& r1.unreachable_pages == r0.unreachable_pages
    &&& r1.underfull_leaves == r0.underfull_leaves + c.underfull
}

/// A tree as it was expected below some page, at some depth.
spec fn fits(
    pages: Map<u32, Seq<u8>>,
    t: Tree,
    h: nat,
    id: u32,
    lo: KeyBound,
    hi: KeyBound,
    depth: int,
    st: CheckState,
) -> bool {
    &&& id_of(t) == id
    &&& shape(pages, t, lo, hi)
    &&& distinct(t)
    &&& uniform(t, h)
    &&& depth + h <= 64
    &&& in_file(st.page_count, ids_of(t))
    &&& ids_of(t).disjoint(st.seen@)
    &&& st.leaf_depth matches Some(d) ==> d == depth + h
}

/// What checking the tree below a page established.
#[verifier::opaque]
spec fn checked(
    pages: Map<u32, Seq<u8>>,
    t: Tree,
    id: u32,
    lo: KeyBound,
    hi: KeyBound,
    depth: int,
    min: int,
    a: CheckState,
    b: CheckState,
) -> bool {
    &&& id_of(t) == id
    &&& shape(pages, t, lo, hi)
    &&& distinct(t)
    &&& reached(a, b, ids_of(t))
    &&& b.inv()
    &&& b.leaves@ == a.leaves@ + leaves(t)
    &&& b.leaf_depth is Some
    &&& depth <= b.leaf_depth->0 <= 64
    &&& uniform(t, (b.leaf_depth->0 - depth) as nat)
    &&& a.leaf_depth is Some ==> a.leaf_depth == b.leaf_depth
    &&& tallied(a.report, b.report, tally(pages, t, min, depth > 1))
}

/// The chains of an expected leaf are expected.
proof fn lemma_want_leaf(
    p: Map<u32, Seq<u8>>,
    id: u32,
    chains: Seq<Seq<u32>>,
    lo: KeyBound,
    hi: KeyBound,
    seen: Set<u32>,
    n: u32,
)
    requires
        shape(p, Tree::Leaf { id, chains }, lo, hi),
        distinct(Tree::Leaf { id, chains }),
        in_file(n, ids_of(Tree::Leaf { id, chains })),
        ids_of(Tree::Leaf { id, chains }).disjoint(seen),
    ensures
        leaf_fits(p, p[id], chains, seen.insert(id), n),
{
    let t = Tree::Leaf { id, chains };
    assert forall|i: int, x: u32|
        0 <= i < chains.len() && (#[trigger] chains[i].contains(x)) implies 1 <= x < n
        && !seen.insert(id).contains(x) by {
        assert(ids_of(t).contains(x));
    }
}

/// A checked leaf.
#[verifier::spinoff_prover]
proof fn lemma_leaf_checked(
    p: Map<u32, Seq<u8>>,
    id: u32,
    chains: Seq<Seq<u32>>,
    lo: KeyBound,
    hi: KeyBound,
    depth: int,
    min: int,
    a: CheckState,
    m: CheckState,
    b: CheckState,
)
    requires
        p.contains_key(id),
        type_of(p[id]) == Some(PageType::Leaf),
        keys_in(p[id], lo, hi),
        1 <= id < a.page_count,
        !a.seen@.contains(id),
        m.page_count == a.page_count,
        m.seen@ == a.seen@.insert(id),
        leaf_fits(p, p[id], chains, m.seen@, m.page_count),
        reached(m, b, chains_ids(chains)),
        b.inv(),
        b.leaves@ == a.leaves@.push(id),
        1 <= depth <= 64,
        b.leaf_depth == Some(depth as u32),
        a.leaf_depth is Some ==> a.leaf_depth == b.leaf_depth,
        tallied(
            a.report,
            b.report,
            tally(p, Tree::Leaf { id, chains }, min, depth > 1),
        ),
    ensures
        checked(p, Tree::Leaf { id, chains }, id, lo, hi, depth, min, a, b),
{
    reveal(checked);
    let t = Tree::Leaf { id, chains };
    assert(ids_of(t) =~= chains_ids(chains).insert(id));
    assert(b.seen@ =~= a.seen@.union(ids_of(t)));
    assert(leaves(t) == seq![id]);
    assert(a.leaves@.push(id) =~= a.leaves@ + leaves(t));
    assert forall|i: int| 0 <= i < chains.len() implies !(#[trigger] chains[i]).contains(id) by {
        if chains[i].contains(id) {
            assert(!m.seen@.contains(id));
        }
    }
    assert(in_file(a.page_count, ids_of(t)));
    assert(a.seen@.disjoint(ids_of(t)));
}

impl BTree {
    /// Checks the leaf page `id`.
    #[verifier::rlimit(40)]
    #[verifier::spinoff_prover]
    fn check_leaf(
        &self,
        pager: &mut Pager,
        page: &Page,
        id: u32,
        depth: u32,
        state: &mut CheckState,
        Ghost(st0): Ghost<CheckState>,
        Ghost(lo): Ghost<KeyBound>,
        Ghost(hi): Ghost<KeyBound>,
        Ghost(want): Ghost<Option<(Tree, nat)>>,
    ) -> (r: Result<Ghost<Tree>>)
        requires
            old(pager).inv(),
            st0.inv(),
            old(pager)@.pages.contains_key(id),
            page@ == old(pager)@.pages[id],
            type_of(page@) == Some(PageType::Leaf),
            keys_in(page@, lo, hi),
            1 <= depth <= 64,
            1 <= id < st0.page_count,
            !st0.seen@.contains(id),
            old(state).seen@ == st0.seen@.insert(id),
            old(state).leaves == st0.leaves,
            old(state).leaf_depth == st0.leaf_depth,
            old(state).report == st0.report,
            old(state).page_count == st0.page_count,
        ensures
            final(pager).inv(),
            grows(*old(pager), *final(pager)),
            final(pager).dirty() == old(pager).dirty(),
            final(pager)@ == old(pager)@,
            match r {
                Ok(out) => checked(
                    old(pager)@.pages,
                    out@,
                    id,
                    lo,
                    hi,
                    depth as int,
                    self.fill_spec().min as int,
                    st0,
                    *final(state),
                ) && (want is Some && fits(
                    old(pager)@.pages,
                    (want->0).0,
                    (want->0).1,
                    id,
                    lo,
                    hi,
                    depth as int,
                    st0,
                ) ==> out@ == (want->0).0),
                Err(e) => e is Corruption && !(want is Some && fits(
                    old(pager)@.pages,
                    (want->0).0,
                    (want->0).1,
                    id,
                    lo,
                    hi,
                    depth as int,
                    st0,
                )),
            },
    {
        let ghost p = pager@.pages;
        let ghost b = page@;
        let ghost w = (want->0).0;
        let ghost ok = want is Some && fits(
            p,
            w,
            (want->0).1,
            id,
            lo,
            hi,
            depth as int,
            st0,
        );
        let ghost min = self.fill_spec().min as int;
        proof {
            if ok {
                assert(w is Leaf);
            }
        }
        match state.leaf_depth {
            None => {
                state.leaf_depth = Some(depth);
            },
            Some(d) => {
                if d != depth {
                    return Err(Error::corrupt("leaves lie at different depths"));
                }
            },
        }
        state.leaves.push(id);
        let n: usize = page.num_keys() as usize;
        proof {
            lemma_few(st0.page_count, state.seen@);
            assert(state.seen@.len() == st0.seen@.len() + 1);
        }
        state.report.leaf_pages = state.report.leaf_pages + 1;
        state.report.keys = state.report.keys + n as u64;
        let free: usize = page.free_space();
        let min_used: usize = self.fill_factor().min_used_bytes();
        if depth > 1 && (free > USABLE_SPACE || USABLE_SPACE - free < min_used) {
            state.report.underfull_leaves = state.report.underfull_leaves + 1;
        }
        let ghost st1 = *state;
        proof {
            assert forall|i: int| 0 <= i < num_keys_of(b) implies slot_ok(b, i) by {
                assert(key_at(b, i) is Some);
            }
            if ok {
                lemma_want_leaf(p, id, w->chains, lo, hi, st0.seen@, st0.page_count);
            }
        }
        let ghost chains_want: Option<Seq<Seq<u32>>> = if ok {
            Some(w->chains)
        } else {
            None
        };
        let Ghost(chains) = check_chains(pager, page, state, Ghost(chains_want))?;
        proof {
            lemma_leaf_checked(p, id, chains, lo, hi, depth as int, min, st0, st1, *state);
        }
        Ok(Ghost(Tree::Leaf { id, chains }))
    }
}

/// A child that is expected where the walk of a node gets to it.
#[verifier::spinoff_prover]
proof fn lemma_want_kid(
    p: Map<u32, Seq<u8>>,
    id: u32,
    w: Seq<Tree>,
    h: nat,
    lo: KeyBound,
    hi: KeyBound,
    depth: int,
    st0: CheckState,
    st: CheckState,
    j: int,
)
    requires
        fits(p, Tree::Node { id, kids: w }, h, id, lo, hi, depth, st0),
        0 <= j < w.len(),
        st.page_count == st0.page_count,
        st.seen@ == st0.seen@.insert(id).union(kid_set(w.take(j))),
        st.leaf_depth matches Some(d) ==> d == depth + h,
    ensures
        h > 0,
        fits(
            p,
            w[j],
            (h - 1) as nat,
            child_of(p[id], j),
            slot_lo(p[id], j, lo),
            slot_hi(p[id], j, hi),
            depth + 1,
            st,
        ),
{
    let t = Tree::Node { id, kids: w };
    let u = w[j];
    assert(id_of(u) == child_of(p[id], j));
    assert(uniform(u, (h - 1) as nat));
    assert(distinct(u));
    assert forall|x: u32| #[trigger] ids_of(u).contains(x) implies 1 <= x < st.page_count
        && !st.seen@.contains(x) by {
        crate::btree::lemma_kid_in(id, w, j, x);
        if kid_set(w.take(j)).contains(x) {
            let i = choose|i: int|
                0 <= i < w.take(j).len() && ids_of(#[trigger] w.take(j)[i]).contains(x);
            assert(ids_of(w[i]).contains(x));
            assert(!ids_of(w[j]).contains(x));
        }
    }
}

/// The children of a node that were checked so far.
spec fn checked_upto(
    p: Map<u32, Seq<u8>>,
    id: u32,
    kids: Seq<Tree>,
    lo: KeyBound,
    hi: KeyBound,
    depth: int,
    min: int,
    st0: CheckState,
    st: CheckState,
) -> bool {
    let n = kids.len() as int;
    &&& st.inv()
    &&& st.page_count == st0.page_count
    &&& st.seen@ == st0.seen@.insert(id).union(kid_set(kids))
    &&& st.leaves@ == st0.leaves@ + leaves_upto(kids, n)
    &&& tallied(
        st0.report,
        st.report,
        plus(
            tally_upto(p, kids, n, min),
            (Tally { leaf: 0, internal: 1, overflow: 0, keys: 0, underfull: 0 }),
        ),
    )
    &&& n > 0 ==> st.leaf_depth is Some && depth + 1 <= st.leaf_depth->0 <= 64
    &&& st0.leaf_depth is Some ==> st.leaf_depth == st0.leaf_depth
    &&& n == 0 ==> st.leaf_depth == st0.leaf_depth
    &&& forall|j: int| 0 <= j < n ==> kid_checked(p, id, kids, lo, hi, depth, st0, st, j)
    &&& kids_apart(kids)
}

/// One child that was checked.
spec fn kid_checked(
    p: Map<u32, Seq<u8>>,
    id: u32,
    kids: Seq<Tree>,
    lo: KeyBound,
    hi: KeyBound,
    depth: int,
    st0: CheckState,
    st: CheckState,
    j: int,
) -> bool {
    let u = kids[j];
    &&& id_of(u) == child_of(p[id], j)
    &&& shape(p, u, slot_lo(p[id], j, lo), slot_hi(p[id], j, hi))
    &&& distinct(u)
    &&& uniform(u, (st.leaf_depth->0 - depth - 1) as nat)
    &&& ids_of(u).disjoint(st0.seen@.insert(id))
    &&& in_file(st0.page_count, ids_of(u))
}

/// One more child was checked.
#[verifier::spinoff_prover]
proof fn lemma_kid_checked(
    p: Map<u32, Seq<u8>>,
    id: u32,
    kids: Seq<Tree>,
    lo: KeyBound,
    hi: KeyBound,
    depth: int,
    min: int,
    st0: CheckState,
    a: CheckState,
    b: CheckState,
    u: Tree,
)
    requires
        checked_upto(p, id, kids, lo, hi, depth, min, st0, a),
        depth >= 1,
        checked(
            p,
            u,
            child_of(p[id], kids.len() as int),
            slot_lo(p[id], kids.len() as int, lo),
            slot_hi(p[id], kids.len() as int, hi),
            depth + 1,
            min,
            a,
            b,
        ),
    ensures
        checked_upto(p, id, kids.push(u), lo, hi, depth, min, st0, b),
{
    reveal(checked);
    let n = kids.len() as int;
    let all = kids.push(u);
    lemma_kid_pushed(p, kids, u, min);
    assert(b.seen@ =~= st0.seen@.insert(id).union(kid_set(all)));
    assert(b.leaves@ =~= st0.leaves@ + leaves_upto(all, n + 1));
    assert forall|j: int| 0 <= j < all.len() implies #[trigger] kid_checked(
        p,
        id,
        all,
        lo,
        hi,
        depth,
        st0,
        b,
        j,
    ) by {
        if j < n {
            assert(all[j] == kids[j]);
            assert(kid_checked(p, id, kids, lo, hi, depth, st0, a, j));
        } else {
            assert(all[j] == u);
        }
    }
    assert(kids_apart(all)) by {
        assert forall|x: int, y: int, v: u32|
            0 <= x < y < all.len() && #[trigger] ids_of(all[x]).contains(v) implies !#[trigger] ids_of(
            all[y],
        ).contains(v) by {
            assert(all[x] == kids[x]);
            if y < n {
                assert(all[y] == kids[y]);
                assert(ids_of(kids[x]).contains(v));
            } else {
                assert(kid_set(kids).contains(v));
                assert(a.seen@.contains(v));
            }
        }
    }
}

/// A node whose children were all checked.
#[verifier::spinoff_prover]
proof fn lemma_node_checked(
    p: Map<u32, Seq<u8>>,
    id: u32,
    kids: Seq<Tree>,
    lo: KeyBound,
    hi: KeyBound,
    depth: int,
    min: int,
    st0: CheckState,
    b: CheckState,
)
    requires
        checked_upto(p, id, kids, lo, hi, depth, min, st0, b),
        p.contains_key(id),
        type_of(p[id]) == Some(PageType::Internal),
        keys_in(p[id], lo, hi),
        kids.len() == num_keys_of(p[id]) + 1,
        1 <= id < st0.page_count,
        !st0.seen@.contains(id),
        1 <= depth,
    ensures
        checked(p, Tree::Node { id, kids }, id, lo, hi, depth, min, st0, b),
{
    reveal(checked);
    let t = Tree::Node { id, kids };
    assert(ids_of(t) =~= kid_set(kids).insert(id));
    assert(b.seen@ =~= st0.seen@.union(ids_of(t)));
    let h = (b.leaf_depth->0 - depth) as nat;
    assert forall|j: int| 0 <= j < kids.len() implies id_of(#[trigger] kids[j]) == child_of(
        p[id],
        j,
    ) && shape(p, kids[j], slot_lo(p[id], j, lo), slot_hi(p[id], j, hi)) && distinct(kids[j])
        && uniform(kids[j], (h - 1) as nat) && !ids_of(kids[j]).contains(id) by {
        assert(kid_checked(p, id, kids, lo, hi, depth, st0, b, j));
        assert(st0.seen@.insert(id).contains(id));
    }
    assert forall|x: u32| #[trigger] ids_of(t).contains(x) implies 1 <= x < st0.page_count
        && !st0.seen@.contains(x) by {
        if x != id {
            let j = choose|j: int| 0 <= j < kids.len() && ids_of(#[trigger] kids[j]).contains(x);
            assert(kid_checked(p, id, kids, lo, hi, depth, st0, b, j));
        }
    }
}

impl BTree {
    /// Checks the tree below page `id`.
    #[verifier::rlimit(80)]
    #[verifier::spinoff_prover]
    fn check_node(
        &self,
        pager: &mut Pager,
        id: u32,
        lo: Option<&[u8]>,
        hi: Option<&[u8]>,
        depth: u32,
        state: &mut CheckState,
        Ghost(want): Ghost<Option<(Tree, nat)>>,
    ) -> (r: Result<Ghost<Tree>>)
        requires
            old(pager).inv(),
            old(state).inv(),
            1 <= depth <= 65,
        ensures
            final(pager).inv(),
            grows(*old(pager), *final(pager)),
            final(pager).dirty() == old(pager).dirty(),
            final(pager)@ == old(pager)@,
            match r {
                Ok(out) => checked(
                    old(pager)@.pages,
                    out@,
                    id,
                    bound(lo),
                    bound(hi),
                    depth as int,
                    self.fill_spec().min as int,
                    *old(state),
                    *final(state),
                ) && (want is Some && fits(
                    old(pager)@.pages,
                    (want->0).0,
                    (want->0).1,
                    id,
                    bound(lo),
                    bound(hi),
                    depth as int,
                    *old(state),
                ) ==> out@ == (want->0).0),
                Err(e) => e is Corruption && !(want is Some && fits(
                    old(pager)@.pages,
                    (want->0).0,
                    (want->0).1,
                    id,
                    bound(lo),
                    bound(hi),
                    depth as int,
                    *old(state),
                )),
            },
        decreases 65 - depth,
    {
        let ghost s = pager@;
        let ghost p = s.pages;
        let ghost st0 = *state;
        let ghost lb = bound(lo);
        let ghost ub = bound(hi);
        let ghost w = (want->0).0;
        let ghost h = (want->0).1;
        let ghost ok = want is Some && fits(p, w, h, id, lb, ub, depth as int, st0);
        let ghost min = self.fill_spec().min as int;
        if depth as usize > MAX_DEPTH {
            return Err(Error::corrupt("B+Tree depth exceeded 64 levels (cycle?)"));
        }
        proof {
            if ok {
                crate::btree::lemma_root_in(w);
            }
        }
        if id == 0 || id >= state.page_count {
            return Err(Error::corrupt("tree references a page outside the file"));
        }
        if !state.mark(id) {
            return Err(Error::corrupt("a page is reachable twice"));
        }
        let page: Page = pager.read_page(id)?;
        let ghost b = page@;
        check_keys(&page, lo, hi)?;
        let kind: PageType = page.page_type()?;
        if kind == PageType::Leaf {
            return self.check_leaf(
                pager,
                &page,
                id,
                depth,
                state,
                Ghost(st0),
                Ghost(lb),
                Ghost(ub),
                Ghost(want),
            );
        }
        if kind != PageType::Internal {
            return Err(Error::corrupt("tree references a page of another kind"));
        }
        proof {
            lemma_few(st0.page_count, state.seen@);
            if ok {
                assert(w == (Tree::Node { id, kids: w->kids }));
            }
        }
        state.report.internal_pages = state.report.internal_pages + 1;
        let n: usize = page.num_keys() as usize;
        let mut child_lo: Option<&[u8]> = lo;
        let mut slot: usize = 0;
        let ghost mut kids: Seq<Tree> = Seq::empty();
        let ghost wk = w->kids;
        proof {
            assert(kid_set(kids) =~= Set::<u32>::empty());
            assert(state.seen@ =~= st0.seen@.insert(id).union(kid_set(kids)));
            assert(st0.leaves@ + leaves_upto(kids, 0) =~= st0.leaves@);
            assert(wk.take(0) =~= Seq::<Tree>::empty());
        }
        while slot <= n
            invariant
                pager.inv(),
                grows(*old(pager), *pager),
                pager.dirty() == old(pager).dirty(),
                pager@ == s,
                s == old(pager)@,
                p == s.pages,
                st0 == *old(state),
                lb == bound(lo),
                ub == bound(hi),
                b == page@,
                b == p[id],
                keys_in(b, lb, ub),
                n == num_keys_of(b),
                slot <= n + 1,
                1 <= depth <= 64,
                slot <= n ==> bound(child_lo) == slot_lo(b, slot as int, lb),
                ok == (want is Some && fits(p, w, h, id, lb, ub, depth as int, st0)),
                ok ==> w == (Tree::Node { id, kids: wk }) && h > 0 && wk.len() == n + 1,
                w == (want->0).0,
                h == (want->0).1,
                kids.len() == slot,
                min == self.fill_spec().min,
                checked_upto(p, id, kids, lb, ub, depth as int, min, st0, *state),
                ok ==> kids == wk.take(slot as int),
                ok ==> (state.leaf_depth matches Some(d) ==> d == depth + h),
            decreases n + 1 - slot,
        {
            let ghost st1 = *state;
            let ghost j = slot as int;
            proof {
                if slot < n {
                    assert(key_at(b, j) is Some);
                }
                if slot > 0 {
                    assert(key_at(b, j - 1) is Some);
                }
            }
            let child_hi: Option<&[u8]> = if slot < n {
                Some(page.cell_key(slot)?)
            } else {
                hi
            };
            let ghost one: Option<(Tree, nat)> = if ok {
                Some((wk[j], (h - 1) as nat))
            } else {
                None
            };
            proof {
                if ok {
                    lemma_want_kid(p, id, wk, h, lb, ub, depth as int, st0, st1, j);
                    crate::btree::lemma_root_in(wk[j]);
                    assert(child_of(b, j) < st0.page_count);
                }
            }
            let child: u32 = child_at(&page, slot)?;
            let Ghost(u) = self.check_node(
                pager,
                child,
                child_lo,
                child_hi,
                depth + 1,
                state,
                Ghost(one),
            )?;
            proof {
                lemma_kid_checked(
                    p,
                    id,
                    kids,
                    lb,
                    ub,
                    depth as int,
                    min,
                    st0,
                    st1,
                    *state,
                    u,
                );
                reveal(checked);
                if ok {
                    assert(u == wk[j]);
                    assert(wk.take(j + 1) =~= wk.take(j).push(wk[j]));
                    assert(state.leaf_depth->0 == depth + h) by {
                        lemma_uniform_unique(
                            u,
                            (h - 1) as nat,
                            (state.leaf_depth->0 - depth - 1) as nat,
                        );
                    }
                }
                kids = kids.push(u);
            }
            child_lo = child_hi;
            slot += 1;
        }
        proof {
            lemma_node_checked(p, id, kids, lb, ub, depth as int, min, st0, *state);
            if ok {
                assert(wk.take(slot as int) =~= wk);
            }
        }
        Ok(Ghost(Tree::Node { id, kids }))
    }
}

/// A tree has one height.
proof fn lemma_uniform_unique(t: Tree, a: nat, b: nat)
    requires
        uniform(t, a),
        uniform(t, b),
    ensures
        a == b,
    decreases t,
{
    match t {
        Tree::Leaf { .. } => {},
        Tree::Node { kids, .. } => {
            assert(uniform(kids[0], (a - 1) as nat));
            assert(uniform(kids[0], (b - 1) as nat));
            lemma_uniform_unique(kids[0], (a - 1) as nat, (b - 1) as nat);
        },
    }
}

// ---- the whole database ------------------------------------------------------------------------------

/// Some tree and free list make the database sound.
pub open spec fn is_sound(s: PagerState) -> bool {
    exists|t: Tree, h: nat, free: Seq<u32>| sound(s, t, h, free)
}

/// The leaf chain up to leaf `n` is as it should be.
spec fn chain_upto(s: PagerState, ids: Seq<u32>, n: int) -> bool {
    &&& 0 <= n <= ids.len()
    &&& forall|i: int| 0 <= i < n ==> extra_of(s.pages[#[trigger] ids[i]]) == link(ids, i + 1)
}

/// Walks the chain of leaves, which must be exactly `ids`.
#[verifier::rlimit(40)]
fn check_leaf_chain(
    tree: &BTree,
    pager: &mut Pager,
    ids: &Vec<u32>,
    Ghost(t): Ghost<Tree>,
) -> (r: Result<()>)
    requires
        old(pager).inv(),
        ids@ == leaves(t),
        ids@.len() > 0,
        ids@.len() <= old(pager)@.meta.page_count,
        forall|i: int|
            0 <= i < ids@.len() ==> 1 <= #[trigger] ids@[i] < old(pager)@.meta.page_count
                && old(pager)@.pages.contains_key(ids@[i]),
        ids@.no_duplicates(),
    ensures
        final(pager).inv(),
        grows(*old(pager), *final(pager)),
        final(pager).dirty() == old(pager).dirty(),
        final(pager)@ == old(pager)@,
        ({
            let s = old(pager)@;
            let fine = leftmost(s.pages, s.meta.root, 64) == Some(link(ids@, 0)) && chain_upto(
                s,
                ids@,
                ids@.len() as int,
            );
            match r {
                Ok(_) => fine,
                Err(e) => e is Corruption && !fine,
            }
        }),
{
    let ghost s = pager@;
    let mut chain_id: u32 = tree.first_leaf(pager)?;
    let ghost first = chain_id;
    let mut guard: LeafChainGuard = LeafChainGuard::new(pager);
    let mut position: usize = 0;
    while chain_id != SENTINEL
        invariant
            pager.inv(),
            grows(*old(pager), *pager),
            pager.dirty() == old(pager).dirty(),
            pager@ == s,
            s == old(pager)@,
            leftmost(s.pages, s.meta.root, 64) == Some(first),
            position <= ids@.len(),
            0 < ids@.len() <= s.meta.page_count,
            guard.remaining == s.meta.page_count - position,
            forall|i: int|
                0 <= i < ids@.len() ==> 1 <= #[trigger] ids@[i] < s.meta.page_count
                    && s.pages.contains_key(ids@[i]),
            position == 0 ==> chain_id == first,
            position > 0 ==> first == ids@[0] && chain_id == extra_of(s.pages[ids@[position - 1]]),
            position > 0 ==> chain_upto(s, ids@, position - 1),
        decreases guard.remaining,
    {
        proof {
            if position == ids@.len() && position > 0 {
                // The chain goes on behind the last leaf.
                assert(link(ids@, position as int) == SENTINEL);
                assert(chain_id != link(ids@, position as int));
            }
        }
        if guard.remaining == 0 {
            proof {
                assert(!chain_upto(s, ids@, ids@.len() as int)) by {
                    if chain_upto(s, ids@, ids@.len() as int) && position > 0 {
                        assert(extra_of(s.pages[ids@[position - 1]]) == link(ids@, position as int));
                    }
                }
            }
        }
        guard.step()?;
        if position >= ids.len() || ids[position] != chain_id {
            proof {
                if position == 0 {
                    assert(first != link(ids@, 0));
                } else {
                    assert(chain_id != link(ids@, position as int));
                    assert(!chain_upto(s, ids@, ids@.len() as int)) by {
                        if chain_upto(s, ids@, ids@.len() as int) {
                            assert(extra_of(s.pages[ids@[position - 1]]) == link(
                                ids@,
                                position as int,
                            ));
                        }
                    }
                }
            }
            return Err(Error::corrupt("the leaf chain leaves the tree order"));
        }
        proof {
            if position > 0 {
                assert(chain_upto(s, ids@, position as int)) by {
                    assert forall|i: int| 0 <= i < position implies extra_of(
                        s.pages[#[trigger] ids@[i]],
                    ) == link(ids@, i + 1) by {}
                }
            }
        }
        position += 1;
        let page: Page = pager.read_page(chain_id)?;
        chain_id = page.extra();
    }
    if position != ids.len() {
        proof {
            if position == 0 {
                assert(first == SENTINEL);
                assert(link(ids@, 0) == ids@[0]);
            } else if chain_upto(s, ids@, ids@.len() as int) {
                assert(extra_of(s.pages[ids@[position - 1]]) == link(ids@, position as int));
                assert(ids@[position as int] != SENTINEL);
            }
        }
        return Err(Error::corrupt("the leaf chain ends before the last leaf"));
    }
    proof {
        assert(chain_upto(s, ids@, ids@.len() as int)) by {
            assert forall|i: int| 0 <= i < ids@.len() implies extra_of(
                s.pages[#[trigger] ids@[i]],
            ) == link(ids@, i + 1) by {}
        }
    }
    Ok(())
}

/// A free list apart from the pages `used`.
pub open spec fn free_fits(s: PagerState, free: Seq<u32>, used: Set<u32>) -> bool {
    &&& free_ok(s, free)
    &&& forall|i: int| 0 <= i < free.len() ==> !used.contains(#[trigger] free[i])
}

/// Walks the free list, which must not share a page with the tree.
#[verifier::rlimit(60)]
#[verifier::spinoff_prover]
fn check_free_list(pager: &mut Pager, state: &mut CheckState) -> (r: Result<Ghost<Seq<u32>>>)
    requires
        old(pager).inv(),
        old(state).inv(),
        old(state).report.free_pages == 0,
        old(state).page_count == old(pager)@.meta.page_count,
    ensures
        final(pager).inv(),
        grows(*old(pager), *final(pager)),
        final(pager).dirty() == old(pager).dirty(),
        final(pager)@ == old(pager)@,
        match r {
            Ok(out) => {
                &&& free_fits(old(pager)@, out@, old(state).seen@)
                &&& final(state).inv()
                &&& final(state).report == (TreeReport {
                    free_pages: final(state).report.free_pages,
                    ..old(state).report
                })
                &&& final(state).report.free_pages == out@.len()
                &&& final(state).leaf_depth == old(state).leaf_depth
                &&& final(state).page_count == old(state).page_count
            },
            Err(e) => e is Corruption && forall|f: Seq<u32>|
                !free_fits(old(pager)@, f, old(state).seen@),
        },
{
    let ghost s = pager@;
    let ghost st0 = *state;
    let ghost used = state.seen@;
    let ghost ok = exists|f: Seq<u32>| free_fits(s, f, used);
    let ghost w = choose|f: Seq<u32>| free_fits(s, f, used);
    let mut free_id: u32 = pager.meta().free_list;
    let page_count: u32 = pager.meta().page_count;
    let ghost mut ids: Seq<u32> = Seq::empty();
    proof {
        assert(used.union(ids.to_set()) =~= used);
        assert(w.take(0) =~= Seq::<u32>::empty());
    }
    while free_id != SENTINEL
        invariant
            pager.inv(),
            grows(*old(pager), *pager),
            pager.dirty() == old(pager).dirty(),
            pager@ == s,
            s == old(pager)@,
            st0 == *old(state),
            used == st0.seen@,
            page_count == s.meta.page_count,
            st0.page_count == page_count,
            ok == (exists|f: Seq<u32>| free_fits(s, f, used)),
            ok ==> free_fits(s, w, used),
            state.inv(),
            state.page_count == page_count,
            state.leaf_depth == st0.leaf_depth,
            state.report == (TreeReport {
                free_pages: state.report.free_pages,
                ..st0.report
            }),
            state.report.free_pages == ids.len(),
            state.seen@ == used.union(ids.to_set()),
            ids.no_duplicates(),
            ids.len() == 0 ==> free_id == s.meta.free_list,
            ids.len() > 0 ==> ids[0] == s.meta.free_list && free_id == extra_of(
                s.pages[ids[ids.len() - 1]],
            ),
            forall|i: int|
                0 <= i < ids.len() ==> 1 <= #[trigger] ids[i] < page_count && !used.contains(ids[i])
                    && s.pages.contains_key(ids[i]) && type_of(s.pages[ids[i]]) == Some(
                    PageType::Free,
                ),
            forall|i: int|
                0 <= i < ids.len() - 1 ==> extra_of(s.pages[#[trigger] ids[i]]) == link(ids, i + 1),
            ok ==> ids.len() <= w.len() && ids == w.take(ids.len() as int) && free_id == link(
                w,
                ids.len() as int,
            ),
        decreases page_count - state.seen@.len(),
    {
        proof {
            lemma_few(page_count, state.seen@);
            if ok {
                assert(ids.len() < w.len());
                assert(w[ids.len() as int] == free_id);
                assert(!ids.contains(free_id)) by {
                    if ids.contains(free_id) {
                        let i = choose|i: int| 0 <= i < ids.len() && ids[i] == free_id;
                        assert(w[i] == ids[i]);
                    }
                }
            }
        }
        if free_id == 0 || free_id >= page_count {
            return Err(Error::corrupt("free list points outside the file"));
        }
        if !state.mark(free_id) {
            proof {
                if ok {
                    assert(ids.to_set().contains(free_id));
                }
            }
            return Err(Error::corrupt("a page is both in use and on the free list"));
        }
        let page: Page = pager.read_page(free_id)?;
        let kind: PageType = page.page_type()?;
        if kind != PageType::Free {
            return Err(Error::corrupt("free list holds a page of another kind"));
        }
        let ghost prior = ids;
        proof {
            ids = prior.push(free_id);
            assert(!prior.contains(free_id)) by {
                if prior.contains(free_id) {
                    assert(prior.to_set().contains(free_id));
                }
            }
            lemma_push_set(prior, free_id);
            assert(state.seen@ =~= used.union(ids.to_set()));
            lemma_few(page_count, state.seen@);
            assert(ids.no_duplicates()) by {
                assert forall|x: int, y: int|
                    0 <= x < ids.len() && 0 <= y < ids.len() && x != y implies ids[x] != ids[y] by {
                    if x < prior.len() {
                        assert(prior.contains(prior[x]));
                    }
                    if y < prior.len() {
                        assert(prior.contains(prior[y]));
                    }
                }
            }
            assert forall|i: int| 0 <= i < ids.len() - 1 implies extra_of(
                s.pages[#[trigger] ids[i]],
            ) == link(ids, i + 1) by {
                if i < prior.len() - 1 {
                    assert(extra_of(s.pages[prior[i]]) == link(prior, i + 1));
                }
            }
            if ok {
                assert(w.take(ids.len() as int) =~= ids);
                assert(extra_of(s.pages[w[prior.len() as int]]) == link(
                    w,
                    prior.len() as int + 1,
                ));
            }
        }
        state.report.free_pages = state.report.free_pages + 1;
        free_id = page.extra();
    }
    proof {
        assert forall|i: int| 0 <= i < ids.len() implies extra_of(s.pages[#[trigger] ids[i]])
            == link(ids, i + 1) by {}
        assert(free_ok(s, ids));
    }
    Ok(Ghost(ids))
}

/// A checked tree's leaves exist.
proof fn lemma_shape_leaves(
    p: Map<u32, Seq<u8>>,
    t: Tree,
    lo: KeyBound,
    hi: KeyBound,
    h: nat,
)
    requires
        shape(p, t, lo, hi),
        uniform(t, h),
        distinct(t),
    ensures
        leaves(t).len() > 0,
        leaves(t).no_duplicates(),
        forall|i: int|
            0 <= i < leaves(t).len() ==> ids_of(t).contains(#[trigger] leaves(t)[i])
                && p.contains_key(leaves(t)[i]),
    decreases t, 1int, 0int,
{
    match t {
        Tree::Leaf { id, chains } => {},
        Tree::Node { id, kids } => {
            lemma_shape_leaves_upto(p, id, kids, lo, hi, (h - 1) as nat, kids.len() as int);
            let all = leaves(t);
            assert forall|i: int| 0 <= i < all.len() implies ids_of(t).contains(#[trigger] all[i]) by {
                let j = choose|j: int|
                    0 <= j < kids.len() && ids_of(#[trigger] kids[j]).contains(all[i]);
                crate::btree::lemma_kid_in(id, kids, j, all[i]);
            }
        },
    }
}

proof fn lemma_shape_leaves_upto(
    p: Map<u32, Seq<u8>>,
    id: u32,
    kids: Seq<Tree>,
    lo: KeyBound,
    hi: KeyBound,
    g: nat,
    n: int,
)
    requires
        0 < n <= kids.len(),
        kids_apart(kids),
        forall|j: int|
            0 <= j < kids.len() ==> shape(
                p,
                #[trigger] kids[j],
                slot_lo(p[id], j, lo),
                slot_hi(p[id], j, hi),
            ) && uniform(kids[j], g) && distinct(kids[j]),
    ensures
        ({
            let all = leaves_upto(kids, n);
            &&& all.len() > 0
            &&& all.no_duplicates()
            &&& forall|i: int|
                0 <= i < all.len() ==> p.contains_key(#[trigger] all[i]) && exists|j: int|
                    0 <= j < n && ids_of(#[trigger] kids[j]).contains(all[i])
        }),
    decreases kids, 0int, n,
{
    let u = kids[n - 1];
    lemma_shape_leaves(p, u, slot_lo(p[id], n - 1, lo), slot_hi(p[id], n - 1, hi), g);
    let a = leaves_upto(kids, n - 1);
    let b = leaves(u);
    let all = leaves_upto(kids, n);
    assert(all == a + b);
    if n > 1 {
        lemma_shape_leaves_upto(p, id, kids, lo, hi, g, n - 1);
    }
    assert forall|i: int| 0 <= i < all.len() implies p.contains_key(#[trigger] all[i]) && exists|
        j: int,
    | 0 <= j < n && ids_of(#[trigger] kids[j]).contains(all[i]) by {
        if i < a.len() {
            assert(all[i] == a[i]);
            let j = choose|j: int| 0 <= j < n - 1 && ids_of(#[trigger] kids[j]).contains(a[i]);
            assert(ids_of(kids[j]).contains(all[i]));
        } else {
            assert(all[i] == b[i - a.len()]);
            assert(ids_of(kids[n - 1]).contains(all[i]));
        }
    }
    assert forall|x: int, y: int|
        0 <= x < all.len() && 0 <= y < all.len() && x != y implies all[x] != all[y] by {
        if x < a.len() && y < a.len() {
            assert(all[x] == a[x] && all[y] == a[y]);
        } else if x >= a.len() && y >= a.len() {
            assert(all[x] == b[x - a.len()] && all[y] == b[y - a.len()]);
        } else {
            let (q, z) = if x < a.len() {
                (x, y)
            } else {
                (y, x)
            };
            assert(all[q] == a[q] && all[z] == b[z - a.len()]);
            let j = choose|j: int| 0 <= j < n - 1 && ids_of(#[trigger] kids[j]).contains(a[q]);
            assert(!ids_of(kids[n - 1]).contains(a[q]));
        }
    }
}

/// A sound database's tree is what the walk expects at the root.
proof fn lemma_sound_fits(s: PagerState, t: Tree, h: nat, free: Seq<u32>, st: CheckState)
    requires
        sound(s, t, h, free),
        st.seen@ == Set::<u32>::empty(),
        st.leaf_depth is None,
        st.page_count == s.meta.page_count,
    ensures
        fits(s.pages, t, h, s.meta.root, None, None, 1, st),
        leftmost(s.pages, s.meta.root, 64) == Some(link(leaves(t), 0)),
        chain_upto(s, leaves(t), leaves(t).len() as int),
        free_fits(s, free, ids_of(t)),
{
    reveal(sound);
    assert(ids_of(t).disjoint(st.seen@));
}

/// What the walk from the root leaves to be checked.
proof fn lemma_root_checked(s: PagerState, t: Tree, min: int, st0: CheckState, st: CheckState)
    requires
        checked(s.pages, t, s.meta.root, None, None, 1, min, st0, st),
        st0.seen@ == Set::<u32>::empty(),
        st0.leaves@.len() == 0,
        st0.page_count == s.meta.page_count,
        st0.report.free_pages == 0,
    ensures
        st.inv(),
        st.page_count == s.meta.page_count,
        st.report.free_pages == 0,
        st.seen@ == ids_of(t),
        st.leaves@ == leaves(t),
        leaves(t).len() > 0,
        leaves(t).len() <= s.meta.page_count,
        leaves(t).no_duplicates(),
        forall|i: int|
            0 <= i < leaves(t).len() ==> 1 <= #[trigger] leaves(t)[i] < s.meta.page_count
                && s.pages.contains_key(leaves(t)[i]),
        st.leaf_depth is Some,
{
    reveal(checked);
    let h = (st.leaf_depth->0 - 1) as nat;
    assert(st0.leaves@ + leaves(t) =~= leaves(t));
    assert(st0.seen@.union(ids_of(t)) =~= ids_of(t));
    lemma_shape_leaves(s.pages, t, None, None, h);
    assert forall|i: int| 0 <= i < leaves(t).len() implies 1 <= #[trigger] leaves(t)[i]
        < s.meta.page_count && s.pages.contains_key(leaves(t)[i]) by {
        assert(ids_of(t).contains(leaves(t)[i]));
    }
    crate::pager::lemma_distinct_ids(leaves(t), s.meta.page_count as int);
}

/// With the chain of leaves and the free list checked, the database is sound.
proof fn lemma_all_checked(
    s: PagerState,
    t: Tree,
    min: int,
    st0: CheckState,
    st: CheckState,
    free: Seq<u32>,
)
    requires
        checked(s.pages, t, s.meta.root, None, None, 1, min, st0, st),
        st0.seen@ == Set::<u32>::empty(),
        st0.page_count == s.meta.page_count,
        leftmost(s.pages, s.meta.root, 64) == Some(link(leaves(t), 0)),
        chain_upto(s, leaves(t), leaves(t).len() as int),
        free_fits(s, free, ids_of(t)),
    ensures
        st.leaf_depth is Some,
        sound(s, t, (st.leaf_depth->0 - 1) as nat, free),
        tallied(st0.report, st.report, tally(s.pages, t, min, false)),
        1 <= st.leaf_depth->0,
{
    reveal(checked);
    reveal(sound);
}

impl BTree {
    /// Full structural check of the tree and the free list.
    ///
    /// Every page is checksummed on read. On top of that: keys are strictly
    /// ascending within a page and inside the range that the parent's
    /// separators assign to it; every leaf sits at the same depth; no page is
    /// reachable twice; the leaf chain visits exactly the leaves of an in-order
    /// walk; every overflow chain is well-formed and yields the declared
    /// length; the free list holds only free pages that the tree does not use.
    #[verifier::rlimit(60)]
    #[verifier::spinoff_prover]
    pub fn check(&self, pager: &mut Pager) -> (r: Result<TreeReport>)
        requires
            old(pager).inv(),
        ensures
            final(pager).inv(),
            grows(*old(pager), *final(pager)),
            final(pager).dirty() == old(pager).dirty(),
            final(pager)@ == old(pager)@,
            match r {
                Ok(report) => exists|t: Tree, h: nat, free: Seq<u32>|
                    sound(old(pager)@, t, h, free) && reports(
                        report,
                        old(pager)@,
                        t,
                        h,
                        free,
                        self.fill_spec().min as int,
                    ),
                Err(e) => e is Corruption && !is_sound(old(pager)@),
            },
            tree_ok(old(pager)@, 63) ==> r is Ok && r->Ok_0.keys == contents(
                old(pager)@,
            ).dom().len(),
    {
        proof {
            if tree_ok(pager@, 63) {
                let (t, h) = choose|t: Tree, h: nat| h <= 63 && #[trigger] tree_at(pager@, t, h);
                law_good_tree_is_sound(pager@, t, h);
            }
        }
        let ghost s = pager@;
        let meta: MetaData = pager.meta();
        let ghost ok = is_sound(s);
        let ghost (w, wh, wf) = choose|t: Tree, h: nat, free: Seq<u32>| sound(s, t, h, free);
        let ghost want: Option<(Tree, nat)> = if ok {
            Some((w, wh))
        } else {
            None
        };
        let mut state: CheckState = CheckState {
            seen: HashSet::new(),
            leaves: Vec::new(),
            leaf_depth: None,
            report: TreeReport::default(),
            page_count: meta.page_count,
        };
        let ghost st0 = state;
        let ghost min = self.fill_spec().min as int;
        proof {
            if ok {
                lemma_sound_fits(s, w, wh, wf, st0);
            }
        }
        let Ghost(t) = self.check_node(pager, meta.root, None, None, 1, &mut state, Ghost(want))?;
        let ghost h = (state.leaf_depth->0 - 1) as nat;
        let ghost st1 = state;
        proof {
            lemma_root_checked(s, t, min, st0, st1);
        }
        check_leaf_chain(self, pager, &state.leaves, Ghost(t))?;
        let Ghost(free) = check_free_list(pager, &mut state)?;
        proof {
            lemma_few(s.meta.page_count, state.seen@);
            lemma_all_checked(s, t, min, st0, st1, free);
        }
        let accounted: u32 = state.seen.len() as u32 + 1;
        let mut report: TreeReport = state.report;
        report.unreachable_pages = if meta.page_count >= accounted {
            meta.page_count - accounted
        } else {
            0
        };
        report.depth = match state.leaf_depth {
            Some(d) => d,
            None => 1,
        };
        assert(reports(report, s, t, h, free, min)) by {
            reveal(reports);
        }
        proof {
            if tree_ok(s, 63) {
                law_check_counts_the_keys(s, report, min);
            }
        }
        Ok(report)
    }

    /// Verifies the tree and the free list.
    pub fn verify(&self, pager: &mut Pager) -> (r: Result<()>)
        requires
            old(pager).inv(),
        ensures
            final(pager).inv(),
            grows(*old(pager), *final(pager)),
            final(pager).dirty() == old(pager).dirty(),
            final(pager)@ == old(pager)@,
            match r {
                Ok(_) => is_sound(old(pager)@),
                Err(e) => e is Corruption && !is_sound(old(pager)@),
            },
    {
        self.check(pager)?;
        Ok(())
    }
}

} // verus!
