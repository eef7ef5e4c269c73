//! Reading the tree in key order along the chain of its leaves.

use crate::btree::grow::{lemma_good_page, lemma_tree_finds};
use crate::btree::node::{kid_find, lemma_kid_find, lemma_node_open, node_list};
use crate::btree::{
    ascending, cell_value, child_at, child_of, ckey, contents, find, first_of, good, hi_at, holds,
    id_of, ids_of, in_range, leaf_find, leaf_page, leaf_ready, lemma_keys_of_cells, lemma_le_lt,
    lemma_leaf_ready, lemma_lt_le_trans, lemma_route_exists, lemma_route_range, lemma_step_down,
    lo_at, next_at, owner, routed, tree_at, tree_ok, BTree, KeyBound, Tree, MAX_DEPTH,
};
use crate::bytes::{
    before, lemma_lex_asymmetric, lemma_lex_irreflexive, lemma_lex_total, lemma_lex_transitive,
    lex_le, lex_lt,
};
use crate::error::{Error, Result};
use crate::page::{
    cell_key_of, cells_of, extra_of, is_leaf_of, key_at, lemma_page_len, num_keys_of, splits_at,
    structured, LeafCell, Page, SENTINEL,
};
use crate::pager::{
    grows, lemma_distinct_ids, lemma_grows_same, lemma_grows_then, Pager, PagerState,
};
use vstd::prelude::*;

verus! {

broadcast use {lemma_page_len, lemma_grows_same, lemma_grows_then};

// ---- listings ----------------------------------------------------------------------------------

/// A key with its value.
pub type Entry = (Seq<u8>, Seq<u8>);

/// Keys strictly ascend.
pub open spec fn sorted(e: Seq<Entry>) -> bool {
    forall|i: int, j: int| 0 <= i < j < e.len() ==> lex_lt(#[trigger] e[i].0, #[trigger] e[j].0)
}

/// `e` lists the keys and values of `m` in key order.
pub open spec fn listing(m: Map<Seq<u8>, Seq<u8>>, e: Seq<Entry>) -> bool {
    &&& sorted(e)
    &&& forall|i: int| 0 <= i < e.len() ==> m.contains_key((#[trigger] e[i]).0) && m[e[i].0] == e[i].1
    &&& forall|k: Seq<u8>| #[trigger] m.contains_key(k) ==> exists|i: int|
        0 <= i < e.len() && (#[trigger] e[i]).0 == k
}

/// The map has as many pairs as can be counted, or more.
pub open spec fn overfull(m: Map<Seq<u8>, Seq<u8>>) -> bool {
    exists|e: Seq<Entry>| #[trigger] listing(m, e) && e.len() >= usize::MAX
}

/// A map has one listing.
pub proof fn law_listing_is_unique(m: Map<Seq<u8>, Seq<u8>>, a: Seq<Entry>, b: Seq<Entry>)
    requires
        listing(m, a),
        listing(m, b),
    ensures
        a == b,
{
    lemma_listing_prefix(m, a, b, a.len() as int);
    lemma_listing_prefix(m, b, a, b.len() as int);
    assert(a =~= b);
}

proof fn lemma_listing_prefix(m: Map<Seq<u8>, Seq<u8>>, a: Seq<Entry>, b: Seq<Entry>, n: int)
    requires
        listing(m, a),
        listing(m, b),
        0 <= n <= a.len(),
    ensures
        n <= b.len(),
        forall|i: int| 0 <= i < n ==> a[i] == b[i],
    decreases n,
{
    if n > 0 {
        lemma_listing_prefix(m, a, b, n - 1);
        let k = a[n - 1].0;
        assert(m.contains_key(k));
        let j = choose|j: int| 0 <= j < b.len() && (#[trigger] b[j]).0 == k;
        if j < n - 1 {
            assert(a[j] == b[j]);
            assert(lex_lt(a[j].0, a[n - 1].0));
            lemma_lex_irreflexive(k);
        }
        if j > n - 1 {
            let c = b[n - 1].0;
            assert(m.contains_key(c));
            let i = choose|i: int| 0 <= i < a.len() && (#[trigger] a[i]).0 == c;
            assert(lex_lt(b[n - 1].0, b[j].0));
            if i < n - 1 {
                assert(b[i] == a[i]);
                assert(lex_lt(b[i].0, b[n - 1].0));
                lemma_lex_irreflexive(c);
            } else if i == n - 1 {
                lemma_lex_irreflexive(c);
            } else {
                assert(lex_lt(a[n - 1].0, a[i].0));
                lemma_lex_asymmetric(c, k);
            }
        }
        assert(m[k] == a[n - 1].1);
        assert(b[j].1 == m[b[j].0]);
    }
}

// ---- leaves in order -----------------------------------------------------------------------------

/// The leaves of a tree from left to right.
pub open spec fn leaves(t: Tree) -> Seq<u32>
    decreases t, 0int,
{
    match t {
        Tree::Leaf { id, .. } => seq![id],
        Tree::Node { kids, .. } => leaves_upto(kids, kids.len() as int),
    }
}

/// The leaves of the first `n` trees of a list.
pub open spec fn leaves_upto(kids: Seq<Tree>, n: int) -> Seq<u32>
    decreases kids, n,
{
    if n <= 0 || n > kids.len() {
        Seq::empty()
    } else {
        leaves_upto(kids, n - 1) + leaves(kids[n - 1])
    }
}

/// The entries of a leaf page.
pub open spec fn page_entries(pages: Map<u32, Seq<u8>>, id: u32) -> Seq<Entry> {
    let cs = cells_of(pages[id]);
    Seq::new(cs.len(), |i: int| (ckey(true, cs[i]), cell_value(pages, cs[i])))
}

/// The entries of leaf pages, one after another.
pub open spec fn entries(pages: Map<u32, Seq<u8>>, ids: Seq<u32>) -> Seq<Entry>
    decreases ids.len(),
{
    if ids.len() == 0 {
        Seq::empty()
    } else {
        entries(pages, ids.drop_last()) + page_entries(pages, ids.last())
    }
}

/// Entries of two runs of leaves.
pub proof fn lemma_entries_concat(pages: Map<u32, Seq<u8>>, a: Seq<u32>, b: Seq<u32>)
    ensures
        entries(pages, a + b) == entries(pages, a) + entries(pages, b),
    decreases b.len(),
{
    if b.len() == 0 {
        assert(a + b =~= a);
        assert(entries(pages, a) + entries(pages, b) =~= entries(pages, a));
    } else {
        assert((a + b).drop_last() =~= a + b.drop_last());
        assert((a + b).last() == b.last());
        lemma_entries_concat(pages, a, b.drop_last());
        assert(entries(pages, a) + (entries(pages, b.drop_last()) + page_entries(pages, b.last()))
            =~= (entries(pages, a) + entries(pages, b.drop_last())) + page_entries(
            pages,
            b.last(),
        ));
    }
}

/// Leaf `i` leads to the one behind it, the last one to `next`.
pub open spec fn leaf_at(pages: Map<u32, Seq<u8>>, ids: Seq<u32>, i: int, next: u32) -> bool {
    pages.contains_key(ids[i]) && leaf_page(
        pages[ids[i]],
        ids[i],
        if i + 1 < ids.len() {
            ids[i + 1]
        } else {
            next
        },
    )
}

/// Each leaf leads to the next, the last one to `next`.
pub open spec fn linked(pages: Map<u32, Seq<u8>>, ids: Seq<u32>, next: u32) -> bool {
    forall|i: int| 0 <= i < ids.len() ==> #[trigger] leaf_at(pages, ids, i, next)
}

/// `e` lists what `found` says of the keys in a range.
pub open spec fn lists(
    found: spec_fn(Seq<u8>) -> Option<Seq<u8>>,
    e: Seq<Entry>,
    lo: KeyBound,
    hi: KeyBound,
) -> bool {
    &&& sorted(e)
    &&& forall|i: int|
        0 <= i < e.len() ==> in_range((#[trigger] e[i]).0, lo, hi) && found(e[i].0) == Some(e[i].1)
    &&& forall|k: Seq<u8>|
        in_range(k, lo, hi) && (#[trigger] found(k)) is Some ==> exists|i: int|
            0 <= i < e.len() && (#[trigger] e[i]).0 == k
}

/// What page `id` finds.
pub open spec fn finds(pages: Map<u32, Seq<u8>>, id: u32, h: nat) -> spec_fn(Seq<u8>) -> Option<
    Seq<u8>,
> {
    |k: Seq<u8>| find(pages, id, k, h)
}

/// A run of leaves from `first` to `next` among the pages `own`, listing what
/// `found` says of the keys in a range.
#[verifier::opaque]
pub open spec fn run(
    s: PagerState,
    ids: Seq<u32>,
    first: u32,
    next: u32,
    own: Set<u32>,
    found: spec_fn(Seq<u8>) -> Option<Seq<u8>>,
    lo: KeyBound,
    hi: KeyBound,
) -> bool {
    &&& ids.len() > 0
    &&& ids[0] == first
    &&& linked(s.pages, ids, next)
    &&& forall|i: int| 0 <= i < ids.len() ==> own.contains(#[trigger] ids[i])
    &&& ids.no_duplicates()
    &&& lists(found, entries(s.pages, ids), lo, hi)
    &&& forall|i: int| 0 <= i < ids.len() ==> readable(s, #[trigger] ids[i])
}

/// The cells of a leaf and their values can be read.
pub open spec fn readable(s: PagerState, id: u32) -> bool {
    exists|chains: Seq<Seq<u32>>| leaf_ready(s, id, chains)
}

/// A run says the same of answers that agree in its range, and among more pages.
proof fn lemma_run_same(
    s: PagerState,
    ids: Seq<u32>,
    first: u32,
    next: u32,
    own: Set<u32>,
    f: spec_fn(Seq<u8>) -> Option<Seq<u8>>,
    lo: KeyBound,
    hi: KeyBound,
    own2: Set<u32>,
    f2: spec_fn(Seq<u8>) -> Option<Seq<u8>>,
)
    requires
        run(s, ids, first, next, own, f, lo, hi),
        own.subset_of(own2),
        forall|k: Seq<u8>| in_range(k, lo, hi) ==> f(k) == #[trigger] f2(k),
    ensures
        run(s, ids, first, next, own2, f2, lo, hi),
{
    reveal(run);
    let e = entries(s.pages, ids);
    assert forall|i: int| 0 <= i < e.len() implies in_range((#[trigger] e[i]).0, lo, hi) && f2(
        e[i].0,
    ) == Some(e[i].1) by {
        assert(f(e[i].0) == Some(e[i].1));
    }
    assert forall|k: Seq<u8>| in_range(k, lo, hi) && (#[trigger] f2(k)) is Some implies exists|
        i: int,
    | 0 <= i < e.len() && (#[trigger] e[i]).0 == k by {
        assert(f(k) is Some);
    }
}

/// Two runs, the first leading to the second.
#[verifier::spinoff_prover]
proof fn lemma_run_concat(
    s: PagerState,
    a: Seq<u32>,
    b: Seq<u32>,
    first: u32,
    mid: u32,
    next: u32,
    own_a: Set<u32>,
    own_b: Set<u32>,
    f: spec_fn(Seq<u8>) -> Option<Seq<u8>>,
    lo: KeyBound,
    sep: Seq<u8>,
    hi: KeyBound,
)
    requires
        run(s, a, first, mid, own_a, f, lo, Some(sep)),
        run(s, b, mid, next, own_b, f, Some(sep), hi),
        own_a.disjoint(own_b),
        hi matches Some(h) ==> lex_lt(sep, h),
        lo matches Some(l) ==> lex_le(l, sep),
    ensures
        run(s, a + b, first, next, own_a.union(own_b), f, lo, hi),
{
    reveal(run);
    let all = a + b;
    lemma_entries_concat(s.pages, a, b);
    lemma_lists_concat(f, entries(s.pages, a), entries(s.pages, b), lo, sep, hi);
    assert forall|i: int| 0 <= i < all.len() implies own_a.union(own_b).contains(
        #[trigger] all[i],
    ) && readable(s, all[i]) by {
        if i < a.len() {
            assert(all[i] == a[i]);
        } else {
            assert(all[i] == b[i - a.len()]);
        }
    }
    assert forall|i: int| 0 <= i < all.len() implies #[trigger] leaf_at(s.pages, all, i, next) by {
        if i < a.len() {
            assert(leaf_at(s.pages, a, i, mid));
            assert(all[i] == a[i]);
            if i + 1 < a.len() {
                assert(all[i + 1] == a[i + 1]);
            } else {
                assert(all[i + 1] == b[0]);
            }
        } else {
            assert(leaf_at(s.pages, b, i - a.len(), next));
            assert(all[i] == b[i - a.len()]);
            if i + 1 < all.len() {
                assert(all[i + 1] == b[i + 1 - a.len()]);
            }
        }
    }
    assert forall|x: int, y: int|
        0 <= x < all.len() && 0 <= y < all.len() && x != y implies all[x] != all[y] by {
        if x < a.len() {
            assert(own_a.contains(a[x]));
        } else {
            assert(own_b.contains(b[x - a.len()]));
        }
        if y < a.len() {
            assert(own_a.contains(a[y]));
        } else {
            assert(own_b.contains(b[y - a.len()]));
        }
    }
}

/// The leaves of a tree in good order run through it.
pub proof fn lemma_leaves(
    s: PagerState,
    t: Tree,
    lo: KeyBound,
    hi: KeyBound,
    next: u32,
    h: nat,
)
    requires
        good(s, t, lo, hi, next, h),
    ensures
        run(s, leaves(t), first_of(t), next, ids_of(t), finds(s.pages, id_of(t), h), lo, hi),
    decreases t, 1int, 0int,
{
    match t {
        Tree::Leaf { id, chains } => {
            reveal(good);
            reveal(run);
            let ids = seq![id];
            assert(leaves(t) == ids);
            lemma_leaf_ready(s, id, chains, lo, hi, next);
            lemma_page_lists(s, id, chains, lo, hi, next);
            assert(ids.drop_last() =~= Seq::<u32>::empty());
            assert(entries(s.pages, ids.drop_last()) =~= Seq::<Entry>::empty());
            assert(entries(s.pages, ids) =~= page_entries(s.pages, id));
        },
        Tree::Node { id, kids } => {
            lemma_node_open(s, id, kids, lo, hi, next, h);
            let cs = cells_of(s.pages[id]);
            let g = (h - 1) as nat;
            let n = kids.len() as int;
            lemma_leaves_upto(s, cs, kids, lo, hi, next, g, n);
            assert(hi_at(cs, n - 1, hi) == hi);
            let f = finds(s.pages, id, h);
            let k0 = kid_finds(s.pages, cs, kids, g);
            assert forall|k: Seq<u8>| in_range(k, lo, hi) implies k0(k) == #[trigger] f(k) by {
                assert(find(s.pages, id, k, h) == kid_find(s.pages, cs, kids, k, g));
            }
            assert(upto_ids(kids, n).subset_of(ids_of(t)));
            lemma_run_same(
                s,
                leaves(t),
                first_of(t),
                next,
                upto_ids(kids, n),
                k0,
                lo,
                hi,
                ids_of(t),
                f,
            );
        },
    }
}

/// The pages of the first `n` trees of a list.
pub open spec fn upto_ids(kids: Seq<Tree>, n: int) -> Set<u32> {
    Set::new(
        |x: u32|
            exists|i: int| 0 <= i < n && i < kids.len() && ids_of(#[trigger] kids[i]).contains(x),
    )
}

/// The leaves of the first children of a node.
proof fn lemma_leaves_upto(
    s: PagerState,
    cs: Seq<Seq<u8>>,
    kids: Seq<Tree>,
    lo: KeyBound,
    hi: KeyBound,
    next: u32,
    g: nat,
    n: int,
)
    requires
        node_list(s, cs, kids, lo, hi, next, g),
        0 < n <= kids.len(),
    ensures
        run(
            s,
            leaves_upto(kids, n),
            first_of(kids[0]),
            next_at(kids, n - 1, next),
            upto_ids(kids, n),
            kid_finds(s.pages, cs, kids, g),
            lo,
            hi_at(cs, n - 1, hi),
        ),
    decreases kids, 0int, n,
{
    let u = kids[n - 1];
    let b = leaves(u);
    let a = leaves_upto(kids, n - 1);
    let f = kid_finds(s.pages, cs, kids, g);
    let fu = finds(s.pages, id_of(u), g);
    let lb = lo_at(cs, n - 1, lo);
    let ub = hi_at(cs, n - 1, hi);
    assert(good(s, u, lb, ub, next_at(kids, n - 1, next), g));
    lemma_leaves(s, u, lb, ub, next_at(kids, n - 1, next), g);
    assert forall|k: Seq<u8>| in_range(k, lb, ub) implies fu(k) == #[trigger] f(k) by {
        lemma_range_routes(cs, lo, hi, k, n - 1);
        lemma_kid_find(s.pages, cs, kids, k, g, n - 1);
    }
    lemma_run_same(
        s,
        b,
        first_of(u),
        next_at(kids, n - 1, next),
        ids_of(u),
        fu,
        lb,
        ub,
        ids_of(u),
        f,
    );
    assert(leaves_upto(kids, n) == a + b);
    if n == 1 {
        assert(a =~= Seq::<u32>::empty());
        assert(a + b =~= b);
        assert(upto_ids(kids, 1) =~= ids_of(kids[0])) by {
            assert forall|x: u32| ids_of(kids[0]).contains(x) implies upto_ids(kids, 1).contains(
                x,
            ) by {}
        }
    } else {
        lemma_leaves_upto(s, cs, kids, lo, hi, next, g, n - 1);
        let own = upto_ids(kids, n - 1);
        assert(hi_at(cs, n - 2, hi) == lb);
        assert(next_at(kids, n - 2, next) == first_of(u));
        assert(own.disjoint(ids_of(u))) by {
            assert forall|x: u32| own.contains(x) implies !ids_of(u).contains(x) by {
                let i = choose|i: int| 0 <= i < n - 1 && ids_of(#[trigger] kids[i]).contains(x);
                assert(!ids_of(kids[n - 1]).contains(x));
            }
        }
        assert(own.union(ids_of(u)) =~= upto_ids(kids, n)) by {
            assert forall|x: u32| upto_ids(kids, n).contains(x) implies own.union(
                ids_of(u),
            ).contains(x) by {
                let i = choose|i: int| 0 <= i < n && ids_of(#[trigger] kids[i]).contains(x);
                if i < n - 1 {
                    assert(own.contains(x));
                }
            }
            assert forall|x: u32| own.union(ids_of(u)).contains(x) implies upto_ids(
                kids,
                n,
            ).contains(x) by {
                if own.contains(x) {
                    let i = choose|i: int|
                        0 <= i < n - 1 && ids_of(#[trigger] kids[i]).contains(x);
                    assert(ids_of(kids[i]).contains(x));
                } else {
                    assert(ids_of(kids[n - 1]).contains(x));
                }
            }
        }
        let sep = ckey(false, cs[n - 2]);
        assert(lb == Some(sep));
        assert(cell_key_of(false, cs[n - 2]) is Some);
        assert(in_range(sep, lo, hi));
        if n - 1 < cs.len() {
            assert(lex_lt(ckey(false, cs[n - 2]), ckey(false, cs[n - 1])));
        }
        lemma_run_concat(
            s,
            a,
            b,
            first_of(kids[0]),
            first_of(u),
            next_at(kids, n - 1, next),
            own,
            ids_of(u),
            f,
            lo,
            sep,
            ub,
        );
    }
}

/// A key between two separators is routed to the child between them.
proof fn lemma_range_routes(
    cs: Seq<Seq<u8>>,
    lo: KeyBound,
    hi: KeyBound,
    k: Seq<u8>,
    j: int,
)
    requires
        ascending(false, cs, lo, hi),
        0 <= j <= cs.len(),
        in_range(k, lo_at(cs, j, lo), hi_at(cs, j, hi)),
    ensures
        routed(cs, k, j),
{
    assert forall|i: int| 0 <= i < j implies lex_le(ckey(false, #[trigger] cs[i]), k) by {
        let l = ckey(false, cs[j - 1]);
        assert(lex_le(l, k));
        if i < j - 1 {
            assert(lex_lt(ckey(false, cs[i]), l));
            lemma_lt_le_trans(ckey(false, cs[i]), l, k);
        }
    }
    assert forall|i: int| j <= i < cs.len() implies lex_lt(k, ckey(false, #[trigger] cs[i])) by {
        let b = ckey(false, cs[j]);
        assert(lex_lt(k, b));
        if i > j {
            assert(lex_lt(b, ckey(false, cs[i])));
            lemma_lex_transitive(k, b, ckey(false, cs[i]));
        }
    }
}

/// What a list of children finds.
pub open spec fn kid_finds(
    pages: Map<u32, Seq<u8>>,
    cs: Seq<Seq<u8>>,
    kids: Seq<Tree>,
    g: nat,
) -> spec_fn(Seq<u8>) -> Option<Seq<u8>> {
    |k: Seq<u8>| kid_find(pages, cs, kids, k, g)
}

/// The entries of one leaf page.
proof fn lemma_page_lists(
    s: PagerState,
    id: u32,
    chains: Seq<Seq<u32>>,
    lo: KeyBound,
    hi: KeyBound,
    next: u32,
)
    requires
        holds(s.pages, Tree::Leaf { id, chains }, lo, hi, next),
    ensures
        lists(finds(s.pages, id, 0), page_entries(s.pages, id), lo, hi),
{
    let cs = cells_of(s.pages[id]);
    let e = page_entries(s.pages, id);
    let f = finds(s.pages, id, 0);
    assert forall|i: int| 0 <= i < e.len() implies in_range((#[trigger] e[i]).0, lo, hi) && f(
        e[i].0,
    ) == Some(e[i].1) by {
        assert(cell_key_of(true, cs[i]) is Some);
        crate::btree::insert::lemma_leaf_find_at(s.pages, cs, lo, hi, i);
    }
    assert forall|k: Seq<u8>| in_range(k, lo, hi) && (#[trigger] f(k)) is Some implies exists|
        i: int,
    | 0 <= i < e.len() && (#[trigger] e[i]).0 == k by {
        assert(leaf_find(s.pages, cs, k) is Some);
        let i = choose|i: int|
            0 <= i < cs.len() && cell_key_of(true, #[trigger] cs[i]) == Some(k);
        assert(e[i].0 == k);
    }
    assert forall|i: int, j: int| 0 <= i < j < e.len() implies lex_lt(
        #[trigger] e[i].0,
        #[trigger] e[j].0,
    ) by {
        assert(lex_lt(ckey(true, cs[i]), ckey(true, cs[j])));
    }
}

/// Two listings of neighbouring ranges.
proof fn lemma_lists_concat(
    f: spec_fn(Seq<u8>) -> Option<Seq<u8>>,
    a: Seq<Entry>,
    b: Seq<Entry>,
    lo: KeyBound,
    mid: Seq<u8>,
    hi: KeyBound,
)
    requires
        lists(f, a, lo, Some(mid)),
        lists(f, b, Some(mid), hi),
        hi matches Some(h) ==> lex_lt(mid, h),
        lo matches Some(l) ==> lex_le(l, mid),
    ensures
        lists(f, a + b, lo, hi),
{
    let e = a + b;
    assert forall|i: int| 0 <= i < e.len() implies in_range((#[trigger] e[i]).0, lo, hi) && f(
        e[i].0,
    ) == Some(e[i].1) by {
        if i < a.len() {
            assert(e[i] == a[i]);
            if hi is Some {
                lemma_lex_transitive(a[i].0, mid, hi->0);
            }
        } else {
            assert(e[i] == b[i - a.len()]);
            if lo is Some {
                lemma_le_trans(lo->0, mid, e[i].0);
            }
        }
    }
    assert forall|i: int, j: int| 0 <= i < j < e.len() implies lex_lt(
        #[trigger] e[i].0,
        #[trigger] e[j].0,
    ) by {
        if j < a.len() {
            assert(e[i] == a[i] && e[j] == a[j]);
        } else if i >= a.len() {
            assert(e[i] == b[i - a.len()] && e[j] == b[j - a.len()]);
        } else {
            assert(e[i] == a[i] && e[j] == b[j - a.len()]);
            assert(lex_lt(a[i].0, mid));
            assert(lex_le(mid, b[j - a.len()].0));
            lemma_lt_le_trans(a[i].0, mid, b[j - a.len()].0);
        }
    }
    assert forall|k: Seq<u8>| in_range(k, lo, hi) && (#[trigger] f(k)) is Some implies exists|
        i: int,
    | 0 <= i < e.len() && (#[trigger] e[i]).0 == k by {
        lemma_lex_total(k, mid);
        if lex_lt(k, mid) {
            let i = choose|i: int| 0 <= i < a.len() && (#[trigger] a[i]).0 == k;
            assert(e[i].0 == k);
        } else {
            let i = choose|i: int| 0 <= i < b.len() && (#[trigger] b[i]).0 == k;
            assert(e[i + a.len()].0 == k);
        }
    }
}

proof fn lemma_le_trans(a: Seq<u8>, b: Seq<u8>, c: Seq<u8>)
    requires
        lex_le(a, b),
        lex_le(b, c),
    ensures
        lex_le(a, c),
{
    if a != b && b != c {
        lemma_lex_transitive(a, b, c);
    }
}

// ---- where a key belongs -------------------------------------------------------------------------

/// Leaf `i` of `ids` is where key `k` belongs: what comes before it is below
/// the key, what comes behind it is beyond.
#[verifier::opaque]
pub open spec fn belongs(pages: Map<u32, Seq<u8>>, ids: Seq<u32>, k: Seq<u8>, i: int) -> bool {
    let e = entries(pages, ids);
    &&& 0 <= i < ids.len()
    &&& forall|j: int|
        0 <= j < entries(pages, ids.take(i)).len() ==> lex_lt((#[trigger] e[j]).0, k)
    &&& forall|j: int|
        entries(pages, ids.take(i + 1)).len() <= j < e.len() ==> lex_lt(k, (#[trigger] e[j]).0)
}

/// The first leaves of a run hold the first entries.
pub proof fn lemma_entries_prefix(pages: Map<u32, Seq<u8>>, ids: Seq<u32>, i: int)
    requires
        0 <= i <= ids.len(),
    ensures
        entries(pages, ids.take(i)).len() <= entries(pages, ids).len(),
        forall|j: int|
            0 <= j < entries(pages, ids.take(i)).len() ==> #[trigger] entries(pages, ids)[j]
                == entries(pages, ids.take(i))[j],
        i < ids.len() ==> entries(pages, ids.take(i + 1)) == entries(pages, ids.take(i))
            + page_entries(pages, ids[i]),
{
    assert(ids =~= ids.take(i) + ids.skip(i));
    lemma_entries_concat(pages, ids.take(i), ids.skip(i));
    if i < ids.len() {
        assert(ids.take(i + 1).drop_last() =~= ids.take(i));
    }
}

/// The children before the one that a key is routed to hold smaller keys.
proof fn lemma_upto_below(
    s: PagerState,
    cs: Seq<Seq<u8>>,
    kids: Seq<Tree>,
    lo: KeyBound,
    hi: KeyBound,
    next: u32,
    g: nat,
    k: Seq<u8>,
    slot: int,
)
    requires
        node_list(s, cs, kids, lo, hi, next, g),
        routed(cs, k, slot),
    ensures
        forall|j: int|
            0 <= j < entries(s.pages, leaves_upto(kids, slot)).len() ==> lex_lt(
                (#[trigger] entries(s.pages, leaves_upto(kids, slot))[j]).0,
                k,
            ),
{
    let e = entries(s.pages, leaves_upto(kids, slot));
    if slot > 0 {
        lemma_leaves_upto(s, cs, kids, lo, hi, next, g, slot);
        reveal(run);
        let sep = ckey(false, cs[slot - 1]);
        assert(lex_le(sep, k));
        assert forall|j: int| 0 <= j < e.len() implies lex_lt((#[trigger] e[j]).0, k) by {
            assert(hi_at(cs, slot - 1, hi) == Some(sep));
            lemma_lt_le_trans(e[j].0, sep, k);
        }
    }
}

/// The children behind the one that a key is routed to hold greater keys.
proof fn lemma_upto_above(
    s: PagerState,
    cs: Seq<Seq<u8>>,
    kids: Seq<Tree>,
    lo: KeyBound,
    hi: KeyBound,
    next: u32,
    g: nat,
    k: Seq<u8>,
    slot: int,
    n: int,
)
    requires
        node_list(s, cs, kids, lo, hi, next, g),
        routed(cs, k, slot),
        slot < n <= kids.len(),
    ensures
        ({
            let e = entries(s.pages, leaves_upto(kids, n));
            forall|j: int|
                entries(s.pages, leaves_upto(kids, slot + 1)).len() <= j < e.len() ==> lex_lt(
                    k,
                    (#[trigger] e[j]).0,
                )
        }),
    decreases n,
{
    if slot + 1 < n {
        lemma_upto_above(s, cs, kids, lo, hi, next, g, k, slot, n - 1);
        let u = kids[n - 1];
        let lb = lo_at(cs, n - 1, lo);
        let ub = hi_at(cs, n - 1, hi);
        assert(good(s, u, lb, ub, next_at(kids, n - 1, next), g));
        lemma_leaves(s, u, lb, ub, next_at(kids, n - 1, next), g);
        let a = entries(s.pages, leaves_upto(kids, n - 1));
        let b = entries(s.pages, leaves(u));
        let e = entries(s.pages, leaves_upto(kids, n));
        lemma_entries_concat(s.pages, leaves_upto(kids, n - 1), leaves(u));
        assert(e == a + b);
        let sep = ckey(false, cs[n - 2]);
        assert(lex_lt(k, sep));
        assert forall|j: int|
            entries(s.pages, leaves_upto(kids, slot + 1)).len() <= j < e.len() implies lex_lt(
            k,
            (#[trigger] e[j]).0,
        ) by {
            if j < a.len() {
                assert(e[j] == a[j]);
            } else {
                assert(e[j] == b[j - a.len()]);
                reveal(run);
                assert(lex_le(sep, b[j - a.len()].0));
                lemma_lt_le_trans(k, sep, e[j].0);
            }
        }
    }
}

/// The leaf that a descent for `k` ends at is where it belongs.
#[verifier::rlimit(80)]
#[verifier::spinoff_prover]
pub proof fn lemma_owner(
    s: PagerState,
    t: Tree,
    lo: KeyBound,
    hi: KeyBound,
    next: u32,
    h: nat,
    k: Seq<u8>,
    fuel: nat,
) -> (i: int)
    requires
        good(s, t, lo, hi, next, h),
        in_range(k, lo, hi),
        h <= fuel,
    ensures
        belongs(s.pages, leaves(t), k, i),
        leaves(t)[i] == owner(s.pages, id_of(t), k, fuel),
    decreases t,
{
    lemma_good_page(s, t, lo, hi, next, h);
    match t {
        Tree::Leaf { id, chains } => {
            reveal(belongs);
            assert(leaves(t).take(0) =~= Seq::<u32>::empty());
            assert(leaves(t).take(1) =~= leaves(t));
            assert(entries(s.pages, leaves(t).take(0)) =~= Seq::<Entry>::empty());
            0
        },
        Tree::Node { id, kids } => {
            lemma_node_open(s, id, kids, lo, hi, next, h);
            let cs = cells_of(s.pages[id]);
            let g = (h - 1) as nat;
            lemma_route_exists(cs, lo, hi, k);
            let slot = choose|slot: int| routed(cs, k, slot);
            lemma_route_range(cs, lo, hi, k, slot);
            let u = kids[slot];
            lemma_step_down(s, t, lo, hi, next, h, k, slot);
            let i = lemma_owner(
                s,
                u,
                lo_at(cs, slot, lo),
                hi_at(cs, slot, hi),
                next_at(kids, slot, next),
                g,
                k,
                (fuel - 1) as nat,
            );
            assert(0 <= i < leaves(u).len()) by {
                reveal(belongs);
            }
            let n = kids.len() as int;
            lemma_upto_prefix(kids, slot, n);
            lemma_upto_below(s, cs, kids, lo, hi, next, g, k, slot);
            lemma_upto_above(s, cs, kids, lo, hi, next, g, k, slot, n);
            lemma_belongs_up(s.pages, leaves_upto(kids, slot), leaves(u), leaves(t), k, i);
            leaves_upto(kids, slot).len() + i
        },
    }
}

/// A leaf of a child is where a key belongs among the leaves of its parent.
proof fn lemma_belongs_up(
    pages: Map<u32, Seq<u8>>,
    a: Seq<u32>,
    b: Seq<u32>,
    all: Seq<u32>,
    k: Seq<u8>,
    i: int,
)
    requires
        belongs(pages, b, k, i),
        0 <= i < b.len(),
        a.len() + b.len() <= all.len(),
        all.take((a.len() + b.len()) as int) =~= a + b,
        forall|j: int|
            0 <= j < entries(pages, a).len() ==> lex_lt((#[trigger] entries(pages, a)[j]).0, k),
        forall|j: int|
            entries(pages, a + b).len() <= j < entries(pages, all).len() ==> lex_lt(
                k,
                (#[trigger] entries(pages, all)[j]).0,
            ),
    ensures
        belongs(pages, all, k, a.len() + i),
        all[a.len() + i] == b[i],
{
    reveal(belongs);
    let m = (a.len() + b.len()) as int;
    let at = a.len() + i;
    let e = entries(pages, all);
    let ea = entries(pages, a);
    let eb = entries(pages, b);
    assert(all[at] == all.take(m)[at]);
    assert(all.take(at) =~= a + b.take(i)) by {
        assert forall|x: int| 0 <= x < at implies #[trigger] all.take(at)[x] == (a + b.take(i))[x] by {
            assert(all.take(m)[x] == (a + b)[x]);
        }
    }
    assert(all.take(at + 1) =~= a + b.take(i + 1)) by {
        assert forall|x: int| 0 <= x < at + 1 implies #[trigger] all.take(at + 1)[x] == (a + b.take(
            i + 1,
        ))[x] by {
            assert(all.take(m)[x] == (a + b)[x]);
        }
    }
    lemma_entries_concat(pages, a, b);
    lemma_entries_concat(pages, a, b.take(i));
    lemma_entries_concat(pages, a, b.take(i + 1));
    lemma_entries_prefix(pages, all, m);
    lemma_entries_prefix(pages, b, i);
    lemma_entries_prefix(pages, b, i + 1);
    assert(all.take(m) == a + b);
    assert forall|j: int| 0 <= j < entries(pages, all.take(at)).len() implies lex_lt(
        (#[trigger] e[j]).0,
        k,
    ) by {
        assert(e[j] == (ea + eb)[j]);
        if j < ea.len() {
            assert(e[j] == ea[j]);
        } else {
            assert(e[j] == eb[j - ea.len()]);
        }
    }
    assert forall|j: int|
        entries(pages, all.take(at + 1)).len() <= j < e.len() implies lex_lt(
        k,
        (#[trigger] e[j]).0,
    ) by {
        if j < ea.len() + eb.len() {
            assert(e[j] == (ea + eb)[j]);
            assert(e[j] == eb[j - ea.len()]);
        }
    }
}

/// The leaves of a list hold those of each child behind those of the ones
/// before it.
proof fn lemma_upto_prefix(kids: Seq<Tree>, j: int, n: int)
    requires
        0 <= j < n <= kids.len(),
    ensures
        leaves_upto(kids, n).len() >= leaves_upto(kids, j).len() + leaves(kids[j]).len(),
        leaves_upto(kids, j + 1) == leaves_upto(kids, j) + leaves(kids[j]),
        leaves_upto(kids, n).take(
            (leaves_upto(kids, j).len() + leaves(kids[j]).len()) as int,
        ) =~= leaves_upto(kids, j) + leaves(kids[j]),
    decreases n,
{
    if j < n - 1 {
        lemma_upto_prefix(kids, j, n - 1);
        let m = (leaves_upto(kids, j).len() + leaves(kids[j]).len()) as int;
        assert(leaves_upto(kids, n) == leaves_upto(kids, n - 1) + leaves(kids[n - 1]));
        assert(leaves_upto(kids, n).take(m) =~= leaves_upto(kids, n - 1).take(m));
    }
}

// ---- reading -------------------------------------------------------------------------------------------

/// One end of a range of keys.
#[derive(Debug, PartialEq, Eq)]
pub enum Bound {
    /// No limit.
    Unbounded,
    /// The key itself is inside the range.
    Included(Vec<u8>),
    /// The key itself is outside the range.
    Excluded(Vec<u8>),
}

/// `k` is inside the lower end of a range.
pub open spec fn lower_ok(lo: Bound, k: Seq<u8>) -> bool {
    match lo {
        Bound::Unbounded => true,
        Bound::Included(b) => lex_le(b@, k),
        Bound::Excluded(b) => lex_lt(b@, k),
    }
}

/// `k` is inside the upper end of a range.
pub open spec fn upper_ok(hi: Bound, k: Seq<u8>) -> bool {
    match hi {
        Bound::Unbounded => true,
        Bound::Included(b) => lex_le(k, b@),
        Bound::Excluded(b) => lex_lt(k, b@),
    }
}

/// The contents of a list of pairs.
pub open spec fn pairs(v: Seq<(Vec<u8>, Vec<u8>)>) -> Seq<Entry> {
    Seq::new(v.len(), |i: int| (v[i].0@, v[i].1@))
}

/// `out` is the part of `e` from `a` to `b`: the first entries of the range, at
/// most `limit` of them.
pub open spec fn cut(
    e: Seq<Entry>,
    lo: Bound,
    hi: Bound,
    limit: int,
    out: Seq<Entry>,
    a: int,
    b: int,
) -> bool {
    &&& 0 <= a <= b <= e.len()
    &&& out == e.subrange(a, b)
    &&& forall|i: int| 0 <= i < a ==> !lower_ok(lo, (#[trigger] e[i]).0)
    &&& forall|i: int| a <= i < e.len() ==> lower_ok(lo, (#[trigger] e[i]).0)
    &&& forall|i: int| a <= i < b ==> upper_ok(hi, (#[trigger] e[i]).0)
    &&& b - a <= limit
    &&& b < e.len() ==> b - a == limit || !upper_ok(hi, e[b].0)
}

/// `out` lists the first entries of a range of `m`, at most `limit` of them.
pub open spec fn scanned(
    m: Map<Seq<u8>, Seq<u8>>,
    lo: Bound,
    hi: Bound,
    limit: int,
    out: Seq<Entry>,
) -> bool {
    exists|e: Seq<Entry>, a: int, b: int| #[trigger]
        cut(e, lo, hi, limit, out, a, b) && listing(m, e)
}

/// The entries along the leaves of a whole tree list its contents.
pub proof fn lemma_tree_listing(s: PagerState, t: Tree, h: nat)
    requires
        tree_at(s, t, h),
        h <= 65,
    ensures
        listing(contents(s), entries(s.pages, leaves(t))),
        run(
            s,
            leaves(t),
            first_of(t),
            SENTINEL,
            ids_of(t),
            finds(s.pages, id_of(t), h),
            None,
            None,
        ),
        leaves(t).len() < s.meta.page_count,
{
    lemma_leaves(s, t, None, None, SENTINEL, h);
    lemma_tree_finds(s, t, h);
    lemma_good_page(s, t, None, None, SENTINEL, h);
    reveal(run);
    let e = entries(s.pages, leaves(t));
    let f = finds(s.pages, id_of(t), h);
    let m = contents(s);
    assert forall|i: int| 0 <= i < e.len() implies m.contains_key((#[trigger] e[i]).0) && m[e[i].0]
        == e[i].1 by {
        assert(f(e[i].0) == Some(e[i].1));
        assert(find(s.pages, s.meta.root, e[i].0, 65) == f(e[i].0));
    }
    assert forall|k: Seq<u8>| #[trigger] m.contains_key(k) implies exists|i: int|
        0 <= i < e.len() && (#[trigger] e[i]).0 == k by {
        assert(find(s.pages, s.meta.root, k, 65) is Some);
        assert(f(k) is Some);
        assert(in_range(k, None, None));
    }
    let ids = leaves(t);
    assert forall|i: int| 0 <= i < ids.len() implies 1 <= #[trigger] ids[i] < s.meta.page_count by {
        assert(ids_of(t).contains(ids[i]));
    }
    lemma_distinct_ids(ids, s.meta.page_count as int);
}

/// Whether a key is inside the upper end of a range.
fn below_end(key: &[u8], hi: &Bound) -> (r: bool)
    ensures
        r == upper_ok(*hi, key@),
{
    match hi {
        Bound::Unbounded => true,
        Bound::Included(b) => {
            proof {
                lemma_lex_total(key@, b@);
                lemma_le_lt(key@, b@);
            }
            !before(b.as_slice(), key)
        },
        Bound::Excluded(b) => before(key, b.as_slice()),
    }
}

/// The first cell of a leaf that is inside the lower end of a range.
fn start_in(
    leaf: &Page,
    lo: &Bound,
    Ghost(s): Ghost<PagerState>,
    Ghost(id): Ghost<u32>,
) -> (r: Result<usize>)
    ensures
        r matches Ok(start) ==> start <= num_keys_of(leaf@),
        readable(s, id) && leaf@ == s.pages[id] ==> {
            let e = page_entries(s.pages, id);
            &&& r is Ok
            &&& r->Ok_0 <= e.len()
            &&& forall|i: int| 0 <= i < r->Ok_0 ==> !lower_ok(*lo, (#[trigger] e[i]).0)
            &&& forall|i: int| r->Ok_0 <= i < e.len() ==> lower_ok(*lo, (#[trigger] e[i]).0)
        },
{
    let ghost ok = readable(s, id) && leaf@ == s.pages[id];
    let ghost e = page_entries(s.pages, id);
    let ghost b = leaf@;
    let ghost cs = cells_of(b);
    proof {
        if ok {
            let chains = choose|chains: Seq<Seq<u32>>| leaf_ready(s, id, chains);
            lemma_keys_of_cells(b, None, None);
            assert forall|i: int| 0 <= i < e.len() implies (#[trigger] e[i]).0 == key_at(b, i)->0
                && key_at(b, i) is Some by {
                assert(key_at(b, i) == Some(ckey(true, cs[i])));
            }
        }
    }
    match lo {
        Bound::Unbounded => Ok(0),
        Bound::Included(k) => {
            let found = leaf.search(k.as_slice())?;
            let start: usize = match found {
                Ok(i) => i,
                Err(i) => i,
            };
            proof {
                if ok {
                    assert forall|i: int| 0 <= i < e.len() implies (i < start ==> !lower_ok(
                        *lo,
                        (#[trigger] e[i]).0,
                    )) && (i >= start ==> lower_ok(*lo, e[i].0)) by {
                        lemma_search_side(b, k@, found, i);
                        lemma_le_lt(k@, e[i].0);
                    }
                }
            }
            Ok(start)
        },
        Bound::Excluded(k) => {
            let found = leaf.search(k.as_slice())?;
            let start: usize = match found {
                Ok(i) => i + 1,
                Err(i) => i,
            };
            proof {
                if ok {
                    assert forall|i: int| 0 <= i < e.len() implies (i < start ==> !lower_ok(
                        *lo,
                        (#[trigger] e[i]).0,
                    )) && (i >= start ==> lower_ok(*lo, e[i].0)) by {
                        lemma_search_side(b, k@, found, i);
                        lemma_lex_irreflexive(k@);
                        lemma_le_lt(k@, e[i].0);
                    }
                }
            }
            Ok(start)
        },
    }
}

/// On which side of a search a slot lies.
proof fn lemma_search_side(
    b: Seq<u8>,
    key: Seq<u8>,
    found: std::result::Result<usize, usize>,
    i: int,
)
    requires
        crate::page::keys_ascend(b),
        match found {
            Ok(j) => j < num_keys_of(b) && key_at(b, j as int) == Some(key),
            Err(j) => j <= num_keys_of(b) && splits_at(b, key, j as int),
        },
        0 <= i < num_keys_of(b),
    ensures
        match found {
            Ok(j) => (i < j ==> lex_lt(key_at(b, i)->0, key)) && (i == j ==> key_at(b, i)->0 == key)
                && (i > j ==> lex_lt(key, key_at(b, i)->0)),
            Err(j) => (i < j ==> lex_lt(key_at(b, i)->0, key)) && (i >= j ==> lex_lt(
                key,
                key_at(b, i)->0,
            )),
        },
{
    match found {
        Ok(j) => {
            assert(key_at(b, i) is Some && key_at(b, j as int) is Some);
            if i < j {
                assert(lex_lt(key_at(b, i)->0, key_at(b, j as int)->0));
            } else if i > j {
                assert(lex_lt(key_at(b, j as int)->0, key_at(b, i)->0));
            }
        },
        Err(_) => {},
    }
}

/// Reads the cells of a leaf from `start` on into `out`, until the upper end of
/// the range or until `out` has `limit` pairs. Tells whether it stopped there.
#[verifier::rlimit(40)]
fn read_leaf(
    pager: &mut Pager,
    leaf: &Page,
    start: usize,
    hi: &Bound,
    limit: usize,
    out: &mut Vec<(Vec<u8>, Vec<u8>)>,
    Ghost(id): Ghost<u32>,
) -> (r: Result<bool>)
    requires
        old(pager).inv(),
        start <= num_keys_of(leaf@),
        old(out)@.len() < limit,
    ensures
        final(pager).inv(),
        grows(*old(pager), *final(pager)),
        final(pager).dirty() == old(pager).dirty(),
        final(pager)@ == old(pager)@,
        r matches Ok(false) ==> final(out)@.len() < limit,
        readable(old(pager)@, id) && leaf@ == old(pager)@.pages[id] ==> {
            let e = page_entries(old(pager)@.pages, id);
            let m = start + final(out)@.len() - old(out)@.len();
            &&& r is Ok
            &&& start <= m <= e.len()
            &&& final(out)@.len() <= limit
            &&& pairs(final(out)@) == pairs(old(out)@) + e.subrange(start as int, m)
            &&& forall|i: int| start <= i < m ==> upper_ok(*hi, (#[trigger] e[i]).0)
            &&& r == Ok::<bool, Error>(false) ==> m == e.len()
            &&& r == Ok::<bool, Error>(true) ==> final(out)@.len() == limit || (m < e.len()
                && !upper_ok(*hi, e[m].0))
        },
{
    let ghost s = pager@;
    let ghost ok = readable(s, id) && leaf@ == s.pages[id];
    let ghost e = page_entries(s.pages, id);
    let ghost chains = choose|chains: Seq<Seq<u32>>| leaf_ready(s, id, chains);
    let ghost before_out = out@;
    let n: usize = leaf.num_keys() as usize;
    let mut i: usize = start;
    proof {
        if ok {
            assert(e.subrange(start as int, start as int) =~= Seq::<Entry>::empty());
            assert(pairs(before_out) + Seq::<Entry>::empty() =~= pairs(before_out));
        }
    }
    while i < n
        invariant
            pager.inv(),
            grows(*old(pager), *pager),
            pager.dirty() == old(pager).dirty(),
            pager@ == s,
            s == old(pager)@,
            before_out == old(out)@,
            start <= i <= n,
            n == num_keys_of(leaf@),
            ok == (readable(s, id) && leaf@ == s.pages[id]),
            ok ==> leaf_ready(s, id, chains),
            e == page_entries(s.pages, id),
            before_out.len() < limit,
            out@.len() < limit,
            out@.len() - before_out.len() == i - start,
            ok ==> pairs(out@) == pairs(before_out) + e.subrange(start as int, i as int),
            ok ==> forall|j: int| start <= j < i ==> upper_ok(*hi, (#[trigger] e[j]).0),
        decreases n - i,
    {
        proof {
            if ok {
                lemma_keys_of_cells(leaf@, None, None);
                assert(key_at(leaf@, i as int) == Some(ckey(true, cells_of(leaf@)[i as int])));
                crate::btree::lemma_cell_readable(s, id, chains, i as int);
                assert(e[i as int].0 == ckey(true, cells_of(leaf@)[i as int]));
            }
        }
        let key: &[u8] = leaf.cell_key(i)?;
        if !below_end(key, hi) {
            return Ok(true);
        }
        let cell: LeafCell = leaf.leaf_cell(i)?;
        let key: Vec<u8> = crate::bytes::copy_bytes(cell.key.as_slice());
        let value: Vec<u8> = BTree::cell_value(pager, cell)?;
        let ghost prior = out@;
        out.push((key, value));
        i += 1;
        proof {
            if ok {
                assert(out@[prior.len() as int].0@ == e[i - 1].0);
                assert(out@[prior.len() as int].1@ == e[i - 1].1);
                assert(e.subrange(start as int, i as int) =~= e.subrange(start as int, i - 1).push(
                    e[i - 1],
                ));
                assert(pairs(out@) =~= pairs(prior).push(e[i - 1]));
                assert(pairs(before_out) + e.subrange(start as int, i as int) =~= (pairs(before_out)
                    + e.subrange(start as int, i - 1)).push(e[i - 1]));
            }
        }
        if out.len() == limit {
            return Ok(true);
        }
    }
    Ok(false)
}

impl BTree {
    /// Page id of the leftmost leaf.
    pub fn first_leaf(&self, pager: &mut Pager) -> (r: Result<u32>)
        requires
            old(pager).inv(),
        ensures
            final(pager).inv(),
            grows(*old(pager), *final(pager)),
            final(pager).dirty() == old(pager).dirty(),
            final(pager)@ == old(pager)@,
            forall|t: Tree, h: nat| #[trigger]
                tree_at(old(pager)@, t, h) && h <= 64 ==> r == Ok::<u32, Error>(first_of(t)),
            match r {
                Ok(id) => leftmost(old(pager)@.pages, old(pager)@.meta.root, 64) == Some(id),
                Err(e) => e is Corruption && leftmost(
                    old(pager)@.pages,
                    old(pager)@.meta.root,
                    64,
                ) is None,
            },
    {
        let ghost s = pager@;
        let mut current: u32 = pager.meta().root;
        let mut depth: usize = 0;
        proof {
            assert forall|t: Tree, h: nat| #[trigger] tree_at(s, t, h) && h <= 64 implies on_left(
                s,
                t,
                h,
                current,
                0,
            ) by {
                assert(left_at(s, t, None, None, SENTINEL, h, first_of(t), current));
            }
        }
        while depth <= MAX_DEPTH
            invariant
                pager.inv(),
                grows(*old(pager), *pager),
                pager.dirty() == old(pager).dirty(),
                pager@ == s,
                s == old(pager)@,
                depth <= 65,
                forall|t: Tree, h: nat| #[trigger]
                    tree_at(s, t, h) && h <= 64 ==> on_left(s, t, h, current, depth as int),
                depth <= 64 ==> leftmost(s.pages, current, (64 - depth) as nat) == leftmost(
                    s.pages,
                    s.meta.root,
                    64,
                ),
                depth == 65 ==> leftmost(s.pages, s.meta.root, 64) is None,
            decreases 65 - depth,
        {
            proof {
                assert forall|t: Tree, h: nat| #[trigger] tree_at(s, t, h) && h <= 64 implies {
                    &&& s.pages.contains_key(current)
                    &&& structured(s.pages[current])
                    &&& is_leaf_of(s.pages[current]) ==> current == first_of(t)
                    &&& !is_leaf_of(s.pages[current]) ==> child_of(s.pages[current], 0) != SENTINEL
                        && on_left(s, t, h, child_of(s.pages[current], 0), depth + 1)
                } by {
                    lemma_on_left(s, t, h, current, depth as int);
                }
            }
            let page: Page = pager.read_page(current)?;
            if page.is_leaf() {
                return Ok(current);
            }
            current = child_at(&page, 0)?;
            depth += 1;
        }
        Err(Error::corrupt("B+Tree depth exceeded 64 levels (cycle?)"))
    }
}

/// The leaf that following leftmost children from page `id` leads to, within
/// `fuel` steps.
pub open spec fn leftmost(pages: Map<u32, Seq<u8>>, id: u32, fuel: nat) -> Option<u32>
    decreases fuel,
{
    if !pages.contains_key(id) {
        None
    } else if is_leaf_of(pages[id]) {
        Some(id)
    } else if fuel == 0 || extra_of(pages[id]) == SENTINEL {
        None
    } else {
        leftmost(pages, extra_of(pages[id]), (fuel - 1) as nat)
    }
}

/// A subtree at page `id` whose leftmost leaf is `first`.
pub open spec fn left_at(
    s: PagerState,
    u: Tree,
    lo: KeyBound,
    hi: KeyBound,
    next: u32,
    g: nat,
    first: u32,
    id: u32,
) -> bool {
    good(s, u, lo, hi, next, g) && id_of(u) == id && first_of(u) == first
}

/// Page `id` is `depth` levels down the left edge of a tree.
pub open spec fn on_left(s: PagerState, t: Tree, h: nat, id: u32, depth: int) -> bool {
    exists|u: Tree, lo: KeyBound, hi: KeyBound, next: u32, g: nat| #[trigger]
        left_at(s, u, lo, hi, next, g, first_of(t), id) && depth + g <= h
}

proof fn lemma_on_left(s: PagerState, t: Tree, h: nat, id: u32, depth: int)
    requires
        on_left(s, t, h, id, depth),
        h <= 64,
        0 <= depth,
    ensures
        s.pages.contains_key(id),
        structured(s.pages[id]),
        is_leaf_of(s.pages[id]) ==> id == first_of(t),
        !is_leaf_of(s.pages[id]) ==> child_of(s.pages[id], 0) != SENTINEL && on_left(
            s,
            t,
            h,
            child_of(s.pages[id], 0),
            depth + 1,
        ),
        depth <= h,
{
    let (u, lo, hi, next, g) = choose|
        u: Tree,
        lo: KeyBound,
        hi: KeyBound,
        next: u32,
        g: nat,
    | #[trigger] left_at(s, u, lo, hi, next, g, first_of(t), id) && depth + g <= h;
    lemma_good_page(s, u, lo, hi, next, g);
    if !is_leaf_of(s.pages[id]) {
        let kids = u->kids;
        let cs = cells_of(s.pages[id]);
        lemma_step_down(s, u, lo, hi, next, g, Seq::empty(), 0);
        assert(left_at(
            s,
            kids[0],
            lo_at(cs, 0, lo),
            hi_at(cs, 0, hi),
            next_at(kids, 0, next),
            (g - 1) as nat,
            first_of(t),
            id_of(kids[0]),
        ));
    }
}

/// Counts down the leaves that a walk along the chain may still visit, so that
/// a cyclic sibling link ends in an error.
pub struct LeafChainGuard {
    /// Leaves left.
    pub remaining: u64,
}

impl LeafChainGuard {
    /// A walk may visit as many leaves as there are pages.
    pub fn new(pager: &Pager) -> (g: Self)
        requires
            pager.inv(),
        ensures
            g.remaining == pager@.meta.page_count,
    {
        LeafChainGuard { remaining: pager.meta().page_count as u64 }
    }

    /// Accounts for one more leaf.
    pub fn step(&mut self) -> (r: Result<()>)
        ensures
            match r {
                Ok(_) => old(self).remaining > 0 && final(self).remaining == old(self).remaining
                    - 1,
                Err(e) => e is Corruption && old(self).remaining == 0 && final(self).remaining == 0,
            },
    {
        if self.remaining == 0 {
            return Err(
                Error::corrupt("leaf chain is longer than the file has pages (cyclic sibling link)"),
            );
        }
        self.remaining = self.remaining - 1;
        Ok(())
    }
}

/// What a walk along the chain needs to know of leaf `p` of a run.
proof fn lemma_run_leaf(
    s: PagerState,
    ids: Seq<u32>,
    first: u32,
    own: Set<u32>,
    f: spec_fn(Seq<u8>) -> Option<Seq<u8>>,
    p: int,
)
    requires
        run(s, ids, first, SENTINEL, own, f, None, None),
        0 <= p < ids.len(),
    ensures
        s.pages.contains_key(ids[p]),
        readable(s, ids[p]),
        ids[0] == first,
        extra_of(s.pages[ids[p]]) == (if p + 1 < ids.len() {
            ids[p + 1]
        } else {
            SENTINEL
        }),
        cells_of(s.pages[ids[p]]).len() == num_keys_of(s.pages[ids[p]]),
        entries(s.pages, ids.take(p + 1)) == entries(s.pages, ids.take(p)) + page_entries(
            s.pages,
            ids[p],
        ),
        entries(s.pages, ids.take(p + 1)).len() <= entries(s.pages, ids).len(),
        forall|j: int|
            0 <= j < page_entries(s.pages, ids[p]).len() ==> #[trigger] page_entries(
                s.pages,
                ids[p],
            )[j] == entries(s.pages, ids)[entries(s.pages, ids.take(p)).len() + j],
{
    reveal(run);
    assert(leaf_at(s.pages, ids, p, SENTINEL));
    lemma_entries_prefix(s.pages, ids, p);
    lemma_entries_prefix(s.pages, ids, p + 1);
}

impl BTree {
    /// Number of live keys in the tree.
    pub fn len(&self, pager: &mut Pager) -> (r: Result<u64>)
        requires
            old(pager).inv(),
        ensures
            final(pager).inv(),
            grows(*old(pager), *final(pager)),
            final(pager).dirty() == old(pager).dirty(),
            final(pager)@ == old(pager)@,
            tree_ok(old(pager)@, 64) ==> (r matches Ok(n) && exists|e: Seq<Entry>| #[trigger]
                listing(contents(old(pager)@), e) && e.len() == n),
            r matches Err(e) ==> e is Corruption,
    {
        let ghost s = pager@;
        let ghost ok = tree_ok(s, 64);
        let ghost (t, h) = choose|t: Tree, g: nat| g <= 64 && #[trigger] tree_at(s, t, g);
        let ghost ids = leaves(t);
        let ghost f = finds(s.pages, id_of(t), h);
        proof {
            if ok {
                lemma_tree_listing(s, t, h);
                assert(ids.len() > 0 && ids[0] == first_of(t)) by {
                    reveal(run);
                }
                assert(ids.take(0) =~= Seq::<u32>::empty());
            }
        }
        let mut count: u64 = 0;
        let mut leaf_id: u32 = self.first_leaf(pager)?;
        let mut guard: LeafChainGuard = LeafChainGuard::new(pager);
        let ghost mut p: int = 0;
        while leaf_id != SENTINEL
            invariant
                pager.inv(),
                grows(*old(pager), *pager),
                pager.dirty() == old(pager).dirty(),
                pager@ == s,
                s == old(pager)@,
                ok == tree_ok(s, 64),
                count <= (s.meta.page_count - guard.remaining) * 0xFFFF,
                guard.remaining <= s.meta.page_count,
                ok ==> {
                    &&& tree_at(s, t, h)
                    &&& ids == leaves(t)
                    &&& run(s, ids, first_of(t), SENTINEL, ids_of(t), f, None, None)
                    &&& listing(contents(s), entries(s.pages, ids))
                    &&& ids.len() < s.meta.page_count
                    &&& 0 <= p <= ids.len()
                    &&& leaf_id == (if p < ids.len() {
                        ids[p]
                    } else {
                        SENTINEL
                    })
                    &&& guard.remaining == s.meta.page_count - p
                    &&& count == entries(s.pages, ids.take(p)).len()
                },
            decreases guard.remaining,
        {
            guard.step()?;
            proof {
                if ok {
                    lemma_run_leaf(s, ids, first_of(t), ids_of(t), f, p);
                }
            }
            let leaf: Page = pager.read_page(leaf_id)?;
            count = count + leaf.num_keys() as u64;
            leaf_id = leaf.extra();
            proof {
                p = p + 1;
            }
        }
        proof {
            if ok {
                assert(p == ids.len()) by {
                    if p < ids.len() {
                        assert(ids.contains(ids[p]));
                        lemma_not_sentinel(s, t, h, ids[p]);
                    }
                }
                assert(ids.take(p) =~= ids);
            }
        }
        Ok(count)
    }

    /// True when the tree holds no keys.
    pub fn is_empty(&self, pager: &mut Pager) -> (r: Result<bool>)
        requires
            old(pager).inv(),
        ensures
            final(pager).inv(),
            grows(*old(pager), *final(pager)),
            final(pager).dirty() == old(pager).dirty(),
            final(pager)@ == old(pager)@,
            tree_ok(old(pager)@, 64) ==> (r matches Ok(b) && b == (contents(old(pager)@)
                == Map::<Seq<u8>, Seq<u8>>::empty())),
            r matches Err(e) ==> e is Corruption,
    {
        let n: u64 = self.len(pager)?;
        proof {
            let m = contents(pager@);
            if tree_ok(pager@, 64) {
                let e = choose|e: Seq<Entry>| #[trigger] listing(m, e) && e.len() == n;
                if n == 0 {
                    assert(m =~= Map::<Seq<u8>, Seq<u8>>::empty());
                } else {
                    assert(m.contains_key(e[0].0));
                }
            }
        }
        Ok(n == 0)
    }
}

/// No leaf of a tree is the end marker of the chain.
proof fn lemma_not_sentinel(s: PagerState, t: Tree, h: nat, id: u32)
    requires
        tree_at(s, t, h),
        leaves(t).contains(id),
    ensures
        id != SENTINEL,
{
    lemma_leaves(s, t, None, None, SENTINEL, h);
    lemma_good_page(s, t, None, None, SENTINEL, h);
    reveal(run);
    let i = choose|i: int| 0 <= i < leaves(t).len() && leaves(t)[i] == id;
    assert(ids_of(t).contains(leaves(t)[i]));
}

/// The walk starts at leaf `p`: nothing before it is inside the lower end of the
/// range, everything behind it is.
pub open spec fn starts_at(pages: Map<u32, Seq<u8>>, ids: Seq<u32>, lo: Bound, p: int) -> bool {
    let e = entries(pages, ids);
    &&& 0 <= p < ids.len()
    &&& forall|j: int|
        0 <= j < entries(pages, ids.take(p)).len() ==> !lower_ok(lo, (#[trigger] e[j]).0)
    &&& forall|j: int|
        entries(pages, ids.take(p + 1)).len() <= j < e.len() ==> lower_ok(lo, (#[trigger] e[j]).0)
}

/// The leaf where a key belongs is where a walk from that key starts.
proof fn lemma_belongs_starts(
    pages: Map<u32, Seq<u8>>,
    ids: Seq<u32>,
    lo: Bound,
    k: Seq<u8>,
    p: int,
)
    requires
        belongs(pages, ids, k, p),
        lo matches Bound::Included(b) ==> b@ == k,
        lo matches Bound::Excluded(b) ==> b@ == k,
        !(lo is Unbounded),
    ensures
        starts_at(pages, ids, lo, p),
{
    reveal(belongs);
    let e = entries(pages, ids);
    assert forall|j: int| 0 <= j < entries(pages, ids.take(p)).len() implies !lower_ok(
        lo,
        (#[trigger] e[j]).0,
    ) by {
        lemma_le_lt(k, e[j].0);
        if lex_lt(k, e[j].0) {
            lemma_lex_asymmetric(k, e[j].0);
        }
    }
}

/// The part of the entries that a walk has read when it is at leaf `p`.
pub open spec fn walked(
    e: Seq<Entry>,
    lo: Bound,
    hi: Bound,
    limit: int,
    out: Seq<Entry>,
    a: int,
    b: int,
) -> bool {
    &&& 0 <= a <= b <= e.len()
    &&& out == e.subrange(a, b)
    &&& forall|i: int| 0 <= i < a ==> !lower_ok(lo, (#[trigger] e[i]).0)
    &&& forall|i: int| a <= i < e.len() ==> lower_ok(lo, (#[trigger] e[i]).0)
    &&& forall|i: int| a <= i < b ==> upper_ok(hi, (#[trigger] e[i]).0)
    &&& b - a <= limit
}

/// Reading on in a leaf whose entries begin at `base`.
proof fn lemma_walk_on(
    e: Seq<Entry>,
    pe: Seq<Entry>,
    lo: Bound,
    hi: Bound,
    limit: int,
    out: Seq<Entry>,
    out2: Seq<Entry>,
    a: int,
    base: int,
    start: int,
    m: int,
)
    requires
        walked(e, lo, hi, limit, out, a, base + start),
        0 <= start <= m <= pe.len(),
        0 <= base,
        base + pe.len() <= e.len(),
        forall|j: int| 0 <= j < pe.len() ==> #[trigger] pe[j] == e[base + j],
        out2 == out + pe.subrange(start, m),
        forall|j: int| start <= j < m ==> upper_ok(hi, (#[trigger] pe[j]).0),
        out2.len() <= limit,
    ensures
        walked(e, lo, hi, limit, out2, a, base + m),
{
    assert forall|i: int| a <= i < base + m implies upper_ok(hi, (#[trigger] e[i]).0) by {
        if i >= base + start {
            assert(pe[i - base] == e[i]);
        }
    }
    assert(out2 =~= e.subrange(a, base + m)) by {
        assert forall|i: int| 0 <= i < out2.len() implies #[trigger] out2[i] == e.subrange(
            a,
            base + m,
        )[i] by {
            if i >= out.len() {
                assert(out2[i] == pe[start + i - out.len()]);
            }
        }
    }
}

/// Where the first leaf's part of the range begins.
proof fn lemma_walk_begins(
    pages: Map<u32, Seq<u8>>,
    ids: Seq<u32>,
    lo: Bound,
    hi: Bound,
    limit: int,
    p: int,
    start: int,
)
    requires
        starts_at(pages, ids, lo, p),
        0 <= limit,
        ({
            let pe = page_entries(pages, ids[p]);
            &&& 0 <= start <= pe.len()
            &&& forall|i: int| 0 <= i < start ==> !lower_ok(lo, (#[trigger] pe[i]).0)
            &&& forall|i: int| start <= i < pe.len() ==> lower_ok(lo, (#[trigger] pe[i]).0)
        }),
    ensures
        ({
            let base = entries(pages, ids.take(p)).len();
            walked(
                entries(pages, ids),
                lo,
                hi,
                limit,
                Seq::<Entry>::empty(),
                base + start,
                base + start,
            )
        }),
{
    let e = entries(pages, ids);
    let pe = page_entries(pages, ids[p]);
    let base = entries(pages, ids.take(p)).len() as int;
    lemma_entries_prefix(pages, ids, p);
    lemma_entries_prefix(pages, ids, p + 1);
    let e1 = entries(pages, ids.take(p + 1));
    assert(e1.len() == base + pe.len());
    assert forall|i: int| 0 <= i < pe.len() implies #[trigger] pe[i] == e[base + i] by {
        assert(e[base + i] == e1[base + i]);
    }
    assert forall|i: int| 0 <= i < base + start implies !lower_ok(lo, (#[trigger] e[i]).0) by {
        if i >= base {
            assert(pe[i - base] == e[i]);
        }
    }
    assert forall|i: int| base + start <= i < e.len() implies lower_ok(lo, (#[trigger] e[i]).0) by {
        if i < base + pe.len() {
            assert(pe[i - base] == e[i]);
        }
    }
    assert(e.subrange(base + start, base + start) =~= Seq::<Entry>::empty());
}

impl BTree {
    /// The leaf where a walk over a range starts.
    fn start_leaf(
        &self,
        pager: &mut Pager,
        lo: &Bound,
        Ghost(t): Ghost<Tree>,
        Ghost(h): Ghost<nat>,
    ) -> (r: (Result<u32>, Ghost<int>))
        requires
            old(pager).inv(),
        ensures
            final(pager).inv(),
            grows(*old(pager), *final(pager)),
            final(pager).dirty() == old(pager).dirty(),
            final(pager)@ == old(pager)@,
            tree_at(old(pager)@, t, h) && h <= 64 ==> starts_at(
                old(pager)@.pages,
                leaves(t),
                *lo,
                r.1@,
            ) && r.0 == Ok::<u32, Error>(leaves(t)[r.1@]),
            r.0 matches Err(e) ==> e is Corruption,
    {
        let ghost s = pager@;
        let ghost ok = tree_at(s, t, h) && h <= 64;
        let ghost ids = leaves(t);
        match lo {
            Bound::Unbounded => {
                let id = self.first_leaf(pager);
                proof {
                    if ok {
                        lemma_tree_listing(s, t, h);
                        assert(ids.len() > 0 && ids[0] == first_of(t)) by {
                            reveal(run);
                        }
                        assert(ids.take(0) =~= Seq::<u32>::empty());
                    }
                }
                (id, Ghost(0))
            },
            Bound::Included(k) => {
                let id = self.find_leaf(pager, k.as_slice());
                let ghost mut p: int = 0;
                proof {
                    if ok {
                        assert(tree_ok(s, 64));
                        p = lemma_owner(s, t, None, None, SENTINEL, h, k@, 65);
                        lemma_belongs_starts(s.pages, ids, *lo, k@, p);
                    }
                }
                (id, Ghost(p))
            },
            Bound::Excluded(k) => {
                let id = self.find_leaf(pager, k.as_slice());
                let ghost mut p: int = 0;
                proof {
                    if ok {
                        assert(tree_ok(s, 64));
                        p = lemma_owner(s, t, None, None, SENTINEL, h, k@, 65);
                        lemma_belongs_starts(s.pages, ids, *lo, k@, p);
                    }
                }
                (id, Ghost(p))
            },
        }
    }

    /// Every pair with a key inside the range, ascending, up to `limit` of them.
    ///
    /// Values past the upper end and past the limit are never read, so a bounded
    /// scan costs only the pages it touches.
    #[verifier::rlimit(60)]
    #[verifier::spinoff_prover]
    pub fn range_iter(&self, pager: &mut Pager, lo: &Bound, hi: &Bound, limit: usize) -> (r: Result<
        Vec<(Vec<u8>, Vec<u8>)>,
    >)
        requires
            old(pager).inv(),
        ensures
            final(pager).inv(),
            grows(*old(pager), *final(pager)),
            final(pager).dirty() == old(pager).dirty(),
            final(pager)@ == old(pager)@,
            tree_ok(old(pager)@, 64) ==> (r matches Ok(out) && scanned(
                contents(old(pager)@),
                *lo,
                *hi,
                limit as int,
                pairs(out@),
            )),
    {
        let ghost s = pager@;
        let ghost ok = tree_ok(s, 64);
        let ghost (t, h) = choose|t: Tree, g: nat| g <= 64 && #[trigger] tree_at(s, t, g);
        let ghost ids = leaves(t);
        let ghost e = entries(s.pages, ids);
        let ghost f = finds(s.pages, id_of(t), h);
        proof {
            if ok {
                lemma_tree_listing(s, t, h);
            }
        }
        let mut out: Vec<(Vec<u8>, Vec<u8>)> = Vec::new();
        let (begin, Ghost(p0)) = self.start_leaf(pager, lo, Ghost(t), Ghost(h));
        let mut leaf_id: u32 = begin?;
        let mut guard: LeafChainGuard = LeafChainGuard::new(pager);
        let mut first: bool = true;
        let ghost mut p: int = p0;
        let ghost mut a: int = 0;
        while leaf_id != SENTINEL
            invariant
                pager.inv(),
                grows(*old(pager), *pager),
                pager.dirty() == old(pager).dirty(),
                pager@ == s,
                s == old(pager)@,
                ok == tree_ok(s, 64),
                guard.remaining <= s.meta.page_count,
                e == entries(s.pages, ids),
                out@.len() < limit || first,
                first ==> out@.len() == 0,
                ok ==> {
                    &&& tree_at(s, t, h)
                    &&& h <= 64
                    &&& ids == leaves(t)
                    &&& run(s, ids, first_of(t), SENTINEL, ids_of(t), f, None, None)
                    &&& listing(contents(s), e)
                    &&& ids.len() < s.meta.page_count
                    &&& 0 <= p <= ids.len()
                    &&& leaf_id == (if p < ids.len() {
                        ids[p]
                    } else {
                        SENTINEL
                    })
                    &&& guard.remaining >= s.meta.page_count - p
                    &&& first ==> starts_at(s.pages, ids, *lo, p)
                    &&& !first ==> walked(
                        e,
                        *lo,
                        *hi,
                        limit as int,
                        pairs(out@),
                        a,
                        entries(s.pages, ids.take(p)).len() as int,
                    )
                },
            decreases guard.remaining,
        {
            guard.step()?;
            let ghost base = entries(s.pages, ids.take(p)).len() as int;
            let ghost pe = page_entries(s.pages, ids[p]);
            proof {
                if ok {
                    lemma_run_leaf(s, ids, first_of(t), ids_of(t), f, p);
                }
            }
            let leaf: Page = pager.read_page(leaf_id)?;
            let start: usize = if first {
                start_in(&leaf, lo, Ghost(s), Ghost(leaf_id))?
            } else {
                0
            };
            proof {
                if ok && first {
                    lemma_walk_begins(s.pages, ids, *lo, *hi, limit as int, p, start as int);
                    a = base + start;
                    assert(pairs(out@) =~= Seq::<Entry>::empty());
                }
            }
            first = false;
            if limit == 0 {
                proof {
                    if ok {
                        assert(cut(e, *lo, *hi, 0, pairs(out@), a, a));
                    }
                }
                return Ok(out);
            }
            let ghost prior = out@;
            let stopped: bool = read_leaf(
                pager,
                &leaf,
                start,
                hi,
                limit,
                &mut out,
                Ghost(leaf_id),
            )?;
            let ghost m = start + out@.len() - prior.len();
            proof {
                if ok {
                    assert(pairs(out@).len() == out@.len());
                    lemma_walk_on(
                        e,
                        pe,
                        *lo,
                        *hi,
                        limit as int,
                        pairs(prior),
                        pairs(out@),
                        a,
                        base,
                        start as int,
                        m,
                    );
                }
            }
            if stopped {
                proof {
                    if ok {
                        assert(cut(e, *lo, *hi, limit as int, pairs(out@), a, base + m)) by {
                            if m < pe.len() {
                                assert(pe[m] == e[base + m]);
                            }
                        }
                    }
                }
                return Ok(out);
            }
            leaf_id = leaf.extra();
            proof {
                p = p + 1;
            }
        }
        proof {
            if ok {
                assert(p == ids.len()) by {
                    if p < ids.len() {
                        assert(ids.contains(ids[p]));
                        lemma_not_sentinel(s, t, h, ids[p]);
                    }
                }
                assert(ids.take(p) =~= ids);
                assert(cut(e, *lo, *hi, limit as int, pairs(out@), a, e.len() as int));
            }
        }
        Ok(out)
    }

    /// Every pair in ascending key order.
    pub fn scan(&self, pager: &mut Pager) -> (r: Result<Vec<(Vec<u8>, Vec<u8>)>>)
        requires
            old(pager).inv(),
        ensures
            final(pager).inv(),
            grows(*old(pager), *final(pager)),
            final(pager).dirty() == old(pager).dirty(),
            final(pager)@ == old(pager)@,
            tree_ok(old(pager)@, 64) ==> (r matches Ok(out) && (listing(
                contents(old(pager)@),
                pairs(out@),
            ) || (out@.len() == usize::MAX && overfull(contents(old(pager)@))))),
    {
        let out = self.range_iter(pager, &Bound::Unbounded, &Bound::Unbounded, usize::MAX)?;
        proof {
            if tree_ok(pager@, 64) {
                let (e, a, b) = choose|e: Seq<Entry>, a: int, b: int| #[trigger]
                    cut(
                        e,
                        Bound::Unbounded,
                        Bound::Unbounded,
                        usize::MAX as int,
                        pairs(out@),
                        a,
                        b,
                    ) && listing(contents(pager@), e);
                if out@.len() < usize::MAX {
                    assert(pairs(out@).len() == out@.len());
                    assert(a == 0) by {
                        if a > 0 {
                            assert(!lower_ok(Bound::Unbounded, e[0].0));
                        }
                    }
                    assert(b == e.len());
                    assert(pairs(out@) =~= e);
                } else {
                    assert(pairs(out@).len() == out@.len());
                    assert(listing(contents(pager@), e) && e.len() >= usize::MAX);
                }
            }
        }
        Ok(out)
    }

    /// The first `limit` pairs in ascending key order.
    pub fn scan_iter(&self, pager: &mut Pager, limit: usize) -> (r: Result<
        Vec<(Vec<u8>, Vec<u8>)>,
    >)
        requires
            old(pager).inv(),
        ensures
            final(pager).inv(),
            grows(*old(pager), *final(pager)),
            final(pager).dirty() == old(pager).dirty(),
            final(pager)@ == old(pager)@,
            tree_ok(old(pager)@, 64) ==> (r matches Ok(out) && scanned(
                contents(old(pager)@),
                Bound::Unbounded,
                Bound::Unbounded,
                limit as int,
                pairs(out@),
            )),
    {
        self.range_iter(pager, &Bound::Unbounded, &Bound::Unbounded, limit)
    }
}

} // verus!
