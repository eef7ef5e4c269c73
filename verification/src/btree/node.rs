//! Taking a child's split into an internal node.

use crate::btree::leaf::{halved, whole};
use crate::btree::moves::{lemma_moved_beside, moved, same_page};
use crate::btree::{
    ascending, child_of, ckey, distinct, find, first_of, good, hi_at, holds, id_of, ids_of,
    in_range, kids_apart, lemma_find_frame, lemma_find_node, lemma_frame, lemma_lt_le_trans,
    lemma_route_exists, lemma_route_range, lemma_routed_unique, lemma_step_down, lo_at, next_at,
    node_page, node_tight, owned, routed, trim, uniform, KeyBound, Tree,
};
use crate::bytes::{lemma_lex_total, lemma_lex_transitive, lex_le, lex_lt, u32_at};
use crate::page::{
    cell_key_of, cells_of, extra_of, internal_bytes, law_internal_cell_roundtrip, lemma_page_len,
    sane,
};
use crate::pager::{free_of, PagerState};
use vstd::prelude::*;

verus! {

broadcast use lemma_page_len;

// ---- lists of children -----------------------------------------------------------------

/// The pages of a list of trees.
pub open spec fn kids_ids(kids: Seq<Tree>) -> Set<u32> {
    Set::new(|x: u32| exists|i: int| 0 <= i < kids.len() && ids_of(#[trigger] kids[i]).contains(x))
}

/// The pages of a node.
pub open spec fn node_ids(id: u32, kids: Seq<Tree>) -> Set<u32> {
    ids_of(Tree::Node { id, kids })
}

/// Separators and children, each child in good order in the range between its
/// separators.
pub open spec fn node_list(
    s: PagerState,
    cs: Seq<Seq<u8>>,
    kids: Seq<Tree>,
    lo: KeyBound,
    hi: KeyBound,
    next: u32,
    h: nat,
) -> bool {
    &&& ascending(false, cs, lo, hi)
    &&& node_tight(cs, lo)
    &&& kids.len() == cs.len() + 1
    &&& kids_apart(kids)
    &&& forall|j: int|
        0 <= j < kids.len() ==> (j > 0 ==> u32_at(cs[j - 1], 2) == id_of(#[trigger] kids[j]))
            && good(
            s,
            kids[j],
            lo_at(cs, j, lo),
            hi_at(cs, j, hi),
            next_at(kids, j, next),
            h,
        )
}

/// What a list of children holds under a key.
pub open spec fn kid_find(
    pages: Map<u32, Seq<u8>>,
    cs: Seq<Seq<u8>>,
    kids: Seq<Tree>,
    k: Seq<u8>,
    h: nat,
) -> Option<Seq<u8>> {
    let slot = choose|slot: int| routed(cs, k, slot);
    find(pages, id_of(kids[slot]), k, h)
}

/// The child that a key is routed to answers for the list.
pub proof fn lemma_kid_find(
    pages: Map<u32, Seq<u8>>,
    cs: Seq<Seq<u8>>,
    kids: Seq<Tree>,
    k: Seq<u8>,
    h: nat,
    slot: int,
)
    requires
        routed(cs, k, slot),
    ensures
        kid_find(pages, cs, kids, k, h) == find(pages, id_of(kids[slot]), k, h),
{
    let other = choose|slot: int| routed(cs, k, slot);
    lemma_routed_unique(cs, k, slot, other);
}

/// A node in good order is a list of children.
pub proof fn lemma_node_open(
    s: PagerState,
    id: u32,
    kids: Seq<Tree>,
    lo: KeyBound,
    hi: KeyBound,
    next: u32,
    h: nat,
)
    requires
        good(s, Tree::Node { id, kids }, lo, hi, next, h),
    ensures
        h > 0,
        node_page(s.pages[id], id),
        sane(s.pages[id]),
        s.pages.contains_key(id),
        extra_of(s.pages[id]) == id_of(kids[0]),
        node_list(s, cells_of(s.pages[id]), kids, lo, hi, next, (h - 1) as nat),
        !kids_ids(kids).contains(id),
        forall|k: Seq<u8>| #[trigger] find(s.pages, id, k, h) == kid_find(
            s.pages,
            cells_of(s.pages[id]),
            kids,
            k,
            (h - 1) as nat,
        ),
{
    reveal(good);
    let t = Tree::Node { id, kids };
    let cs = cells_of(s.pages[id]);
    assert(id_of(kids[0]) == child_of(s.pages[id], 0));
    assert forall|j: int| 0 <= j < kids.len() implies (j > 0 ==> u32_at(cs[j - 1], 2) == id_of(
        #[trigger] kids[j],
    )) && good(
        s,
        kids[j],
        lo_at(cs, j, lo),
        hi_at(cs, j, hi),
        next_at(kids, j, next),
        (h - 1) as nat,
    ) by {
        lemma_step_down(s, t, lo, hi, next, h, Seq::empty(), j);
    }
    assert forall|k: Seq<u8>| #[trigger] find(s.pages, id, k, h) == kid_find(
        s.pages,
        cs,
        kids,
        k,
        (h - 1) as nat,
    ) by {
        lemma_route_exists(cs, lo, hi, k);
        let slot = choose|slot: int| routed(cs, k, slot);
        lemma_find_node(s.pages, id, k, slot, h);
        assert(id_of(kids[slot]) == child_of(s.pages[id], slot));
    }
}

/// What a list of children says of one of them.
proof fn lemma_kid(
    s: PagerState,
    cs: Seq<Seq<u8>>,
    kids: Seq<Tree>,
    lo: KeyBound,
    hi: KeyBound,
    next: u32,
    h: nat,
    j: int,
)
    requires
        node_list(s, cs, kids, lo, hi, next, h),
        0 <= j < kids.len(),
    ensures
        j > 0 ==> u32_at(cs[j - 1], 2) == id_of(kids[j]),
        holds(s.pages, kids[j], lo_at(cs, j, lo), hi_at(cs, j, hi), next_at(kids, j, next)),
        trim(s.pages, kids[j], lo_at(cs, j, lo)),
        uniform(kids[j], h),
        distinct(kids[j]),
        owned(s, ids_of(kids[j])),
{
    let kid = kids[j];
    assert(good(s, kid, lo_at(cs, j, lo), hi_at(cs, j, hi), next_at(kids, j, next), h));
    reveal(good);
}

/// A page with a list of children holds a node.
proof fn lemma_node_shape(
    s: PagerState,
    id: u32,
    kids: Seq<Tree>,
    b: Seq<u8>,
    lo: KeyBound,
    hi: KeyBound,
    next: u32,
    h: nat,
)
    requires
        s.pages.contains_key(id),
        s.pages[id] == b,
        node_page(b, id),
        sane(b),
        extra_of(b) == id_of(kids[0]),
        node_list(s, cells_of(b), kids, lo, hi, next, h),
        !kids_ids(kids).contains(id),
    ensures
        holds(s.pages, Tree::Node { id, kids }, lo, hi, next),
        trim(s.pages, Tree::Node { id, kids }, lo),
        uniform(Tree::Node { id, kids }, h + 1),
        distinct(Tree::Node { id, kids }),
{
    let cs = cells_of(b);
    assert forall|j: int| 0 <= j < kids.len() implies id_of(#[trigger] kids[j]) == child_of(b, j)
        && holds(
        s.pages,
        kids[j],
        lo_at(cs, j, lo),
        hi_at(cs, j, hi),
        next_at(kids, j, next),
    ) by {
        lemma_kid(s, cs, kids, lo, hi, next, h, j);
    }
    assert forall|j: int| 0 <= j < kids.len() implies trim(
        s.pages,
        #[trigger] kids[j],
        lo_at(cs, j, lo),
    ) && uniform(kids[j], h) && distinct(kids[j]) && !ids_of(kids[j]).contains(id) by {
        lemma_kid(s, cs, kids, lo, hi, next, h, j);
    }
}

/// The pages of a node are allocated.
proof fn lemma_node_owned(
    s: PagerState,
    id: u32,
    kids: Seq<Tree>,
    cs: Seq<Seq<u8>>,
    lo: KeyBound,
    hi: KeyBound,
    next: u32,
    h: nat,
)
    requires
        node_list(s, cs, kids, lo, hi, next, h),
        1 <= id < s.meta.page_count,
        !free_of(s).contains(id),
    ensures
        owned(s, ids_of(Tree::Node { id, kids })),
{
    lemma_kid(s, cs, kids, lo, hi, next, h, 0);
    let t = Tree::Node { id, kids };
    assert forall|x: u32| #[trigger] ids_of(t).contains(x) implies 1 <= x < s.meta.page_count
        && !free_of(s).contains(x) by {
        if x != id {
            let j = choose|j: int| 0 <= j < kids.len() && ids_of(#[trigger] kids[j]).contains(x);
            lemma_kid(s, cs, kids, lo, hi, next, h, j);
        }
    }
}

/// A node answers as the child that a key is routed to.
proof fn lemma_node_finds(
    s: PagerState,
    id: u32,
    kids: Seq<Tree>,
    b: Seq<u8>,
    lo: KeyBound,
    hi: KeyBound,
    next: u32,
    h: nat,
    k: Seq<u8>,
)
    requires
        s.pages.contains_key(id),
        s.pages[id] == b,
        node_page(b, id),
        extra_of(b) == id_of(kids[0]),
        node_list(s, cells_of(b), kids, lo, hi, next, h),
    ensures
        find(s.pages, id, k, h + 1) == kid_find(s.pages, cells_of(b), kids, k, h),
{
    let cs = cells_of(b);
    lemma_route_exists(cs, lo, hi, k);
    let slot = choose|slot: int| routed(cs, k, slot);
    lemma_find_node(s.pages, id, k, slot, h + 1);
    lemma_kid(s, cs, kids, lo, hi, next, h, slot);
    assert(id_of(kids[slot]) == child_of(b, slot));
}

/// A page with a list of children is a node in good order.
pub proof fn lemma_node_close(
    s: PagerState,
    id: u32,
    kids: Seq<Tree>,
    b: Seq<u8>,
    lo: KeyBound,
    hi: KeyBound,
    next: u32,
    h: nat,
)
    requires
        s.pages.contains_key(id),
        s.pages[id] == b,
        node_page(b, id),
        sane(b),
        extra_of(b) == id_of(kids[0]),
        node_list(s, cells_of(b), kids, lo, hi, next, h),
        !kids_ids(kids).contains(id),
        1 <= id < s.meta.page_count,
        !free_of(s).contains(id),
    ensures
        good(s, Tree::Node { id, kids }, lo, hi, next, h + 1),
        forall|k: Seq<u8>| #[trigger] find(s.pages, id, k, h + 1) == kid_find(
            s.pages,
            cells_of(b),
            kids,
            k,
            h,
        ),
{
    assert(good(s, Tree::Node { id, kids }, lo, hi, next, h + 1)) by {
        lemma_node_shape(s, id, kids, b, lo, hi, next, h);
        lemma_node_owned(s, id, kids, cells_of(b), lo, hi, next, h);
        reveal(good);
    }
    assert forall|k: Seq<u8>| #[trigger] find(s.pages, id, k, h + 1) == kid_find(
        s.pages,
        cells_of(b),
        kids,
        k,
        h,
    ) by {
        lemma_node_finds(s, id, kids, b, lo, hi, next, h, k);
    }
}

/// A tree in good order stays so while its pages do.
pub proof fn lemma_good_frame(
    s: PagerState,
    s2: PagerState,
    t: Tree,
    lo: KeyBound,
    hi: KeyBound,
    next: u32,
    h: nat,
)
    requires
        good(s, t, lo, hi, next, h),
        owned(s2, ids_of(t)),
        forall|x: u32| #[trigger] ids_of(t).contains(x) ==> same_page(s.pages, s2.pages, x),
    ensures
        good(s2, t, lo, hi, next, h),
        forall|k: Seq<u8>, fuel: nat| #[trigger]
            find(s2.pages, id_of(t), k, fuel) == find(s.pages, id_of(t), k, fuel),
{
    reveal(good);
    assert forall|x: u32| #[trigger] ids_of(t).contains(x) implies s2.pages.contains_key(x)
        && s2.pages[x] == s.pages[x] by {
        lemma_pages_exist(s.pages, t, lo, hi, next, x);
        assert(same_page(s.pages, s2.pages, x));
    }
    lemma_frame(s.pages, s2.pages, t, lo, hi, next);
    assert forall|k: Seq<u8>, fuel: nat| #[trigger]
        find(s2.pages, id_of(t), k, fuel) == find(s.pages, id_of(t), k, fuel) by {
        lemma_find_frame(s.pages, s2.pages, t, lo, hi, next, k, fuel);
    }
}

/// Every page of a held tree exists.
pub proof fn lemma_pages_exist(
    p: Map<u32, Seq<u8>>,
    t: Tree,
    lo: KeyBound,
    hi: KeyBound,
    next: u32,
    x: u32,
)
    requires
        holds(p, t, lo, hi, next),
        ids_of(t).contains(x),
    ensures
        p.contains_key(x),
    decreases t,
{
    match t {
        Tree::Leaf { id, chains } => {
            if x != id {
                let i = choose|i: int| 0 <= i < chains.len() && (#[trigger] chains[i]).contains(x);
                let cs = cells_of(p[id]);
                assert(crate::btree::chained(p, cs[i], chains[i]));
                let j = choose|j: int| 0 <= j < chains[i].len() && chains[i][j] == x;
                assert(p.contains_key(chains[i][j]));
            }
        },
        Tree::Node { id, kids } => {
            if x != id {
                let j = choose|j: int| 0 <= j < kids.len() && ids_of(#[trigger] kids[j]).contains(x);
                let cs = cells_of(p[id]);
                assert(holds(
                    p,
                    kids[j],
                    lo_at(cs, j, lo),
                    hi_at(cs, j, hi),
                    next_at(kids, j, next),
                ));
                lemma_pages_exist(
                    p,
                    kids[j],
                    lo_at(cs, j, lo),
                    hi_at(cs, j, hi),
                    next_at(kids, j, next),
                    x,
                );
            }
        },
    }
}

/// A list of children stays while their pages do.
pub proof fn lemma_node_list_frame(
    s: PagerState,
    s2: PagerState,
    cs: Seq<Seq<u8>>,
    kids: Seq<Tree>,
    lo: KeyBound,
    hi: KeyBound,
    next: u32,
    h: nat,
)
    requires
        node_list(s, cs, kids, lo, hi, next, h),
        owned(s2, kids_ids(kids)),
        forall|x: u32| #[trigger] kids_ids(kids).contains(x) ==> same_page(s.pages, s2.pages, x),
    ensures
        node_list(s2, cs, kids, lo, hi, next, h),
        forall|k: Seq<u8>| #[trigger] kid_find(s2.pages, cs, kids, k, h) == kid_find(
            s.pages,
            cs,
            kids,
            k,
            h,
        ),
{
    reveal(good);
    assert forall|j: int| 0 <= j < kids.len() implies good(
        s2,
        #[trigger] kids[j],
        lo_at(cs, j, lo),
        hi_at(cs, j, hi),
        next_at(kids, j, next),
        h,
    ) && (forall|k: Seq<u8>, fuel: nat| #[trigger]
        find(s2.pages, id_of(kids[j]), k, fuel) == find(s.pages, id_of(kids[j]), k, fuel)) by {
        assert(good(
            s,
            kids[j],
            lo_at(cs, j, lo),
            hi_at(cs, j, hi),
            next_at(kids, j, next),
            h,
        ));
        assert forall|x: u32| #[trigger] ids_of(kids[j]).contains(x) implies same_page(
            s.pages,
            s2.pages,
            x,
        ) && 1 <= x < s2.meta.page_count && !free_of(s2).contains(x) by {
            assert(kids_ids(kids).contains(x));
        }
        lemma_good_frame(
            s,
            s2,
            kids[j],
            lo_at(cs, j, lo),
            hi_at(cs, j, hi),
            next_at(kids, j, next),
            h,
        );
    }
    assert forall|k: Seq<u8>| #[trigger] kid_find(s2.pages, cs, kids, k, h) == kid_find(
        s.pages,
        cs,
        kids,
        k,
        h,
    ) by {
        lemma_route_exists(cs, lo, hi, k);
        let slot = choose|slot: int| routed(cs, k, slot);
        assert(find(s2.pages, id_of(kids[slot]), k, h) == find(s.pages, id_of(kids[slot]), k, h));
    }
}

/// Where the children's ranges lie.
proof fn lemma_bounds_after(cs: Seq<Seq<u8>>, j: int, cell: Seq<u8>)
    requires
        0 <= j <= cs.len(),
    ensures
        ({
            let ds = cs.insert(j, cell);
            &&& forall|i: int, lo: KeyBound| 0 <= i <= j ==> #[trigger] lo_at(ds, i, lo) == lo_at(cs, i, lo)
            &&& forall|i: int, hi: KeyBound|
                0 <= i < j ==> #[trigger] hi_at(ds, i, hi) == hi_at(cs, i, hi)
            &&& forall|hi: KeyBound| #[trigger] hi_at(ds, j, hi) == Some(ckey(false, cell))
            &&& forall|lo: KeyBound| #[trigger] lo_at(ds, j + 1, lo) == Some(ckey(false, cell))
            &&& forall|i: int, hi: KeyBound|
                j < i <= ds.len() ==> #[trigger] hi_at(ds, i, hi) == hi_at(cs, i - 1, hi)
            &&& forall|i: int, lo: KeyBound|
                j + 1 < i <= ds.len() ==> #[trigger] lo_at(ds, i, lo) == lo_at(cs, i - 1, lo)
        }),
{
}

/// The list after one child was replaced by another tree in its place.
pub proof fn lemma_list_replaced(
    s: PagerState,
    s2: PagerState,
    cs: Seq<Seq<u8>>,
    kids: Seq<Tree>,
    lo: KeyBound,
    hi: KeyBound,
    next: u32,
    h: nat,
    j: int,
    key: Seq<u8>,
    value: Seq<u8>,
    l: Tree,
)
    requires
        node_list(s, cs, kids, lo, hi, next, h),
        0 <= j < kids.len(),
        routed(cs, key, j),
        whole(
            s,
            s2,
            kids[j],
            lo_at(cs, j, lo),
            hi_at(cs, j, hi),
            next_at(kids, j, next),
            h,
            key,
            value,
            l,
        ),
    ensures
        node_list(s2, cs, kids.update(j, l), lo, hi, next, h),
        forall|k: Seq<u8>|
            in_range(k, lo, hi) ==> #[trigger] kid_find(s2.pages, cs, kids.update(j, l), k, h) == if k
                == key {
                Some(value)
            } else {
                kid_find(s.pages, cs, kids, k, h)
            },
{
    reveal(good);
    let ks = kids.update(j, l);
    let a = ids_of(kids[j]);
    assert forall|i: int| 0 <= i < kids.len() && i != j implies good(
        s2,
        #[trigger] kids[i],
        lo_at(cs, i, lo),
        hi_at(cs, i, hi),
        next_at(kids, i, next),
        h,
    ) && ids_of(l).disjoint(ids_of(kids[i])) && (forall|k: Seq<u8>, fuel: nat| #[trigger]
        find(s2.pages, id_of(kids[i]), k, fuel) == find(s.pages, id_of(kids[i]), k, fuel)) by {
        lemma_sibling(s, s2, cs, kids, lo, hi, next, h, j, i, ids_of(l));
    }
    assert forall|i: int| 0 <= i < ks.len() implies (i > 0 ==> u32_at(cs[i - 1], 2) == id_of(
        #[trigger] ks[i],
    )) && good(
        s2,
        ks[i],
        lo_at(cs, i, lo),
        hi_at(cs, i, hi),
        next_at(ks, i, next),
        h,
    ) by {
        if i == j {
            assert(next_at(ks, i, next) == next_at(kids, i, next)) by {
                if i + 1 < kids.len() {
                    assert(ks[i + 1] == kids[i + 1]);
                }
            }
            assert(id_of(kids[j]) == id_of(l));
        } else {
            assert(ks[i] == kids[i]);
            assert(next_at(ks, i, next) == next_at(kids, i, next)) by {
                if i + 1 < kids.len() && i + 1 != j {
                    assert(ks[i + 1] == kids[i + 1]);
                }
            }
        }
    }
    assert(kids_apart(ks)) by {
        assert forall|x: int, y: int, v: u32|
            0 <= x < y < ks.len() && #[trigger] ids_of(ks[x]).contains(v) implies !#[trigger] ids_of(
            ks[y],
        ).contains(v) by {
            if x == j {
                assert(ks[y] == kids[y]);
                assert(ids_of(l).disjoint(ids_of(kids[y])));
            } else if y == j {
                assert(ks[x] == kids[x]);
                assert(ids_of(l).disjoint(ids_of(kids[x])));
            } else {
                assert(ks[x] == kids[x] && ks[y] == kids[y]);
                assert(ids_of(kids[x]).contains(v));
            }
        }
    }
    assert forall|k: Seq<u8>| in_range(k, lo, hi) implies #[trigger] kid_find(
        s2.pages,
        cs,
        ks,
        k,
        h,
    ) == if k == key {
        Some(value)
    } else {
        kid_find(s.pages, cs, kids, k, h)
    } by {
        lemma_route_exists(cs, lo, hi, k);
        let slot = choose|slot: int| routed(cs, k, slot);
        lemma_kid_find(s2.pages, cs, ks, k, h, slot);
        lemma_kid_find(s.pages, cs, kids, k, h, slot);
        lemma_route_range(cs, lo, hi, k, slot);
        if k == key {
            lemma_routed_unique(cs, key, slot, j);
        }
        if slot != j {
            assert(ks[slot] == kids[slot]);
            assert(find(s2.pages, id_of(kids[slot]), k, h) == find(
                s.pages,
                id_of(kids[slot]),
                k,
                h,
            ));
        } else {
            assert(find(s2.pages, id_of(l), k, h) == if k == key {
                Some(value)
            } else {
                find(s.pages, id_of(kids[j]), k, h)
            });
        }
    }
}

/// A sibling of the child that an operation worked on.
pub proof fn lemma_sibling(
    s: PagerState,
    s2: PagerState,
    cs: Seq<Seq<u8>>,
    kids: Seq<Tree>,
    lo: KeyBound,
    hi: KeyBound,
    next: u32,
    h: nat,
    j: int,
    i: int,
    to: Set<u32>,
)
    requires
        node_list(s, cs, kids, lo, hi, next, h),
        0 <= j < kids.len(),
        0 <= i < kids.len(),
        i != j,
        moved(s, s2, ids_of(kids[j]), to),
    ensures
        good(s2, kids[i], lo_at(cs, i, lo), hi_at(cs, i, hi), next_at(kids, i, next), h),
        to.disjoint(ids_of(kids[i])),
        forall|k: Seq<u8>, fuel: nat| #[trigger]
            find(s2.pages, id_of(kids[i]), k, fuel) == find(s.pages, id_of(kids[i]), k, fuel),
{
    reveal(good);
    assert(good(s, kids[i], lo_at(cs, i, lo), hi_at(cs, i, hi), next_at(kids, i, next), h));
    assert(ids_of(kids[j]).disjoint(ids_of(kids[i]))) by {
        assert forall|x: u32| ids_of(kids[j]).contains(x) implies !ids_of(kids[i]).contains(x) by {
            if ids_of(kids[i]).contains(x) {
                if i < j {
                    assert(!ids_of(kids[j]).contains(x));
                } else {
                    assert(!ids_of(kids[i]).contains(x));
                }
            }
        }
    }
    lemma_moved_beside(s, s2, ids_of(kids[j]), to, ids_of(kids[i]));
    lemma_good_frame(
        s,
        s2,
        kids[i],
        lo_at(cs, i, lo),
        hi_at(cs, i, hi),
        next_at(kids, i, next),
        h,
    );
}

/// The list after one child was split in two.
#[verifier::rlimit(60)]
#[verifier::spinoff_prover]
pub proof fn lemma_list_halved(
    s: PagerState,
    s2: PagerState,
    cs: Seq<Seq<u8>>,
    kids: Seq<Tree>,
    lo: KeyBound,
    hi: KeyBound,
    next: u32,
    h: nat,
    j: int,
    key: Seq<u8>,
    value: Seq<u8>,
    l: Tree,
    r: Tree,
    sep: Seq<u8>,
)
    requires
        node_list(s, cs, kids, lo, hi, next, h),
        0 <= j < kids.len(),
        routed(cs, key, j),
        halved(
            s,
            s2,
            kids[j],
            lo_at(cs, j, lo),
            hi_at(cs, j, hi),
            next_at(kids, j, next),
            h,
            key,
            value,
            l,
            r,
            sep,
        ),
        in_range(key, lo, hi),
    ensures
        ({
            let ds = cs.insert(j, internal_bytes(sep, id_of(r)));
            let ks = kids.update(j, l).insert(j + 1, r);
            &&& node_list(s2, ds, ks, lo, hi, next, h)
            &&& routed(cs, sep, j)
            &&& forall|k: Seq<u8>|
                in_range(k, lo, hi) ==> #[trigger] kid_find(s2.pages, ds, ks, k, h) == if k == key {
                    Some(value)
                } else {
                    kid_find(s.pages, cs, kids, k, h)
                }
        }),
{
    let cell = internal_bytes(sep, id_of(r));
    let ds = cs.insert(j, cell);
    let ks = kids.update(j, l).insert(j + 1, r);
    let both = ids_of(l).union(ids_of(r));
    law_internal_cell_roundtrip(sep, id_of(r));
    lemma_bounds_after(cs, j, cell);
    assert(cs.len() >= j);
    assert forall|i: int| 0 <= i < ds.len() implies #[trigger] ds[i] == (if i < j {
        cs[i]
    } else if i == j {
        cell
    } else {
        cs[i - 1]
    }) by {}
    assert forall|i: int| 0 <= i < ks.len() implies #[trigger] ks[i] == (if i < j {
        kids[i]
    } else if i == j {
        l
    } else if i == j + 1 {
        r
    } else {
        kids[i - 1]
    }) by {}
    lemma_separator_fits(cs, lo, hi, j, sep);
    lemma_list_halved_order(cs, lo, hi, j, sep, id_of(r));
    assert forall|i: int| 0 <= i < kids.len() && i != j implies good(
        s2,
        #[trigger] kids[i],
        lo_at(cs, i, lo),
        hi_at(cs, i, hi),
        next_at(kids, i, next),
        h,
    ) && both.disjoint(ids_of(kids[i])) && (forall|k: Seq<u8>, fuel: nat| #[trigger]
        find(s2.pages, id_of(kids[i]), k, fuel) == find(s.pages, id_of(kids[i]), k, fuel)) by {
        lemma_sibling(s, s2, cs, kids, lo, hi, next, h, j, i, both);
    }
    assert forall|i: int| 0 <= i < ks.len() implies (i > 0 ==> u32_at(ds[i - 1], 2) == id_of(
        #[trigger] ks[i],
    )) && good(
        s2,
        ks[i],
        lo_at(ds, i, lo),
        hi_at(ds, i, hi),
        next_at(ks, i, next),
        h,
    ) by {
        if i < j {
            assert(next_at(ks, i, next) == next_at(kids, i, next)) by {
                assert(ks[i + 1] == (if i + 1 < j {
                    kids[i + 1]
                } else {
                    l
                }));
            }
            if i > 0 {
                assert(ds[i - 1] == cs[i - 1]);
            }
            assert(lo_at(ds, i, lo) == lo_at(cs, i, lo));
            assert(hi_at(ds, i, hi) == hi_at(cs, i, hi));
        } else if i == j {
            assert(ks[i + 1] == r);
            assert(id_of(kids[j]) == id_of(l));
            if i > 0 {
                assert(ds[i - 1] == cs[i - 1]);
            }
            assert(lo_at(ds, i, lo) == lo_at(cs, i, lo));
            assert(hi_at(ds, i, hi) == Some(sep));
        } else if i == j + 1 {
            assert(ds[j] == cell);
            assert(next_at(ks, i, next) == next_at(kids, j, next)) by {
                if j + 1 < kids.len() {
                    assert(ks[i + 1] == kids[j + 1]);
                }
            }
            assert(lo_at(ds, i, lo) == Some(sep));
            assert(hi_at(ds, i, hi) == hi_at(cs, j, hi));
        } else {
            assert(ds[i - 1] == cs[i - 2]);
            assert(id_of(kids[i - 1]) == u32_at(cs[i - 2], 2));
            assert(next_at(ks, i, next) == next_at(kids, i - 1, next)) by {
                if i < kids.len() {
                    assert(ks[i + 1] == kids[i]);
                }
            }
            assert(lo_at(ds, i, lo) == lo_at(cs, i - 1, lo));
            assert(hi_at(ds, i, hi) == hi_at(cs, i - 1, hi));
        }
    }
    assert(kids_apart(ks)) by {
        assert forall|x: int, y: int, v: u32|
            0 <= x < y < ks.len() && #[trigger] ids_of(ks[x]).contains(v) implies !#[trigger] ids_of(
            ks[y],
        ).contains(v) by {
            let a = if x <= j {
                x
            } else {
                x - 1
            };
            let b = if y <= j {
                y
            } else {
                y - 1
            };
            if a == j && b == j {
                assert(ids_of(l).disjoint(ids_of(r)));
            } else if a == j {
                assert(ks[y] == kids[b]);
                assert(both.contains(v));
                assert(both.disjoint(ids_of(kids[b])));
            } else if b == j {
                assert(ks[x] == kids[a]);
                assert(both.disjoint(ids_of(kids[a])));
                assert(!both.contains(v));
            } else {
                assert(ks[x] == kids[a] && ks[y] == kids[b]);
                assert(ids_of(kids[a]).contains(v));
            }
        }
    }
    assert forall|k: Seq<u8>| in_range(k, lo, hi) implies #[trigger] kid_find(
        s2.pages,
        ds,
        ks,
        k,
        h,
    ) == if k == key {
        Some(value)
    } else {
        kid_find(s.pages, cs, kids, k, h)
    } by {
        lemma_route_exists(cs, lo, hi, k);
        let slot = choose|slot: int| routed(cs, k, slot);
        lemma_kid_find(s.pages, cs, kids, k, h, slot);
        lemma_route_range(cs, lo, hi, k, slot);
        lemma_route_after(cs, j, sep, id_of(r), k, slot);
        if k == key {
            lemma_routed_unique(cs, key, slot, j);
        }
        if slot < j {
            lemma_kid_find(s2.pages, ds, ks, k, h, slot);
            assert(ks[slot] == kids[slot]);
            assert(find(s2.pages, id_of(kids[slot]), k, h) == find(
                s.pages,
                id_of(kids[slot]),
                k,
                h,
            ));
        } else if slot > j {
            lemma_kid_find(s2.pages, ds, ks, k, h, slot + 1);
            assert(ks[slot + 1] == kids[slot]);
            assert(find(s2.pages, id_of(kids[slot]), k, h) == find(
                s.pages,
                id_of(kids[slot]),
                k,
                h,
            ));
        } else {
            assert(find(s2.pages, id_of(l), k, h) == find(s2.pages, id_of(l), k, h));
            if lex_lt(k, sep) {
                lemma_kid_find(s2.pages, ds, ks, k, h, j);
                assert(ks[j] == l);
            } else {
                lemma_kid_find(s2.pages, ds, ks, k, h, j + 1);
                assert(ks[j + 1] == r);
            }
        }
    }
}

/// A separator between two neighbours is routed to where it goes.
proof fn lemma_separator_fits(
    cs: Seq<Seq<u8>>,
    lo: KeyBound,
    hi: KeyBound,
    j: int,
    sep: Seq<u8>,
)
    requires
        ascending(false, cs, lo, hi),
        0 <= j <= cs.len(),
        lo_at(cs, j, lo) matches Some(b) ==> lex_lt(b, sep),
        hi_at(cs, j, hi) matches Some(b) ==> lex_lt(sep, b),
    ensures
        routed(cs, sep, j),
        forall|i: int| 0 <= i < j ==> lex_lt(ckey(false, #[trigger] cs[i]), sep),
        forall|i: int| j <= i < cs.len() ==> lex_lt(sep, ckey(false, #[trigger] cs[i])),
{
    assert forall|i: int| 0 <= i < j implies lex_lt(ckey(false, #[trigger] cs[i]), sep) by {
        if i < j - 1 {
            lemma_lex_transitive(ckey(false, cs[i]), ckey(false, cs[j - 1]), sep);
        }
    }
    assert forall|i: int| j <= i < cs.len() implies lex_lt(sep, ckey(false, #[trigger] cs[i])) by {
        if i > j {
            lemma_lex_transitive(sep, ckey(false, cs[j]), ckey(false, cs[i]));
        }
    }
}

/// The separators stay in order.
proof fn lemma_list_halved_order(
    cs: Seq<Seq<u8>>,
    lo: KeyBound,
    hi: KeyBound,
    j: int,
    sep: Seq<u8>,
    child: u32,
)
    requires
        ascending(false, cs, lo, hi),
        node_tight(cs, lo),
        0 <= j <= cs.len(),
        sep.len() <= 1028,
        lo_at(cs, j, lo) matches Some(b) ==> lex_lt(b, sep),
        hi_at(cs, j, hi) matches Some(b) ==> lex_lt(sep, b),
    ensures
        ascending(false, cs.insert(j, internal_bytes(sep, child)), lo, hi),
        node_tight(cs.insert(j, internal_bytes(sep, child)), lo),
{
    let cell = internal_bytes(sep, child);
    let ds = cs.insert(j, cell);
    law_internal_cell_roundtrip(sep, child);
    lemma_separator_fits(cs, lo, hi, j, sep);
    assert forall|i: int| 0 <= i < ds.len() implies #[trigger] ds[i] == (if i < j {
        cs[i]
    } else if i == j {
        cell
    } else {
        cs[i - 1]
    }) by {}
    if lo is Some {
        if j > 0 {
            assert(lex_lt(lo->0, ckey(false, cs[j - 1])));
            lemma_lex_transitive(lo->0, ckey(false, cs[j - 1]), sep);
        }
    }
    if hi is Some {
        if j < cs.len() {
            assert(cell_key_of(false, cs[j]) is Some);
            lemma_lex_transitive(sep, ckey(false, cs[j]), hi->0);
        }
    }
    assert forall|a: int, b: int| 0 <= a < b < ds.len() implies lex_lt(
        ckey(false, #[trigger] ds[a]),
        ckey(false, #[trigger] ds[b]),
    ) by {
        let p = if a < j {
            a
        } else {
            a - 1
        };
        let q = if b < j {
            b
        } else {
            b - 1
        };
        if a == j {
            assert(lex_lt(sep, ckey(false, cs[q])));
        } else if b == j {
            assert(lex_lt(ckey(false, cs[p]), sep));
        } else {
            assert(lex_lt(ckey(false, cs[p]), ckey(false, cs[q])));
        }
    }
}

/// Where a key is routed after a separator was put in.
proof fn lemma_route_after(
    cs: Seq<Seq<u8>>,
    j: int,
    sep: Seq<u8>,
    child: u32,
    k: Seq<u8>,
    slot: int,
)
    requires
        0 <= j <= cs.len(),
        sep.len() <= 1028,
        routed(cs, k, slot),
        forall|i: int| 0 <= i < j ==> lex_lt(ckey(false, #[trigger] cs[i]), sep),
        forall|i: int| j <= i < cs.len() ==> lex_lt(sep, ckey(false, #[trigger] cs[i])),
    ensures
        ({
            let ds = cs.insert(j, internal_bytes(sep, child));
            &&& slot < j ==> routed(ds, k, slot)
            &&& slot > j ==> routed(ds, k, slot + 1)
            &&& slot == j && lex_lt(k, sep) ==> routed(ds, k, j)
            &&& slot == j && !lex_lt(k, sep) ==> routed(ds, k, j + 1)
        }),
{
    let cell = internal_bytes(sep, child);
    let ds = cs.insert(j, cell);
    law_internal_cell_roundtrip(sep, child);
    assert forall|i: int| 0 <= i < ds.len() implies #[trigger] ds[i] == (if i < j {
        cs[i]
    } else if i == j {
        cell
    } else {
        cs[i - 1]
    }) by {}
    lemma_lex_total(k, sep);
    if slot < j {
        assert(lex_lt(k, ckey(false, cs[slot])));
        lemma_lex_transitive(k, ckey(false, cs[slot]), sep);
    }
    if slot > j {
        assert(lex_le(ckey(false, cs[slot - 1]), k));
        if slot - 1 >= j {
            lemma_lt_le_trans(sep, ckey(false, cs[slot - 1]), k);
        }
    }
}

/// Dividing a list of children around separator `m`.
#[verifier::rlimit(60)]
#[verifier::spinoff_prover]
pub proof fn lemma_list_divided(
    s: PagerState,
    cs: Seq<Seq<u8>>,
    kids: Seq<Tree>,
    lo: KeyBound,
    hi: KeyBound,
    next: u32,
    h: nat,
    m: int,
)
    requires
        node_list(s, cs, kids, lo, hi, next, h),
        0 <= m < cs.len(),
    ensures
        ({
            let sep = ckey(false, cs[m]);
            let lc = cs.take(m);
            let rc = cs.skip(m + 1);
            let lk = kids.take(m + 1);
            let rk = kids.skip(m + 1);
            &&& node_list(s, lc, lk, lo, Some(sep), first_of(rk[0]), h)
            &&& node_list(s, rc, rk, Some(sep), hi, next, h)
            &&& kids_ids(lk).disjoint(kids_ids(rk))
            &&& kids_ids(lk).union(kids_ids(rk)) =~= kids_ids(kids)
            &&& u32_at(cs[m], 2) == id_of(rk[0])
            &&& sep.len() <= 1028
            &&& lo matches Some(b) ==> lex_lt(b, sep)
            &&& hi matches Some(b) ==> lex_lt(sep, b)
            &&& forall|k: Seq<u8>| #[trigger]
                kid_find(s.pages, cs, kids, k, h) == if lex_lt(k, sep) {
                    kid_find(s.pages, lc, lk, k, h)
                } else {
                    kid_find(s.pages, rc, rk, k, h)
                }
        }),
{
    let sep = ckey(false, cs[m]);
    let lc = cs.take(m);
    let rc = cs.skip(m + 1);
    let lk = kids.take(m + 1);
    let rk = kids.skip(m + 1);
    assert(cell_key_of(false, cs[m]) is Some);
    assert forall|i: int| 0 <= i < lc.len() implies #[trigger] lc[i] == cs[i] by {}
    assert forall|i: int| 0 <= i < rc.len() implies #[trigger] rc[i] == cs[m + 1 + i] by {}
    assert forall|i: int| 0 <= i < lk.len() implies #[trigger] lk[i] == kids[i] by {}
    assert forall|i: int| 0 <= i < rk.len() implies #[trigger] rk[i] == kids[m + 1 + i] by {}
    assert(id_of(kids[m + 1]) == u32_at(cs[m], 2));
    assert(ascending(false, lc, lo, Some(sep))) by {
        assert forall|i: int| 0 <= i < lc.len() implies cell_key_of(false, #[trigger] lc[i]) is Some
            && in_range(ckey(false, lc[i]), lo, Some(sep)) by {
            assert(lex_lt(ckey(false, cs[i]), ckey(false, cs[m])));
        }
        assert forall|a: int, b: int| 0 <= a < b < lc.len() implies lex_lt(
            ckey(false, #[trigger] lc[a]),
            ckey(false, #[trigger] lc[b]),
        ) by {
            assert(lex_lt(ckey(false, cs[a]), ckey(false, cs[b])));
        }
    }
    assert(ascending(false, rc, Some(sep), hi)) by {
        assert forall|i: int| 0 <= i < rc.len() implies cell_key_of(false, #[trigger] rc[i]) is Some
            && in_range(ckey(false, rc[i]), Some(sep), hi) by {
            assert(lex_lt(ckey(false, cs[m]), ckey(false, cs[m + 1 + i])));
        }
        assert forall|a: int, b: int| 0 <= a < b < rc.len() implies lex_lt(
            ckey(false, #[trigger] rc[a]),
            ckey(false, #[trigger] rc[b]),
        ) by {
            assert(lex_lt(ckey(false, cs[m + 1 + a]), ckey(false, cs[m + 1 + b])));
        }
    }
    assert(node_tight(rc, Some(sep))) by {
        assert forall|i: int| 0 <= i < rc.len() implies (#[trigger] rc[i]).len() <= 1034 && lex_lt(
            sep,
            ckey(false, rc[i]),
        ) by {
            assert(lex_lt(ckey(false, cs[m]), ckey(false, cs[m + 1 + i])));
        }
    }
    assert forall|j: int| 0 <= j < lk.len() implies (j > 0 ==> u32_at(lc[j - 1], 2) == id_of(
        #[trigger] lk[j],
    )) && good(
        s,
        lk[j],
        lo_at(lc, j, lo),
        hi_at(lc, j, Some(sep)),
        next_at(lk, j, first_of(rk[0])),
        h,
    ) by {
        assert(good(
            s,
            kids[j],
            lo_at(cs, j, lo),
            hi_at(cs, j, hi),
            next_at(kids, j, next),
            h,
        ));
        assert(rk[0] == kids[m + 1]);
        if j > 0 {
            assert(lc[j - 1] == cs[j - 1]);
        }
        if j < m {
            assert(lc[j] == cs[j]);
            assert(lk[j + 1] == kids[j + 1]);
        }
    }
    assert forall|j: int| 0 <= j < rk.len() implies (j > 0 ==> u32_at(rc[j - 1], 2) == id_of(
        #[trigger] rk[j],
    )) && good(
        s,
        rk[j],
        lo_at(rc, j, Some(sep)),
        hi_at(rc, j, hi),
        next_at(rk, j, next),
        h,
    ) by {
        let i = m + 1 + j;
        assert(good(
            s,
            kids[i],
            lo_at(cs, i, lo),
            hi_at(cs, i, hi),
            next_at(kids, i, next),
            h,
        ));
        if j > 0 {
            assert(rc[j - 1] == cs[i - 1]);
        }
        if j < rc.len() {
            assert(rc[j] == cs[i]);
            assert(rk[j + 1] == kids[i + 1]);
        }
    }
    assert(kids_apart(lk)) by {
        assert forall|x: int, y: int, v: u32|
            0 <= x < y < lk.len() && #[trigger] ids_of(lk[x]).contains(v) implies !#[trigger] ids_of(
            lk[y],
        ).contains(v) by {
            assert(ids_of(kids[x]).contains(v));
            assert(!ids_of(kids[y]).contains(v));
        }
    }
    assert(kids_apart(rk)) by {
        assert forall|x: int, y: int, v: u32|
            0 <= x < y < rk.len() && #[trigger] ids_of(rk[x]).contains(v) implies !#[trigger] ids_of(
            rk[y],
        ).contains(v) by {
            assert(ids_of(kids[m + 1 + x]).contains(v));
            assert(!ids_of(kids[m + 1 + y]).contains(v));
        }
    }
    lemma_ids_divided(kids, m + 1);
    assert forall|k: Seq<u8>| #[trigger] kid_find(s.pages, cs, kids, k, h) == if lex_lt(k, sep) {
        kid_find(s.pages, lc, lk, k, h)
    } else {
        kid_find(s.pages, rc, rk, k, h)
    } by {
        lemma_route_exists(cs, lo, hi, k);
        let slot = choose|slot: int| routed(cs, k, slot);
        lemma_kid_find(s.pages, cs, kids, k, h, slot);
        lemma_lex_total(k, sep);
        if lex_lt(k, sep) {
            assert(slot <= m) by {
                if slot > m {
                    assert(lex_le(ckey(false, cs[m]), k));
                    crate::btree::lemma_le_lt(sep, k);
                }
            }
            assert(routed(lc, k, slot)) by {
                assert forall|j: int| 0 <= j < slot implies lex_le(
                    ckey(false, #[trigger] lc[j]),
                    k,
                ) by {
                    assert(lc[j] == cs[j]);
                }
                assert forall|j: int| slot <= j < lc.len() implies lex_lt(
                    k,
                    ckey(false, #[trigger] lc[j]),
                ) by {
                    assert(lc[j] == cs[j]);
                }
            }
            lemma_kid_find(s.pages, lc, lk, k, h, slot);
            assert(lk[slot] == kids[slot]);
        } else {
            assert(slot > m) by {
                if slot <= m {
                    assert(lex_lt(k, ckey(false, cs[m])));
                }
            }
            let t = slot - m - 1;
            assert(routed(rc, k, t)) by {
                assert forall|j: int| 0 <= j < t implies lex_le(
                    ckey(false, #[trigger] rc[j]),
                    k,
                ) by {
                    assert(rc[j] == cs[m + 1 + j]);
                }
                assert forall|j: int| t <= j < rc.len() implies lex_lt(
                    k,
                    ckey(false, #[trigger] rc[j]),
                ) by {
                    assert(rc[j] == cs[m + 1 + j]);
                }
            }
            lemma_kid_find(s.pages, rc, rk, k, h, t);
            assert(rk[t] == kids[slot]);
        }
    }
}

proof fn lemma_ids_divided(kids: Seq<Tree>, at: int)
    requires
        kids_apart(kids),
        0 <= at <= kids.len(),
    ensures
        kids_ids(kids.take(at)).disjoint(kids_ids(kids.skip(at))),
        kids_ids(kids.take(at)).union(kids_ids(kids.skip(at))) =~= kids_ids(kids),
{
    let a = kids.take(at);
    let b = kids.skip(at);
    assert forall|x: u32| kids_ids(a).contains(x) implies kids_ids(kids).contains(x)
        && !kids_ids(b).contains(x) by {
        let i = choose|i: int| 0 <= i < a.len() && ids_of(#[trigger] a[i]).contains(x);
        assert(a[i] == kids[i]);
        if kids_ids(b).contains(x) {
            let j = choose|j: int| 0 <= j < b.len() && ids_of(#[trigger] b[j]).contains(x);
            assert(b[j] == kids[at + j]);
            assert(ids_of(kids[i]).contains(x));
        }
    }
    assert forall|x: u32| kids_ids(b).contains(x) implies kids_ids(kids).contains(x) by {
        let j = choose|j: int| 0 <= j < b.len() && ids_of(#[trigger] b[j]).contains(x);
        assert(b[j] == kids[at + j]);
    }
    assert forall|x: u32| kids_ids(kids).contains(x) implies kids_ids(a).contains(x) || kids_ids(
        b,
    ).contains(x) by {
        let i = choose|i: int| 0 <= i < kids.len() && ids_of(#[trigger] kids[i]).contains(x);
        if i < at {
            assert(a[i] == kids[i]);
        } else {
            assert(b[i - at] == kids[i]);
        }
    }
}

} // verus!
