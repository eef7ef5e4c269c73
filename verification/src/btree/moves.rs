//! How operations move pages between a tree and the free list.
//!
//! Each operation works on the pages of one tree. Pages leave it for the free
//! list or join it from there; no other allocated page changes.

use crate::btree::owned;
use crate::page::{extra_of, type_of, MetaData, PageType, SENTINEL};
use crate::pager::{
    alloc_id, alloc_meta, can_alloc, free_ok, free_of, freed, gave, lemma_alloc_pool,
    lemma_free_unique, lemma_freed_pool, link, pool_ok, took, PagerState,
};
use vstd::prelude::*;

verus! {

/// Page `x` reads the same.
pub open spec fn same_page(p: Map<u32, Seq<u8>>, q: Map<u32, Seq<u8>>, x: u32) -> bool {
    (q.contains_key(x) <==> p.contains_key(x)) && (p.contains_key(x) ==> q[x] == p[x])
}

/// The pages `from` became the pages `to`, trading with the free list alone; the
/// id that stands for no page gets none.
pub open spec fn moved(s: PagerState, s2: PagerState, from: Set<u32>, to: Set<u32>) -> bool {
    &&& s.meta.page_count <= s2.meta.page_count
    &&& s2.pages.contains_key(SENTINEL) ==> s.pages.contains_key(SENTINEL)
    &&& s2.meta == (MetaData {
        free_list: s2.meta.free_list,
        page_count: s2.meta.page_count,
        ..s.meta
    })
    &&& owned(s2, to)
    &&& forall|x: u32|
        !from.contains(x) && !free_of(s).contains(x) && x < s.meta.page_count ==> #[trigger]
            same_page(s.pages, s2.pages, x)
    &&& forall|x: u32|
        #![trigger to.contains(x)]
        #![trigger free_of(s2).contains(x)]
        to.contains(x) || free_of(s2).contains(x) ==> from.contains(x) || free_of(s).contains(x)
            || s.meta.page_count <= x
}

/// How many pages can still be allocated.
pub open spec fn room(s: PagerState) -> int {
    free_of(s).len() + (SENTINEL - s.meta.page_count)
}

/// One move after another is a move.
pub proof fn lemma_moved_trans(
    s: PagerState,
    s1: PagerState,
    s2: PagerState,
    a: Set<u32>,
    b: Set<u32>,
    c: Set<u32>,
)
    requires
        moved(s, s1, a, b),
        moved(s1, s2, b, c),
    ensures
        moved(s, s2, a, c),
{
    assert forall|x: u32|
        !a.contains(x) && !free_of(s).contains(x) && x < s.meta.page_count implies #[trigger]
        same_page(s.pages, s2.pages, x) by {
        assert(same_page(s.pages, s1.pages, x));
        assert(!b.contains(x));
        assert(!free_of(s1).contains(x));
        assert(same_page(s1.pages, s2.pages, x));
    }
    assert forall|x: u32| c.contains(x) || free_of(s2).contains(x) implies a.contains(x) || free_of(
        s,
    ).contains(x) || s.meta.page_count <= x by {
        assert(b.contains(x) || free_of(s1).contains(x) || s1.meta.page_count <= x);
    }
}

/// A move leaves alone what belongs to neither side.
pub proof fn lemma_moved_beside(
    s: PagerState,
    s2: PagerState,
    a: Set<u32>,
    b: Set<u32>,
    rest: Set<u32>,
)
    requires
        moved(s, s2, a, b),
        owned(s, rest),
        a.disjoint(rest),
    ensures
        moved(s, s2, a.union(rest), b.union(rest)),
        owned(s2, rest),
        b.disjoint(rest),
        forall|x: u32| #[trigger] rest.contains(x) ==> same_page(s.pages, s2.pages, x),
{
    assert forall|x: u32| #[trigger] rest.contains(x) implies same_page(s.pages, s2.pages, x)
        && !b.contains(x) && !free_of(s2).contains(x) && 1 <= x < s2.meta.page_count by {
        assert(!a.contains(x));
        assert(same_page(s.pages, s2.pages, x));
    }
}

/// Nothing moved.
pub proof fn lemma_moved_none(s: PagerState, a: Set<u32>)
    requires
        owned(s, a),
    ensures
        moved(s, s, a, a),
{
}

/// Equal sets of pages can stand for each other.
pub proof fn lemma_moved_same(
    s: PagerState,
    s2: PagerState,
    a: Set<u32>,
    b: Set<u32>,
    a2: Set<u32>,
    b2: Set<u32>,
)
    requires
        moved(s, s2, a, b),
        a =~= a2,
        b =~= b2,
    ensures
        moved(s, s2, a2, b2),
{
}

/// The free list stays while its pages do.
pub proof fn lemma_pool_frame(s: PagerState, s2: PagerState)
    requires
        pool_ok(s),
        s2.meta.free_list == s.meta.free_list,
        s.meta.page_count <= s2.meta.page_count,
        forall|x: u32| #[trigger] free_of(s).contains(x) ==> same_page(s.pages, s2.pages, x),
    ensures
        pool_ok(s2),
        free_of(s2) == free_of(s),
{
    let f = free_of(s);
    assert forall|i: int| 0 <= i < f.len() implies 1 <= #[trigger] f[i] < s2.meta.page_count
        && s2.pages.contains_key(f[i]) && type_of(s2.pages[f[i]]) == Some(PageType::Free)
        && extra_of(s2.pages[f[i]]) == link(f, i + 1) by {
        assert(f.contains(f[i]));
        assert(same_page(s.pages, s2.pages, f[i]));
    }
    assert(free_ok(s2, f));
    lemma_free_unique(s2, f);
}

/// Rewriting one of the tree's own pages.
pub proof fn lemma_moved_write(s: PagerState, s2: PagerState, a: Set<u32>, id: u32, page: Seq<u8>)
    requires
        owned(s, a),
        a.contains(id),
        s2.meta == s.meta,
        s2.pages == s.pages.insert(id, page),
    ensures
        moved(s, s2, a, a),
        room(s2) == room(s),
        free_of(s2) == free_of(s),
{
    assert forall|x: u32| #[trigger] free_of(s).contains(x) implies same_page(
        s.pages,
        s2.pages,
        x,
    ) by {
        assert(x != id);
    }
    lemma_pool_frame(s, s2);
}

/// Taking pages into the tree.
pub proof fn lemma_moved_took(s: PagerState, s2: PagerState, a: Set<u32>, ids: Seq<u32>)
    requires
        owned(s, a),
        s.meta.page_count >= 1,
        took(s, s2, ids),
    ensures
        moved(s, s2, a, a.union(ids.to_set())),
        room(s2) == room(s) - ids.len(),
        forall|x: u32| a.contains(x) ==> !#[trigger] ids.contains(x),
        forall|x: u32| #[trigger] a.contains(x) ==> same_page(s.pages, s2.pages, x),
{
    let b = a.union(ids.to_set());
    assert forall|x: u32| a.contains(x) implies !#[trigger] ids.contains(x) by {}
    assert forall|x: u32| #[trigger] a.contains(x) implies same_page(s.pages, s2.pages, x) by {
        assert(!ids.contains(x));
        assert(s2.pages.contains_key(x) <==> s.pages.contains_key(x));
    }
    assert forall|x: u32| #[trigger] b.contains(x) implies 1 <= x < s2.meta.page_count && !free_of(
        s2,
    ).contains(x) by {
        if ids.contains(x) {
            if free_of(s).contains(x) {
                let f = free_of(s);
                let i = choose|i: int| 0 <= i < f.len() && f[i] == x;
                assert(1 <= f[i]);
            } else {
                assert(s.meta.page_count <= x);
            }
        } else if free_of(s2).contains(x) {
            assert(free_of(s).contains(x));
        }
    }
    assert forall|x: u32|
        !a.contains(x) && !free_of(s).contains(x) && x < s.meta.page_count implies #[trigger]
        same_page(s.pages, s2.pages, x) by {
        assert(!ids.contains(x));
        assert(s2.pages.contains_key(x) <==> s.pages.contains_key(x));
    }
}

/// Giving pages of the tree to the free list.
pub proof fn lemma_moved_gave(s: PagerState, s2: PagerState, a: Set<u32>, ids: Seq<u32>)
    requires
        owned(s, a.union(ids.to_set())),
        gave(s, s2, ids),
        forall|x: u32| a.contains(x) ==> !#[trigger] ids.contains(x),
    ensures
        moved(s, s2, a.union(ids.to_set()), a),
        room(s2) == room(s) + ids.len(),
        forall|x: u32| #[trigger] a.contains(x) ==> same_page(s.pages, s2.pages, x),
{
    let b = a.union(ids.to_set());
    assert(!ids.contains(SENTINEL)) by {
        if ids.contains(SENTINEL) {
            assert(b.contains(SENTINEL));
        }
    }
    assert(s2.pages.contains_key(SENTINEL) <==> s.pages.contains_key(SENTINEL));
    assert forall|x: u32| #[trigger] a.contains(x) implies same_page(s.pages, s2.pages, x)
        && !free_of(s2).contains(x) && 1 <= x < s2.meta.page_count by {
        assert(!ids.contains(x));
        assert(b.contains(x));
        assert(s2.pages.contains_key(x) <==> s.pages.contains_key(x));
        assert(!free_of(s2).contains(x));
    }
    assert forall|x: u32|
        !b.contains(x) && !free_of(s).contains(x) && x < s.meta.page_count implies #[trigger]
        same_page(s.pages, s2.pages, x) by {
        assert(!ids.contains(x));
        assert(s2.pages.contains_key(x) <==> s.pages.contains_key(x));
    }
    assert forall|x: u32| a.contains(x) || free_of(s2).contains(x) implies b.contains(x)
        || free_of(s).contains(x) || s.meta.page_count <= x by {
        if free_of(s2).contains(x) && ids.contains(x) {
            assert(b.contains(x));
        }
    }
}

/// Taking one page into the tree.
pub proof fn lemma_moved_alloc(s: PagerState, s2: PagerState, a: Set<u32>, page: Seq<u8>)
    requires
        owned(s, a),
        s.meta.page_count >= 1,
        can_alloc(s),
        s2.pages == s.pages.insert(alloc_id(s), page),
        s2.meta == alloc_meta(s),
    ensures
        moved(s, s2, a, a.insert(alloc_id(s))),
        !a.contains(alloc_id(s)),
        room(s2) == room(s) - 1,
        1 <= alloc_id(s) < s2.meta.page_count,
        forall|x: u32| #[trigger] a.contains(x) ==> same_page(s.pages, s2.pages, x),
{
    lemma_alloc_pool(s, s2, page);
    let id = alloc_id(s);
    let f = free_of(s);
    if f.len() > 0 {
        assert(f.contains(f[0]));
        assert(1 <= f[0]);
    }
    assert(!a.contains(id));
    assert forall|x: u32| #[trigger] free_of(s2).contains(x) implies f.contains(x) by {
        let i = choose|i: int| 0 <= i < free_of(s2).len() && free_of(s2)[i] == x;
        if f.len() > 0 {
            assert(f[i + 1] == x);
        }
    }
}

/// Freeing one page of the tree.
pub proof fn lemma_moved_freed(s: PagerState, s2: PagerState, a: Set<u32>, id: u32)
    requires
        owned(s, a),
        a.contains(id),
        freed(s, s2, id),
    ensures
        moved(s, s2, a, a.remove(id)),
        room(s2) == room(s) + 1,
        forall|x: u32| #[trigger] a.contains(x) && x != id ==> same_page(s.pages, s2.pages, x),
{
    lemma_freed_pool(s, s2, id);
    let f = free_of(s);
    let g = free_of(s2);
    assert forall|x: u32| #[trigger] g.contains(x) implies x == id || f.contains(x) by {
        let i = choose|i: int| 0 <= i < g.len() && g[i] == x;
        if i > 0 {
            assert(f[i - 1] == x);
        }
    }
}

} // verus!
