//! Page store: staged pages over a file image, a clean-page cache, the free
//! list and the flush journal.
//!
//! A read takes the first tier that has the page: the staged pages, the
//! clean-page cache, the file image, whose CRC is verified before use.
//!
//! Writes are staged and made durable by a flush. Overwriting pages in place
//! is not atomic, so a flush is journaled: every page image of the flush, the
//! meta page included, goes to a journal with a checksum before the file is
//! touched. A complete journal is replayed on opening and an incomplete one is
//! discarded; either way the file holds exactly the state of one flush.

use crate::bytes::{
    copy_range, get_u32, get_u64, le32, le64, lemma_u32_roundtrip, lemma_u64_roundtrip, push_bytes,
    push_u32, push_u64, u32_at, u64_at,
};
use crate::checksum::{crc32, crc32_of};
use crate::error::{Error, Result};
use crate::page::{
    crc_ok, default_meta, extra_of, fresh, lemma_page_len, meta_of, overflow_payload_of, page_id_of,
    sealed, structure_ok, type_of, zero_page, MetaData, Page, PageType, OVERFLOW_PAYLOAD, SENTINEL,
};
use crate::page_cache::{cached, lemma_without_shorter, without, PageCache};
use std::sync::Arc;
use vstd::prelude::*;

verus! {

broadcast use lemma_page_len;

/// Default clean-page cache capacity (4 MiB worth of pages).
pub const DEFAULT_CACHE_PAGES: usize = 1024;

/// The file grows by this many pages at a time.
pub const GROW_CHUNK: u32 = 32;

/// Page-cache counters, for metrics.
#[derive(Debug, Clone, Copy, PartialEq, Eq, Structural)]
pub struct CacheStats {
    /// Reads served from the staged pages or the clean-page cache.
    pub hits: u64,
    /// Reads that had to decode a page from the file.
    pub misses: u64,
    /// Pages currently held by the clean-page cache.
    pub resident: u64,
    /// Pages staged for the next flush.
    pub dirty: u64,
}

/// What a pager shows: the pages that can be read, and the metadata.
#[verifier::ext_equal]
pub struct PagerState {
    /// Every readable page.
    pub pages: Map<u32, Seq<u8>>,
    /// The metadata.
    pub meta: MetaData,
}

/// Whether a page image is sound and belongs at `id`.
pub open spec fn page_valid(b: Seq<u8>, id: u32) -> bool {
    crc_ok(b) && structure_ok(b) && page_id_of(b) == id
}

/// The pages that can be read: staged ones first, then sound file pages.
pub open spec fn visible(file: Seq<Seq<u8>>, dirty: Map<u32, Seq<u8>>) -> Map<u32, Seq<u8>> {
    Map::new(
        |id: u32| dirty.contains_key(id) || (id < file.len() && page_valid(file[id as int], id)),
        |id: u32|
            if dirty.contains_key(id) {
                dirty[id]
            } else {
                file[id as int]
            },
    )
}

/// Staged pages, by identifier.
spec fn staged(d: Seq<Page>) -> Map<u32, Seq<u8>> {
    Map::new(
        |id: u32| exists|i: int| 0 <= i < d.len() && page_id_of(#[trigger] d[i]@) == id,
        |id: u32| d[choose|i: int| 0 <= i < d.len() && page_id_of(#[trigger] d[i]@) == id]@,
    )
}

spec fn ids_ascend(d: Seq<Page>) -> bool {
    forall|i: int, j: int|
        0 <= i < j < d.len() ==> page_id_of(#[trigger] d[i]@) < page_id_of(#[trigger] d[j]@)
}

spec fn all_clean(file: Seq<Page>, s: Seq<(u32, Seq<u8>)>) -> bool {
    forall|i: int|
        0 <= i < s.len() ==> (#[trigger] s[i]).0 < file.len() && page_valid(
            file[s[i].0 as int]@,
            s[i].0,
        ) && s[i].1 == file[s[i].0 as int]@
}

proof fn lemma_clean_without(file: Seq<Page>, s: Seq<(u32, Seq<u8>)>, key: u32)
    requires
        all_clean(file, s),
    ensures
        all_clean(file, without(s, key)),
    decreases s.len(),
{
    if s.len() > 0 {
        assert(all_clean(file, s.skip(1))) by {
            assert forall|i: int| 0 <= i < s.skip(1).len() implies (#[trigger] s.skip(1)[i]).0
                < file.len() && page_valid(file[s.skip(1)[i].0 as int]@, s.skip(1)[i].0)
                && s.skip(1)[i].1 == file[s.skip(1)[i].0 as int]@ by {
                assert(s.skip(1)[i] == s[i + 1]);
            }
        }
        lemma_clean_without(file, s.skip(1), key);
        let w = without(s.skip(1), key);
        if s[0].0 != key {
            assert forall|i: int| 0 <= i < without(s, key).len() implies (#[trigger] without(
                s,
                key,
            )[i]).0 < file.len() && page_valid(
                file[without(s, key)[i].0 as int]@,
                without(s, key)[i].0,
            ) && without(s, key)[i].1 == file[without(s, key)[i].0 as int]@ by {
                if i > 0 {
                    assert(without(s, key)[i] == w[i - 1]);
                }
            }
        }
    }
}

proof fn lemma_clean_cached(file: Seq<Page>, s: Seq<(u32, Seq<u8>)>, key: u32)
    requires
        all_clean(file, s),
    ensures
        cached(s, key) matches Some(v) ==> key < file.len() && page_valid(file[key as int]@, key)
            && v == file[key as int]@,
    decreases s.len(),
{
    if s.len() > 0 && s[0].0 != key {
        assert(all_clean(file, s.skip(1))) by {
            assert forall|i: int| 0 <= i < s.skip(1).len() implies (#[trigger] s.skip(1)[i]).0
                < file.len() && page_valid(file[s.skip(1)[i].0 as int]@, s.skip(1)[i].0)
                && s.skip(1)[i].1 == file[s.skip(1)[i].0 as int]@ by {
                assert(s.skip(1)[i] == s[i + 1]);
            }
        }
        lemma_clean_cached(file, s.skip(1), key);
    }
}

proof fn lemma_clean_front(
    file: Seq<Page>,
    s: Seq<(u32, Seq<u8>)>,
    kept: Seq<(u32, Seq<u8>)>,
    key: u32,
    page: Seq<u8>,
)
    requires
        all_clean(file, kept),
        key < file.len(),
        page_valid(file[key as int]@, key),
        page == file[key as int]@,
        s == seq![(key, page)] + kept,
    ensures
        all_clean(file, s),
{
    assert forall|i: int| 0 <= i < s.len() implies (#[trigger] s[i]).0 < file.len() && page_valid(
        file[s[i].0 as int]@,
        s[i].0,
    ) && s[i].1 == file[s[i].0 as int]@ by {
        if i > 0 {
            assert(s[i] == kept[i - 1]);
        }
    }
}

/// Owns the file image, the staged pages, the page cache and the free list.
pub struct Pager {
    file: Vec<Page>,
    dirty: Vec<Page>,
    cache: PageCache,
    meta: MetaData,
    meta_dirty: bool,
    hits: u64,
    misses: u64,
}

impl View for Pager {
    type V = PagerState;

    open spec fn view(&self) -> PagerState {
        PagerState { pages: visible(self.file(), self.dirty()), meta: self.meta_spec() }
    }
}

impl Pager {
    /// The page images of the file, sound or not.
    pub closed spec fn file(&self) -> Seq<Seq<u8>> {
        Seq::new(self.file@.len(), |i: int| self.file@[i]@)
    }

    /// The pages staged for the next flush.
    pub closed spec fn dirty(&self) -> Map<u32, Seq<u8>> {
        staged(self.dirty@)
    }

    /// The metadata.
    pub closed spec fn meta_spec(&self) -> MetaData {
        self.meta
    }

    /// Whether the metadata changed since the last flush.
    pub closed spec fn meta_changed(&self) -> bool {
        self.meta_dirty
    }

    /// The clean-page cache, most recently used first.
    pub closed spec fn resident(&self) -> Seq<(u32, Seq<u8>)> {
        self.cache@
    }

    /// How many pages the clean-page cache holds at most.
    pub closed spec fn cache_capacity(&self) -> nat {
        self.cache.capacity()
    }

    /// Reads served from memory.
    pub closed spec fn hits_spec(&self) -> u64 {
        self.hits
    }

    /// Reads served from the file.
    pub closed spec fn misses_spec(&self) -> u64 {
        self.misses
    }

    /// The cache holds only sound file pages and staged pages are kept once
    /// each.
    pub closed spec fn inv(&self) -> bool {
        &&& ids_ascend(self.dirty@)
        &&& 0 < self.file@.len() <= 0xFFFF_FFFF
        &&& self.cache.wf()
        &&& all_clean(self.file@, self.cache@)
    }

    /// Every page that can be read is whole and knows its place.
    pub proof fn lemma_placed(&self)
        requires
            self.inv(),
        ensures
            0 < self.file().len() <= SENTINEL,
            forall|id: u32| #[trigger]
                self@.pages.contains_key(id) ==> self@.pages[id].len() == 4096 && page_id_of(
                    self@.pages[id],
                ) == id,
    {
        assert forall|id: u32| #[trigger] self@.pages.contains_key(id) implies self@.pages[id].len()
            == 4096 && page_id_of(self@.pages[id]) == id by {
            if self.dirty().contains_key(id) {
                let d = self.dirty@;
                let i = choose|i: int| 0 <= i < d.len() && page_id_of(#[trigger] d[i]@) == id;
                lemma_page_len(&d[i]);
            } else {
                lemma_page_len(&self.file@[id as int]);
            }
        }
    }

    /// Current metadata snapshot.
    pub fn meta(&self) -> (m: MetaData)
        ensures
            m == self.meta_spec(),
    {
        self.meta
    }

    /// Replaces the metadata snapshot; persisted by the next flush.
    pub fn set_meta(&mut self, meta: MetaData)
        requires
            old(self).inv(),
        ensures
            final(self).inv(),
            meta.page_count == old(self)@.meta.page_count ==> grows(*old(self), *final(self)),
            final(self)@.meta == meta,
            final(self)@.pages == old(self)@.pages,
            final(self).file() == old(self).file(),
            final(self).dirty() == old(self).dirty(),
            final(self).meta_changed() == (old(self).meta_changed() || meta != old(self)@.meta),
    {
        reveal(grows);
        if meta != self.meta {
            self.meta = meta;
            self.meta_dirty = true;
        }
    }

    /// Pages the file currently holds (allocated or not).
    pub fn file_pages(&self) -> (n: u32)
        requires
            self.inv(),
        ensures
            n == self.file().len(),
    {
        self.file.len() as u32
    }

    /// Number of pages staged for writing.
    pub fn dirty_count(&self) -> (n: usize)
        requires
            self.inv(),
        ensures
            n == self.dirty().dom().len(),
            self.dirty().dom().finite(),
    {
        proof {
            lemma_staged_count(self.dirty@);
        }
        self.dirty.len()
    }

    /// Cache and staging counters.
    pub fn cache_stats(&self) -> (s: CacheStats)
        requires
            self.inv(),
        ensures
            s.hits == self.hits_spec(),
            s.misses == self.misses_spec(),
            s.resident == self.resident().len(),
            s.dirty == self.dirty().dom().len(),
    {
        CacheStats {
            hits: self.hits,
            misses: self.misses,
            resident: self.cache.len() as u64,
            dirty: self.dirty_count() as u64,
        }
    }

    /// Finds a staged page: its position, or where it would go.
    fn find_dirty(&self, id: u32) -> (r: std::result::Result<usize, usize>)
        requires
            ids_ascend(self.dirty@),
        ensures
            match r {
                Ok(i) => i < self.dirty@.len() && page_id_of(self.dirty@[i as int]@) == id,
                Err(i) => i <= self.dirty@.len() && (forall|j: int|
                    0 <= j < i ==> page_id_of(#[trigger] self.dirty@[j]@) < id) && (forall|j: int|
                    i <= j < self.dirty@.len() ==> page_id_of(#[trigger] self.dirty@[j]@) > id),
            },
    {
        let mut lo: usize = 0;
        let mut hi: usize = self.dirty.len();
        while lo < hi
            invariant
                ids_ascend(self.dirty@),
                lo <= hi <= self.dirty@.len(),
                forall|j: int| 0 <= j < lo ==> page_id_of(#[trigger] self.dirty@[j]@) < id,
                forall|j: int|
                    hi <= j < self.dirty@.len() ==> page_id_of(#[trigger] self.dirty@[j]@) > id,
            decreases hi - lo,
        {
            let mid: usize = lo + (hi - lo) / 2;
            let k: u32 = self.dirty[mid].page_id();
            if k < id {
                lo = mid + 1;
            } else if k > id {
                hi = mid;
            } else {
                return Ok(mid);
            }
        }
        Err(lo)
    }

    /// Reads a page, verifying its CRC32 and that it is the page asked for.
    pub fn read_page(&mut self, page_id: u32) -> (r: Result<Page>)
        requires
            old(self).inv(),
        ensures
            final(self).inv(),
            grows(*old(self), *final(self)),
            final(self)@ == old(self)@,
            final(self).file() == old(self).file(),
            final(self).dirty() == old(self).dirty(),
            final(self).meta_changed() == old(self).meta_changed(),
            match r {
                Ok(p) => old(self)@.pages.contains_key(page_id) && p@ == old(self)@.pages[page_id],
                Err(e) => e is Corruption && !old(self)@.pages.contains_key(page_id),
            },
            ({
                let hit = old(self).dirty().contains_key(page_id) || cached(
                    old(self).resident(),
                    page_id,
                ) is Some;
                &&& final(self).hits_spec() == if hit {
                    old(self).hits_spec().wrapping_add(1)
                } else {
                    old(self).hits_spec()
                }
                &&& final(self).misses_spec() == if hit {
                    old(self).misses_spec()
                } else {
                    old(self).misses_spec().wrapping_add(1)
                }
            }),
    {
        reveal(grows);
        proof {
            lemma_clean_cached(self.file@, self.cache@, page_id);
            lemma_clean_without(self.file@, self.cache@, page_id);
        }
        match self.find_dirty(page_id) {
            Ok(i) => {
                proof {
                    lemma_staged_at(self.dirty@, i as int);
                }
                self.hits = self.hits.wrapping_add(1);
                return Ok(self.dirty[i].clone());
            },
            Err(i) => {
                assert(!self.dirty().contains_key(page_id)) by {
                    if self.dirty().contains_key(page_id) {
                        let j = choose|j: int|
                            0 <= j < self.dirty@.len() && page_id_of(#[trigger] self.dirty@[j]@)
                                == page_id;
                        assert(j < i || j >= i);
                    }
                }
            },
        }
        match self.cache.get(page_id) {
            Some(p) => {
                proof {
                    lemma_clean_front(
                        self.file@,
                        self.cache@,
                        without(old(self).cache@, page_id),
                        page_id,
                        p@,
                    );
                }
                assert(p@ == self.file()[page_id as int]);
                self.hits = self.hits.wrapping_add(1);
                return Ok((*p).clone());
            },
            None => {},
        }
        self.misses = self.misses.wrapping_add(1);
        if page_id as usize >= self.file.len() {
            return Err(Error::corrupt("page is past the end of the database file"));
        }
        let page: Page = self.file[page_id as usize].clone();
        assert(page@ == self.file()[page_id as int]);
        page.verify()?;
        page.validate_structure()?;
        if page.page_id() != page_id {
            return Err(Error::corrupt("page holds the image of another page"));
        }
        let shared: Arc<Page> = Arc::new(page.clone());
        self.cache.put(page_id, shared);
        proof {
            let before = old(self).cache@;
            lemma_without_shorter(before, page_id);
            let kept = if cached(before, page_id) is None && before.len()
                == old(self).cache.capacity() {
                before.drop_last()
            } else {
                without(before, page_id)
            };
            assert forall|i: int| 0 <= i < before.len() - 1 implies before.drop_last()[i]
                == #[trigger] before[i] by {}
            assert(all_clean(self.file@, kept));
            lemma_clean_front(self.file@, self.cache@, kept, page_id, page@);
        }
        Ok(page)
    }

    /// Stages a page for the next flush.
    pub fn write_page(&mut self, page: Page)
        requires
            old(self).inv(),
        ensures
            final(self).inv(),
            grows(*old(self), *final(self)),
            final(self)@.pages == old(self)@.pages.insert(page_id_of(page@), page@),
            final(self)@.meta == old(self)@.meta,
            final(self).file() == old(self).file(),
            final(self).dirty() == old(self).dirty().insert(page_id_of(page@), page@),
            final(self).meta_changed() == old(self).meta_changed(),
    {
        reveal(grows);
        let id: u32 = page.page_id();
        proof {
            lemma_clean_without(self.file@, self.cache@, id);
        }
        self.cache.pop(id);
        match self.find_dirty(id) {
            Ok(i) => {
                let ghost d = self.dirty@;
                self.dirty.set(i, page);
                proof {
                    lemma_staged_replaced(d, i as int, page);
                }
            },
            Err(i) => {
                let ghost d = self.dirty@;
                self.dirty.insert(i, page);
                proof {
                    lemma_staged_inserted(d, i as int, page);
                }
            },
        }
        assert(self@.pages =~= old(self)@.pages.insert(id, page@));
    }
}

proof fn lemma_staged_at(d: Seq<Page>, i: int)
    requires
        ids_ascend(d),
        0 <= i < d.len(),
    ensures
        staged(d).contains_key(page_id_of(d[i]@)),
        staged(d)[page_id_of(d[i]@)] == d[i]@,
{
    let id = page_id_of(d[i]@);
    let j = choose|j: int| 0 <= j < d.len() && page_id_of(#[trigger] d[j]@) == id;
    assert(j == i);
}

proof fn lemma_staged_replaced(d: Seq<Page>, i: int, page: Page)
    requires
        ids_ascend(d),
        0 <= i < d.len(),
        page_id_of(d[i]@) == page_id_of(page@),
    ensures
        ids_ascend(d.update(i, page)),
        staged(d.update(i, page)) == staged(d).insert(page_id_of(page@), page@),
{
    let e = d.update(i, page);
    let id = page_id_of(page@);
    assert(ids_ascend(e));
    assert forall|x: u32| #[trigger] staged(e).contains_key(x) == staged(d).insert(
        id,
        page@,
    ).contains_key(x) by {
        if staged(e).contains_key(x) {
            let j = choose|j: int| 0 <= j < e.len() && page_id_of(#[trigger] e[j]@) == x;
            if j != i {
                assert(page_id_of(d[j]@) == x);
            }
        }
        if staged(d).contains_key(x) {
            let j = choose|j: int| 0 <= j < d.len() && page_id_of(#[trigger] d[j]@) == x;
            assert(page_id_of(e[j]@) == x);
        }
        assert(page_id_of(e[i]@) == id);
    }
    assert forall|x: u32| #[trigger] staged(e).contains_key(x) implies staged(e)[x] == staged(
        d,
    ).insert(id, page@)[x] by {
        let j = choose|j: int| 0 <= j < e.len() && page_id_of(#[trigger] e[j]@) == x;
        lemma_staged_at(e, j);
        if j != i {
            lemma_staged_at(d, j);
        }
    }
    assert(staged(e) =~= staged(d).insert(id, page@));
}

proof fn lemma_staged_inserted(d: Seq<Page>, i: int, page: Page)
    requires
        ids_ascend(d),
        0 <= i <= d.len(),
        forall|j: int| 0 <= j < i ==> page_id_of(#[trigger] d[j]@) < page_id_of(page@),
        forall|j: int| i <= j < d.len() ==> page_id_of(#[trigger] d[j]@) > page_id_of(page@),
    ensures
        ids_ascend(d.insert(i, page)),
        staged(d.insert(i, page)) == staged(d).insert(page_id_of(page@), page@),
{
    let e = d.insert(i, page);
    let id = page_id_of(page@);
    assert forall|x: int, y: int| 0 <= x < y < e.len() implies page_id_of(#[trigger] e[x]@)
        < page_id_of(#[trigger] e[y]@) by {
        let p = if x < i {
            x
        } else {
            x - 1
        };
        let q = if y < i {
            y
        } else {
            y - 1
        };
        if x != i {
            assert(e[x] == d[p]);
        }
        if y != i {
            assert(e[y] == d[q]);
        }
    }
    assert forall|x: u32| #[trigger] staged(e).contains_key(x) == staged(d).insert(
        id,
        page@,
    ).contains_key(x) by {
        if staged(e).contains_key(x) {
            let j = choose|j: int| 0 <= j < e.len() && page_id_of(#[trigger] e[j]@) == x;
            if j < i {
                assert(page_id_of(d[j]@) == x);
            } else if j > i {
                assert(page_id_of(d[j - 1]@) == x);
            }
        }
        if staged(d).contains_key(x) {
            let j = choose|j: int| 0 <= j < d.len() && page_id_of(#[trigger] d[j]@) == x;
            if j < i {
                assert(page_id_of(e[j]@) == x);
            } else {
                assert(page_id_of(e[j + 1]@) == x);
            }
        }
        assert(page_id_of(e[i]@) == id);
    }
    assert forall|x: u32| #[trigger] staged(e).contains_key(x) implies staged(e)[x] == staged(
        d,
    ).insert(id, page@)[x] by {
        let j = choose|j: int| 0 <= j < e.len() && page_id_of(#[trigger] e[j]@) == x;
        lemma_staged_at(e, j);
        if j < i {
            assert(e[j] == d[j]);
            lemma_staged_at(d, j);
        } else if j > i {
            assert(e[j] == d[j - 1]);
            lemma_staged_at(d, j - 1);
            assert(page_id_of(d[j - 1]@) > id);
        }
    }
    assert(staged(e) =~= staged(d).insert(id, page@));
}

proof fn lemma_staged_count(d: Seq<Page>)
    requires
        ids_ascend(d),
    ensures
        staged(d).dom().finite(),
        staged(d).dom().len() == d.len(),
    decreases d.len(),
{
    if d.len() == 0 {
        assert(staged(d).dom() =~= Set::empty());
    } else {
        let e = d.drop_last();
        let page = d.last();
        assert(ids_ascend(e));
        lemma_staged_count(e);
        assert forall|j: int| 0 <= j < e.len() implies page_id_of(#[trigger] e[j]@) < page_id_of(
            page@,
        ) by {
            assert(e[j] == d[j]);
        }
        lemma_staged_inserted(e, e.len() as int, page);
        assert(e.insert(e.len() as int, page) =~= d);
        assert(!staged(e).contains_key(page_id_of(page@)));
        assert(staged(d).dom() =~= staged(e).dom().insert(page_id_of(page@)));
    }
}

// ---- growing the file ------------------------------------------------------------

/// The file with zero pages added until it holds `n` pages.
pub open spec fn grown(file: Seq<Seq<u8>>, n: int) -> Seq<Seq<u8>> {
    if n <= file.len() {
        file
    } else {
        Seq::new(
            n as nat,
            |i: int|
                if i < file.len() {
                    file[i]
                } else {
                    zero_page()
                },
        )
    }
}

/// How many pages the file holds once it was asked to hold at least `pages`.
pub open spec fn grown_len(len: int, pages: int) -> int {
    if pages <= len {
        len
    } else {
        let chunk = if len + GROW_CHUNK > 0xFFFF_FFFF {
            0xFFFF_FFFF
        } else {
            len + GROW_CHUNK
        };
        if pages < chunk {
            chunk
        } else {
            pages
        }
    }
}

/// A zero page never reads as the page of another place than the first.
proof fn lemma_zero_page_unreadable(id: u32)
    requires
        id != 0,
    ensures
        !page_valid(zero_page(), id),
{
}

pub(crate) proof fn lemma_grown_invisible(file: Seq<Seq<u8>>, n: int, dirty: Map<u32, Seq<u8>>)
    requires
        file.len() > 0,
    ensures
        visible(grown(file, n), dirty) == visible(file, dirty),
{
    assert(visible(grown(file, n), dirty) =~= visible(file, dirty)) by {
        assert forall|id: u32| #[trigger] visible(grown(file, n), dirty).contains_key(id)
            == visible(file, dirty).contains_key(id) by {
            if id != 0 {
                lemma_zero_page_unreadable(id);
            }
        }
    }
}

// ---- the free list ---------------------------------------------------------------

/// The page that the next allocation hands out.
pub open spec fn alloc_id(s: PagerState) -> u32 {
    if s.meta.free_list != SENTINEL {
        s.meta.free_list
    } else {
        s.meta.page_count
    }
}

/// Whether the next allocation succeeds.
pub open spec fn can_alloc(s: PagerState) -> bool {
    if s.meta.free_list != SENTINEL {
        s.pages.contains_key(s.meta.free_list) && type_of(s.pages[s.meta.free_list]) == Some(
            PageType::Free,
        )
    } else {
        s.meta.page_count != SENTINEL
    }
}

/// The metadata after the next allocation.
pub open spec fn alloc_meta(s: PagerState) -> MetaData {
    if s.meta.free_list != SENTINEL {
        MetaData { free_list: extra_of(s.pages[s.meta.free_list]), ..s.meta }
    } else {
        MetaData { page_count: (s.meta.page_count + 1) as u32, ..s.meta }
    }
}

/// The element at `i`, or the end marker past the last one.
pub open spec fn link(ids: Seq<u32>, i: int) -> u32 {
    if 0 <= i < ids.len() {
        ids[i]
    } else {
        SENTINEL
    }
}

/// `free` is the free list: allocated pages of the free kind, each linked to
/// the next.
pub open spec fn free_ok(s: PagerState, free: Seq<u32>) -> bool {
    &&& free.no_duplicates()
    &&& s.meta.free_list == link(free, 0)
    &&& forall|i: int|
        0 <= i < free.len() ==> 1 <= #[trigger] free[i] < s.meta.page_count && s.pages.contains_key(
            free[i],
        ) && type_of(s.pages[free[i]]) == Some(PageType::Free) && extra_of(s.pages[free[i]])
            == link(free, i + 1)
}

/// The free list is well-formed.
pub open spec fn pool_ok(s: PagerState) -> bool {
    exists|free: Seq<u32>| free_ok(s, free)
}

/// The free list.
pub open spec fn free_of(s: PagerState) -> Seq<u32> {
    choose|free: Seq<u32>| free_ok(s, free)
}

proof fn lemma_free_same_at(s: PagerState, f: Seq<u32>, g: Seq<u32>, i: int)
    requires
        free_ok(s, f),
        free_ok(s, g),
        0 <= i,
    ensures
        link(f, i) == link(g, i),
    decreases i,
{
    if i > 0 {
        lemma_free_same_at(s, f, g, i - 1);
        if i - 1 < f.len() {
            assert(f[i - 1] == link(f, i - 1));
            assert(i - 1 < g.len());
            assert(g[i - 1] == f[i - 1]);
        } else if i - 1 < g.len() {
            assert(g[i - 1] == SENTINEL);
        }
    }
}

/// There is only one free list.
pub proof fn lemma_free_unique(s: PagerState, f: Seq<u32>)
    requires
        free_ok(s, f),
    ensures
        free_of(s) == f,
        pool_ok(s),
{
    let g = free_of(s);
    if f.len() < g.len() {
        lemma_free_same_at(s, f, g, f.len() as int);
        assert(g[f.len() as int] == SENTINEL);
    } else if g.len() < f.len() {
        lemma_free_same_at(s, f, g, g.len() as int);
        assert(f[g.len() as int] == SENTINEL);
    }
    assert forall|i: int| 0 <= i < f.len() implies f[i] == g[i] by {
        lemma_free_same_at(s, f, g, i);
    }
    assert(f =~= g);
}

/// Allocation takes the first free page, or a page past the allocated ones.
pub proof fn lemma_alloc_pool(s: PagerState, s2: PagerState, page: Seq<u8>)
    requires
        pool_ok(s),
        can_alloc(s),
        s2.pages == s.pages.insert(alloc_id(s), page),
        s2.meta == alloc_meta(s),
    ensures
        pool_ok(s2),
        free_of(s2) == if free_of(s).len() > 0 {
            free_of(s).skip(1)
        } else {
            free_of(s)
        },
        free_of(s).len() > 0 ==> alloc_id(s) == free_of(s)[0] && s2.meta.page_count
            == s.meta.page_count,
        free_of(s).len() == 0 ==> alloc_id(s) == s.meta.page_count && s2.meta.page_count
            == s.meta.page_count + 1,
        !free_of(s2).contains(alloc_id(s)),
{
    let f = free_of(s);
    if f.len() > 0 {
        assert(f[0] == link(f, 0));
        let g = f.skip(1);
        assert forall|i: int| 0 <= i < g.len() implies 1 <= #[trigger] g[i] < s2.meta.page_count
            && s2.pages.contains_key(g[i]) && type_of(s2.pages[g[i]]) == Some(PageType::Free)
            && extra_of(s2.pages[g[i]]) == link(g, i + 1) by {
            assert(g[i] == f[i + 1]);
            assert(g[i] != f[0]);
        }
        assert(g.no_duplicates());
        assert(link(g, 0) == link(f, 1));
        assert(free_ok(s2, g));
        lemma_free_unique(s2, g);
        if g.contains(f[0]) {
            let j = choose|j: int| 0 <= j < g.len() && g[j] == f[0];
            assert(f[j + 1] == f[0]);
        }
    } else {
        assert(s.meta.free_list == SENTINEL);
        assert(free_ok(s2, f));
        lemma_free_unique(s2, f);
    }
}

/// With a well-formed free list an allocation fails only when page
/// identifiers run out.
pub proof fn law_allocation_fails_only_when_ids_run_out(s: PagerState)
    requires
        pool_ok(s),
    ensures
        can_alloc(s) <==> (free_of(s).len() > 0 || s.meta.page_count != SENTINEL),
{
    let f = free_of(s);
    if f.len() > 0 {
        assert(f[0] == link(f, 0));
    }
}

/// A page just freed is what the next allocation hands out.
pub proof fn law_freed_page_is_recycled(s: PagerState, s2: PagerState, id: u32)
    requires
        freed(s, s2, id),
        id != SENTINEL,
    ensures
        can_alloc(s2),
        alloc_id(s2) == id,
        alloc_meta(s2) == s.meta,
{
}

/// `s2` is `s` with page `id` put on the free list.
pub open spec fn freed(s: PagerState, s2: PagerState, id: u32) -> bool {
    &&& s2.meta == (MetaData { free_list: id, ..s.meta })
    &&& s2.pages.contains_key(id)
    &&& s2.pages == s.pages.insert(id, s2.pages[id])
    &&& type_of(s2.pages[id]) == Some(PageType::Free)
    &&& extra_of(s2.pages[id]) == s.meta.free_list
    &&& page_id_of(s2.pages[id]) == id
}

/// Freeing puts the page at the head of the free list.
pub proof fn lemma_freed_pool(s: PagerState, s2: PagerState, id: u32)
    requires
        pool_ok(s),
        freed(s, s2, id),
        1 <= id < s.meta.page_count,
        !free_of(s).contains(id),
    ensures
        pool_ok(s2),
        free_of(s2) == seq![id] + free_of(s),
{
    let f = free_of(s);
    let g = seq![id] + f;
    assert forall|i: int| 0 <= i < g.len() implies 1 <= #[trigger] g[i] < s2.meta.page_count
        && s2.pages.contains_key(g[i]) && type_of(s2.pages[g[i]]) == Some(PageType::Free)
        && extra_of(s2.pages[g[i]]) == link(g, i + 1) by {
        if i > 0 {
            assert(g[i] == f[i - 1]);
            assert(f.contains(f[i - 1]));
            assert(link(g, i + 1) == link(f, i));
        } else {
            assert(link(g, 1) == link(f, 0));
        }
    }
    assert(g.no_duplicates()) by {
        assert forall|i: int, j: int| 0 <= i < g.len() && 0 <= j < g.len() && i != j implies g[i]
            != g[j] by {
            if i > 0 && j > 0 {
                assert(g[i] == f[i - 1] && g[j] == f[j - 1]);
            } else if i > 0 {
                assert(f.contains(f[i - 1]));
            } else {
                assert(f.contains(f[j - 1]));
            }
        }
    }
    assert(free_ok(s2, g));
    lemma_free_unique(s2, g);
}

/// What work on the pages may do to a pager besides staging pages: its file
/// grows by zeroed pages, which is marked as a change of the metadata, and
/// holds the pages that were allocated meanwhile.
#[verifier::opaque]
pub open spec fn grows(a: Pager, b: Pager) -> bool {
    &&& a.file().len() <= b.file().len()
    &&& b.file() == grown(a.file(), b.file().len() as int)
    &&& a.meta_changed() ==> b.meta_changed()
    &&& b.file() == a.file() || b.meta_changed()
    &&& b@.meta.page_count <= a@.meta.page_count || b@.meta.page_count <= b.file().len()
}

/// Nothing need change.
pub broadcast proof fn lemma_grows_same(a: Pager)
    ensures
        #[trigger] grows(a, a),
{
    reveal(grows);
}

/// One change after another.
pub broadcast proof fn lemma_grows_then(a: Pager, b: Pager, c: Pager)
    requires
        #[trigger] grows(a, b),
        #[trigger] grows(b, c),
    ensures
        grows(a, c),
{
    reveal(grows);
    assert(c.file() =~= grown(a.file(), c.file().len() as int));
}

/// How many pages the file holds once it was asked to hold at least `pages`.
fn grown_pages(len: u32, pages: u32) -> (n: u32)
    ensures
        n == grown_len(len as int, pages as int),
{
    if pages <= len {
        return len;
    }
    let chunk: u32 = if len > 0xFFFF_FFFF - GROW_CHUNK {
        0xFFFF_FFFF
    } else {
        len + GROW_CHUNK
    };
    if pages < chunk {
        chunk
    } else {
        pages
    }
}

impl Pager {
    /// Extends the file so it holds at least `pages` pages.
    fn ensure_file_pages(&mut self, pages: u32)
        requires
            old(self).inv(),
        ensures
            final(self).inv(),
            final(self)@ == old(self)@,
            final(self).dirty() == old(self).dirty(),
            final(self).meta_changed() == old(self).meta_changed(),
            final(self).resident() == old(self).resident(),
            final(self).hits_spec() == old(self).hits_spec(),
            final(self).misses_spec() == old(self).misses_spec(),
            final(self).file() == grown(
                old(self).file(),
                grown_len(old(self).file().len() as int, pages as int),
            ),
    {
        let len: u32 = self.file_pages();
        if pages <= len {
            return;
        }
        let target: u32 = grown_pages(len, pages);
        let ghost before = self.file@;
        let mut i: u32 = len;
        while i < target
            invariant
                len <= i <= target,
                len == before.len(),
                0 < len,
                self.file@.len() == i,
                ids_ascend(self.dirty@),
                self.cache.wf(),
                all_clean(before, self.cache@),
                forall|j: int| 0 <= j < len ==> self.file@[j] == before[j],
                forall|j: int| len <= j < i ==> (#[trigger] self.file@[j])@ == zero_page(),
                self.dirty@ == old(self).dirty@,
                self.cache == old(self).cache,
                self.meta == old(self).meta,
                self.meta_dirty == old(self).meta_dirty,
                self.hits == old(self).hits,
                self.misses == old(self).misses,
            decreases target - i,
        {
            self.file.push(Page::zeroed());
            i += 1;
        }
        assert(self.file() =~= grown(old(self).file(), target as int));
        proof {
            lemma_grown_invisible(old(self).file(), target as int, old(self).dirty());
        }
    }

    /// Allocates a page, reusing the free list when possible.
    pub fn allocate_page(&mut self, page_type: PageType) -> (r: Result<Page>)
        requires
            old(self).inv(),
        ensures
            final(self).inv(),
            grows(*old(self), *final(self)),
            match r {
                Ok(p) => can_alloc(old(self)@) && fresh(p@, alloc_id(old(self)@), page_type)
                    && final(self)@.pages == old(self)@.pages.insert(alloc_id(old(self)@), p@)
                    && final(self)@.meta == alloc_meta(old(self)@) && final(self).dirty()
                    == old(self).dirty().insert(alloc_id(old(self)@), p@) && final(self).meta_changed(),
                Err(e) => {
                    &&& !can_alloc(old(self)@)
                    &&& final(self)@ == old(self)@
                    &&& final(self).dirty() == old(self).dirty()
                    &&& if old(self)@.meta.free_list != SENTINEL {
                        e is Corruption
                    } else {
                        e is Full
                    }
                },
            },
    {
        reveal(grows);
        if self.meta.free_list != SENTINEL {
            let id: u32 = self.meta.free_list;
            let recycled: Page = self.read_page(id)?;
            if recycled.page_type()? != PageType::Free {
                return Err(Error::corrupt("free list points at a page in use"));
            }
            self.meta.free_list = recycled.extra();
            self.meta_dirty = true;
            let page: Page = Page::new(id, page_type);
            self.write_page(page.clone());
            return Ok(page);
        }
        let id: u32 = self.meta.page_count;
        if id == SENTINEL {
            return Err(Error::full("page id space exhausted"));
        }
        self.meta.page_count = id + 1;
        self.meta_dirty = true;
        self.ensure_file_pages(id + 1);
        let page: Page = Page::new(id, page_type);
        self.write_page(page.clone());
        Ok(page)
    }

    /// Returns a page to the free list.
    pub fn free_page(&mut self, page_id: u32) -> (r: Result<()>)
        requires
            old(self).inv(),
        ensures
            final(self).inv(),
            grows(*old(self), *final(self)),
            match r {
                Ok(_) => 0 < page_id < old(self)@.meta.page_count && freed(
                    old(self)@,
                    final(self)@,
                    page_id,
                ),
                Err(e) => final(self)@ == old(self)@ && if page_id == 0 {
                    e is InvalidArgument
                } else {
                    page_id >= old(self)@.meta.page_count && e is Corruption
                },
            },
    {
        broadcast use {lemma_grows_same, lemma_grows_then};

        reveal(grows);
        if page_id == 0 {
            return Err(Error::invalid("refusing to free the meta page"));
        }
        if page_id >= self.meta.page_count {
            return Err(Error::corrupt("cannot free a page that is not allocated"));
        }
        let mut page: Page = Page::new(page_id, PageType::Free);
        page.set_extra(self.meta.free_list);
        self.meta.free_list = page_id;
        self.meta_dirty = true;
        self.write_page(page);
        Ok(())
    }

    /// Drops staged writes and restores `meta`, so the pager describes the last
    /// durable state again.
    pub fn discard_dirty(&mut self, meta: MetaData)
        requires
            old(self).inv(),
        ensures
            final(self).inv(),
            final(self).file() == old(self).file(),
            final(self).dirty() == Map::<u32, Seq<u8>>::empty(),
            final(self)@ == (PagerState { pages: visible(old(self).file(), Map::empty()), meta }),
            final(self).meta_changed() == (old(self).meta_changed() || meta != old(self)@.meta),
    {
        self.dirty.clear();
        self.meta_dirty = meta != self.meta || self.meta_dirty;
        self.meta = meta;
        assert(self.dirty() =~= Map::<u32, Seq<u8>>::empty());
    }
}

// ---- overflow chains ---------------------------------------------------------------

/// `ids` are the pages of the overflow chain that starts at `head`.
pub open spec fn chain_ok(pages: Map<u32, Seq<u8>>, head: u32, ids: Seq<u32>) -> bool {
    &&& ids.no_duplicates()
    &&& head == link(ids, 0)
    &&& forall|i: int|
        0 <= i < ids.len() ==> #[trigger] ids[i] != SENTINEL && pages.contains_key(ids[i])
            && overflow_payload_of(pages[ids[i]]) is Some && extra_of(pages[ids[i]]) == link(
            ids,
            i + 1,
        )
}

/// The bytes that a list of overflow pages holds.
pub open spec fn chain_data(pages: Map<u32, Seq<u8>>, ids: Seq<u32>) -> Seq<u8>
    decreases ids.len(),
{
    if ids.len() == 0 {
        Seq::empty()
    } else {
        overflow_payload_of(pages[ids[0]])->0 + chain_data(pages, ids.skip(1))
    }
}

/// What following at most `n` links from `head` yields; nothing when a page is
/// missing or foreign, or when the chain is longer.
pub open spec fn chain_read(pages: Map<u32, Seq<u8>>, head: u32, n: nat) -> Option<Seq<u8>>
    decreases n,
{
    if head == SENTINEL {
        Some(Seq::empty())
    } else if n == 0 || !pages.contains_key(head) || overflow_payload_of(pages[head]) is None {
        None
    } else {
        match chain_read(pages, extra_of(pages[head]), (n - 1) as nat) {
            None => None,
            Some(rest) => Some(overflow_payload_of(pages[head])->0 + rest),
        }
    }
}

/// Pages that a value of `len` bytes needs in overflow.
pub open spec fn chunks_of(len: nat) -> nat {
    (len + 4055) / 4056
}

/// The most links that a chain for `total_len` bytes may have.
pub open spec fn max_links(total_len: u32) -> nat {
    (total_len / 4056 + 2) as nat
}

/// `s2` is `s` with the pages `ids` newly allocated and nothing else touched.
pub open spec fn took(s: PagerState, s2: PagerState, ids: Seq<u32>) -> bool {
    &&& pool_ok(s2)
    &&& s.meta.page_count <= s2.meta.page_count
    &&& s2.meta == (MetaData {
        free_list: s2.meta.free_list,
        page_count: s2.meta.page_count,
        ..s.meta
    })
    &&& forall|id: u32|
        !ids.contains(id) ==> (#[trigger] s2.pages.contains_key(id) <==> s.pages.contains_key(id))
            && (s.pages.contains_key(id) ==> s2.pages[id] == s.pages[id])
    &&& forall|id: u32|
        #[trigger] ids.contains(id) ==> (free_of(s).contains(id) || s.meta.page_count <= id)
            && !free_of(s2).contains(id) && id < s2.meta.page_count
    &&& forall|id: u32| #[trigger] free_of(s2).contains(id) ==> free_of(s).contains(id)
    &&& free_of(s2).len() + ids.len() == free_of(s).len() + (s2.meta.page_count
        - s.meta.page_count)
    &&& free_of(s2).len() > 0 ==> s2.meta.page_count == s.meta.page_count
}

/// `s2` is `s` with the pages `ids` put on the free list and nothing else
/// touched.
pub open spec fn gave(s: PagerState, s2: PagerState, ids: Seq<u32>) -> bool {
    &&& pool_ok(s2)
    &&& s2.meta == (MetaData { free_list: s2.meta.free_list, ..s.meta })
    &&& forall|id: u32|
        !ids.contains(id) ==> (#[trigger] s2.pages.contains_key(id) <==> s.pages.contains_key(id))
            && (s.pages.contains_key(id) ==> s2.pages[id] == s.pages[id])
    &&& forall|id: u32| #[trigger]
        free_of(s2).contains(id) <==> free_of(s).contains(id) || ids.contains(id)
    &&& free_of(s2).len() == free_of(s).len() + ids.len()
}

proof fn lemma_chain_same_at(pages: Map<u32, Seq<u8>>, head: u32, a: Seq<u32>, b: Seq<u32>, i: int)
    requires
        chain_ok(pages, head, a),
        chain_ok(pages, head, b),
        0 <= i,
    ensures
        link(a, i) == link(b, i),
    decreases i,
{
    if i > 0 {
        lemma_chain_same_at(pages, head, a, b, i - 1);
        if i - 1 < a.len() {
            assert(a[i - 1] == link(a, i - 1));
            assert(i - 1 < b.len());
            assert(b[i - 1] == a[i - 1]);
        } else if i - 1 < b.len() {
            assert(b[i - 1] == SENTINEL);
        }
    }
}

/// A chain has only one list of pages.
pub proof fn lemma_chain_unique(pages: Map<u32, Seq<u8>>, head: u32, a: Seq<u32>, b: Seq<u32>)
    requires
        chain_ok(pages, head, a),
        chain_ok(pages, head, b),
    ensures
        a == b,
{
    if a.len() < b.len() {
        lemma_chain_same_at(pages, head, a, b, a.len() as int);
        assert(b[a.len() as int] == SENTINEL);
    } else if b.len() < a.len() {
        lemma_chain_same_at(pages, head, a, b, b.len() as int);
        assert(a[b.len() as int] == SENTINEL);
    }
    assert forall|i: int| 0 <= i < a.len() implies a[i] == b[i] by {
        lemma_chain_same_at(pages, head, a, b, i);
    }
    assert(a =~= b);
}

/// The rest of a chain is a chain.
pub proof fn lemma_chain_tail(pages: Map<u32, Seq<u8>>, head: u32, ids: Seq<u32>)
    requires
        chain_ok(pages, head, ids),
        ids.len() > 0,
    ensures
        chain_ok(pages, extra_of(pages[head]), ids.skip(1)),
        head == ids[0],
{
    let t = ids.skip(1);
    assert(ids[0] == link(ids, 0));
    assert(link(t, 0) == link(ids, 1));
    assert forall|i: int| 0 <= i < t.len() implies #[trigger] t[i] != SENTINEL && pages.contains_key(
        t[i],
    ) && overflow_payload_of(pages[t[i]]) is Some && extra_of(pages[t[i]]) == link(t, i + 1) by {
        assert(t[i] == ids[i + 1]);
        assert(link(t, i + 1) == link(ids, i + 2));
    }
}

/// Following the links of a chain yields its bytes.
pub proof fn lemma_chain_reads(pages: Map<u32, Seq<u8>>, head: u32, ids: Seq<u32>, n: nat)
    requires
        chain_ok(pages, head, ids),
        ids.len() <= n,
    ensures
        chain_read(pages, head, n) == Some(chain_data(pages, ids)),
    decreases ids.len(),
{
    if ids.len() > 0 {
        lemma_chain_tail(pages, head, ids);
        lemma_chain_reads(pages, extra_of(pages[head]), ids.skip(1), (n - 1) as nat);
    }
}

/// A chain is unaffected by what happens to other pages.
pub proof fn lemma_chain_frame(
    pages: Map<u32, Seq<u8>>,
    pages2: Map<u32, Seq<u8>>,
    head: u32,
    ids: Seq<u32>,
)
    requires
        chain_ok(pages, head, ids),
        forall|i: int|
            0 <= i < ids.len() ==> pages2.contains_key(#[trigger] ids[i]) && pages2[ids[i]]
                == pages[ids[i]],
    ensures
        chain_ok(pages2, head, ids),
        chain_data(pages2, ids) == chain_data(pages, ids),
{
    lemma_chain_data_frame(pages, pages2, ids);
}

proof fn lemma_chain_data_frame(
    pages: Map<u32, Seq<u8>>,
    pages2: Map<u32, Seq<u8>>,
    ids: Seq<u32>,
)
    requires
        forall|i: int| 0 <= i < ids.len() ==> pages2[#[trigger] ids[i]] == pages[ids[i]],
    ensures
        chain_data(pages2, ids) == chain_data(pages, ids),
    decreases ids.len(),
{
    if ids.len() > 0 {
        assert forall|i: int| 0 <= i < ids.skip(1).len() implies pages2[#[trigger] ids.skip(1)[i]]
            == pages[ids.skip(1)[i]] by {
            assert(ids.skip(1)[i] == ids[i + 1]);
        }
        lemma_chain_data_frame(pages, pages2, ids.skip(1));
    }
}

/// A page in front of a chain makes a longer chain.
proof fn lemma_chain_prepend(
    pages: Map<u32, Seq<u8>>,
    next: u32,
    ids: Seq<u32>,
    id: u32,
    page: Seq<u8>,
)
    requires
        chain_ok(pages, next, ids),
        !ids.contains(id),
        id != SENTINEL,
        overflow_payload_of(page) is Some,
        extra_of(page) == next,
    ensures
        chain_ok(pages.insert(id, page), id, seq![id] + ids),
        chain_data(pages.insert(id, page), seq![id] + ids) == overflow_payload_of(page)->0
            + chain_data(pages, ids),
{
    let g = seq![id] + ids;
    let pages2 = pages.insert(id, page);
    assert(g.skip(1) =~= ids);
    assert forall|i: int| 0 <= i < ids.len() implies pages2.contains_key(#[trigger] ids[i])
        && pages2[ids[i]] == pages[ids[i]] by {
        assert(ids.contains(ids[i]));
    }
    lemma_chain_frame(pages, pages2, next, ids);
    assert forall|i: int| 0 <= i < g.len() implies #[trigger] g[i] != SENTINEL
        && pages2.contains_key(g[i]) && overflow_payload_of(pages2[g[i]]) is Some && extra_of(
        pages2[g[i]],
    ) == link(g, i + 1) by {
        if i > 0 {
            assert(g[i] == ids[i - 1]);
            assert(link(g, i + 1) == link(ids, i));
        } else {
            assert(link(g, 1) == link(ids, 0));
        }
    }
    assert(g.no_duplicates()) by {
        assert forall|i: int, j: int| 0 <= i < g.len() && 0 <= j < g.len() && i != j implies g[i]
            != g[j] by {
            if i > 0 && j > 0 {
                assert(g[i] == ids[i - 1] && g[j] == ids[j - 1]);
            } else if i > 0 {
                assert(ids.contains(ids[i - 1]));
            } else {
                assert(ids.contains(ids[j - 1]));
            }
        }
    }
}

/// Distinct identifiers between 1 and `n` are fewer than `n`.
pub proof fn lemma_distinct_ids(ids: Seq<u32>, n: int)
    requires
        ids.no_duplicates(),
        forall|i: int| 0 <= i < ids.len() ==> 1 <= #[trigger] ids[i] < n,
    ensures
        ids.len() == 0 || ids.len() <= n - 1,
{
    if ids.len() > 0 {
        assert(ids[0] < n);
        lemma_distinct_ids_in(ids, n);
    }
}

proof fn lemma_distinct_ids_in(ids: Seq<u32>, n: int)
    requires
        ids.no_duplicates(),
        1 <= n,
        forall|i: int| 0 <= i < ids.len() ==> 1 <= #[trigger] ids[i] < n,
    ensures
        ids.len() <= n - 1,
{
    let t = Seq::new(ids.len(), |i: int| ids[i] as int);
    assert(t.no_duplicates());
    t.unique_seq_to_set();
    vstd::set_lib::lemma_int_range(1, n);
    let r = vstd::set_lib::set_int_range(1, n);
    assert(t.to_set().subset_of(r)) by {
        assert forall|x: int| t.to_set().contains(x) implies r.contains(x) by {
            let i = choose|i: int| 0 <= i < t.len() && t[i] == x;
            assert(ids[i] == x);
        }
    }
    vstd::set_lib::lemma_len_subset(t.to_set(), r);
}

/// Taking one more page.
proof fn lemma_took_one(s: PagerState, s1: PagerState, s2: PagerState, ids: Seq<u32>, page: Seq<u8>)
    requires
        pool_ok(s),
        took(s, s1, ids),
        can_alloc(s1),
        s2.pages == s1.pages.insert(alloc_id(s1), page),
        s2.meta == alloc_meta(s1),
    ensures
        took(s, s2, seq![alloc_id(s1)] + ids),
        !ids.contains(alloc_id(s1)),
{
    lemma_alloc_pool(s1, s2, page);
    let id = alloc_id(s1);
    let g = seq![id] + ids;
    let f1 = free_of(s1);
    if f1.len() > 0 {
        assert(f1.contains(f1[0]));
    }
    assert forall|x: u32| #[trigger] g.contains(x) <==> x == id || ids.contains(x) by {
        if ids.contains(x) {
            let j = choose|j: int| 0 <= j < ids.len() && ids[j] == x;
            assert(g[j + 1] == x);
        }
        if x == id {
            assert(g[0] == x);
        }
        if g.contains(x) {
            let j = choose|j: int| 0 <= j < g.len() && g[j] == x;
            if j > 0 {
                assert(ids[j - 1] == x);
            }
        }
    }
    assert forall|x: u32| #[trigger] free_of(s2).contains(x) implies f1.contains(x) by {
        let j = choose|j: int| 0 <= j < free_of(s2).len() && free_of(s2)[j] == x;
        if f1.len() > 0 {
            assert(f1[j + 1] == x);
        }
    }
}

impl Pager {
    /// Writes a value across a chain of overflow pages, returning the head id.
    #[verifier::rlimit(60)]
    #[verifier::spinoff_prover]
    pub fn write_overflow_chain(&mut self, value: &[u8]) -> (r: Result<u32>)
        requires
            old(self).inv(),
        ensures
            final(self).inv(),
            grows(*old(self), *final(self)),
            pool_ok(old(self)@) ==> match r {
                Ok(head) => exists|ids: Seq<u32>| #[trigger]
                    took(old(self)@, final(self)@, ids) && chain_ok(final(self)@.pages, head, ids)
                        && chain_data(final(self)@.pages, ids) == value@ && ids.len() == chunks_of(
                        value@.len(),
                    ),
                Err(e) => e is Full && chunks_of(value@.len()) > free_of(old(self)@).len() + (
                SENTINEL - old(self)@.meta.page_count) && exists|ids: Seq<u32>| #[trigger]
                    took(old(self)@, final(self)@, ids),
            },
    {
        broadcast use {lemma_grows_same, lemma_grows_then};

        let ghost s0 = self@;
        let ghost mut ids: Seq<u32> = Seq::empty();
        let mut next: u32 = SENTINEL;
        let total: usize = value.len();
        let mut left: usize = if total == 0 {
            0
        } else {
            (total - 1) / OVERFLOW_PAYLOAD + 1
        };
        assert(left == chunks_of(value@.len()));
        let mut end: usize = total;
        assert(chain_data(self@.pages, ids) =~= value@.subrange(end as int, total as int));
        while left > 0
            invariant
                self.inv(),
                grows(*old(self), *self),
                total == value@.len(),
                s0 == old(self)@,
                end <= total,
                left == 0 ==> end == 0,
                left > 0 ==> (left - 1) * 4056 < end <= left * 4056,
                chunks_of(value@.len()) == left + ids.len(),
                pool_ok(s0) ==> took(s0, self@, ids) && chain_ok(self@.pages, next, ids)
                    && chain_data(self@.pages, ids) == value@.subrange(end as int, total as int),
            decreases left,
        {
            broadcast use {lemma_grows_same, lemma_grows_then};

            let start: usize = (left - 1) * OVERFLOW_PAYLOAD;
            let chunk: Vec<u8> = copy_range(value, start, end);
            let ghost s1 = self@;
            let mut page: Page = match self.allocate_page(PageType::Overflow) {
                Ok(p) => p,
                Err(e) => {
                    proof {
                        if pool_ok(s0) {
                            law_allocation_fails_only_when_ids_run_out(s1);
                            assert(took(s0, self@, ids));
                        }
                    }
                    return Err(e);
                },
            };
            let ghost fresh_page = page@;
            page.write_overflow(&chunk, next)?;
            let id: u32 = page.page_id();
            assert(id == alloc_id(s1));
            let ghost written = page@;
            self.write_page(page);
            proof {
                assert(self@.pages =~= s1.pages.insert(id, written));
                if pool_ok(s0) {
                    lemma_took_one(s0, s1, self@, ids, written);
                    lemma_chain_prepend(s1.pages, next, ids, id, written);
                    assert(chunk@ + value@.subrange(end as int, total as int) =~= value@.subrange(
                        start as int,
                        total as int,
                    ));
                }
                ids = seq![id] + ids;
            }
            next = id;
            end = start;
            left -= 1;
        }
        assert(value@.subrange(0, total as int) =~= value@);
        proof {
            if pool_ok(s0) {
                assert(took(s0, self@, ids));
            }
        }
        Ok(next)
    }

    /// Reassembles a value from its overflow chain, guarding against cycles.
    pub fn read_overflow_chain(&mut self, head: u32, total_len: u32) -> (r: Result<Vec<u8>>)
        requires
            old(self).inv(),
        ensures
            final(self).inv(),
            grows(*old(self), *final(self)),
            final(self)@ == old(self)@,
            final(self).file() == old(self).file(),
            final(self).dirty() == old(self).dirty(),
            match r {
                Ok(v) => max_links(total_len) <= old(self)@.meta.page_count && chain_read(
                    old(self)@.pages,
                    head,
                    max_links(total_len),
                ) == Some(v@) && v@.len() == total_len,
                Err(e) => e is Corruption && !(max_links(total_len) <= old(self)@.meta.page_count
                    && (chain_read(old(self)@.pages, head, max_links(total_len)) matches Some(v)
                    && v.len() == total_len)),
            },
    {
        broadcast use {lemma_grows_same, lemma_grows_then};

        let links: u32 = total_len / OVERFLOW_PAYLOAD as u32 + 2;
        if links > self.meta.page_count {
            return Err(Error::corrupt("overflow value needs more pages than the file has"));
        }
        let ghost s0 = self@;
        let mut out: Vec<u8> = Vec::new();
        let mut cursor: u32 = head;
        let mut guard: u32 = 0;
        assert(chain_read(s0.pages, head, links as nat) matches Some(rest) ==> out@ + rest =~= rest);
        while cursor != SENTINEL
            invariant
                self.inv(),
                grows(*old(self), *self),
                self@ == s0,
                s0 == old(self)@,
                self.file() == old(self).file(),
                self.dirty() == old(self).dirty(),
                links == max_links(total_len),
                links <= s0.meta.page_count,
                guard <= links,
                out@.len() <= total_len,
                chain_read(s0.pages, head, links as nat) is Some <==> chain_read(
                    s0.pages,
                    cursor,
                    (links - guard) as nat,
                ) is Some,
                chain_read(s0.pages, cursor, (links - guard) as nat) matches Some(rest) ==> chain_read(
                    s0.pages,
                    head,
                    links as nat,
                ) == Some(out@ + rest),
            decreases links - guard,
        {
            broadcast use {lemma_grows_same, lemma_grows_then};

            if guard == links {
                return Err(Error::corrupt("overflow chain is longer than declared"));
            }
            guard += 1;
            let page: Page = self.read_page(cursor)?;
            let part: &[u8] = page.read_overflow()?;
            let ghost before = out@;
            push_bytes(&mut out, part);
            proof {
                let here = chain_read(s0.pages, cursor, (links - guard + 1) as nat);
                let rest = chain_read(s0.pages, extra_of(page@), (links - guard) as nat);
                assert(here is Some <==> rest is Some);
                if rest is Some {
                    assert(before + (part@ + rest->0) =~= out@ + rest->0);
                }
            }
            if out.len() as u64 > total_len as u64 {
                return Err(Error::corrupt("overflow chain holds more bytes than declared"));
            }
            cursor = page.extra();
        }
        assert(out@ + Seq::<u8>::empty() =~= out@);
        if out.len() as u64 != total_len as u64 {
            return Err(Error::corrupt("overflow chain yields another length than declared"));
        }
        Ok(out)
    }

    /// Frees every page of an overflow chain.
    #[verifier::rlimit(60)]
    #[verifier::spinoff_prover]
    pub fn free_overflow_chain(&mut self, head: u32) -> (r: Result<()>)
        requires
            old(self).inv(),
        ensures
            final(self).inv(),
            grows(*old(self), *final(self)),
            final(self)@.meta.page_count == old(self)@.meta.page_count,
            final(self)@.meta.root == old(self)@.meta.root,
            forall|ids: Seq<u32>| #[trigger]
                chain_ok(old(self)@.pages, head, ids) && pool_ok(old(self)@) && (forall|i: int|
                    0 <= i < ids.len() ==> 1 <= #[trigger] ids[i] < old(self)@.meta.page_count
                        && !free_of(old(self)@).contains(ids[i])) ==> r is Ok && gave(
                    old(self)@,
                    final(self)@,
                    ids,
                ),
    {
        broadcast use {lemma_grows_same, lemma_grows_then};

        let ghost s0 = self@;
        let ghost all = choose|ids: Seq<u32>| chain_ok(s0.pages, head, ids);
        let ghost good = chain_ok(s0.pages, head, all) && pool_ok(s0) && (forall|i: int|
            0 <= i < all.len() ==> 1 <= #[trigger] all[i] < s0.meta.page_count && !free_of(
                s0,
            ).contains(all[i]));
        proof {
            assert forall|ids: Seq<u32>| chain_ok(s0.pages, head, ids) implies ids == all by {
                lemma_chain_unique(s0.pages, head, ids, all);
            }
            if good {
                lemma_distinct_ids(all, s0.meta.page_count as int);
            }
            assert(all.skip(0) =~= all);
        }
        let mut cursor: u32 = head;
        let mut guard: u32 = 0;
        while cursor != SENTINEL
            invariant
                self.inv(),
                grows(*old(self), *self),
                s0 == old(self)@,
                forall|ids: Seq<u32>| chain_ok(s0.pages, head, ids) ==> ids == all,
                self@.meta.page_count == s0.meta.page_count,
                self@.meta.root == s0.meta.root,
                guard <= s0.meta.page_count,
                good == (chain_ok(s0.pages, head, all) && pool_ok(s0) && (forall|i: int|
                    0 <= i < all.len() ==> 1 <= #[trigger] all[i] < s0.meta.page_count && !free_of(
                        s0,
                    ).contains(all[i]))),
                good ==> guard <= all.len() <= s0.meta.page_count,
                good ==> gave(s0, self@, all.take(guard as int)),
                good ==> chain_ok(self@.pages, cursor, all.skip(guard as int)),
            decreases s0.meta.page_count - guard,
        {
            broadcast use {lemma_grows_same, lemma_grows_then};

            proof {
                if good {
                    let rest = all.skip(guard as int);
                    assert(cursor == link(rest, 0));
                    assert(cursor == all[guard as int]);
                    assert(rest[0] == cursor);
                }
            }
            if guard == self.meta.page_count {
                return Err(Error::corrupt("overflow chain appears to be cyclic"));
            }
            guard += 1;
            let ghost s1 = self@;
            let page: Page = self.read_page(cursor)?;
            if page.page_type()? != PageType::Overflow {
                return Err(Error::corrupt("overflow chain reaches a page of another kind"));
            }
            let next: u32 = page.extra();
            proof {
                if good {
                    lemma_chain_tail(s1.pages, cursor, all.skip(guard - 1));
                    assert(all.skip(guard - 1).skip(1) =~= all.skip(guard as int));
                }
            }
            self.free_page(cursor)?;
            proof {
                if good {
                    let done = all.take(guard - 1);
                    assert(!free_of(s1).contains(cursor)) by {
                        if done.contains(cursor) {
                            let j = choose|j: int| 0 <= j < done.len() && done[j] == cursor;
                            assert(all[j] == all[guard - 1]);
                        }
                    }
                    lemma_freed_pool(s1, self@, cursor);
                    lemma_gave_one(s0, s1, self@, done, cursor);
                    assert(all.take(guard as int) =~= done.push(cursor));
                    let rest = all.skip(guard as int);
                    assert forall|i: int| 0 <= i < rest.len() implies self@.pages.contains_key(
                        #[trigger] rest[i],
                    ) && self@.pages[rest[i]] == s1.pages[rest[i]] by {
                        assert(rest[i] == all[guard + i]);
                        assert(all[guard + i] != all[guard - 1]);
                    }
                    lemma_chain_frame(s1.pages, self@.pages, next, rest);
                }
            }
            cursor = next;
        }
        proof {
            if good {
                assert(all.skip(guard as int).len() == 0) by {
                    if all.skip(guard as int).len() > 0 {
                        assert(all.skip(guard as int)[0] != SENTINEL);
                    }
                }
                assert(all.take(guard as int) =~= all);
            }
        }
        Ok(())
    }
}

proof fn lemma_gave_one(
    s: PagerState,
    s1: PagerState,
    s2: PagerState,
    ids: Seq<u32>,
    id: u32,
)
    requires
        gave(s, s1, ids),
        freed(s1, s2, id),
        pool_ok(s2),
        free_of(s2) == seq![id] + free_of(s1),
    ensures
        gave(s, s2, ids.push(id)),
{
    let g = ids.push(id);
    assert forall|x: u32| #[trigger] g.contains(x) <==> x == id || ids.contains(x) by {
        if ids.contains(x) {
            let j = choose|j: int| 0 <= j < ids.len() && ids[j] == x;
            assert(g[j] == x);
        }
        if x == id {
            assert(g[ids.len() as int] == x);
        }
    }
    let f = free_of(s1);
    let h = free_of(s2);
    assert forall|x: u32| #[trigger] h.contains(x) <==> x == id || f.contains(x) by {
        if f.contains(x) {
            let j = choose|j: int| 0 <= j < f.len() && f[j] == x;
            assert(h[j + 1] == x);
        }
        if x == id {
            assert(h[0] == x);
        }
        if h.contains(x) {
            let j = choose|j: int| 0 <= j < h.len() && h[j] == x;
            if j > 0 {
                assert(f[j - 1] == x);
            }
        }
    }
}

/// A value that was written to a fresh chain is what reading the chain yields,
/// whenever the file is large enough to hold it besides the meta page and one
/// more.
pub proof fn law_chain_write_then_read(
    pages: Map<u32, Seq<u8>>,
    head: u32,
    ids: Seq<u32>,
    total_len: u32,
)
    requires
        chain_ok(pages, head, ids),
        chain_data(pages, ids).len() == total_len,
        ids.len() == chunks_of(total_len as nat),
    ensures
        chain_read(pages, head, max_links(total_len)) == Some(chain_data(pages, ids)),
        max_links(total_len) <= ids.len() + 2,
{
    lemma_chain_reads(pages, head, ids, max_links(total_len));
}

// ---- the flush journal ---------------------------------------------------------------
//
// [magic u64][version u32][count u32][target_pages u32][12 zero bytes]
// count times [page_id u32][0 u32][4096 bytes]
// [crc32 of everything before u32][end marker u32]

/// Journal header magic.
pub const JOURNAL_MAGIC: u64 = 0x5048_584A_524E_4C31;

/// Journal trailer magic, written last: a journal without it is incomplete.
pub const JOURNAL_END: u32 = 0x4A45_4E44;

/// Journal format version.
pub const JOURNAL_VERSION: u32 = 1;

/// The first bytes of a journal.
pub open spec fn journal_header(count: u32, target: u32) -> Seq<u8> {
    le64(JOURNAL_MAGIC) + le32(JOURNAL_VERSION) + le32(count) + le32(target) + Seq::new(
        12,
        |i: int| 0u8,
    )
}

/// The journal's page images, each with the page it belongs to.
pub open spec fn journal_entries(entries: Seq<(u32, Seq<u8>)>) -> Seq<u8>
    decreases entries.len(),
{
    if entries.len() == 0 {
        Seq::empty()
    } else {
        journal_entries(entries.drop_last()) + le32(entries.last().0) + le32(0) + entries.last().1
    }
}

/// A journal without its trailer.
pub open spec fn journal_body(entries: Seq<(u32, Seq<u8>)>, target: u32) -> Seq<u8> {
    journal_header(entries.len() as u32, target) + journal_entries(entries)
}

/// A complete journal.
pub open spec fn journal_bytes(entries: Seq<(u32, Seq<u8>)>, target: u32) -> Seq<u8> {
    journal_body(entries, target) + le32(crc32(journal_body(entries, target))) + le32(JOURNAL_END)
}

/// The target size and the entry count of a complete journal.
pub open spec fn journal_info(b: Seq<u8>) -> Option<(u32, u32)> {
    if b.len() >= 40 && u64_at(b, 0) == JOURNAL_MAGIC && u32_at(b, 8) == JOURNAL_VERSION && b.len()
        == 40 + 4104 * u32_at(b, 12) && u32_at(b, b.len() - 4) == JOURNAL_END && u32_at(
        b,
        b.len() - 8,
    ) == crc32(b.subrange(0, b.len() - 8)) {
        Some((u32_at(b, 16), u32_at(b, 12)))
    } else {
        None
    }
}

/// Entry `i` of a complete journal.
pub open spec fn journal_entry(b: Seq<u8>, i: int) -> (u32, Seq<u8>) {
    (u32_at(b, 32 + 4104 * i), b.subrange(40 + 4104 * i, 4136 + 4104 * i))
}

/// The bytes of a file as pages, cut or filled up with zeroes to `n` pages.
pub open spec fn pages_of(bytes: Seq<u8>, n: nat) -> Seq<Seq<u8>> {
    Seq::new(
        n,
        |i: int|
            Seq::new(
                4096,
                |j: int|
                    if 4096 * i + j < bytes.len() {
                        bytes[4096 * i + j]
                    } else {
                        0u8
                    },
            ),
    )
}

/// The file after the first `k` entries of a journal were written to it.
pub open spec fn replayed(file: Seq<Seq<u8>>, journal: Seq<u8>, k: int) -> Seq<Seq<u8>>
    decreases k,
{
    if k <= 0 {
        file
    } else {
        let (id, page) = journal_entry(journal, k - 1);
        replayed(file, journal, k - 1).update(id as int, page)
    }
}

/// Every entry of the journal lies inside the file size it declares.
pub open spec fn entries_inside(journal: Seq<u8>, target: u32, count: u32) -> bool {
    forall|i: int| 0 <= i < count ==> (#[trigger] journal_entry(journal, i)).0 < target
}

proof fn lemma_entries_len(entries: Seq<(u32, Seq<u8>)>)
    requires
        forall|i: int| 0 <= i < entries.len() ==> (#[trigger] entries[i]).1.len() == 4096,
    ensures
        journal_entries(entries).len() == 4104 * entries.len(),
    decreases entries.len(),
{
    if entries.len() > 0 {
        assert forall|i: int| 0 <= i < entries.drop_last().len() implies (
        #[trigger] entries.drop_last()[i]).1.len() == 4096 by {
            assert(entries.drop_last()[i] == entries[i]);
        }
        lemma_entries_len(entries.drop_last());
    }
}

#[verifier::rlimit(60)]
#[verifier::spinoff_prover]
proof fn lemma_entry_at(entries: Seq<(u32, Seq<u8>)>, prefix: Seq<u8>, suffix: Seq<u8>, i: int)
    requires
        prefix.len() == 32,
        0 <= i < entries.len(),
        forall|j: int| 0 <= j < entries.len() ==> (#[trigger] entries[j]).1.len() == 4096,
    ensures
        journal_entry(prefix + journal_entries(entries) + suffix, i) == entries[i],
    decreases entries.len(),
{
    let b = prefix + journal_entries(entries) + suffix;
    lemma_entries_len(entries);
    assert forall|j: int| 0 <= j < entries.drop_last().len() implies (
    #[trigger] entries.drop_last()[j]).1.len() == 4096 by {
        assert(entries.drop_last()[j] == entries[j]);
    }
    lemma_entries_len(entries.drop_last());
    let tail = le32(entries.last().0) + le32(0) + entries.last().1;
    if i < entries.len() - 1 {
        lemma_entry_at(entries.drop_last(), prefix, tail + suffix, i);
        assert(b =~= prefix + journal_entries(entries.drop_last()) + (tail + suffix));
    } else {
        let o = 32 + 4104 * i;
        assert(b.subrange(o, o + 4) =~= le32(entries.last().0));
        lemma_u32_roundtrip(b, o, entries.last().0);
        assert(b.subrange(o + 8, o + 4104) =~= entries.last().1);
    }
}

/// A journal that was written completely is recognised as complete, with the
/// target size and the entries it was made from.
pub proof fn law_journal_roundtrip(entries: Seq<(u32, Seq<u8>)>, target: u32)
    requires
        entries.len() <= 0xFFFF_FFFF,
        forall|i: int| 0 <= i < entries.len() ==> (#[trigger] entries[i]).1.len() == 4096,
    ensures
        journal_info(journal_bytes(entries, target)) == Some((target, entries.len() as u32)),
        forall|i: int|
            0 <= i < entries.len() ==> #[trigger] journal_entry(journal_bytes(entries, target), i)
                == entries[i],
{
    let count = entries.len() as u32;
    let body = journal_body(entries, target);
    let head = journal_header(count, target);
    let b = journal_bytes(entries, target);
    lemma_entries_len(entries);
    assert(head.len() == 32);
    assert(b.subrange(0, 8) =~= le64(JOURNAL_MAGIC));
    lemma_u64_roundtrip(b, 0, JOURNAL_MAGIC);
    assert(b.subrange(8, 12) =~= le32(JOURNAL_VERSION));
    lemma_u32_roundtrip(b, 8, JOURNAL_VERSION);
    assert(b.subrange(12, 16) =~= le32(count));
    lemma_u32_roundtrip(b, 12, count);
    assert(b.subrange(16, 20) =~= le32(target));
    lemma_u32_roundtrip(b, 16, target);
    let n = b.len() as int;
    assert(b.subrange(n - 8, n - 4) =~= le32(crc32(body)));
    lemma_u32_roundtrip(b, n - 8, crc32(body));
    assert(b.subrange(n - 4, n) =~= le32(JOURNAL_END));
    lemma_u32_roundtrip(b, n - 4, JOURNAL_END);
    assert(b.subrange(0, n - 8) =~= body);
    assert forall|i: int| 0 <= i < entries.len() implies #[trigger] journal_entry(b, i)
        == entries[i] by {
        let suffix = le32(crc32(body)) + le32(JOURNAL_END);
        lemma_entry_at(entries, head, suffix, i);
        assert(b =~= head + journal_entries(entries) + suffix);
    }
}

/// A journal that lost its last bytes, however few, is not complete.
pub proof fn law_torn_journal_is_incomplete(entries: Seq<(u32, Seq<u8>)>, target: u32, n: int)
    requires
        entries.len() <= 0xFFFF_FFFF,
        forall|i: int| 0 <= i < entries.len() ==> (#[trigger] entries[i]).1.len() == 4096,
        0 <= n < journal_bytes(entries, target).len(),
    ensures
        journal_info(journal_bytes(entries, target).take(n)) is None,
{
    let b = journal_bytes(entries, target);
    let t = b.take(n);
    law_journal_roundtrip(entries, target);
    if n >= 40 {
        assert(t[12] == b[12] && t[13] == b[13] && t[14] == b[14] && t[15] == b[15]);
        assert(u32_at(t, 12) == u32_at(b, 12));
    }
}

proof fn lemma_replayed_len(file: Seq<Seq<u8>>, journal: Seq<u8>, k: int)
    requires
        forall|i: int| 0 <= i < k ==> (#[trigger] journal_entry(journal, i)).0 < file.len(),
    ensures
        replayed(file, journal, k).len() == file.len(),
    decreases k,
{
    if k > 0 {
        lemma_replayed_len(file, journal, k - 1);
        assert(journal_entry(journal, k - 1).0 < file.len());
    }
}

/// Replaying a journal makes up for whatever an interrupted flush left in the
/// pages that the journal covers: two files that agree elsewhere end up the
/// same.
pub proof fn law_replay_hides_interrupted_writes(
    a: Seq<Seq<u8>>,
    b: Seq<Seq<u8>>,
    journal: Seq<u8>,
    k: int,
)
    requires
        a.len() == b.len(),
        0 <= k,
        forall|i: int| 0 <= i < k ==> (#[trigger] journal_entry(journal, i)).0 < a.len(),
        forall|p: int|
            0 <= p < a.len() ==> #[trigger] a[p] == b[p] || exists|i: int|
                0 <= i < k && (#[trigger] journal_entry(journal, i)).0 == p,
    ensures
        replayed(a, journal, k) == replayed(b, journal, k),
{
    lemma_replayed_len(a, journal, k);
    lemma_replayed_len(b, journal, k);
    assert forall|p: int| 0 <= p < a.len() implies replayed(a, journal, k)[p] == replayed(
        b,
        journal,
        k,
    )[p] by {
        lemma_replayed_at(a, b, journal, k, p);
        if a[p] != b[p] {
            let i = choose|i: int| 0 <= i < k && (#[trigger] journal_entry(journal, i)).0 == p;
            lemma_replayed_covered(a, b, journal, k, p, i);
        }
    }
    assert(replayed(a, journal, k) =~= replayed(b, journal, k));
}

proof fn lemma_replayed_at(
    a: Seq<Seq<u8>>,
    b: Seq<Seq<u8>>,
    journal: Seq<u8>,
    k: int,
    p: int,
)
    requires
        a.len() == b.len(),
        0 <= p < a.len(),
        forall|i: int| 0 <= i < k ==> (#[trigger] journal_entry(journal, i)).0 < a.len(),
    ensures
        a[p] == b[p] ==> replayed(a, journal, k)[p] == replayed(b, journal, k)[p],
    decreases k,
{
    if k > 0 {
        lemma_replayed_at(a, b, journal, k - 1, p);
        lemma_replayed_len(a, journal, k - 1);
        lemma_replayed_len(b, journal, k - 1);
        assert(journal_entry(journal, k - 1).0 < a.len());
    }
}

proof fn lemma_replayed_covered(
    a: Seq<Seq<u8>>,
    b: Seq<Seq<u8>>,
    journal: Seq<u8>,
    k: int,
    p: int,
    i: int,
)
    requires
        a.len() == b.len(),
        0 <= p < a.len(),
        0 <= i < k,
        forall|j: int| 0 <= j < k ==> (#[trigger] journal_entry(journal, j)).0 < a.len(),
        journal_entry(journal, i).0 == p,
    ensures
        replayed(a, journal, k)[p] == replayed(b, journal, k)[p],
    decreases k,
{
    lemma_replayed_len(a, journal, k - 1);
    lemma_replayed_len(b, journal, k - 1);
    assert(journal_entry(journal, k - 1).0 < a.len());
    if i < k - 1 {
        lemma_replayed_covered(a, b, journal, k - 1, p, i);
    }
}

/// Checks a journal's framing and checksum. Returns the target size and the
/// entry count of a complete journal, nothing for an incomplete or corrupt
/// one.
pub fn validate_journal(journal: &[u8]) -> (r: Option<(u32, u32)>)
    ensures
        r == journal_info(journal@),
{
    let len: usize = journal.len();
    if len < 40 {
        return None;
    }
    if get_u64(journal, 0) != JOURNAL_MAGIC || get_u32(journal, 8) != JOURNAL_VERSION {
        return None;
    }
    let count: u32 = get_u32(journal, 12);
    let target: u32 = get_u32(journal, 16);
    if len as u64 != 40 + 4104 * (count as u64) {
        return None;
    }
    let body: Vec<u8> = copy_range(journal, 0, len - 8);
    if get_u32(journal, len - 4) != JOURNAL_END || get_u32(journal, len - 8) != crc32_of(&body) {
        return None;
    }
    Some((target, count))
}

/// Views of a list of pages.
pub open spec fn page_views(pages: Seq<Page>) -> Seq<Seq<u8>> {
    Seq::new(pages.len(), |i: int| pages[i]@)
}

fn split_pages(bytes: &[u8], n: u32) -> (v: Vec<Page>)
    ensures
        page_views(v@) == pages_of(bytes@, n as nat),
{
    let mut v: Vec<Page> = Vec::new();
    let mut i: u32 = 0;
    let len: usize = bytes.len();
    while i < n
        invariant
            i <= n,
            len == bytes@.len(),
            v@.len() == i,
            page_views(v@) == pages_of(bytes@, i as nat),
        decreases n - i,
    {
        let start: u64 = 4096 * (i as u64);
        let mut buf: Vec<u8> = Vec::new();
        let mut j: u64 = 0;
        while j < 4096
            invariant
                j <= 4096,
                start == 4096 * i,
                start <= 4096 * 0xFFFF_FFFF,
                len == bytes@.len(),
                buf@.len() == j,
                forall|q: int|
                    0 <= q < j ==> #[trigger] buf@[q] == (if start + q < len {
                        bytes@[start + q]
                    } else {
                        0u8
                    }),
            decreases 4096 - j,
        {
            if start + j < len as u64 {
                buf.push(bytes[(start + j) as usize]);
            } else {
                buf.push(0);
            }
            j += 1;
        }
        let ghost before = v@;
        v.push(Page::from_raw(&buf));
        assert(buf@ =~= pages_of(bytes@, (i + 1) as nat)[i as int]);
        assert forall|q: int| 0 <= q <= i implies #[trigger] page_views(v@)[q] == pages_of(
            bytes@,
            (i + 1) as nat,
        )[q] by {
            if q < i {
                assert(page_views(before)[q] == pages_of(bytes@, i as nat)[q]);
            }
        }
        assert(page_views(v@) =~= pages_of(bytes@, (i + 1) as nat));
        i += 1;
    }
    assert(page_views(v@) =~= pages_of(bytes@, n as nat));
    v
}

/// Replays a complete journal over a file's bytes. Returns the pages that the
/// file holds afterwards, or nothing when the journal is to be discarded: an
/// incomplete journal means that the file was not touched yet.
pub fn recover_journal(bytes: &[u8], journal: &[u8]) -> (r: Result<Option<Vec<Page>>>)
    ensures
        match journal_info(journal@) {
            None => r is Ok && r->Ok_0 is None,
            Some((target, count)) => match r {
                Ok(Some(pages)) => entries_inside(journal@, target, count) && page_views(pages@)
                    == replayed(pages_of(bytes@, target as nat), journal@, count as int),
                Ok(None) => false,
                Err(e) => e is Corruption && !entries_inside(journal@, target, count),
            },
        },
{
    let (target, count) = match validate_journal(journal) {
        None => {
            return Ok(None);
        },
        Some(x) => x,
    };
    let pages: Vec<Page> = split_pages(bytes, target);
    proof {
        assert(page_views(pages@).len() == target);
        assert(journal@.len() == 40 + 4104 * count);
    }
    let done: Vec<Page> = replay_entries(pages, journal, target, count)?;
    Ok(Some(done))
}

fn replay_entries(pages: Vec<Page>, journal: &[u8], target: u32, count: u32) -> (r: Result<Vec<Page>>)
    requires
        journal@.len() == 40 + 4104 * count,
        pages@.len() == target,
    ensures
        match r {
            Ok(done) => entries_inside(journal@, target, count) && page_views(done@) == replayed(
                page_views(pages@),
                journal@,
                count as int,
            ),
            Err(e) => e is Corruption && !entries_inside(journal@, target, count),
        },
{
    let ghost file = page_views(pages@);
    let mut pages = pages;
    let mut i: u32 = 0;
    while i < count
        invariant
            i <= count,
            journal@.len() == 40 + 4104 * count,
            page_views(pages@) == replayed(file, journal@, i as int),
            pages@.len() == target,
            forall|j: int| 0 <= j < i ==> (#[trigger] journal_entry(journal@, j)).0 < target,
        decreases count - i,
    {
        let total: usize = journal.len();
        assert(4136 + 4104 * i <= total);
        let at: usize = 32 + 4104 * (i as usize);
        let id: u32 = get_u32(journal, at);
        assert(journal_entry(journal@, i as int).0 == id);
        if id >= target {
            return Err(Error::corrupt("journal entry lies past its declared file size"));
        }
        let image: Vec<u8> = copy_range(journal, at + 8, at + 4104);
        let ghost before = pages@;
        pages.set(id as usize, Page::from_raw(&image));
        proof {
            assert(page_views(pages@) =~= page_views(before).update(id as int, image@));
        }
        i += 1;
    }
    Ok(pages)
}

// ---- flushing ------------------------------------------------------------------------

/// What one flush writes: the pages in ascending order, the size the file must
/// have, and the journal that makes the writes atomic.
pub struct Flush {
    /// Sealed page images, the meta page first.
    pub pages: Vec<Page>,
    /// Pages that the flush needs the file to hold.
    pub target_pages: u32,
    /// Pages that the file holds after the flush: it grows in chunks.
    pub file_pages: u32,
    /// The journal to make durable before the pages are written in place.
    pub journal: Vec<u8>,
}

/// Some page of a list belongs to a place.
pub open spec fn lands(pages: Seq<Page>, k: int) -> bool {
    exists|i: int| 0 <= i < pages.len() && page_id_of(#[trigger] pages[i]@) == k
}

/// Writing the pages of `f` into their places turns the file `was` into `now`:
/// the pages are in it, and elsewhere it is as it was, with zeros behind its
/// old end. The journal holds the same pages.
pub open spec fn writes_out(was: Seq<Seq<u8>>, now: Seq<Seq<u8>>, f: Flush) -> bool {
    &&& f.file_pages == now.len()
    &&& was.len() <= f.target_pages <= now.len()
    &&& f.journal@ == journal_bytes(placed(f.pages@), f.target_pages)
    &&& forall|i: int|
        0 <= i < f.pages@.len() ==> page_id_of(#[trigger] f.pages@[i]@) < f.target_pages
            && now[page_id_of(f.pages@[i]@) as int] == f.pages@[i]@
    &&& forall|k: int|
        0 <= k < now.len() && !lands(f.pages@, k) ==> #[trigger] now[k] == if k < was.len() {
            was[k]
        } else {
            zero_page()
        }
}

/// Pages with the place each belongs to.
pub open spec fn placed(pages: Seq<Page>) -> Seq<(u32, Seq<u8>)> {
    Seq::new(pages.len(), |i: int| (page_id_of(pages[i]@), pages[i]@))
}

/// `pages` are exactly the staged pages, sealed, after the sealed meta page.
pub open spec fn flush_pages(
    dirty: Map<u32, Seq<u8>>,
    meta: MetaData,
    pages: Seq<Page>,
) -> bool {
    &&& pages.len() > 0
    &&& page_id_of(pages[0]@) == 0
    &&& meta_of(pages[0]@) == Some(meta)
    &&& crc_ok(pages[0]@)
    &&& forall|i: int, j: int|
        0 <= i < j < pages.len() ==> page_id_of(#[trigger] pages[i]@) < page_id_of(
            #[trigger] pages[j]@,
        )
    &&& forall|i: int|
        1 <= i < pages.len() ==> dirty.contains_key(page_id_of(#[trigger] pages[i]@))
            && pages[i]@ == sealed(dirty[page_id_of(pages[i]@)])
    &&& forall|id: u32| #[trigger]
        dirty.contains_key(id) && id != 0 ==> exists|i: int|
            1 <= i < pages.len() && page_id_of(#[trigger] pages[i]@) == id
}

/// The file after a flush: staged pages sealed in their places, the meta page
/// in the first one, the rest as it was.
pub open spec fn flushed(
    file: Seq<Seq<u8>>,
    dirty: Map<u32, Seq<u8>>,
    meta: MetaData,
    after: Seq<Seq<u8>>,
) -> bool {
    &&& file.len() <= after.len()
    &&& meta_of(after[0]) == Some(meta)
    &&& crc_ok(after[0])
    &&& page_id_of(after[0]) == 0
    &&& forall|id: u32| #[trigger] dirty.contains_key(id) ==> id < after.len()
    &&& forall|id: u32|
        1 <= id < after.len() ==> #[trigger] after[id as int] == if dirty.contains_key(id) {
            sealed(dirty[id])
        } else if id < file.len() {
            file[id as int]
        } else {
            zero_page()
        }
}

/// Sealing changes nothing but the checksum.
pub proof fn lemma_sealed_same(b: Seq<u8>)
    requires
        b.len() == 4096,
    ensures
        sealed(b).len() == 4096,
        crc_ok(sealed(b)),
        forall|i: int| 4 <= i < 4096 ==> sealed(b)[i] == b[i],
        page_id_of(sealed(b)) == page_id_of(b),
        extra_of(sealed(b)) == extra_of(b),
        type_of(sealed(b)) == type_of(b),
{
    assert(sealed(b).subrange(4, 4096) =~= b.subrange(4, 4096));
}

fn build_journal(pages: &Vec<Page>, target_pages: u32) -> (out: Vec<u8>)
    ensures
        out@ == journal_bytes(placed(pages@), target_pages),
{
    let mut out: Vec<u8> = Vec::new();
    push_u64(&mut out, JOURNAL_MAGIC);
    assert(out@ =~= le64(JOURNAL_MAGIC));
    push_u32(&mut out, JOURNAL_VERSION);
    push_u32(&mut out, #[verifier::truncate] (pages.len() as u32));
    push_u32(&mut out, target_pages);
    let mut k: usize = 0;
    let ghost head = out@;
    while k < 12
        invariant
            k <= 12,
            out@ == head + Seq::new(k as nat, |i: int| 0u8),
        decreases 12 - k,
    {
        out.push(0);
        k += 1;
        assert(out@ =~= head + Seq::new(k as nat, |i: int| 0u8));
    }
    let ghost all = placed(pages@);
    assert(out@ =~= journal_header(all.len() as u32, target_pages));
    let ghost hdr = out@;
    let mut i: usize = 0;
    assert(out@ =~= hdr + journal_entries(all.take(0)));
    while i < pages.len()
        invariant
            i <= pages@.len(),
            all == placed(pages@),
            out@ == hdr + journal_entries(all.take(i as int)),
        decreases pages@.len() - i,
    {
        let ghost before = out@;
        push_u32(&mut out, pages[i].page_id());
        push_u32(&mut out, 0);
        push_bytes(&mut out, pages[i].as_bytes());
        proof {
            let t = all.take(i + 1);
            assert(t.drop_last() =~= all.take(i as int));
            assert(t.last() == all[i as int]);
            assert(out@ =~= hdr + journal_entries(t));
        }
        i += 1;
    }
    assert(all.take(i as int) =~= all);
    let crc: u32 = crc32_of(&out);
    push_u32(&mut out, crc);
    push_u32(&mut out, JOURNAL_END);
    out
}

proof fn lemma_without_key(s: Seq<(u32, Seq<u8>)>, key: u32)
    ensures
        forall|i: int| 0 <= i < without(s, key).len() ==> (#[trigger] without(s, key)[i]).0 != key,
    decreases s.len(),
{
    if s.len() > 0 {
        lemma_without_key(s.skip(1), key);
        if s[0].0 != key {
            assert forall|i: int| 0 <= i < without(s, key).len() implies (#[trigger] without(
                s,
                key,
            )[i]).0 != key by {
                if i > 0 {
                    assert(without(s, key)[i] == without(s.skip(1), key)[i - 1]);
                }
            }
        } else {
            assert(without(s, key) == without(s.skip(1), key));
        }
    }
}

/// The first `k` staged pages are in the flush.
spec fn flush_prefix(d: Seq<Page>, k: int, meta: MetaData, pages: Seq<Page>) -> bool {
    &&& pages.len() > 0
    &&& page_id_of(pages[0]@) == 0
    &&& meta_of(pages[0]@) == Some(meta)
    &&& crc_ok(pages[0]@)
    &&& forall|x: int, y: int|
        0 <= x < y < pages.len() ==> page_id_of(#[trigger] pages[x]@) < page_id_of(
            #[trigger] pages[y]@,
        )
    &&& forall|x: int| 1 <= x < pages.len() ==> from_staged(d, k, #[trigger] pages[x]@)
    &&& forall|j: int|
        0 <= j < k && page_id_of(#[trigger] d[j]@) != 0 ==> in_flush(pages, page_id_of(d[j]@))
}

spec fn from_staged(d: Seq<Page>, k: int, page: Seq<u8>) -> bool {
    exists|j: int|
        0 <= j < k && page_id_of(#[trigger] d[j]@) == page_id_of(page) && page == sealed(d[j]@)
}

spec fn in_flush(pages: Seq<Page>, id: u32) -> bool {
    exists|x: int| 1 <= x < pages.len() && page_id_of(#[trigger] pages[x]@) == id
}

proof fn lemma_flush_skip(d: Seq<Page>, k: int, meta: MetaData, pages: Seq<Page>)
    requires
        flush_prefix(d, k, meta, pages),
        0 <= k < d.len(),
        page_id_of(d[k]@) == 0,
    ensures
        flush_prefix(d, k + 1, meta, pages),
{
    assert forall|x: int| 1 <= x < pages.len() implies from_staged(
        d,
        k + 1,
        #[trigger] pages[x]@,
    ) by {
        assert(from_staged(d, k, pages[x]@));
    }
}

proof fn lemma_flush_push(d: Seq<Page>, k: int, meta: MetaData, before: Seq<Page>, page: Page)
    requires
        ids_ascend(d),
        flush_prefix(d, k, meta, before),
        0 <= k < d.len(),
        page_id_of(d[k]@) != 0,
        page@ == sealed(d[k]@),
    ensures
        flush_prefix(d, k + 1, meta, before.push(page)),
{
    let pages = before.push(page);
    lemma_sealed_same(d[k]@);
    assert forall|x: int, y: int| 0 <= x < y < pages.len() implies page_id_of(#[trigger] pages[x]@)
        < page_id_of(#[trigger] pages[y]@) by {
        assert(pages[x] == before[x]);
        if y == before.len() && x >= 1 {
            assert(from_staged(d, k, before[x]@));
            let j = choose|j: int|
                0 <= j < k && page_id_of(#[trigger] d[j]@) == page_id_of(before[x]@) && before[x]@
                    == sealed(d[j]@);
            assert(page_id_of(d[j]@) < page_id_of(d[k]@));
        } else if y < before.len() {
            assert(pages[y] == before[y]);
        }
    }
    assert forall|x: int| 1 <= x < pages.len() implies from_staged(
        d,
        k + 1,
        #[trigger] pages[x]@,
    ) by {
        if x < before.len() {
            assert(pages[x] == before[x]);
            assert(from_staged(d, k, before[x]@));
        } else {
            assert(page_id_of(d[k]@) == page_id_of(pages[x]@));
        }
    }
    assert forall|j: int| 0 <= j < k + 1 && page_id_of(#[trigger] d[j]@) != 0 implies in_flush(
        pages,
        page_id_of(d[j]@),
    ) by {
        if j < k {
            assert(in_flush(before, page_id_of(d[j]@)));
            let x = choose|x: int|
                1 <= x < before.len() && page_id_of(#[trigger] before[x]@) == page_id_of(d[j]@);
            assert(pages[x] == before[x]);
        } else {
            assert(page_id_of(pages[before.len() as int]@) == page_id_of(d[j]@));
        }
    }
}

proof fn lemma_flush_done(d: Seq<Page>, meta: MetaData, pages: Seq<Page>)
    requires
        ids_ascend(d),
        flush_prefix(d, d.len() as int, meta, pages),
    ensures
        flush_pages(staged(d), meta, pages),
{
    assert forall|i: int| 1 <= i < pages.len() implies staged(d).contains_key(
        page_id_of(#[trigger] pages[i]@),
    ) && pages[i]@ == sealed(staged(d)[page_id_of(pages[i]@)]) by {
        assert(from_staged(d, d.len() as int, pages[i]@));
        let j = choose|j: int|
            0 <= j < d.len() && page_id_of(#[trigger] d[j]@) == page_id_of(pages[i]@) && pages[i]@
                == sealed(d[j]@);
        lemma_staged_at(d, j);
    }
    assert forall|id: u32| #[trigger] staged(d).contains_key(id) && id != 0 implies exists|x: int|
        1 <= x < pages.len() && page_id_of(#[trigger] pages[x]@) == id by {
        let j = choose|j: int| 0 <= j < d.len() && page_id_of(#[trigger] d[j]@) == id;
        assert(in_flush(pages, page_id_of(d[j]@)));
    }
}

impl Pager {
    /// What the next flush has to write; nothing when nothing is staged.
    ///
    /// Taking the plan changes nothing: until [`Pager::flush`] is called the
    /// staged pages stay staged, so a failed write can be retried or dropped.
    pub fn prepare_flush(&self) -> (r: Result<Option<Flush>>)
        requires
            self.inv(),
        ensures
            match r {
                Ok(None) => self.dirty().dom().len() == 0 && !self.meta_changed(),
                Ok(Some(f)) => (self.dirty().dom().len() > 0 || self.meta_changed())
                    && !self.dirty().contains_key(SENTINEL) && flush_pages(
                    self.dirty(),
                    self@.meta,
                    f.pages@,
                ) && f.target_pages == (if self.file().len() > page_id_of(f.pages@.last()@) {
                    self.file().len() as int
                } else {
                    page_id_of(f.pages@.last()@) + 1
                }) && f.file_pages == grown_len(self.file().len() as int, f.target_pages as int)
                    && f.journal@ == journal_bytes(placed(f.pages@), f.target_pages),
                Err(e) => e is InvalidArgument && self.dirty().contains_key(SENTINEL),
            },
    {
        proof {
            lemma_staged_count(self.dirty@);
        }
        let n: usize = self.dirty.len();
        if n == 0 && !self.meta_dirty {
            return Ok(None);
        }
        if n > 0 {
            let last: u32 = self.dirty[n - 1].page_id();
            if last == SENTINEL {
                proof {
                    lemma_staged_at(self.dirty@, n - 1);
                }
                return Err(Error::invalid("a staged page has no place in a file"));
            }
        }
        assert(!self.dirty().contains_key(SENTINEL)) by {
            if self.dirty().contains_key(SENTINEL) {
                let j = choose|j: int|
                    0 <= j < n && page_id_of(#[trigger] self.dirty@[j]@) == SENTINEL;
                if j < n - 1 {
                    assert(page_id_of(self.dirty@[j]@) < page_id_of(self.dirty@[n - 1]@));
                }
            }
        }
        let mut pages: Vec<Page> = Vec::new();
        let mut meta_page: Page = Page::new(0, PageType::Meta);
        meta_page.write_meta(&self.meta);
        let ghost unsealed = meta_page@;
        meta_page.finalize();
        proof {
            lemma_sealed_same(unsealed);
            lemma_meta_sealed(unsealed);
        }
        pages.push(meta_page);
        let mut i: usize = 0;
        while i < n
            invariant
                i <= n,
                n == self.dirty@.len(),
                self.inv(),
                flush_prefix(self.dirty@, i as int, self.meta, pages@),
            decreases n - i,
        {
            let mut page: Page = self.dirty[i].clone();
            let id: u32 = page.page_id();
            let ghost before = pages@;
            if id != 0 {
                page.finalize();
                pages.push(page);
                proof {
                    lemma_flush_push(self.dirty@, i as int, self.meta, before, page);
                }
            } else {
                proof {
                    lemma_flush_skip(self.dirty@, i as int, self.meta, before);
                }
            }
            i += 1;
        }
        proof {
            lemma_flush_done(self.dirty@, self.meta, pages@);
        }
        let max_id: u32 = pages[pages.len() - 1].page_id();
        let have: u32 = self.file_pages();
        assert(max_id != SENTINEL);
        let target_pages: u32 = if have > max_id {
            have
        } else {
            max_id + 1
        };
        let journal: Vec<u8> = build_journal(&pages, target_pages);
        let file_pages: u32 = grown_pages(have, target_pages);
        Ok(Some(Flush { pages, target_pages, file_pages, journal }))
    }

    /// Applies the flush to the file image: every staged page and the metadata
    /// take their places and nothing is staged any more.
    pub fn flush(&mut self) -> (r: Result<()>)
        requires
            old(self).inv(),
        ensures
            final(self).inv(),
            final(self)@.meta == old(self)@.meta,
            match r {
                Ok(_) => {
                    &&& !old(self).dirty().contains_key(SENTINEL)
                    &&& !final(self).meta_changed()
                    &&& final(self).dirty() == Map::<u32, Seq<u8>>::empty()
                    &&& if old(self).dirty().dom().len() == 0 && !old(self).meta_changed() {
                        &&& final(self)@ == old(self)@
                        &&& final(self).file() == old(self).file()
                    } else {
                        flushed(
                            old(self).file(),
                            old(self).dirty(),
                            old(self)@.meta,
                            final(self).file(),
                        )
                    }
                },
                Err(e) => e is InvalidArgument && old(self).dirty().contains_key(SENTINEL)
                    && final(self)@ == old(self)@ && final(self).dirty() == old(self).dirty(),
            },
    {
        match self.flush_out() {
            Ok(_) => Ok(()),
            Err(e) => Err(e),
        }
    }

    /// Applies the flush to the file image, and says what has to be written to
    /// make the file like it; nothing when nothing was staged.
    pub fn flush_out(&mut self) -> (r: Result<Option<Flush>>)
        requires
            old(self).inv(),
        ensures
            final(self).inv(),
            final(self)@.meta == old(self)@.meta,
            match r {
                Ok(None) => {
                    &&& old(self).dirty().dom().len() == 0
                    &&& !old(self).meta_changed()
                    &&& !old(self).dirty().contains_key(SENTINEL)
                    &&& final(self)@ == old(self)@
                    &&& final(self).file() == old(self).file()
                    &&& final(self).dirty() == Map::<u32, Seq<u8>>::empty()
                    &&& !final(self).meta_changed()
                },
                Ok(Some(f)) => {
                    &&& old(self).dirty().dom().len() > 0 || old(self).meta_changed()
                    &&& !old(self).dirty().contains_key(SENTINEL)
                    &&& final(self).dirty() == Map::<u32, Seq<u8>>::empty()
                    &&& !final(self).meta_changed()
                    &&& flushed(
                        old(self).file(),
                        old(self).dirty(),
                        old(self)@.meta,
                        final(self).file(),
                    )
                    &&& flush_pages(old(self).dirty(), old(self)@.meta, f.pages@)
                    &&& f.file_pages == grown_len(
                        old(self).file().len() as int,
                        f.target_pages as int,
                    )
                    &&& writes_out(old(self).file(), final(self).file(), f)
                },
                Err(e) => e is InvalidArgument && old(self).dirty().contains_key(SENTINEL)
                    && final(self)@ == old(self)@ && final(self).dirty() == old(self).dirty()
                    && final(self).file() == old(self).file(),
            },
    {
        let plan: Flush = match self.prepare_flush() {
            Ok(None) => {
                proof {
                    lemma_staged_count(self.dirty@);
                    assert(self.dirty() =~= Map::<u32, Seq<u8>>::empty());
                }
                return Ok(None);
            },
            Ok(Some(f)) => f,
            Err(e) => {
                return Err(e);
            },
        };
        let ghost s0 = self@;
        let ghost file0 = self.file();
        let ghost dirty0 = self.dirty();
        self.ensure_file_pages(plan.target_pages);
        let (target_pages, file_pages): (u32, u32) = (plan.target_pages, plan.file_pages);
        let journal: Vec<u8> = plan.journal;
        let pages: Vec<Page> = plan.pages;
        let ghost grown_file = self.file();
        let mut i: usize = 0;
        while i < pages.len()
            invariant
                i <= pages@.len(),
                self.inv(),
                self.meta == s0.meta,
                self.dirty() == dirty0,
                flush_pages(dirty0, s0.meta, pages@),
                page_id_of(pages@.last()@) < self.file@.len(),
                self.file().len() == grown_file.len(),
                grown_file.len() == self.file@.len(),
                forall|p: int|
                    0 <= p < self.file@.len() ==> (#[trigger] self.file@[p])@ == grown_file[p]
                        || exists|j: int|
                        0 <= j < i && page_id_of(#[trigger] pages@[j]@) == p && self.file@[p]@
                            == pages@[j]@,
                forall|j: int|
                    0 <= j < i ==> self.file@[page_id_of(#[trigger] pages@[j]@) as int]@
                        == pages@[j]@,
            decreases pages@.len() - i,
        {
            let page: Page = pages[i].clone();
            let id: u32 = page.page_id();
            proof {
                if i < pages@.len() - 1 {
                    assert(page_id_of(pages@[i as int]@) < page_id_of(
                        pages@[pages@.len() - 1]@,
                    ));
                }
                lemma_clean_without(self.file@, self.cache@, id);
                lemma_without_key(self.cache@, id);
            }
            let ghost f = self.file@;
            let ghost c0 = without(self.cache@, id);
            self.cache.pop(id);
            self.file.set(id as usize, page.clone());
            proof {
                assert forall|x: int| 0 <= x < self.cache@.len() implies (
                #[trigger] self.cache@[x]).0 < self.file@.len() && page_valid(
                    self.file@[self.cache@[x].0 as int]@,
                    self.cache@[x].0,
                ) && self.cache@[x].1 == self.file@[self.cache@[x].0 as int]@ by {
                    assert(self.cache@[x].0 != id);
                    assert(self.file@[self.cache@[x].0 as int] == f[self.cache@[x].0 as int]);
                }
                assert(crc_ok(page@)) by {
                    if i >= 1 {
                        assert(dirty0.contains_key(page_id_of(pages@[i as int]@)));
                        lemma_dirty_len(*self, page_id_of(pages@[i as int]@));
                        lemma_sealed_same(dirty0[page_id_of(pages@[i as int]@)]);
                    }
                }
                assert forall|p: int| 0 <= p < self.file@.len() implies (
                #[trigger] self.file@[p])@ == grown_file[p] || exists|j: int|
                    0 <= j < i + 1 && page_id_of(#[trigger] pages@[j]@) == p && self.file@[p]@
                        == pages@[j]@ by {
                    if p == id {
                        assert(page_id_of(pages@[i as int]@) == p);
                    } else {
                        assert(self.file@[p] == f[p]);
                        if f[p]@ != grown_file[p] {
                            let j = choose|j: int|
                                0 <= j < i && page_id_of(#[trigger] pages@[j]@) == p && f[p]@
                                    == pages@[j]@;
                            assert(page_id_of(pages@[j]@) == p);
                        }
                    }
                }
                assert forall|j: int| 0 <= j < i + 1 implies self.file@[page_id_of(
                    #[trigger] pages@[j]@,
                ) as int]@ == pages@[j]@ by {
                    if j < i {
                        assert(page_id_of(pages@[j]@) < page_id_of(pages@[i as int]@));
                    }
                }
            }
            match page.validate_structure() {
                Ok(_) => {
                    self.cache.put(id, Arc::new(page));
                    proof {
                        lemma_without_shorter(c0, id);
                        lemma_clean_without(self.file@, c0, id);
                        assert forall|x: int| 0 <= x < c0.len() - 1 implies c0.drop_last()[x]
                            == #[trigger] c0[x] by {}
                        let kept = if cached(c0, id) is None && c0.len()
                            == self.cache.capacity() {
                            c0.drop_last()
                        } else {
                            without(c0, id)
                        };
                        assert(all_clean(self.file@, kept));
                        lemma_clean_front(self.file@, self.cache@, kept, id, page@);
                    }
                },
                Err(_) => {},
            }
            i += 1;
        }
        self.dirty.clear();
        self.meta_dirty = false;
        proof {
            assert(self.dirty() =~= Map::<u32, Seq<u8>>::empty());
            let after = self.file();
            assert(after[0] == pages@[0]@) by {
                assert(page_id_of(pages@[0]@) == 0);
            }
            assert forall|id: u32| #[trigger] dirty0.contains_key(id) implies id < after.len() by {
                if id != 0 {
                    let x = choose|x: int|
                        1 <= x < pages@.len() && page_id_of(#[trigger] pages@[x]@) == id;
                    if x < pages@.len() - 1 {
                        assert(page_id_of(pages@[x]@) < page_id_of(pages@[pages@.len() - 1]@));
                    }
                }
            }
            assert forall|id: u32| 1 <= id < after.len() implies #[trigger] after[id as int]
                == if dirty0.contains_key(id) {
                sealed(dirty0[id])
            } else if id < file0.len() {
                file0[id as int]
            } else {
                zero_page()
            } by {
                assert(after[id as int] == self.file@[id as int]@);
                if dirty0.contains_key(id) {
                    let x = choose|x: int|
                        1 <= x < pages@.len() && page_id_of(#[trigger] pages@[x]@) == id;
                    assert(self.file@[page_id_of(pages@[x]@) as int]@ == pages@[x]@);
                } else {
                    if self.file@[id as int]@ != grown_file[id as int] {
                        let j = choose|j: int|
                            0 <= j < pages@.len() && page_id_of(#[trigger] pages@[j]@) == id
                                && self.file@[id as int]@ == pages@[j]@;
                        assert(dirty0.contains_key(page_id_of(pages@[j]@)));
                    }
                }
            }
        }
        let done: Flush = Flush { pages, target_pages, file_pages, journal };
        proof {
            let now = self.file();
            let v = done.pages@;
            assert forall|i: int| 0 <= i < v.len() implies page_id_of(#[trigger] v[i]@)
                < done.target_pages && now[page_id_of(v[i]@) as int] == v[i]@ by {
                if i < v.len() - 1 {
                    assert(page_id_of(v[i]@) < page_id_of(v[v.len() - 1]@));
                }
                assert(self.file@[page_id_of(v[i]@) as int]@ == v[i]@);
            }
            assert forall|k: int| 0 <= k < now.len() && !lands(v, k) implies #[trigger] now[k]
                == if k < file0.len() {
                file0[k]
            } else {
                zero_page()
            } by {
                assert(now[k] == self.file@[k]@);
                if self.file@[k]@ != grown_file[k] {
                    let j = choose|j: int|
                        0 <= j < v.len() && page_id_of(#[trigger] v[j]@) == k && self.file@[k]@
                            == v[j]@;
                    assert(lands(v, k));
                }
            }
        }
        Ok(Some(done))
    }
}

proof fn lemma_dirty_len(p: Pager, id: u32)
    requires
        p.dirty().contains_key(id),
    ensures
        p.dirty()[id].len() == 4096,
{
}

proof fn lemma_meta_sealed(b: Seq<u8>)
    requires
        b.len() == 4096,
    ensures
        meta_of(sealed(b)) == meta_of(b),
{
    lemma_sealed_same(b);
}

// ---- opening and replacing ---------------------------------------------------------------

/// Whether a file of these pages opens: a sound meta page first, and no more
/// allocated pages than the file holds.
pub open spec fn opens(file: Seq<Seq<u8>>) -> bool {
    &&& file.len() > 0
    &&& page_valid(file[0], 0)
    &&& meta_of(file[0]) is Some
    &&& meta_of(file[0])->0.page_count <= file.len()
}

/// The file of a brand-new database: meta page 0, an empty leaf root and the
/// rest of the first growth step.
pub open spec fn new_file(file: Seq<Seq<u8>>) -> bool {
    &&& file.len() == GROW_CHUNK
    &&& page_valid(file[0], 0)
    &&& meta_of(file[0]) == Some(default_meta())
    &&& page_valid(file[1], 1)
    &&& crate::page::cells_of(file[1]) == Seq::<Seq<u8>>::empty()
    &&& type_of(file[1]) == Some(PageType::Leaf)
    &&& crate::page::is_leaf_of(file[1])
    &&& extra_of(file[1]) == SENTINEL
    &&& crate::page::sane(file[1])
    &&& forall|i: int| 2 <= i < file.len() ==> file[i] == zero_page()
}

/// The pages that opening sees: those of the file, after a complete journal
/// was replayed.
pub open spec fn recovered(bytes: Seq<u8>, journal: Seq<u8>) -> Seq<Seq<u8>> {
    match journal_info(journal) {
        None => pages_of(bytes, bytes.len() / 4096),
        Some((target, count)) => replayed(
            pages_of(bytes, target as nat),
            journal,
            count as int,
        ),
    }
}

/// Whether recovery leaves whole pages, as many as a page id can tell apart.
pub open spec fn recoverable(bytes: Seq<u8>, journal: Seq<u8>) -> bool {
    match journal_info(journal) {
        None => bytes.len() % 4096 == 0 && bytes.len() / 4096 <= 0xFFFF_FFFF,
        Some((target, count)) => entries_inside(journal, target, count),
    }
}

/// Whether a backup can replace a database: whole pages, a sound meta page
/// that agrees with the size, and sound allocated pages.
pub open spec fn backup_ok(bytes: Seq<u8>) -> bool {
    &&& bytes.len() > 0
    &&& bytes.len() % 4096 == 0
    &&& bytes.len() / 4096 <= 0xFFFF_FFFF
    &&& sound_pages(pages_of(bytes, bytes.len() / 4096))
}

/// Whether these pages make a database that can replace another.
pub open spec fn sound_pages(file: Seq<Seq<u8>>) -> bool {
    &&& page_valid(file[0], 0)
    &&& meta_of(file[0]) is Some
    &&& meta_of(file[0])->0.page_count <= file.len()
    &&& meta_of(file[0])->0.root < meta_of(file[0])->0.page_count
    &&& forall|i: int|
        1 <= i < meta_of(file[0])->0.page_count ==> crc_ok(#[trigger] file[i]) && structure_ok(
            file[i],
        )
}

fn check_backup(file: &Vec<Page>) -> (r: Result<MetaData>)
    requires
        0 < file@.len() <= 0xFFFF_FFFF,
    ensures
        match r {
            Ok(m) => sound_pages(page_views(file@)) && meta_of(file@[0]@) == Some(m),
            Err(e) => e is Corruption && !sound_pages(page_views(file@)),
        },
{
    let ghost views = page_views(file@);
    assert(views[0] == file@[0]@);
    file[0].verify()?;
    file[0].validate_structure()?;
    if file[0].page_id() != 0 {
        return Err(Error::corrupt("the first page of the backup belongs elsewhere"));
    }
    let meta: MetaData = file[0].read_meta()?;
    if meta.page_count as usize > file.len() || meta.root >= meta.page_count {
        return Err(Error::corrupt("backup meta page is inconsistent"));
    }
    let mut id: u32 = 1;
    while id < meta.page_count
        invariant
            1 <= id,
            meta.page_count <= file@.len(),
            views.len() == file@.len(),
            forall|i: int| 0 <= i < file@.len() ==> #[trigger] views[i] == file@[i]@,
            meta_of(views[0]) == Some(meta),
            views == page_views(file@),
            forall|i: int| 1 <= i < id ==> crc_ok(#[trigger] views[i]) && structure_ok(views[i]),
        decreases meta.page_count - id,
    {
        assert(views[id as int] == file@[id as int]@);
        file[id as usize].verify()?;
        file[id as usize].validate_structure()?;
        id += 1;
    }
    Ok(meta)
}

impl Pager {
    fn with_file(file: Vec<Page>, cache_pages: usize) -> (p: Pager)
        requires
            0 < file@.len() <= 0xFFFF_FFFF,
        ensures
            p.inv(),
            p.file() == page_views(file@),
            p.dirty() == Map::<u32, Seq<u8>>::empty(),
            !p.meta_changed(),
            p@.meta == default_meta(),
            p.resident() == Seq::<(u32, Seq<u8>)>::empty(),
            p.cache_capacity() == (if cache_pages < 16 {
                16
            } else {
                cache_pages as nat
            }),
            p.hits_spec() == 0,
            p.misses_spec() == 0,
    {
        let capacity: usize = if cache_pages < 16 {
            16
        } else {
            cache_pages
        };
        let p = Pager {
            file,
            dirty: Vec::new(),
            cache: PageCache::new(capacity),
            meta: MetaData::default(),
            meta_dirty: false,
            hits: 0,
            misses: 0,
        };
        assert(p.dirty() =~= Map::<u32, Seq<u8>>::empty());
        assert(p.file() =~= page_views(file@));
        p
    }

    /// Lays out a brand-new database: meta page 0 plus an empty leaf root.
    fn initialize(cache_pages: usize) -> (p: Pager)
        ensures
            p.inv(),
            new_file(p.file()),
            p.dirty() == Map::<u32, Seq<u8>>::empty(),
            !p.meta_changed(),
            p@.meta == default_meta(),
    {
        let mut file: Vec<Page> = Vec::new();
        let mut meta_page: Page = Page::new(0, PageType::Meta);
        meta_page.write_meta(&MetaData::default());
        let ghost m = meta_page@;
        meta_page.finalize();
        proof {
            lemma_sealed_same(m);
            lemma_meta_sealed(m);
        }
        let mut root: Page = Page::new(1, PageType::Leaf);
        let ghost r = root@;
        root.finalize();
        proof {
            lemma_sealed_same(r);
            crate::page::lemma_sealed_cells(r);
        }
        file.push(meta_page);
        file.push(root);
        let mut i: usize = 2;
        while i < 32
            invariant
                2 <= i <= 32,
                file@.len() == i,
                file@[0] == meta_page,
                file@[1] == root,
                forall|j: int| 2 <= j < i ==> (#[trigger] file@[j])@ == zero_page(),
            decreases 32 - i,
        {
            file.push(Page::zeroed());
            i += 1;
        }
        Pager::with_file(file, cache_pages)
    }

    /// Opens the database whose file and flush journal hold these bytes, or
    /// initialises a new one when the file is empty.
    ///
    /// A journal left by a flush that was interrupted is replayed first, so
    /// the pager always shows exactly one complete flush.
    pub fn open(bytes: &[u8], journal: &[u8], cache_pages: usize) -> (r: Result<Pager>)
        ensures
            match r {
                Ok(p) => p.inv() && recoverable(bytes@, journal@) && p.dirty() == Map::<
                    u32,
                    Seq<u8>,
                >::empty() && !p.meta_changed() && if recovered(bytes@, journal@).len() == 0 {
                    new_file(p.file()) && p@.meta == default_meta()
                } else {
                    p.file() == recovered(bytes@, journal@) && opens(p.file()) && p@.meta
                        == meta_of(p.file()[0])->0
                },
                Err(e) => e is Corruption && !(recoverable(bytes@, journal@) && (recovered(
                    bytes@,
                    journal@,
                ).len() == 0 || opens(recovered(bytes@, journal@)))),
            },
    {
        let file: Vec<Page> = match recover_journal(bytes, journal)? {
            Some(pages) => {
                proof {
                    let (target, count) = journal_info(journal@)->0;
                    lemma_replayed_len(pages_of(bytes@, target as nat), journal@, count as int);
                    assert(page_views(pages@).len() == pages@.len());
                }
                pages
            },
            None => {
                let len: u64 = bytes.len() as u64;
                if len % 4096 != 0 || len / 4096 > 0xFFFF_FFFF {
                    return Err(Error::corrupt("file length is not a multiple of the page size"));
                }
                let pages = split_pages(bytes, (len / 4096) as u32);
                assert(page_views(pages@).len() == pages@.len());
                pages
            },
        };
        assert(page_views(file@) == recovered(bytes@, journal@));
        if file.len() == 0 {
            return Ok(Pager::initialize(cache_pages));
        }
        let mut pager: Pager = Pager::with_file(file, cache_pages);
        let meta_page: Page = pager.read_page(0)?;
        pager.meta = meta_page.read_meta()?;
        if pager.meta.page_count as usize > pager.file.len() {
            return Err(Error::corrupt("meta page claims more pages than the file holds"));
        }
        Ok(pager)
    }

    /// Replaces the whole database with the one in `bytes`.
    ///
    /// The bytes must be a database file: its meta page and every allocated
    /// page are checked first. Staged pages are discarded.
    pub fn replace_contents(&mut self, bytes: &[u8]) -> (r: Result<()>)
        requires
            old(self).inv(),
        ensures
            final(self).inv(),
            match r {
                Ok(_) => {
                    &&& backup_ok(bytes@)
                    &&& final(self).file() == pages_of(bytes@, bytes@.len() / 4096)
                    &&& final(self).dirty() == Map::<u32, Seq<u8>>::empty()
                    &&& !final(self).meta_changed()
                    &&& meta_of(final(self).file()[0]) == Some(final(self)@.meta)
                },
                Err(e) => {
                    &&& !backup_ok(bytes@)
                    &&& e is Corruption || e is Full
                    &&& final(self)@ == old(self)@
                    &&& final(self).dirty() == old(self).dirty()
                    &&& final(self).file() == old(self).file()
                },
            },
    {
        let len: u64 = bytes.len() as u64;
        if len == 0 || len % 4096 != 0 {
            return Err(Error::corrupt("not a PhoenixDB file"));
        }
        if len / 4096 > 0xFFFF_FFFF {
            return Err(Error::full("backup has too many pages"));
        }
        let pages: u32 = (len / 4096) as u32;
        let file: Vec<Page> = split_pages(bytes, pages);
        let ghost views = page_views(file@);
        assert(views.len() == pages);
        let meta: MetaData = check_backup(&file)?;
        assert(backup_ok(bytes@));
        self.file = file;
        self.dirty.clear();
        self.cache.clear();
        assert(self.file() =~= views);
        assert(self.dirty() =~= Map::<u32, Seq<u8>>::empty());
        self.meta = meta;
        self.meta_dirty = false;
        Ok(())
    }
}

} // verus!
