//! Bounded page cache with least-recently-used eviction.
//!
//! Lets the pager reuse already-decoded pages and caps memory by evicting the
//! least-recently-used entry when the cache is full. Writes invalidate the
//! cached entry so readers never see a stale page.

use crate::page::Page;
use std::sync::Arc;
use vstd::prelude::*;

verus! {

/// `lru::LruCache`, opaque.
#[verifier::external_type_specification]
#[verifier::external_body]
#[verifier::reject_recursive_types(K)]
#[verifier::reject_recursive_types(V)]
#[verifier::reject_recursive_types(S)]
pub struct ExLruCache<K, V, S>(lru::LruCache<K, V, S>);

/// The hasher of `lru::LruCache`, opaque.
#[verifier::external_type_specification]
#[verifier::external_body]
pub struct ExLruHasher(lru::DefaultHasher);

/// What a cache holds, most recently used first.
pub uninterp spec fn lru_entries(c: lru::LruCache<u32, Arc<Page>>) -> Seq<(u32, Seq<u8>)>;

/// How many entries a cache was made for.
pub uninterp spec fn lru_capacity(c: lru::LruCache<u32, Arc<Page>>) -> nat;

/// The value that is cached under `key`.
pub open spec fn cached(s: Seq<(u32, Seq<u8>)>, key: u32) -> Option<Seq<u8>>
    decreases s.len(),
{
    if s.len() == 0 {
        None
    } else if s[0].0 == key {
        Some(s[0].1)
    } else {
        cached(s.skip(1), key)
    }
}

/// The entries under other keys, in the same order.
pub open spec fn without(s: Seq<(u32, Seq<u8>)>, key: u32) -> Seq<(u32, Seq<u8>)>
    decreases s.len(),
{
    if s.len() == 0 {
        s
    } else if s[0].0 == key {
        without(s.skip(1), key)
    } else {
        seq![s[0]] + without(s.skip(1), key)
    }
}

/// The entries after `key` was put in front with `page`, the last one evicted
/// when there was no room for a new key.
pub open spec fn with_front(
    s: Seq<(u32, Seq<u8>)>,
    cap: nat,
    key: u32,
    page: Seq<u8>,
) -> Seq<(u32, Seq<u8>)> {
    let kept = if cached(s, key) is None && s.len() == cap {
        s.drop_last()
    } else {
        without(s, key)
    };
    seq![(key, page)] + kept
}

/// Calls `lru::LruCache::new`: an empty cache of the given capacity.
#[verifier::external_body]
fn lru_new(cap: usize) -> (c: lru::LruCache<u32, Arc<Page>>)
    requires
        cap > 0,
    ensures
        lru_entries(c) == Seq::<(u32, Seq<u8>)>::empty(),
        lru_capacity(c) == cap,
{
    lru::LruCache::new(std::num::NonZeroUsize::new(cap).unwrap())
}

/// Calls `lru::LruCache::get`: hands out the value under the key and moves it
/// to the front.
#[verifier::external_body]
fn lru_get(c: &mut lru::LruCache<u32, Arc<Page>>, key: u32) -> (r: Option<Arc<Page>>)
    ensures
        lru_capacity(*final(c)) == lru_capacity(*old(c)),
        match r {
            Some(p) => cached(lru_entries(*old(c)), key) == Some(p@) && lru_entries(*final(c))
                == seq![(key, p@)] + without(lru_entries(*old(c)), key),
            None => cached(lru_entries(*old(c)), key) is None && lru_entries(*final(c))
                == lru_entries(*old(c)),
        },
{
    c.get(&key).cloned()
}

/// Calls `lru::LruCache::put`: the key goes to the front with its new value;
/// a new key evicts the last one when the cache is full.
#[verifier::external_body]
fn lru_put(c: &mut lru::LruCache<u32, Arc<Page>>, key: u32, page: Arc<Page>)
    ensures
        lru_capacity(*final(c)) == lru_capacity(*old(c)),
        lru_entries(*final(c)) == with_front(
            lru_entries(*old(c)),
            lru_capacity(*old(c)),
            key,
            page@,
        ),
{
    c.put(key, page);
}

/// Calls `lru::LruCache::pop`: removes the key.
#[verifier::external_body]
fn lru_pop(c: &mut lru::LruCache<u32, Arc<Page>>, key: u32)
    ensures
        lru_capacity(*final(c)) == lru_capacity(*old(c)),
        lru_entries(*final(c)) == without(lru_entries(*old(c)), key),
{
    c.pop(&key);
}

/// Calls `lru::LruCache::clear`: removes everything.
#[verifier::external_body]
fn lru_clear(c: &mut lru::LruCache<u32, Arc<Page>>)
    ensures
        lru_capacity(*final(c)) == lru_capacity(*old(c)),
        lru_entries(*final(c)) == Seq::<(u32, Seq<u8>)>::empty(),
{
    c.clear();
}

/// Calls `lru::LruCache::len`: counts the entries.
#[verifier::external_body]
fn lru_len(c: &lru::LruCache<u32, Arc<Page>>) -> (n: usize)
    ensures
        n == lru_entries(*c).len(),
{
    c.len()
}

/// Page cache keyed by page id.
pub struct PageCache {
    cache: lru::LruCache<u32, Arc<Page>>,
}

impl View for PageCache {
    type V = Seq<(u32, Seq<u8>)>;

    /// The cached pages, most recently used first.
    closed spec fn view(&self) -> Seq<(u32, Seq<u8>)> {
        lru_entries(self.cache)
    }
}

impl PageCache {
    /// How many pages the cache holds at most.
    pub closed spec fn capacity(&self) -> nat {
        lru_capacity(self.cache)
    }

    /// The cache is within its capacity.
    pub open spec fn wf(&self) -> bool {
        self@.len() <= self.capacity() && self.capacity() > 0
    }

    /// Creates a cache that holds up to `capacity` pages, and at least one.
    pub fn new(capacity: usize) -> (c: Self)
        ensures
            c@ == Seq::<(u32, Seq<u8>)>::empty(),
            c.capacity() == if capacity == 0 {
                1
            } else {
                capacity as nat
            },
            c.wf(),
    {
        let cap: usize = if capacity == 0 {
            1
        } else {
            capacity
        };
        PageCache { cache: lru_new(cap) }
    }

    /// Returns a cached page when present, making it the most recent.
    pub fn get(&mut self, page_id: u32) -> (r: Option<Arc<Page>>)
        requires
            old(self).wf(),
        ensures
            final(self).wf(),
            final(self).capacity() == old(self).capacity(),
            match r {
                Some(p) => cached(old(self)@, page_id) == Some(p@) && final(self)@ == seq![
                    (page_id, p@),
                ] + without(old(self)@, page_id),
                None => cached(old(self)@, page_id) is None && final(self)@ == old(self)@,
            },
    {
        let r = lru_get(&mut self.cache, page_id);
        proof {
            lemma_without_shorter(old(self)@, page_id);
        }
        r
    }

    /// Caches a page, evicting the least recently used when the cache is full.
    pub fn put(&mut self, page_id: u32, page: Arc<Page>)
        requires
            old(self).wf(),
        ensures
            final(self).wf(),
            final(self).capacity() == old(self).capacity(),
            final(self)@ == with_front(old(self)@, old(self).capacity(), page_id, page@),
    {
        lru_put(&mut self.cache, page_id, page);
        proof {
            lemma_without_shorter(old(self)@, page_id);
        }
    }

    /// Removes a cached entry, if any.
    pub fn pop(&mut self, page_id: u32)
        requires
            old(self).wf(),
        ensures
            final(self).wf(),
            final(self).capacity() == old(self).capacity(),
            final(self)@ == without(old(self)@, page_id),
            cached(final(self)@, page_id) is None,
    {
        lru_pop(&mut self.cache, page_id);
        proof {
            lemma_without_shorter(old(self)@, page_id);
        }
    }

    /// Clears every cached entry.
    pub fn clear(&mut self)
        requires
            old(self).wf(),
        ensures
            final(self).wf(),
            final(self).capacity() == old(self).capacity(),
            final(self)@ == Seq::<(u32, Seq<u8>)>::empty(),
    {
        lru_clear(&mut self.cache);
    }

    /// Number of cached pages.
    pub fn len(&self) -> (n: usize)
        ensures
            n == self@.len(),
    {
        lru_len(&self.cache)
    }

    /// True when the cache holds no entries.
    pub fn is_empty(&self) -> (r: bool)
        ensures
            r == (self@.len() == 0),
    {
        self.len() == 0
    }
}

/// Leaving a key out leaves nothing under it, never adds an entry, and takes
/// one away when the key was there.
pub proof fn lemma_without_shorter(s: Seq<(u32, Seq<u8>)>, key: u32)
    ensures
        without(s, key).len() <= s.len(),
        cached(s, key) is Some ==> without(s, key).len() < s.len(),
        cached(s, key) is None ==> without(s, key) == s,
        cached(without(s, key), key) is None,
    decreases s.len(),
{
    if s.len() > 0 {
        lemma_without_shorter(s.skip(1), key);
        if s[0].0 != key {
            assert((seq![s[0]] + without(s.skip(1), key)).skip(1) =~= without(s.skip(1), key));
            if cached(s, key) is None {
                assert(seq![s[0]] + s.skip(1) =~= s);
            }
        }
    }
}

/// A page that was just put is what the next lookup finds.
pub proof fn law_put_then_get(s: Seq<(u32, Seq<u8>)>, cap: nat, key: u32, page: Seq<u8>)
    ensures
        cached(with_front(s, cap, key, page), key) == Some(page),
{
}

/// Putting one page never changes what is cached under another key, except
/// that the least recently used entry may be evicted.
pub proof fn law_put_keeps_others(
    s: Seq<(u32, Seq<u8>)>,
    cap: nat,
    key: u32,
    page: Seq<u8>,
    other: u32,
)
    requires
        other != key,
        s.len() <= cap,
        cap > 0,
    ensures
        ({
            let after = cached(with_front(s, cap, key, page), other);
            after == cached(s, other) || (after is None && s.len() == cap)
        }),
{
    let w = with_front(s, cap, key, page);
    if cached(s, key) is None && s.len() == cap {
        assert(w.skip(1) =~= s.drop_last());
        lemma_cached_prefix(s, other);
    } else {
        assert(w.skip(1) =~= without(s, key));
        lemma_cached_without(s, key, other);
    }
}

proof fn lemma_cached_prefix(s: Seq<(u32, Seq<u8>)>, key: u32)
    requires
        s.len() > 0,
    ensures
        cached(s.drop_last(), key) == cached(s, key) || cached(s.drop_last(), key) is None,
    decreases s.len(),
{
    if s.len() > 1 && s[0].0 != key {
        lemma_cached_prefix(s.skip(1), key);
        assert(s.drop_last().skip(1) =~= s.skip(1).drop_last());
    }
}

proof fn lemma_cached_without(s: Seq<(u32, Seq<u8>)>, key: u32, other: u32)
    requires
        other != key,
    ensures
        cached(without(s, key), other) == cached(s, other),
    decreases s.len(),
{
    if s.len() > 0 {
        lemma_cached_without(s.skip(1), key, other);
        if s[0].0 != key {
            assert((seq![s[0]] + without(s.skip(1), key)).skip(1) =~= without(s.skip(1), key));
        }
    } else {
        lemma_without_shorter(s, key);
    }
}

} // verus!
