use phoenixdb::page::{Page, PageType};
use phoenixdb::page_cache::PageCache;
use std::sync::Arc;

#[test]
fn get_after_put_returns_arc() {
    let mut cache = PageCache::new(4);
    let page = Arc::new(Page::new(1, PageType::Leaf));
    cache.put(1, Arc::clone(&page));
    let got = cache.get(1).unwrap();
    assert!(Arc::ptr_eq(&page, &got));
}

#[test]
fn pop_removes_entry() {
    let mut cache = PageCache::new(4);
    cache.put(7, Arc::new(Page::new(7, PageType::Leaf)));
    assert!(cache.get(7).is_some());
    cache.pop(7);
    assert!(cache.get(7).is_none());
}

#[test]
fn capacity_is_respected() {
    let mut cache = PageCache::new(2);
    cache.put(1, Arc::new(Page::new(1, PageType::Leaf)));
    cache.put(2, Arc::new(Page::new(2, PageType::Leaf)));
    cache.put(3, Arc::new(Page::new(3, PageType::Leaf)));
    // LRU: 1 should be evicted.
    assert!(cache.get(1).is_none());
    assert!(cache.get(2).is_some());
    assert!(cache.get(3).is_some());
}
