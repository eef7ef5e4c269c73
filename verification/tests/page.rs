use phoenixdb::error::Error;
use phoenixdb::page::{MetaData, Page, PageType, OVERFLOW_PAYLOAD};

#[test]
fn header_roundtrip() {
    let mut p = Page::new(7, PageType::Leaf);
    p.set_parent(3);
    p.set_extra(9);
    p.set_lsn(42);
    p.finalize();
    assert_eq!(p.page_id(), 7);
    assert_eq!(p.parent(), 3);
    assert_eq!(p.extra(), 9);
    assert_eq!(p.lsn(), 42);
    assert!(p.is_leaf());
    assert_eq!(p.page_type().unwrap(), PageType::Leaf);
    p.verify().unwrap();
}

#[test]
fn crc_detects_single_bit_flip() {
    let mut p = Page::new(1, PageType::Leaf);
    let cell = Page::encode_leaf_cell(b"alpha", b"beta", 4, None);
    p.insert_cell_at(0, &cell).unwrap();
    p.finalize();
    let mut bytes = *p.as_bytes();
    bytes[3000] ^= 0x01;
    let err = Page::from_bytes(&bytes).unwrap_err();
    assert!(matches!(err, Error::Corruption(_)), "got {err:?}");
}

#[test]
fn crc_detects_header_tamper() {
    let mut p = Page::new(1, PageType::Leaf);
    p.finalize();
    let mut bytes = *p.as_bytes();
    bytes[4] = 0xFF;
    assert!(Page::from_bytes(&bytes).is_err());
}

#[test]
fn slotted_insert_keeps_order() {
    let mut p = Page::new(1, PageType::Leaf);
    for (i, k) in [b"bbb", b"aaa", b"ccc"].iter().enumerate() {
        let cell = Page::encode_leaf_cell(*k, b"v", 1, None);
        let pos = match p.search(*k).unwrap() {
            Ok(x) | Err(x) => x,
        };
        p.insert_cell_at(pos, &cell).unwrap();
        assert_eq!(p.num_keys() as usize, i + 1);
    }
    assert_eq!(p.cell_key(0).unwrap(), b"aaa");
    assert_eq!(p.cell_key(1).unwrap(), b"bbb");
    assert_eq!(p.cell_key(2).unwrap(), b"ccc");
    assert_eq!(p.search(b"bbb").unwrap(), Ok(1));
    assert_eq!(p.search(b"abc").unwrap(), Err(1));
}

#[test]
fn leaf_cell_roundtrip_inline_and_overflow() {
    let mut p = Page::new(1, PageType::Leaf);
    let c1 = Page::encode_leaf_cell(b"k1", b"hello", 5, None);
    let c2 = Page::encode_leaf_cell(b"k2", &[], 100_000, Some(77));
    p.insert_cell_at(0, &c1).unwrap();
    p.insert_cell_at(1, &c2).unwrap();

    let a = p.leaf_cell(0).unwrap();
    assert_eq!(a.key, b"k1");
    assert_eq!(a.value, b"hello");
    assert_eq!(a.overflow, None);

    let b = p.leaf_cell(1).unwrap();
    assert_eq!(b.key, b"k2");
    assert_eq!(b.total_len, 100_000);
    assert_eq!(b.overflow, Some(77));
}

#[test]
fn remove_then_compact_reclaims_space() {
    let mut p = Page::new(1, PageType::Leaf);
    let payload = vec![0xABu8; 512];
    for i in 0..6u8 {
        let key = [i];
        let cell = Page::encode_leaf_cell(&key, &payload, payload.len() as u32, None);
        p.insert_cell_at(i as usize, &cell).unwrap();
    }
    let before = p.free_space();
    for _ in 0..3 {
        p.remove_cell_at(0).unwrap();
    }
    p.compact().unwrap();
    assert!(p.free_space() > before, "compaction did not reclaim space");
    assert_eq!(p.num_keys(), 3);
    assert_eq!(p.leaf_cell(0).unwrap().key, vec![3]);
}

#[test]
fn full_page_reports_full_not_panic() {
    let mut p = Page::new(1, PageType::Leaf);
    let big = vec![0u8; 1000];
    let mut inserted = 0;
    loop {
        let key = (inserted as u32).to_be_bytes();
        let cell = Page::encode_leaf_cell(&key, &big, big.len() as u32, None);
        match p.insert_cell_at(inserted, &cell) {
            Ok(()) => inserted += 1,
            Err(Error::Full(_)) => break,
            Err(e) => panic!("unexpected {e:?}"),
        }
    }
    assert!(inserted >= 3, "expected at least 3 x 1KiB cells, got {inserted}");
}

#[test]
fn structure_validation_rejects_wild_slots() {
    let mut p = Page::new(1, PageType::Leaf);
    let cell = Page::encode_leaf_cell(b"k", b"v", 1, None);
    p.insert_cell_at(0, &cell).unwrap();
    p.set_num_keys(500); // slot directory would overlap the heap
    p.finalize();
    let bytes = *p.as_bytes();
    assert!(Page::from_bytes(&bytes).is_err());
}

#[test]
fn meta_roundtrip() {
    let meta = MetaData {
        version: 1,
        root: 5,
        free_list: 9,
        page_count: 12,
        tree_ts: 34,
        next_txn_id: 56,
        last_lsn: 78,
    };
    let mut p = Page::new(0, PageType::Meta);
    p.write_meta(&meta);
    p.finalize();
    let bytes = *p.as_bytes();
    let parsed = Page::from_bytes(&bytes).unwrap().read_meta().unwrap();
    assert_eq!(parsed, meta);
}

#[test]
fn overflow_roundtrip() {
    let mut p = Page::new(3, PageType::Overflow);
    let payload = vec![7u8; OVERFLOW_PAYLOAD];
    p.write_overflow(&payload, 4).unwrap();
    p.finalize();
    assert_eq!(p.read_overflow().unwrap(), &payload[..]);
    assert_eq!(p.extra(), 4);
}

#[test]
fn a_refused_index_changes_nothing() {
    let mut p = Page::new(1, PageType::Leaf);
    let cell = Page::encode_leaf_cell(b"alpha", b"beta", 4, None);
    p.insert_cell_at(0, &cell).unwrap();
    let before = *p.as_bytes();
    assert!(p.insert_cell_at(2, &cell).is_err());
    assert!(*p.as_bytes() == before);
}

#[test]
fn an_overflow_page_says_what_it_is() {
    let mut p = Page::new(6, PageType::Leaf);
    p.write_overflow(b"rest of a value", 9).unwrap();
    assert_eq!(p.page_type().unwrap(), PageType::Overflow);
    assert!(!p.is_leaf());
    assert_eq!((p.page_id(), p.num_keys(), p.extra()), (6, 0, 9));
    assert!(p.write_overflow(&vec![0; OVERFLOW_PAYLOAD + 1], 9).is_err());
}
