use phoenixdb::error::Error;
use phoenixdb::page::{MetaData, Page, PageType, META_VERSION, PAGE_SIZE};
use phoenixdb::pager::{Pager, JOURNAL_END, JOURNAL_MAGIC, JOURNAL_VERSION};

fn temp_pager() -> Pager {
    Pager::open(&[], &[], 64).unwrap()
}

/// The bytes of the file behind a pager that has nothing staged.
fn image(pager: &mut Pager) -> Vec<u8> {
    let mut out = vec![0u8; pager.file_pages() as usize * PAGE_SIZE];
    for id in 0..pager.meta().page_count {
        let page = pager.read_page(id).unwrap();
        let at = id as usize * PAGE_SIZE;
        out[at..at + PAGE_SIZE].copy_from_slice(page.as_bytes());
    }
    out
}

#[test]
fn fresh_db_has_meta_and_root() {
    let pager = temp_pager();
    let meta = pager.meta();
    assert_eq!(meta.version, META_VERSION);
    assert_eq!(meta.root, 1);
    assert_eq!(meta.page_count, 2);
}

#[test]
fn write_read_roundtrip_survives_reopen() {
    let file;
    {
        let mut pager = temp_pager();
        let mut page = pager.allocate_page(PageType::Leaf).unwrap();
        let cell = Page::encode_leaf_cell(b"key", b"value", 5, None);
        page.insert_cell_at(0, &cell).unwrap();
        let id = page.page_id();
        pager.write_page(page);
        pager.flush().unwrap();
        assert_eq!(id, 2);
        file = image(&mut pager);
    }
    let mut pager = Pager::open(&file, &[], 64).unwrap();
    let page = pager.read_page(2).unwrap();
    assert_eq!(page.leaf_cell(0).unwrap().value, b"value");
}

#[test]
fn corrupted_page_is_rejected_on_read() {
    let mut pager = temp_pager();
    let page = pager.allocate_page(PageType::Leaf).unwrap();
    pager.write_page(page);
    pager.flush().unwrap();
    let mut file = image(&mut pager);
    // Flip the bits of a byte inside page 2's body.
    file[2 * PAGE_SIZE + 100] ^= 0xFF;
    let mut pager = Pager::open(&file, &[], 64).unwrap();
    let err = pager.read_page(2).unwrap_err();
    assert!(matches!(err, Error::Corruption(_)), "got {err:?}");
}

#[test]
fn free_list_recycles_pages() {
    let mut pager = temp_pager();
    let a = pager.allocate_page(PageType::Leaf).unwrap().page_id();
    pager.flush().unwrap();
    pager.free_page(a).unwrap();
    pager.flush().unwrap();
    let b = pager.allocate_page(PageType::Leaf).unwrap().page_id();
    assert_eq!(a, b, "freed page should be recycled");
}

#[test]
fn free_list_pointing_at_a_live_page_is_corruption() {
    let mut pager = temp_pager();
    let mut meta = pager.meta();
    meta.free_list = meta.root; // a leaf, not a free page
    pager.set_meta(meta);
    assert!(matches!(
        pager.allocate_page(PageType::Leaf),
        Err(Error::Corruption(_))
    ));
}

#[test]
fn overflow_chain_roundtrip() {
    let mut pager = temp_pager();
    let value: Vec<u8> = (0..50_000u32).map(|i| (i % 251) as u8).collect();
    let head = pager.write_overflow_chain(&value).unwrap();
    pager.flush().unwrap();
    let read = pager.read_overflow_chain(head, value.len() as u32).unwrap();
    assert_eq!(read, value);
    pager.free_overflow_chain(head).unwrap();
    pager.flush().unwrap();
}

#[test]
fn absurd_overflow_length_is_rejected_before_allocating() {
    let mut pager = temp_pager();
    let head = pager.write_overflow_chain(b"tiny").unwrap();
    assert!(matches!(
        pager.read_overflow_chain(head, u32::MAX),
        Err(Error::Corruption(_))
    ));
}

#[test]
fn growth_beyond_initial_map_works() {
    let mut pager = temp_pager();
    let mut ids = Vec::new();
    for _ in 0..200 {
        let p = pager.allocate_page(PageType::Leaf).unwrap();
        ids.push(p.page_id());
        pager.write_page(p);
    }
    pager.flush().unwrap();
    for id in ids {
        assert_eq!(pager.read_page(id).unwrap().page_id(), id);
    }
}

#[test]
fn flush_with_nothing_staged_is_a_no_op() {
    let mut pager = temp_pager();
    pager.flush().unwrap();
    assert!(
        pager.prepare_flush().unwrap().is_none(),
        "an idle flush must not even write a journal"
    );
}

#[test]
fn a_flush_journal_replays_to_the_flushed_pages() {
    let mut pager = temp_pager();
    let before = image(&mut pager);
    let page = pager.allocate_page(PageType::Leaf).unwrap();
    pager.write_page(page);
    let flush = pager.prepare_flush().unwrap().unwrap();
    assert!(!flush.pages.is_empty());
    pager.flush().unwrap();
    assert!(pager.prepare_flush().unwrap().is_none());
    let after = image(&mut pager);

    let mut crashed = Pager::open(&before, &flush.journal, 64).unwrap();
    assert_eq!(crashed.meta(), pager.meta());
    assert_eq!(image(&mut crashed), after);
}

/// Builds the journal a flush of `pages` would write, without applying it.
fn journal_bytes(pages: &[Page], target_pages: u32) -> Vec<u8> {
    let mut out = Vec::new();
    out.extend_from_slice(&JOURNAL_MAGIC.to_le_bytes());
    out.extend_from_slice(&JOURNAL_VERSION.to_le_bytes());
    out.extend_from_slice(&(pages.len() as u32).to_le_bytes());
    out.extend_from_slice(&target_pages.to_le_bytes());
    out.extend_from_slice(&[0u8; 12]);
    for p in pages {
        out.extend_from_slice(&p.page_id().to_le_bytes());
        out.extend_from_slice(&[0u8; 4]);
        out.extend_from_slice(p.as_bytes());
    }
    let crc = crc32fast::hash(&out);
    out.extend_from_slice(&crc.to_le_bytes());
    out.extend_from_slice(&JOURNAL_END.to_le_bytes());
    out
}

#[test]
fn complete_journal_is_replayed_on_open() {
    let file = image(&mut temp_pager());

    // A crash after the journal was synced but before page 1 was rewritten.
    let mut leaf = Page::new(1, PageType::Leaf);
    leaf.insert_cell_at(0, &Page::encode_leaf_cell(b"k", b"v", 1, None))
        .unwrap();
    leaf.finalize();
    let mut meta_page = Page::new(0, PageType::Meta);
    meta_page.write_meta(&MetaData::default());
    meta_page.finalize();
    let journal = journal_bytes(&[meta_page, leaf], 32);

    let mut pager = Pager::open(&file, &journal, 64).unwrap();
    assert_eq!(pager.read_page(1).unwrap().leaf_cell(0).unwrap().key, b"k");
}

#[test]
fn torn_journal_is_discarded_and_the_file_is_untouched() {
    let file = image(&mut temp_pager());

    let mut leaf = Page::new(1, PageType::Leaf);
    leaf.insert_cell_at(0, &Page::encode_leaf_cell(b"k", b"v", 1, None))
        .unwrap();
    leaf.finalize();
    let mut bytes = journal_bytes(&[leaf], 32);
    bytes.truncate(bytes.len() - 3); // crash while writing the journal

    let mut pager = Pager::open(&file, &bytes, 64).unwrap();
    assert_eq!(image(&mut pager), file);
}

#[test]
fn replace_contents_swaps_the_whole_file() {
    let mut src = temp_pager();
    for _ in 0..40 {
        let p = src.allocate_page(PageType::Leaf).unwrap();
        src.write_page(p);
    }
    src.flush().unwrap();
    let file = image(&mut src);
    let mut dst = temp_pager();
    dst.replace_contents(&file).unwrap();
    assert_eq!(dst.meta().page_count, 42);
    assert_eq!(dst.read_page(41).unwrap().page_id(), 41);
}

#[test]
fn replace_contents_rejects_a_foreign_file() {
    let junk = vec![7u8; PAGE_SIZE * 2];
    let mut dst = temp_pager();
    assert!(dst.replace_contents(&junk).is_err());
    assert_eq!(dst.meta().page_count, 2, "a failed restore changes nothing");
}

#[test]
fn a_backup_starts_with_the_first_page() {
    let mut src = temp_pager();
    src.flush().unwrap();
    let mut file = image(&mut src);
    let mut first = Page::from_bytes(&file[..PAGE_SIZE]).unwrap();
    first.set_page_id(1);
    first.finalize();
    file[..PAGE_SIZE].copy_from_slice(first.as_bytes());
    let mut dst = temp_pager();
    let before = image(&mut dst);
    assert!(matches!(dst.replace_contents(&file), Err(Error::Corruption(_))));
    assert_eq!(image(&mut dst), before);
}
