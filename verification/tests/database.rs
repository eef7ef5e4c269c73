use phoenixdb::btree::scan::Bound;
use phoenixdb::btree::{BTree, FillFactor};
use phoenixdb::database::batch::BatchOp;
use phoenixdb::database::copying::next_batch;
use phoenixdb::database::scans::{batch_len, BATCH_KEYS};
use phoenixdb::database::{Database, Options, MAX_KEY_LEN, MAX_VALUE_LEN};
use phoenixdb::error::Error;
use phoenixdb::page::{PageType, PAGE_SIZE};
use phoenixdb::pager::{Flush, Pager};
use phoenixdb::txn::Commit;

fn open_temp() -> Database {
    let pager = Pager::open(&[], &[], 256).unwrap();
    Database::open(pager, &Vec::new(), 0, Options::default())
        .unwrap()
        .database
}

/// The bytes of the file behind a pager that has nothing staged.
fn image(pager: &mut Pager) -> Vec<u8> {
    let mut out = vec![0u8; pager.file_pages() as usize * PAGE_SIZE];
    for id in 0..pager.meta().page_count {
        let page = pager.read_page(id).unwrap();
        let at = id as usize * PAGE_SIZE;
        out[at..at + PAGE_SIZE].copy_from_slice(page.as_bytes());
    }
    out
}

fn reopen(file: &[u8], log: &Vec<Commit>) -> (Database, usize) {
    let pager = Pager::open(file, &[], 256).unwrap();
    let opened = Database::open(pager, log, 0, Options::default()).unwrap();
    (opened.database, opened.replayed)
}

#[test]
fn commit_makes_writes_visible() {
    let mut db = open_temp();
    let t = db.begin(false).unwrap();
    db.insert(t, b"k", b"v").unwrap();
    db.commit(t).unwrap();
    assert_eq!(db.get_auto(b"k").unwrap(), b"v");
}

#[test]
fn rollback_hides_writes() {
    let mut db = open_temp();
    let t = db.begin(false).unwrap();
    db.insert(t, b"k", b"v").unwrap();
    db.rollback(t).unwrap();
    assert!(matches!(db.get_auto(b"k"), Err(Error::NotFound)));
}

#[test]
fn durability_across_reopen() {
    let file;
    {
        let mut db = open_temp();
        for i in 0..100u32 {
            db.put_auto(format!("k{i:04}").as_bytes(), format!("v{i}").as_bytes())
                .unwrap();
        }
        let done = db.checkpoint(0).unwrap();
        assert!(done.retained.is_empty());
        file = image(&mut db.pager);
    }
    let (mut db, replayed) = reopen(&file, &Vec::new());
    assert_eq!(replayed, 0);
    for i in 0..100u32 {
        assert_eq!(
            db.get_auto(format!("k{i:04}").as_bytes()).unwrap(),
            format!("v{i}").as_bytes()
        );
    }
}

#[test]
fn crash_recovery_replays_committed_only() {
    let mut log = Vec::new();
    let file;
    {
        let mut db = open_temp();
        file = image(&mut db.pager);
        let committed = db.begin(false).unwrap();
        db.insert(committed, b"durable", b"yes").unwrap();
        log.push(db.commit(committed).unwrap().unwrap());

        let dangling = db.begin(false).unwrap();
        db.insert(dangling, b"lost", b"no").unwrap();
        // No checkpoint, no merge: simulates a crash.
    }
    let (mut db, replayed) = reopen(&file, &log);
    assert_eq!(replayed, 1);
    assert_eq!(db.get_auto(b"durable").unwrap(), b"yes");
    assert!(matches!(db.get_auto(b"lost"), Err(Error::NotFound)));
}

#[test]
fn delete_missing_key_reports_not_found() {
    let mut db = open_temp();
    assert!(matches!(db.delete_auto(b"ghost"), Err(Error::NotFound)));
}

#[test]
fn checkpoint_truncates_wal_and_keeps_data() {
    let mut db = open_temp();
    for i in 0..200u32 {
        db.put_auto(format!("k{i:04}").as_bytes(), &vec![7u8; 512])
            .unwrap();
    }
    assert_eq!(db.stats(0).pending_keys, 200);
    let done = db.checkpoint(0).unwrap();
    assert!(done.retained.is_empty(), "nothing is left for the log");
    assert_eq!(db.stats(0).pending_keys, 0);
    assert_eq!(db.get_auto(b"k0000").unwrap(), vec![7u8; 512]);
    assert_eq!(db.len().unwrap(), 200);
    db.verify().unwrap();
}

#[test]
fn scan_is_ordered_and_reflects_deletes() {
    let mut db = open_temp();
    for i in 0..30u32 {
        db.put_auto(format!("k{i:03}").as_bytes(), b"v").unwrap();
    }
    db.delete_auto(b"k005").unwrap();
    let items = db.scan().unwrap();
    assert_eq!(items.len(), 29);
    for w in items.windows(2) {
        assert!(w[0].0 < w[1].0);
    }
    assert!(!items.iter().any(|(k, _)| k == b"k005"));
}

#[test]
fn scan_iter_streams_without_full_materialization() {
    let mut db = open_temp();
    for i in 0..40u32 {
        db.put_auto(format!("k{i:03}").as_bytes(), b"v").unwrap();
    }
    db.delete_auto(b"k005").unwrap();

    // Page by page, each bounded by a limit.
    let mut streamed: Vec<(Vec<u8>, Vec<u8>)> = Vec::new();
    let mut lo = Bound::Unbounded;
    loop {
        let page = db.range(&lo, &Bound::Unbounded, 7).unwrap();
        let Some((last, _)) = page.last() else { break };
        lo = Bound::Excluded(last.clone());
        streamed.extend(page);
    }

    assert_eq!(streamed.len(), 39);
    for w in streamed.windows(2) {
        assert!(w[0].0 < w[1].0, "streamed scan is not ordered");
    }
    assert!(!streamed.iter().any(|(k, _)| k == b"k005"));
}

#[test]
fn scan_iter_on_empty_database_yields_nothing() {
    let mut db = open_temp();
    assert!(db.scan().unwrap().is_empty());
    assert!(db.is_empty().unwrap());
}

#[test]
fn oversized_key_is_rejected_at_the_api() {
    let mut db = open_temp();
    let t = db.begin(false).unwrap();
    let key = vec![b'x'; MAX_KEY_LEN + 1];
    assert!(matches!(
        db.insert(t, &key, b"v"),
        Err(Error::InvalidArgument(_))
    ));
    assert!(matches!(
        db.insert(t, &[b'x'; 1025], b"v"),
        Err(Error::InvalidArgument(_))
    ));
    assert!(matches!(
        db.insert(t, b"k", &vec![0u8; MAX_VALUE_LEN + 1]),
        Err(Error::InvalidArgument(_))
    ));
    assert!(matches!(db.get(t, b""), Err(Error::InvalidArgument(_))));
}

#[test]
fn large_value_roundtrip() {
    let mut db = open_temp();
    let value: Vec<u8> = (0..300_000u32).map(|i| (i % 253) as u8).collect();
    db.put_auto(b"big", &value).unwrap();
    db.checkpoint(0).unwrap();
    assert_eq!(db.get_auto(b"big").unwrap(), value);
}

#[test]
fn snapshots_do_not_see_later_commits() {
    let mut db = open_temp();
    db.put_auto(b"k", b"old").unwrap();
    let reader = db.begin(true).unwrap();
    db.put_auto(b"k", b"new").unwrap();
    assert_eq!(db.get(reader, b"k").unwrap(), b"old");
    assert_eq!(db.get_auto(b"k").unwrap(), b"new");

    // A checkpoint keeps what the snapshot pins, in memory and in the log.
    let done = db.checkpoint(0).unwrap();
    assert_eq!(done.retained.len(), 1);
    assert_eq!(db.get(reader, b"k").unwrap(), b"old");
    assert_eq!(db.get_auto(b"k").unwrap(), b"new");
    db.rollback(reader).unwrap();
    assert!(db.checkpoint(0).unwrap().retained.is_empty());
    assert_eq!(db.get_auto(b"k").unwrap(), b"new");
}

#[test]
fn read_only_transactions_cannot_write() {
    let mut db = open_temp();
    let t = db.begin(true).unwrap();
    assert!(matches!(
        db.insert(t, b"k", b"v"),
        Err(Error::InvalidArgument(_))
    ));
    assert!(db.commit(t).unwrap().is_none());
    assert!(matches!(db.commit(t), Err(Error::TxnNotFound(_))));
}

#[test]
fn the_second_writer_of_a_key_conflicts() {
    let mut db = open_temp();
    let a = db.begin(false).unwrap();
    let b = db.begin(false).unwrap();
    db.insert(a, b"k", b"a").unwrap();
    db.insert(b, b"k", b"b").unwrap();
    db.commit(a).unwrap();
    assert!(matches!(db.commit(b), Err(Error::Conflict)));
    assert!(
        matches!(db.rollback(b), Err(Error::TxnNotFound(_))),
        "a conflicted transaction is gone"
    );
    assert_eq!(db.get_auto(b"k").unwrap(), b"a");
}

#[test]
fn transactions_see_their_own_writes_in_scans() {
    let mut db = open_temp();
    for k in [b"a", b"b", b"c"] {
        db.put_auto(k, b"1").unwrap();
    }
    db.checkpoint(0).unwrap();
    db.put_auto(b"d", b"1").unwrap();
    let t = db.begin(false).unwrap();
    db.insert(t, b"bb", b"2").unwrap();
    db.delete(t, b"c").unwrap();
    let keys: Vec<Vec<u8>> = db
        .scan_txn(t, &Bound::Unbounded, &Bound::Unbounded, 0)
        .unwrap()
        .into_iter()
        .map(|(k, _)| k)
        .collect();
    let expected: [&[u8]; 4] = [b"a", b"b", b"bb", b"d"];
    assert_eq!(keys, expected);
    let outside: Vec<Vec<u8>> = db.scan().unwrap().into_iter().map(|(k, _)| k).collect();
    let expected: [&[u8]; 4] = [b"a", b"b", b"c", b"d"];
    assert_eq!(outside, expected);
    assert_eq!(db.len().unwrap(), 4);
}

#[test]
fn bounded_scans_merge_tombstones_within_their_limit() {
    let mut db = open_temp();
    for i in 0..20u32 {
        db.put_auto(format!("k{i:02}").as_bytes(), b"v").unwrap();
    }
    db.checkpoint(0).unwrap();
    for i in 0..5u32 {
        db.delete_auto(format!("k{i:02}").as_bytes()).unwrap();
    }
    let got = db
        .range(
            &Bound::Included(b"k01".to_vec()),
            &Bound::Excluded(b"k09".to_vec()),
            3,
        )
        .unwrap();
    let keys: Vec<&[u8]> = got.iter().map(|(k, _)| k.as_slice()).collect();
    let expected: [&[u8]; 3] = [b"k05", b"k06", b"k07"];
    assert_eq!(keys, expected);
}

#[test]
fn prefix_scans_stop_at_the_successor() {
    let mut db = open_temp();
    for k in ["user:1", "user:2", "user;", "usr"] {
        db.put_auto(k.as_bytes(), b"v").unwrap();
    }
    assert_eq!(db.scan_prefix(b"user:", 0).unwrap().len(), 2);
    assert_eq!(db.scan_prefix(b"user:", 1).unwrap().len(), 1);
    assert_eq!(db.scan_prefix(b"", 0).unwrap().len(), 4);
}

#[test]
fn batches_are_all_or_nothing() {
    let mut db = open_temp();
    db.put_auto(b"gone", b"x").unwrap();
    let ops = vec![
        BatchOp::Put(b"a".to_vec(), b"1".to_vec()),
        BatchOp::Delete(b"gone".to_vec()),
        BatchOp::DeleteIfExists(b"never".to_vec()),
    ];
    db.write_batch(&ops).unwrap().unwrap();
    assert_eq!(db.get_auto(b"a").unwrap(), b"1");
    assert!(matches!(db.get_auto(b"gone"), Err(Error::NotFound)));

    let bad = vec![
        BatchOp::Put(b"b".to_vec(), b"2".to_vec()),
        BatchOp::Delete(b"never".to_vec()),
    ];
    assert!(matches!(db.write_batch(&bad), Err(Error::NotFound)));
    assert!(matches!(db.get_auto(b"b"), Err(Error::NotFound)));
    assert_eq!(db.stats(0).active_txns, 0);
    assert!(db.write_batch(&Vec::new()).unwrap().is_none());
}

#[test]
fn a_log_from_before_a_checkpoint_still_serves() {
    let mut db = open_temp();
    let mut log = Vec::new();
    for i in 0..10u32 {
        log.push(db.put_auto(&[b'a' + i as u8], b"v").unwrap().unwrap());
    }
    db.checkpoint(0).unwrap();
    let file = image(&mut db.pager);
    // The pages are on disk, the log was not rewritten yet.
    let (mut again, replayed) = reopen(&file, &log);
    assert_eq!(replayed, 0, "everything is in the tree already");
    assert_eq!(again.scan().unwrap(), db.scan().unwrap());
}

#[test]
fn checkpoints_are_due_by_size_and_back_off() {
    let mut db = open_temp();
    assert!(!db.checkpoint_due(4 * 1024 * 1024 - 1));
    assert!(db.checkpoint_due(4 * 1024 * 1024));
    db.checkpointed(3 * 1024 * 1024);
    assert!(!db.checkpoint_due(5 * 1024 * 1024));
    assert!(db.checkpoint_due(6 * 1024 * 1024));
    db.checkpointed(10);
    assert!(db.checkpoint_due(4 * 1024 * 1024));
}

#[test]
fn adopting_a_file_needs_closed_transactions() {
    let mut db = open_temp();
    db.put_auto(b"old", b"x").unwrap();
    let t = db.begin(true).unwrap();
    assert!(matches!(
        db.adopt(Pager::open(&[], &[], 64).unwrap()),
        Err(Error::InvalidArgument(_))
    ));
    db.rollback(t).unwrap();
    db.adopt(Pager::open(&[], &[], 64).unwrap()).unwrap();
    assert!(db.is_empty().unwrap());
}

#[test]
fn times_out_of_range_are_corruption() {
    let log = vec![Commit {
        ts: u64::MAX,
        writes: vec![(b"k".to_vec(), Some(b"v".to_vec()))],
    }];
    let pager = Pager::open(&[], &[], 64).unwrap();
    assert!(matches!(
        Database::open(pager, &log, 0, Options::default()),
        Err(Error::Corruption(_))
    ));
}

#[test]
fn copies_take_bounded_batches() {
    let pair = |n: usize| (vec![b'k'], vec![0u8; n]);
    assert_eq!(batch_len(&Vec::new()), 0);
    assert_eq!(batch_len(&vec![pair(1), pair(1)]), 2);
    let big = 8 * 1024 * 1024;
    assert_eq!(batch_len(&vec![pair(1), pair(big), pair(1)]), 2);
    let many: Vec<_> = (0..BATCH_KEYS + 5).map(|_| pair(0)).collect();
    assert_eq!(batch_len(&many), BATCH_KEYS);
}

#[test]
fn a_copy_in_batches_holds_the_contents() {
    let mut source = open_temp();
    for i in 0..6u8 {
        source.put_auto(&[b'k', i], &vec![i; 3 << 20]).unwrap();
    }
    let mut copy = open_temp();
    let mut cursor = Bound::Unbounded;
    let mut batches = 0;
    loop {
        let left = source.range(&cursor, &Bound::Unbounded, 0).unwrap();
        let Some((ops, next)) = next_batch(&left) else {
            break;
        };
        assert_eq!(ops.len(), 3);
        copy.write_batch(&ops).unwrap();
        cursor = next;
        batches += 1;
    }
    assert_eq!(batches, 2);
    assert_eq!(copy.scan().unwrap(), source.scan().unwrap());
}

/// A file with the pages of a flush written into it.
fn written(file: &[u8], flush: &Flush) -> Vec<u8> {
    let mut out = file.to_vec();
    out.resize(flush.file_pages as usize * PAGE_SIZE, 0);
    for page in &flush.pages {
        let at = page.page_id() as usize * PAGE_SIZE;
        out[at..at + PAGE_SIZE].copy_from_slice(page.as_bytes());
    }
    out
}

#[test]
fn the_pages_of_a_checkpoint_make_it_durable() {
    let mut db = open_temp();
    let mut file = image(&mut db.pager);
    for round in 0..3u8 {
        for i in 0..200u8 {
            db.put_auto(&[b'k', i], &[round; 100]).unwrap();
        }
        let done = db.checkpoint(0).unwrap();
        let flush = done.flush.expect("pages changed");
        assert_eq!(flush.file_pages, db.pager.file_pages());
        file = written(&file, &flush);
        let (mut back, replayed) = reopen(&file, &done.retained);
        assert_eq!(replayed, 0);
        assert_eq!(back.scan().unwrap(), db.scan().unwrap());
        assert_eq!(back.len().unwrap(), 200);
    }
}

#[test]
fn a_refused_merge_leaves_nothing_staged() {
    // A key that no page can hold reaches the versions only through the log.
    let log = vec![Commit {
        ts: 1,
        writes: vec![(vec![b'k'; 5000], Some(b"v".to_vec()))],
    }];
    let (mut db, _) = reopen(&image(&mut open_temp().pager), &log);
    let before = db.pager.meta();
    assert!(matches!(db.checkpoint(7), Err(Error::InvalidArgument(_))));
    assert_eq!(db.pager.dirty_count(), 0);
    assert_eq!(db.pager.meta(), before);
    assert_eq!(db.get_auto(&[b'k'; 5000]).unwrap(), b"v");
}

/// A tree of 64 levels: each level above the leaves has one node with one child.
fn towering() -> Pager {
    let mut pager = Pager::open(&[], &[], 64).unwrap();
    let tree = BTree::new(FillFactor::default());
    for i in 0..10u8 {
        tree.insert(&mut pager, &[b'k', i], &[i; 2000]).unwrap();
    }
    while tree.depth(&mut pager).unwrap() < 64 {
        let mut node = pager.allocate_page(PageType::Internal).unwrap();
        let mut meta = pager.meta();
        node.set_extra(meta.root);
        meta.root = node.page_id();
        pager.write_page(node);
        pager.set_meta(meta);
    }
    pager.flush().unwrap();
    pager
}

#[test]
fn a_tree_of_full_height_is_filled_anew() {
    let pager = towering();
    let mut db = Database::open(pager, &Vec::new(), 0, Options::default())
        .unwrap()
        .database;
    let mut expected = db.scan().unwrap();
    assert_eq!(expected.len(), 10);
    db.put_auto(b"new", b"value").unwrap();
    db.delete_auto(&[b'k', 3]).unwrap();
    db.checkpoint(1).unwrap();
    expected.retain(|(k, _)| k != &vec![b'k', 3]);
    expected.push((b"new".to_vec(), b"value".to_vec()));
    assert_eq!(db.scan().unwrap(), expected);
    let report = db.check().unwrap();
    assert_eq!(report.keys, 10);
    assert!(report.depth <= 17);
    assert_eq!(report.unreachable_pages, 0);
    assert_eq!(db.tree.depth(&mut db.pager).unwrap(), 0, "ten keys fit one leaf");
}

#[test]
fn a_batch_is_staged_up_to_the_step_that_is_refused() {
    let mut db = open_temp();
    let txn = db.begin(false).unwrap();
    db.stage_batch(
        txn,
        &vec![
            BatchOp::Put(b"a".to_vec(), b"1".to_vec()),
            BatchOp::DeleteIfExists(b"none".to_vec()),
            BatchOp::Put(b"b".to_vec(), b"2".to_vec()),
            BatchOp::Delete(b"a".to_vec()),
        ],
    )
    .unwrap();
    assert_eq!(db.get(txn, b"b").unwrap(), b"2");
    assert!(matches!(db.get(txn, b"a"), Err(Error::NotFound)));
    let refused = db.stage_batch(txn, &vec![BatchOp::Delete(b"a".to_vec())]);
    assert!(matches!(refused, Err(Error::NotFound)));
    db.commit(txn).unwrap();
    assert_eq!(db.scan().unwrap(), vec![(b"b".to_vec(), b"2".to_vec())]);
    let none = Vec::new();
    assert!(matches!(db.stage_batch(txn, &none), Err(Error::TxnNotFound(t)) if t == txn));
    let reader = db.begin(true).unwrap();
    assert!(matches!(db.stage_batch(reader, &none), Err(Error::InvalidArgument(_))));
}
