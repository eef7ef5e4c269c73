use phoenixdb::lsm::memtable::{MemTable, ENTRY_OVERHEAD};
use phoenixdb::lsm::version::Lookup;

#[test]
fn newest_version_wins_within_a_snapshot() {
    let mut m = MemTable::new();
    m.insert(b"k".to_vec(), b"v1".to_vec(), 1);
    m.insert(b"k".to_vec(), b"v2".to_vec(), 5);
    m.insert(b"k".to_vec(), b"v3".to_vec(), 9);

    assert_eq!(m.get(b"k", 9), Lookup::Found(b"v3".to_vec()));
    assert_eq!(m.get(b"k", 5), Lookup::Found(b"v2".to_vec()));
    assert_eq!(m.get(b"k", 4), Lookup::Found(b"v1".to_vec()));
    assert_eq!(
        m.get(b"k", 0),
        Lookup::Absent,
        "snapshot predates every write"
    );
}

#[test]
fn tombstone_is_distinct_from_absent() {
    let mut m = MemTable::new();
    m.insert(b"k".to_vec(), b"v".to_vec(), 1);
    m.delete(b"k".to_vec(), 2);

    assert_eq!(m.get(b"k", 2), Lookup::Deleted);
    assert_eq!(m.get(b"k", 1), Lookup::Found(b"v".to_vec()));
    assert_eq!(m.get(b"missing", 99), Lookup::Absent);
}

#[test]
fn ordering_is_key_asc_seqno_desc() {
    let mut m = MemTable::new();
    m.insert(b"b".to_vec(), b"1".to_vec(), 1);
    m.insert(b"a".to_vec(), b"2".to_vec(), 2);
    m.insert(b"a".to_vec(), b"3".to_vec(), 7);

    let order: Vec<(Vec<u8>, u64)> = m
        .drain()
        .into_iter()
        .map(|(ik, _)| (ik.user_key, ik.seqno))
        .collect();
    assert_eq!(
        order,
        vec![(b"a".to_vec(), 7), (b"a".to_vec(), 2), (b"b".to_vec(), 1),]
    );
}

#[test]
fn prefix_keys_do_not_bleed_into_each_other() {
    // "k" must not match "kk" — the range upper bound has to be exact.
    let mut m = MemTable::new();
    m.insert(b"kk".to_vec(), b"long".to_vec(), 1);
    assert_eq!(m.get(b"k", 99), Lookup::Absent);

    m.insert(b"k".to_vec(), b"short".to_vec(), 2);
    assert_eq!(m.get(b"k", 99), Lookup::Found(b"short".to_vec()));
    assert_eq!(m.get(b"kk", 99), Lookup::Found(b"long".to_vec()));
}

#[test]
fn size_accounting_tracks_payload() {
    let mut m = MemTable::new();
    assert_eq!(m.size_bytes(), 0);
    m.insert(b"key".to_vec(), vec![0u8; 100], 1);
    assert_eq!(m.size_bytes(), 3 + 100 + ENTRY_OVERHEAD);

    // Overwriting the same (key, seqno) must not double-count.
    m.insert(b"key".to_vec(), vec![0u8; 50], 1);
    assert_eq!(m.size_bytes(), 3 + 50 + ENTRY_OVERHEAD);
}

#[test]
fn snapshot_view_collapses_versions() {
    let mut m = MemTable::new();
    m.insert(b"a".to_vec(), b"old".to_vec(), 1);
    m.insert(b"a".to_vec(), b"new".to_vec(), 10);
    m.insert(b"b".to_vec(), b"only".to_vec(), 2);
    m.delete(b"c".to_vec(), 3);

    let view = m.snapshot_view(10);
    assert_eq!(
        view,
        vec![
            (b"a".to_vec(), Some(b"new".to_vec())),
            (b"b".to_vec(), Some(b"only".to_vec())),
            (b"c".to_vec(), None),
        ]
    );

    // An older snapshot sees the older value and no "c" at all.
    let view = m.snapshot_view(2);
    assert_eq!(
        view,
        vec![
            (b"a".to_vec(), Some(b"old".to_vec())),
            (b"b".to_vec(), Some(b"only".to_vec())),
        ]
    );
}

#[test]
fn key_range_and_distinct_count() {
    let mut m = MemTable::new();
    assert!(m.key_range().is_none());
    m.insert(b"m".to_vec(), b"1".to_vec(), 1);
    m.insert(b"a".to_vec(), b"2".to_vec(), 2);
    m.insert(b"z".to_vec(), b"3".to_vec(), 3);
    m.insert(b"a".to_vec(), b"4".to_vec(), 4);

    assert_eq!(m.key_range(), Some((b"a".to_vec(), b"z".to_vec())));
    assert_eq!(m.distinct_key_count(), 3);
    assert_eq!(m.len(), 4, "versions are counted separately");
}

#[test]
fn drain_empties_and_returns_sorted() {
    let mut m = MemTable::new();
    m.insert(b"b".to_vec(), b"2".to_vec(), 2);
    m.insert(b"a".to_vec(), b"1".to_vec(), 1);
    let drained = m.drain();

    assert_eq!(drained.len(), 2);
    assert_eq!(drained[0].0.user_key, b"a");
    assert_eq!(drained[1].0.user_key, b"b");
    assert!(m.is_empty());
    assert_eq!(m.size_bytes(), 0);
    assert!(m.max_seqno().is_none());
}

#[test]
fn seqno_bounds_track_inserts() {
    let mut m = MemTable::new();
    assert!(m.min_seqno().is_none());
    m.insert(b"a".to_vec(), b"v".to_vec(), 42);
    m.insert(b"b".to_vec(), b"v".to_vec(), 7);
    assert_eq!(m.min_seqno(), Some(7));
    assert_eq!(m.max_seqno(), Some(42));
}

#[test]
fn empty_key_and_empty_value_are_handled() {
    let mut m = MemTable::new();
    m.insert(Vec::new(), Vec::new(), 1);
    assert_eq!(m.get(b"", 1), Lookup::Found(Vec::new()));
}

#[test]
fn the_default_table_is_empty() {
    let t = MemTable::default();
    assert_eq!(t.get(b"k", u64::MAX), Lookup::Absent);
    assert!(t.is_empty());
}

#[test]
fn a_version_shows_in_its_window() {
    let mut t = MemTable::new();
    t.insert(b"k".to_vec(), b"old".to_vec(), 2);
    t.insert(b"k".to_vec(), b"new".to_vec(), 8);
    t.insert(b"other".to_vec(), b"o".to_vec(), 1);
    t.insert(b"k".to_vec(), b"mid".to_vec(), 5);
    assert_eq!(t.len(), 4);
    assert_eq!(t.get(b"k", 1), Lookup::Absent);
    assert_eq!(t.get(b"k", 4), Lookup::Found(b"old".to_vec()));
    assert_eq!(t.get(b"k", 5), Lookup::Found(b"mid".to_vec()));
    assert_eq!(t.get(b"k", 7), Lookup::Found(b"mid".to_vec()));
    assert_eq!(t.get(b"k", 8), Lookup::Found(b"new".to_vec()));
    assert_eq!(t.get(b"other", 9), Lookup::Found(b"o".to_vec()));
    t.insert(b"k".to_vec(), b"again".to_vec(), 5);
    assert_eq!(t.len(), 4, "the same version is replaced");
}
