use phoenixdb::error::Error;
use phoenixdb::lsm::sstable::{
    SSTable, SSTableWriter, TableMeta, FOOTER_LEN, RESTART_INTERVAL,
};
use phoenixdb::lsm::version::{InternalKey, Lookup, ValueSlot};

/// One test row: `(key, value_or_tombstone, seqno)`.
type Row<'a> = (&'a [u8], Option<&'a [u8]>, u64);

/// Builds a table from `(key, value_or_tombstone, seqno)` triples.
fn build(rows: &[Row<'_>]) -> (Vec<u8>, TableMeta) {
    let mut w = SSTableWriter::create(rows.len());
    for (k, v, seq) in rows {
        let ik = InternalKey::new(k.to_vec(), *seq);
        let slot: ValueSlot = v.map(<[u8]>::to_vec);
        w.append(&ik, &slot).unwrap();
    }
    w.finish(1, 0)
}

#[test]
fn write_then_read_roundtrip() {
    let rows: Vec<(Vec<u8>, Option<Vec<u8>>, u64)> = (0..200u32)
        .map(|i| {
            (
                format!("key{i:05}").into_bytes(),
                Some(format!("value{i}").into_bytes()),
                i as u64 + 1,
            )
        })
        .collect();
    let mut w = SSTableWriter::create(rows.len());
    for (k, v, s) in &rows {
        w.append(&InternalKey::new(k.clone(), *s), v).unwrap();
    }
    let (file, meta) = w.finish(7, 2);
    assert_eq!(meta.entry_count, 200);
    assert_eq!(meta.id, 7);
    assert_eq!(meta.level, 2);

    let t = SSTable::open(&file, 7, 2).unwrap();
    assert_eq!(t.entry_count(), 200);
    assert_eq!(t.meta().min_key, b"key00000");
    assert_eq!(t.meta().max_key, b"key00199");
    for (k, v, _) in &rows {
        assert_eq!(
            t.get(k, u64::MAX).unwrap(),
            Lookup::Found(v.clone().unwrap()),
            "lost key {k:?}"
        );
    }
}

#[test]
fn bloom_filter_short_circuits_absent_keys() {
    let (file, _) = build(&[(b"alpha", Some(b"1"), 1), (b"beta", Some(b"2"), 2)],
    );
    let t = SSTable::open(&file, 1, 0).unwrap();
    // Inside the key range but absent -> the bloom filter must answer.
    assert_eq!(t.get(b"alphb", u64::MAX).unwrap(), Lookup::Absent);
    // Outside the key range -> the range check answers.
    assert_eq!(t.get(b"zzz", u64::MAX).unwrap(), Lookup::Absent);
    assert!(t.bloom().contains(b"alpha"));
}

#[test]
fn snapshot_visibility_and_tombstones() {
    // Versions must be appended newest-first within a key.
    let (file, _) = build(&[
            (b"k", None, 30),
            (b"k", Some(b"v20"), 20),
            (b"k", Some(b"v10"), 10),
        ],
    );
    let t = SSTable::open(&file, 1, 0).unwrap();
    assert_eq!(t.get(b"k", 30).unwrap(), Lookup::Deleted);
    assert_eq!(t.get(b"k", 25).unwrap(), Lookup::Found(b"v20".to_vec()));
    assert_eq!(t.get(b"k", 15).unwrap(), Lookup::Found(b"v10".to_vec()));
    assert_eq!(t.get(b"k", 5).unwrap(), Lookup::Absent);
}

#[test]
fn sparse_index_seeks_correctly_across_restarts() {
    // Far more keys than RESTART_INTERVAL, so the index has many entries.
    let n = RESTART_INTERVAL * 20;
    let mut w = SSTableWriter::create(n);
    for i in 0..n {
        let k = format!("k{i:06}").into_bytes();
        w.append(&InternalKey::new(k, i as u64 + 1), &Some(vec![b'x'; 8]))
            .unwrap();
    }
    let (file, _) = w.finish(1, 0);

    let t = SSTable::open(&file, 1, 0).unwrap();
    // Probe every key, including the first and last of each restart block.
    for i in 0..n {
        let k = format!("k{i:06}").into_bytes();
        assert!(
            matches!(t.get(&k, u64::MAX).unwrap(), Lookup::Found(_)),
            "index seek missed {i}"
        );
    }
}

#[test]
fn out_of_order_append_is_rejected() {
    let mut w = SSTableWriter::create(4);
    w.append(&InternalKey::new(b"b".to_vec(), 1), &Some(b"1".to_vec()))
        .unwrap();
    let err = w.append(&InternalKey::new(b"a".to_vec(), 2), &Some(b"2".to_vec()));
    assert!(matches!(err, Err(Error::InvalidArgument(_))));
}

#[test]
fn corrupted_data_byte_is_caught_by_crc() {
    let (file, _) = build(&[(b"key", Some(b"value"), 1), (b"key2", Some(b"value2"), 2)],
    );
    SSTable::open(&file, 1, 0).unwrap(); // sane before tampering

    let mut bytes = file;
    bytes[20] ^= 0xFF; // flip a bit in the data section

    let err = SSTable::open(&bytes, 1, 0);
    assert!(
        matches!(err, Err(Error::Corruption(_))),
        "CRC must reject a tampered data section, got {err:?}"
    );
}

#[test]
fn truncated_file_is_rejected() {
    let (bytes, _) = build(&[(b"key", Some(b"value"), 1)]);

    // Chop the footer in half.
    assert!(matches!(
        SSTable::open(&bytes[..bytes.len() - FOOTER_LEN / 2], 1, 0),
        Err(Error::Corruption(_))
    ));

    // A file shorter than a footer entirely.
    assert!(matches!(
        SSTable::open(&[0u8; 8], 1, 0),
        Err(Error::Corruption(_))
    ));
}

#[test]
fn hostile_footer_offsets_are_rejected() {
    let (file, _) = build(&[(b"key", Some(b"value"), 1)]);
    let mut bytes = file;
    let footer_at = bytes.len() - FOOTER_LEN;

    // Point the bloom section far beyond EOF.
    bytes[footer_at..footer_at + 8].copy_from_slice(&u64::MAX.to_le_bytes());
    let err = SSTable::open(&bytes, 1, 0);
    assert!(
        matches!(err, Err(Error::Corruption(_))),
        "a wild bloom offset must not slice out of bounds, got {err:?}"
    );
}

#[test]
fn bad_magic_is_rejected() {
    let (file, _) = build(&[(b"key", Some(b"v"), 1)]);
    let mut bytes = file;
    let len = bytes.len();
    bytes[len - 8..].copy_from_slice(&0u64.to_le_bytes());
    assert!(matches!(
        SSTable::open(&bytes, 1, 0),
        Err(Error::Corruption(_))
    ));
}

#[test]
fn empty_table_is_valid_and_answers_absent() {
    let w = SSTableWriter::create(0);
    let (file, meta) = w.finish(1, 0);
    assert_eq!(meta.entry_count, 0);

    let t = SSTable::open(&file, 1, 0).unwrap();
    assert_eq!(t.get(b"anything", u64::MAX).unwrap(), Lookup::Absent);
    assert_eq!(t.entries().unwrap().len(), 0);
}

#[test]
fn iteration_yields_every_entry_in_order() {
    let (file, _) = build(&[
            (b"a", Some(b"1"), 3),
            (b"b", None, 2),
            (b"c", Some(b"3"), 1),
        ],
    );
    let t = SSTable::open(&file, 1, 0).unwrap();
    let entries = t.entries().unwrap();
    assert_eq!(entries.len(), 3);
    assert_eq!(entries[0].0.user_key, b"a");
    assert_eq!(entries[1].1, None, "tombstone must survive a roundtrip");
    assert_eq!(entries[2].1, Some(b"3".to_vec()));
}

#[test]
fn table_meta_overlap_logic() {
    let m = TableMeta {
        id: 1,
        level: 0,
        min_key: b"d".to_vec(),
        max_key: b"m".to_vec(),
        min_seqno: 1,
        max_seqno: 9,
        entry_count: 5,
        file_bytes: 100,
    };
    assert!(m.overlaps(b"a", b"e"));
    assert!(m.overlaps(b"e", b"f"));
    assert!(m.overlaps(b"l", b"z"));
    assert!(m.overlaps(b"a", b"z"));
    assert!(!m.overlaps(b"a", b"c"));
    assert!(!m.overlaps(b"n", b"z"));
    assert!(m.may_contain(b"d"));
    assert!(m.may_contain(b"m"));
    assert!(!m.may_contain(b"c"));
}

#[test]
fn large_values_roundtrip() {
    let big = vec![0xABu8; 300_000];
    let mut w = SSTableWriter::create(1);
    w.append(&InternalKey::new(b"big".to_vec(), 1), &Some(big.clone()))
        .unwrap();
    let (file, _) = w.finish(1, 0);

    let t = SSTable::open(&file, 1, 0).unwrap();
    assert_eq!(t.get(b"big", 1).unwrap(), Lookup::Found(big));
}

#[test]
fn versions_of_a_key_go_from_new_to_old() {
    let mut w = SSTableWriter::create(3);
    let one = Some(b"1".to_vec());
    w.append(&InternalKey::new(b"a".to_vec(), 5), &one).unwrap();
    w.append(&InternalKey::new(b"a".to_vec(), 3), &one).unwrap();
    assert!(
        w.append(&InternalKey::new(b"a".to_vec(), 4), &one).is_err(),
        "an older version stands before it"
    );
    w.append(&InternalKey::new(b"b".to_vec(), 9), &one).unwrap();
    let (_, meta) = w.finish(1, 0);
    assert_eq!((meta.entry_count, meta.min_seqno, meta.max_seqno), (3, 3, 9));
}
