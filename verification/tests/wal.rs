use phoenixdb::database::{Database, Options, MAX_KEY_LEN};
use phoenixdb::error::Error;
use phoenixdb::pager::Pager;
use phoenixdb::txn::Commit;
use phoenixdb::wal::{log_commit, recover};

fn commit(ts: u64, writes: &[(&[u8], Option<&[u8]>)]) -> Commit {
    Commit {
        ts,
        writes: writes
            .iter()
            .map(|(k, v)| (k.to_vec(), v.map(|v| v.to_vec())))
            .collect(),
    }
}

#[test]
fn frames_have_a_fixed_layout() {
    let frame = log_commit(7, &commit(9, &[(b"k", Some(b"v"))])).unwrap();
    assert_eq!(frame.len(), 8 + 16 + 1 + 4 + 1 + 4 + 1);
    assert_eq!(&frame[0..4], &27u32.to_le_bytes());
    assert_eq!(&frame[8..16], &7u64.to_le_bytes());
    assert_eq!(&frame[16..24], &9u64.to_le_bytes());
    assert_eq!(&frame[24..], &[1, 1, 0, 0, 0, b'k', 1, 0, 0, 0, b'v']);
}

#[test]
fn logged_transactions_are_recovered_in_order() {
    let mut log = Vec::new();
    for i in 0..5u64 {
        let key = format!("k{i}").into_bytes();
        let c = commit(10 + i, &[(&key, Some(b"value")), (b"gone", None)]);
        log.extend(log_commit(100 - i, &c).unwrap());
    }
    let r = recover(&log);
    assert_eq!(r.valid_bytes, log.len());
    assert_eq!(r.max_txn_id, 100);
    assert_eq!(r.committed.len(), 5);
    for (i, c) in r.committed.iter().enumerate() {
        assert_eq!(c.ts, 10 + i as u64);
        assert_eq!(c.writes[0].0, format!("k{i}").into_bytes());
        assert_eq!(c.writes[0].1.as_deref(), Some(&b"value"[..]));
        assert_eq!(c.writes[1], (b"gone".to_vec(), None));
    }
}

#[test]
fn torn_frames_are_cut_off() {
    let whole = log_commit(1, &commit(1, &[(b"a", Some(b"1"))])).unwrap();
    let next = log_commit(2, &commit(2, &[(b"b", Some(b"2"))])).unwrap();
    for kept in 0..next.len() {
        let mut log = whole.clone();
        log.extend(&next[..kept]);
        let r = recover(&log);
        assert_eq!(r.committed.len(), 1, "kept {kept} bytes");
        assert_eq!(r.valid_bytes, whole.len());
        assert_eq!(r.max_txn_id, 1);
    }
}

#[test]
fn a_flipped_bit_ends_the_log() {
    let first = log_commit(1, &commit(1, &[(b"a", Some(b"1"))])).unwrap();
    let mut log = first.clone();
    log.extend(log_commit(2, &commit(2, &[(b"b", Some(b"2"))])).unwrap());
    let at = first.len() + 12;
    log[at] ^= 1;
    let r = recover(&log);
    assert_eq!(r.committed.len(), 1);
    assert_eq!(r.valid_bytes, first.len());
}

#[test]
fn an_empty_log_recovers_nothing() {
    let r = recover(&[]);
    assert!(r.committed.is_empty());
    assert_eq!((r.max_txn_id, r.valid_bytes), (0, 0));
}

#[test]
fn writes_beyond_their_limits_are_not_logged() {
    let long = vec![0u8; MAX_KEY_LEN + 1];
    assert!(matches!(
        log_commit(1, &commit(1, &[(&long, None)])),
        Err(Error::InvalidArgument(_))
    ));
    assert!(matches!(
        log_commit(1, &commit(1, &[(b"", Some(b"v"))])),
        Err(Error::InvalidArgument(_))
    ));
}

#[test]
fn a_database_comes_back_from_its_log() {
    let open = |log: &[u8]| {
        let r = recover(log);
        let pager = Pager::open(&[], &[], 16).unwrap();
        Database::open(pager, &r.committed, r.max_txn_id, Options::default()).unwrap()
    };
    let mut log = Vec::new();
    {
        let mut db = open(&log).database;
        let t = db.begin(false).unwrap();
        db.insert(t, b"kept", b"yes").unwrap();
        let record = db.prepare_commit(t).unwrap().unwrap();
        log.extend(log_commit(t, &record).unwrap());
        db.commit(t).unwrap();
        let lost = db.begin(false).unwrap();
        db.insert(lost, b"lost", b"no").unwrap();
    }
    let opened = open(&log);
    assert_eq!(opened.replayed, 1);
    let mut db = opened.database;
    assert_eq!(db.get_auto(b"kept").unwrap(), b"yes");
    assert!(matches!(db.get_auto(b"lost"), Err(Error::NotFound)));
}
