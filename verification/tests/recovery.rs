use phoenixdb::btree::BTree;
use phoenixdb::btree::FillFactor;
use phoenixdb::error::Error;
use phoenixdb::lsm::compaction::LevelConfig;
use phoenixdb::lsm::engine::{LsmEngine, LsmOptions};
use phoenixdb::lsm::files::{orphaned_files, table_id, table_name};
use phoenixdb::pager::Pager;

fn options() -> LsmOptions {
    LsmOptions {
        memtable_bytes: 8 * 1024 * 1024,
        levels: LevelConfig {
            l0_compaction_trigger: 2,
            base_level_bytes: 2048,
            size_multiplier: 4,
            max_levels: 4,
        },
    }
}

fn filled(rounds: u64) -> (LsmEngine, Vec<(u64, Vec<u8>)>) {
    let mut e = LsmEngine::open(Vec::new(), &Vec::new(), options()).unwrap();
    let mut files = Vec::new();
    for r in 0..rounds {
        for i in 0..20u64 {
            let key = format!("k{i:02}").into_bytes();
            let value = format!("{r}-{i}").into_bytes();
            e.put(key, value, r * 20 + i + 1);
        }
        e.rotate();
        let table = e.flush_one().unwrap().unwrap();
        files.push((table.meta.id, table.file));
    }
    (e, files)
}

#[test]
fn an_engine_comes_back_from_its_files() {
    let (e, files) = filled(3);
    let log = e.log.log.clone();
    let back = LsmEngine::open(log, &files, options()).unwrap();
    assert_eq!(back.stats().table_count, 3);
    assert_eq!(back.checkpoint_seqno(), 60);
    for i in 0..20u64 {
        let key = format!("k{i:02}");
        for snapshot in [0, i, 20 + i, 40 + i, 1000] {
            assert_eq!(
                back.get(key.as_bytes(), snapshot).unwrap(),
                e.get(key.as_bytes(), snapshot).unwrap(),
                "{key} at {snapshot}"
            );
        }
    }
}

#[test]
fn a_compacted_engine_comes_back_from_its_files() {
    let (mut e, mut files) = filled(4);
    for c in e.compact_until_stable(0, 10).unwrap() {
        if let Some(t) = c.output {
            files.push((t.meta.id, t.file));
        }
        files.retain(|f| !c.retired.contains(&f.0));
    }
    let back = LsmEngine::open(e.log.log.clone(), &files, options()).unwrap();
    assert_eq!(back.stats().table_count, e.stats().table_count);
    assert_eq!(back.stats().table_count, files.len());
    for level in 0..4 {
        assert_eq!(back.manifest().level(level), e.manifest().level(level));
    }
    for i in 0..20u64 {
        let key = format!("k{i:02}");
        for snapshot in [i, 20 + i, 40 + i, 60 + i, 1000] {
            assert_eq!(
                back.get(key.as_bytes(), snapshot).unwrap(),
                e.get(key.as_bytes(), snapshot).unwrap(),
                "{key} at {snapshot}"
            );
        }
    }
}

#[test]
fn a_new_engine_holds_nothing() {
    let e = LsmEngine::open(Vec::new(), &Vec::new(), options()).unwrap();
    assert_eq!(e.stats().table_count, 0);
    assert_eq!(e.checkpoint_seqno(), 0);
    assert_eq!(e.get(b"k", 1000).unwrap(), None);
}

#[test]
fn a_torn_manifest_tail_is_cut_off() {
    let (e, files) = filled(2);
    let whole = e.log.log.clone();
    let mut log = whole.clone();
    log.extend_from_slice(&[9, 0, 0, 0, 1, 2, 3]);
    let back = LsmEngine::open(log, &files, options()).unwrap();
    assert_eq!(back.log.log, whole);
    assert_eq!(back.stats().table_count, 2);
}

#[test]
fn a_missing_table_is_an_error() {
    let (e, mut files) = filled(2);
    files.remove(0);
    assert!(matches!(
        LsmEngine::open(e.log.log.clone(), &files, options()),
        Err(Error::Io(_))
    ));
}

#[test]
fn a_damaged_table_is_an_error() {
    let (e, mut files) = filled(1);
    files[0].1[3] ^= 0x40;
    assert!(matches!(
        LsmEngine::open(e.log.log.clone(), &files, options()),
        Err(Error::Corruption(_))
    ));
}

#[test]
fn compaction_changes_no_read_at_or_above_the_floor() {
    let (mut e, _) = filled(3);
    let floor = 45;
    let mut before = Vec::new();
    for i in 0..20u64 {
        let key = format!("k{i:02}");
        for snapshot in [45, 50, 60, 1000] {
            before.push(e.get(key.as_bytes(), snapshot).unwrap());
        }
    }
    let done = e.compact_until_stable(floor, 10).unwrap();
    assert!(!done.is_empty());
    let mut after = Vec::new();
    for i in 0..20u64 {
        let key = format!("k{i:02}");
        for snapshot in [45, 50, 60, 1000] {
            after.push(e.get(key.as_bytes(), snapshot).unwrap());
        }
    }
    assert_eq!(before, after);
}

#[test]
fn table_names_and_ids_agree() {
    assert_eq!(table_name(42), b"0000000042.sst");
    assert_eq!(table_id(b"0000000042.sst"), Some(42));
    assert_eq!(table_id(b"MANIFEST"), None);
    let names = vec![table_name(1), table_name(2), b"MANIFEST".to_vec()];
    assert_eq!(
        orphaned_files(&names, &Vec::new()),
        vec![table_name(1), table_name(2)]
    );
}

#[test]
fn depth_counts_the_levels() {
    let mut p = Pager::open(&[], &[], 64).unwrap();
    let tree = BTree::new(FillFactor::default());
    assert_eq!(tree.depth(&mut p).unwrap(), 0, "a lone leaf");
    for i in 0..500u32 {
        tree.insert(&mut p, format!("key{i:05}").as_bytes(), &[7u8; 64])
            .unwrap();
    }
    assert!(tree.depth(&mut p).unwrap() >= 1);
    assert_eq!(
        tree.depth(&mut p).unwrap() as u32 + 1,
        tree.check(&mut p).unwrap().depth
    );
}
