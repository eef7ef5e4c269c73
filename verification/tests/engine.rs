use phoenixdb::lsm::compaction::LevelConfig;
use phoenixdb::lsm::engine::{LsmEngine, LsmOptions};

fn engine(opts: LsmOptions) -> LsmEngine {
    LsmEngine::open(Vec::new(), &Vec::new(), opts).unwrap()
}

/// Small budgets so tests trigger real rotations and compactions cheaply.
fn tiny_options() -> LsmOptions {
    LsmOptions {
        memtable_bytes: 512,
        levels: LevelConfig {
            l0_compaction_trigger: 2,
            base_level_bytes: 2048,
            size_multiplier: 4,
            max_levels: 4,
        },
    }
}

/// A large MemTable budget so only explicit `rotate()` calls freeze a
/// table, making table boundaries deterministic, paired with an eager L0
/// trigger so compaction still fires.
fn manual_flush_options() -> LsmOptions {
    LsmOptions {
        memtable_bytes: 8 * 1024 * 1024,
        levels: LevelConfig {
            l0_compaction_trigger: 2,
            base_level_bytes: 2048,
            size_multiplier: 4,
            max_levels: 4,
        },
    }
}

#[test]
fn put_and_get_through_the_memtable() {
    let mut e = engine(LsmOptions::default());
    e.put(b"k".to_vec(), b"v".to_vec(), 1);
    assert_eq!(e.get(b"k", 1).unwrap(), Some(Some(b"v".to_vec())));
    // Unknown key: the LSM has no opinion, so the caller falls through.
    assert_eq!(e.get(b"nope", 1).unwrap(), None);
}

#[test]
fn reads_survive_a_flush_to_disk() {
    let mut e = engine(LsmOptions::default());
    for i in 0..100u32 {
        e.put(
            format!("k{i:04}").into_bytes(),
            format!("v{i}").into_bytes(),
            i as u64 + 1,
        );
    }
    e.rotate();
    let flushed = e.flush_one().unwrap().expect("a table was written");
    let meta = flushed.meta;
    assert_eq!(meta.level, 0);
    assert!(meta.file_bytes > 0);
    assert!(!flushed.file.is_empty(), "the table must have a file");

    for i in 0..100u32 {
        let got = e.get(format!("k{i:04}").as_bytes(), 1000).unwrap();
        assert_eq!(
            got,
            Some(Some(format!("v{i}").into_bytes())),
            "lost k{i:04}"
        );
    }
    assert_eq!(e.stats().flushes, 1);
    assert_eq!(e.stats().table_count, 1);
}

#[test]
fn memtable_rotates_when_it_exceeds_its_budget() {
    let mut e = engine(tiny_options());
    assert_eq!(e.stats().frozen_count, 0);
    for i in 0..50u32 {
        e.put(
            format!("key{i:04}").into_bytes(),
            vec![b'x'; 64],
            i as u64 + 1,
        );
    }
    assert!(
        e.needs_flush(),
        "writes past the budget must freeze a table"
    );
    assert!(e.stats().frozen_count >= 1);
}

#[test]
fn tombstone_in_a_newer_level_masks_an_older_value() {
    // The classic resurrection bug: value in L0 table #1, delete in the
    // MemTable. The delete must win, and must stop the search.
    let mut e = engine(LsmOptions::default());
    e.put(b"k".to_vec(), b"original".to_vec(), 1);
    e.rotate();
    e.flush_one().unwrap();

    e.delete(b"k".to_vec(), 5);
    assert_eq!(
        e.get(b"k", 5).unwrap(),
        Some(None),
        "delete must mask the flushed value"
    );
    // An older snapshot still sees the value.
    assert_eq!(e.get(b"k", 3).unwrap(), Some(Some(b"original".to_vec())));
}

#[test]
fn newer_flushed_table_shadows_an_older_one() {
    let mut e = engine(LsmOptions::default());
    e.put(b"k".to_vec(), b"v1".to_vec(), 1);
    e.rotate();
    e.flush_one().unwrap();

    e.put(b"k".to_vec(), b"v2".to_vec(), 10);
    e.rotate();
    e.flush_one().unwrap();

    assert_eq!(e.stats().table_count, 2);
    assert_eq!(e.get(b"k", 10).unwrap(), Some(Some(b"v2".to_vec())));
    assert_eq!(e.get(b"k", 5).unwrap(), Some(Some(b"v1".to_vec())));
}

#[test]
fn compaction_merges_l0_and_preserves_all_live_data() {
    // Manual flush control: every key must land in one of the two tables.
    let mut e = engine(manual_flush_options());

    // Two disjoint tables in L0, enough to hit the trigger.
    for i in 0..20u32 {
        e.put(
            format!("a{i:03}").into_bytes(),
            format!("v{i}").into_bytes(),
            i as u64 + 1,
        );
    }
    e.rotate();
    e.flush_one().unwrap();
    for i in 0..20u32 {
        e.put(
            format!("b{i:03}").into_bytes(),
            format!("w{i}").into_bytes(),
            i as u64 + 100,
        );
    }
    e.rotate();
    e.flush_one().unwrap();
    assert_eq!(e.manifest().level(0).len(), 2);

    let stats = e
        .compact_once(1000)
        .unwrap()
        .expect("L0 hit its trigger")
        .stats;
    assert_eq!(stats.entries_in, 40);
    assert_eq!(stats.entries_out, 40, "disjoint keys: nothing to drop");
    assert!(e.manifest().level(0).is_empty(), "L0 drained");
    assert_eq!(e.manifest().level(1).len(), 1, "one merged table in L1");

    // Every key must still be readable after the merge.
    for i in 0..20u32 {
        assert_eq!(
            e.get(format!("a{i:03}").as_bytes(), 1000).unwrap(),
            Some(Some(format!("v{i}").into_bytes()))
        );
        assert_eq!(
            e.get(format!("b{i:03}").as_bytes(), 1000).unwrap(),
            Some(Some(format!("w{i}").into_bytes()))
        );
    }
    assert_eq!(e.stats().compactions, 1);
}

#[test]
fn compaction_collapses_overwrites_of_the_same_key() {
    let mut e = engine(tiny_options());
    // Same key written in three separate flushed tables.
    for (n, seq) in [(b"v1", 1u64), (b"v2", 2), (b"v3", 3)] {
        e.put(b"hot".to_vec(), n.to_vec(), seq);
        e.rotate();
        e.flush_one().unwrap();
    }
    assert_eq!(e.manifest().level(0).len(), 3);

    // retain_floor 3: no reader needs the older versions.
    let stats = e.compact_once(3).unwrap().unwrap().stats;
    assert_eq!(stats.entries_in, 3);
    assert_eq!(stats.entries_out, 1, "only the newest version survives");
    assert_eq!(e.get(b"hot", 3).unwrap(), Some(Some(b"v3".to_vec())));
}

#[test]
fn compacted_input_files_are_removed_from_disk() {
    let mut e = engine(tiny_options());
    for i in 0..10u32 {
        e.put(format!("k{i}").into_bytes(), b"v".to_vec(), i as u64 + 1);
        e.rotate();
        e.flush_one().unwrap();
    }
    let before: Vec<u64> = e.manifest().level(0).iter().map(|m| m.id).collect();
    assert!(!before.is_empty());

    let rounds = e.compact_until_stable(1000, 10).unwrap();
    let retired: Vec<u64> = rounds.iter().flat_map(|r| r.retired.clone()).collect();
    for id in &before {
        assert!(retired.contains(id), "retired input {id} must be unlinked");
    }
    // And the data is still there.
    for i in 0..10u32 {
        assert_eq!(
            e.get(format!("k{i}").as_bytes(), 1000).unwrap(),
            Some(Some(b"v".to_vec()))
        );
    }
}

#[test]
fn compact_once_is_a_noop_when_every_level_is_in_budget() {
    let mut e = engine(LsmOptions::default());
    e.put(b"k".to_vec(), b"v".to_vec(), 1);
    e.rotate();
    e.flush_one().unwrap();
    assert!(e.compact_once(10).unwrap().is_none());
}

#[test]
fn compact_until_stable_terminates_and_drains_l0() {
    let mut e = engine(tiny_options());
    for i in 0..12u32 {
        e.put(
            format!("k{i:03}").into_bytes(),
            vec![b'z'; 32],
            i as u64 + 1,
        );
        e.rotate();
        e.flush_one().unwrap();
    }
    let rounds = e.compact_until_stable(1000, 50).unwrap();
    assert!(!rounds.is_empty(), "a backlog of 12 L0 tables must compact");
    assert!(
        e.manifest().level(0).len() < 2,
        "L0 must end inside its trigger, got {}",
        e.manifest().level(0).len()
    );
    for i in 0..12u32 {
        assert_eq!(
            e.get(format!("k{i:03}").as_bytes(), 1000).unwrap(),
            Some(Some(vec![b'z'; 32]))
        );
    }
}

#[test]
fn flush_all_drains_every_frozen_table() {
    let mut e = engine(LsmOptions::default());
    for i in 0..3u32 {
        e.put(format!("k{i}").into_bytes(), b"v".to_vec(), i as u64 + 1);
        e.rotate();
    }
    assert_eq!(e.stats().frozen_count, 3);
    assert_eq!(e.flush_all().unwrap().len(), 3);
    assert_eq!(e.stats().frozen_count, 0);
    assert_eq!(e.stats().table_count, 3);
    assert!(!e.needs_flush());
}

#[test]
fn rotating_an_empty_memtable_does_nothing() {
    let mut e = engine(LsmOptions::default());
    e.rotate();
    e.rotate();
    assert_eq!(e.stats().frozen_count, 0);
    assert!(e.flush_one().unwrap().is_none());
}

#[test]
fn deletes_survive_compaction_above_the_bottom_level() {
    let mut e = engine(tiny_options());
    e.put(b"k".to_vec(), b"value".to_vec(), 1);
    e.rotate();
    e.flush_one().unwrap();
    e.delete(b"k".to_vec(), 2);
    e.rotate();
    e.flush_one().unwrap();

    // Compacting L0 -> L1 with max_levels 4: not bottom-most, so the
    // tombstone must be retained rather than dropped.
    e.compact_once(2).unwrap().unwrap();
    assert_eq!(
        e.get(b"k", 2).unwrap(),
        Some(None),
        "the key must stay deleted after compaction"
    );
}
