use phoenixdb::lsm::compaction::{CompactionJob, LevelConfig, Score};
use phoenixdb::lsm::levels::LevelManifest;
use phoenixdb::lsm::merge::merge_runs;
use phoenixdb::lsm::sstable::TableMeta;
use phoenixdb::lsm::version::{InternalKey, ValueSlot};

fn meta(id: u64, level: u32, min: &[u8], max: &[u8], bytes: u64) -> TableMeta {
    TableMeta {
        id,
        level,
        min_key: min.to_vec(),
        max_key: max.to_vec(),
        min_seqno: 1,
        max_seqno: 100,
        entry_count: 10,
        file_bytes: bytes,
    }
}

fn entry(key: &[u8], seqno: u64, value: Option<&[u8]>) -> (InternalKey, ValueSlot) {
    (
        InternalKey::new(key.to_vec(), seqno),
        value.map(<[u8]>::to_vec),
    )
}

#[test]
fn level_budgets_grow_geometrically() {
    let c = LevelConfig::default();
    assert_eq!(c.level_budget(0), u64::MAX, "L0 is bounded by file count");
    assert_eq!(c.level_budget(1), 8 * 1024 * 1024);
    assert_eq!(c.level_budget(2), 80 * 1024 * 1024);
    assert_eq!(c.level_budget(3), 800 * 1024 * 1024);
}

#[test]
fn l0_scores_on_file_count() {
    let mut m = LevelManifest::new(LevelConfig::default());
    assert_eq!(m.score(0).amount, 0);
    assert!(m.pick_compaction().is_none());

    for i in 0..4 {
        m.add_table(meta(i + 1, 0, b"a", b"z", 1000));
    }
    assert_eq!(m.score(0).amount, m.score(0).budget);
    let job = m.pick_compaction().expect("L0 is at its trigger");
    assert_eq!(job.source_level, 0);
    assert_eq!(job.target_level, 1);
    assert_eq!(job.source_tables.len(), 4, "all of L0 compacts together");
}

#[test]
fn deeper_level_scores_on_bytes() {
    let config = LevelConfig {
        base_level_bytes: 1000,
        ..LevelConfig::default()
    };
    let mut m = LevelManifest::new(config);
    m.add_table(meta(1, 1, b"a", b"m", 600));
    let s = m.score(1);
    assert!((s.amount as f64 / s.budget as f64 - 0.6).abs() < 1e-9);
    assert!(m.pick_compaction().is_none(), "under budget");

    m.add_table(meta(2, 1, b"n", b"z", 700));
    assert!(m.score(1).amount > m.score(1).budget);
    let job = m.pick_compaction().expect("L1 is over budget");
    assert_eq!(job.source_level, 1);
    assert_eq!(job.source_tables.len(), 1, "one table at a time in L1+");
    assert_eq!(job.source_tables[0].id, 2, "largest table is picked first");
}

#[test]
fn compaction_pulls_in_overlapping_target_tables() {
    let config = LevelConfig {
        l0_compaction_trigger: 1,
        ..LevelConfig::default()
    };
    let mut m = LevelManifest::new(config);
    m.add_table(meta(1, 0, b"d", b"g", 100));
    // Only the middle L1 table overlaps [d, g].
    m.add_table(meta(2, 1, b"a", b"c", 100));
    m.add_table(meta(3, 1, b"e", b"h", 100));
    m.add_table(meta(4, 1, b"x", b"z", 100));

    let job = m.pick_compaction().unwrap();
    let ids: Vec<u64> = job.target_tables.iter().map(|t| t.id).collect();
    assert_eq!(ids, vec![3], "only the overlapping L1 table is rewritten");
    assert_eq!(job.input_bytes(), 200);
}

#[test]
fn bottom_level_never_compacts_downward() {
    let config = LevelConfig {
        max_levels: 3,
        base_level_bytes: 10,
        ..LevelConfig::default()
    };
    let mut m = LevelManifest::new(config);
    // Massively over budget, but it is the last level: nowhere to drain to.
    m.add_table(meta(1, 2, b"a", b"z", 10_000_000));
    assert!(m.score(2).amount > m.score(2).budget);
    assert!(m.pick_compaction().is_none());
}

#[test]
fn l1_plus_tables_stay_sorted_and_lookup_order_is_newest_first() {
    let mut m = LevelManifest::new(LevelConfig::default());
    m.add_table(meta(1, 1, b"m", b"p", 10));
    m.add_table(meta(2, 1, b"a", b"c", 10));
    m.add_table(meta(3, 1, b"x", b"z", 10));
    let level = m.level(1);
    let keys: Vec<&[u8]> = level.iter().map(|t| t.min_key.as_slice()).collect();
    assert_eq!(
        keys,
        vec![b"a".as_slice(), b"m".as_slice(), b"x".as_slice()]
    );

    // Two overlapping L0 tables plus one matching L1 table.
    m.add_table(meta(10, 0, b"a", b"z", 10));
    m.add_table(meta(11, 0, b"a", b"z", 10));
    let order: Vec<u64> = m.lookup_order(b"b").iter().map(|t| t.id).collect();
    assert_eq!(order, vec![11, 10, 2], "newest L0 first, then L1");
}

#[test]
fn apply_retires_inputs_and_installs_outputs() {
    let config = LevelConfig {
        l0_compaction_trigger: 1,
        ..LevelConfig::default()
    };
    let mut m = LevelManifest::new(config);
    m.add_table(meta(1, 0, b"a", b"f", 100));
    m.add_table(meta(2, 1, b"a", b"f", 100));
    let job = m.pick_compaction().unwrap();
    assert_eq!(m.table_count(), 2);

    m.apply(&job, vec![meta(3, 1, b"a", b"f", 150)]);
    assert_eq!(m.table_count(), 1);
    assert!(m.level(0).is_empty());
    assert_eq!(m.level(1)[0].id, 3);
    assert_eq!(m.total_bytes(), 150);
}

#[test]
fn table_ids_are_unique_and_monotonic() {
    let mut m = LevelManifest::new(LevelConfig::default());
    assert_eq!(m.allocate_table_id(), 1);
    assert_eq!(m.allocate_table_id(), 2);
    // Registering a high id must push the counter past it.
    m.add_table(meta(99, 0, b"a", b"b", 1));
    assert_eq!(m.allocate_table_id(), 100);
}

#[test]
fn merge_keeps_newest_version_per_key() {
    let newer = vec![entry(b"k", 20, Some(b"new"))];
    let older = vec![entry(b"k", 10, Some(b"old"))];
    // retain_floor 20: no live reader predates the newest version.
    let (out, stats) = merge_runs(vec![newer, older], 20, false).unwrap();
    assert_eq!(out.len(), 1);
    assert_eq!(out[0].1, Some(b"new".to_vec()));
    assert_eq!(stats.versions_dropped, 1);
    assert_eq!(stats.entries_in, 2);
    assert_eq!(stats.entries_out, 1);
}

#[test]
fn merge_preserves_versions_a_live_snapshot_still_needs() {
    let newer = vec![entry(b"k", 20, Some(b"new"))];
    let older = vec![entry(b"k", 10, Some(b"old"))];
    // A reader is pinned at seqno 15, so v10 must survive.
    let (out, _) = merge_runs(vec![newer, older], 15, false).unwrap();
    assert_eq!(out.len(), 2, "the older version is still observable");
    assert_eq!(out[0].0.seqno, 20);
    assert_eq!(out[1].0.seqno, 10);
}

#[test]
fn tombstone_is_kept_above_the_bottom_level() {
    // This is the resurrection guard: dropping this tombstone mid-tree
    // would expose the v10 value living in a lower level.
    let runs = vec![
        vec![entry(b"k", 20, None)],
        vec![entry(b"k", 10, Some(b"v"))],
    ];
    let (out, stats) = merge_runs(runs, 20, false).unwrap();
    assert_eq!(out.len(), 1);
    assert_eq!(out[0].1, None, "tombstone must be retained");
    assert_eq!(stats.tombstones_dropped, 0);
}

#[test]
fn tombstone_is_reclaimed_at_the_bottom_level() {
    let runs = vec![
        vec![entry(b"k", 20, None)],
        vec![entry(b"k", 10, Some(b"v"))],
    ];
    let (out, stats) = merge_runs(runs, 20, true).unwrap();
    assert!(out.is_empty(), "nothing survives below the bottom level");
    assert_eq!(stats.tombstones_dropped, 1);
}

#[test]
fn tombstone_survives_bottom_level_if_a_reader_can_see_past_it() {
    // retain_floor 5 < tombstone seqno 20: a snapshot at 15 must still see
    // the delete, so it cannot be dropped even at the bottom level.
    let runs = vec![vec![entry(b"k", 20, None)]];
    let (out, stats) = merge_runs(runs, 5, true).unwrap();
    assert_eq!(out.len(), 1);
    assert_eq!(stats.tombstones_dropped, 0);
}

#[test]
fn merge_output_is_globally_sorted() {
    let run_a = vec![entry(b"a", 5, Some(b"1")), entry(b"m", 5, Some(b"2"))];
    let run_b = vec![entry(b"c", 4, Some(b"3")), entry(b"z", 4, Some(b"4"))];
    let (out, _) = merge_runs(vec![run_a, run_b], 10, false).unwrap();
    let keys: Vec<Vec<u8>> = out.iter().map(|(ik, _)| ik.user_key.clone()).collect();
    assert_eq!(
        keys,
        vec![b"a".to_vec(), b"c".to_vec(), b"m".to_vec(), b"z".to_vec()]
    );
}

#[test]
fn newer_run_wins_identical_seqno() {
    // Same (key, seqno) in two runs: the earlier (newer) run must win.
    let newer = vec![entry(b"k", 7, Some(b"winner"))];
    let older = vec![entry(b"k", 7, Some(b"loser"))];
    let (out, stats) = merge_runs(vec![newer, older], 7, false).unwrap();
    assert_eq!(out.len(), 1);
    assert_eq!(out[0].1, Some(b"winner".to_vec()));
    assert_eq!(stats.versions_dropped, 1);
}

#[test]
fn merge_handles_empty_and_disjoint_runs() {
    let (out, stats) = merge_runs(vec![], 10, false).unwrap();
    assert!(out.is_empty());
    assert_eq!(stats.entries_in, 0);

    let (out, _) =
        merge_runs(vec![vec![], vec![entry(b"a", 1, Some(b"v"))]], 1, false).unwrap();
    assert_eq!(out.len(), 1);
}

#[test]
fn amplification_reflects_dropped_versions() {
    let runs = vec![
        vec![entry(b"k", 30, Some(b"c"))],
        vec![entry(b"k", 20, Some(b"b"))],
        vec![entry(b"k", 10, Some(b"a"))],
    ];
    let (out, stats) = merge_runs(runs, 30, false).unwrap();
    assert_eq!(out.len(), 1);
    assert_eq!(stats.entries_in, 3);
    assert_eq!(stats.entries_in / stats.entries_out, 3);
}

#[test]
fn is_bottom_most_matches_config() {
    let config = LevelConfig {
        max_levels: 4,
        ..LevelConfig::default()
    };
    let job = CompactionJob {
        source_level: 2,
        target_level: 3,
        source_tables: vec![],
        target_tables: vec![],
        score: Score { amount: 1, budget: 1 },
    };
    assert!(job.is_bottom_most(&config));

    let job = CompactionJob {
        source_level: 1,
        target_level: 2,
        source_tables: vec![],
        target_tables: vec![],
        score: Score { amount: 1, budget: 1 },
    };
    assert!(!job.is_bottom_most(&config));
}

#[test]
fn table_ids_never_come_back() {
    let mut m = LevelManifest::new(LevelConfig::default());
    assert_eq!(m.peek_table_id(), 1);
    assert_eq!(m.allocate_table_id(), 1);
    m.add_table(meta(7, 0, b"a", b"b", 1));
    assert!(m.remove_table(0, 7).is_some());
    assert_eq!(m.allocate_table_id(), 8, "a removed table burned its id");
    m.reserve_table_id(5);
    m.reserve_table_id(20);
    let peeked = m.peek_table_id();
    assert_eq!(m.allocate_table_id(), peeked);
    assert_eq!(peeked, 20);
    let job = CompactionJob {
        source_level: 0,
        source_tables: Vec::new(),
        target_level: 1,
        target_tables: Vec::new(),
        score: m.score(0),
    };
    m.apply(&job, vec![meta(40, 1, b"a", b"b", 1), meta(30, 1, b"c", b"d", 1)]);
    assert_eq!(m.allocate_table_id(), 41);
}

#[test]
fn removing_a_table_undoes_adding_it() {
    for level in [0, 2, 9] {
        let mut m = LevelManifest::new(LevelConfig::default());
        m.add_table(meta(1, level, b"c", b"d", 1));
        m.add_table(meta(2, level, b"e", b"f", 1));
        let before = m.level(level);
        let added = meta(3, level, b"a", b"b", 1);
        m.add_table(meta(3, level, b"a", b"b", 1));
        assert_eq!(m.level(level).len(), 3);
        assert_eq!(m.remove_table(level, 3), Some(added));
        assert_eq!(m.level(level), before);
        assert_eq!(m.peek_table_id(), 4, "the id stays burned");
        assert_eq!(m.remove_table(level, 3), None);
        assert_eq!(m.remove_table(40, 1), None);
        assert_eq!(m.level(level), before);
    }
}
