use phoenixdb::observability::metrics::{
    Counter, EngineMetrics, Gauge, Histogram, Timer, HISTOGRAM_BUCKETS,
};

#[test]
fn counter_accumulates_and_resets() {
    let mut c = Counter::new();
    assert_eq!(c.get(), 0);
    c.increment();
    c.increment();
    c.add(10);
    assert_eq!(c.get(), 12);
    assert_eq!(c.reset(), 12);
    assert_eq!(c.get(), 0);
}

#[test]
fn gauge_goes_up_and_down_and_saturates_at_zero() {
    let mut g = Gauge::new();
    g.set(10);
    assert_eq!(g.get(), 10);
    g.add(5);
    assert_eq!(g.get(), 15);
    g.sub(3);
    assert_eq!(g.get(), 12);
    g.sub(100);
    assert_eq!(g.get(), 0, "must saturate, not wrap");
}

#[test]
fn bucket_assignment_is_logarithmic() {
    assert_eq!(Histogram::bucket_for(0), 0);
    assert_eq!(Histogram::bucket_for(1), 0);
    assert_eq!(Histogram::bucket_for(2), 1);
    assert_eq!(Histogram::bucket_for(3), 1);
    assert_eq!(Histogram::bucket_for(4), 2);
    assert_eq!(Histogram::bucket_for(7), 2);
    assert_eq!(Histogram::bucket_for(8), 3);
    assert_eq!(Histogram::bucket_for(1024), 10);
    // Anything enormous lands in the final bucket rather than panicking.
    assert_eq!(Histogram::bucket_for(u64::MAX), HISTOGRAM_BUCKETS - 1);
}

#[test]
fn empty_histogram_reports_zeroes() {
    let h = Histogram::new();
    assert_eq!(h.count(), 0);
    assert_eq!(h.p50_micros(), 0);
    assert_eq!(h.p99_micros(), 0);
    assert_eq!(h.min_micros(), 0);
    assert_eq!(h.max_micros(), 0);
}

#[test]
fn min_max_mean_are_exact() {
    let mut h = Histogram::new();
    for v in [10u64, 20, 30, 40] {
        h.record_micros(v);
    }
    assert_eq!(h.count(), 4);
    assert_eq!(h.min_micros(), 10);
    assert_eq!(h.max_micros(), 40);
    assert_eq!(h.sum_micros(), 100);
    assert_eq!(h.sum_micros() as f64 / h.count() as f64, 25.0);
}

#[test]
fn quantiles_track_a_uniform_distribution() {
    let mut h = Histogram::new();
    // 1000 samples spread over 1..=1000 microseconds.
    for v in 1..=1000u64 {
        h.record_micros(v);
    }
    let p50 = h.p50_micros();
    let p99 = h.p99_micros();
    // Bucketing over-estimates by at most one bucket (2x), never under.
    assert!(
        (500..=1024).contains(&p50),
        "p50 {p50} outside the plausible band"
    );
    assert!(
        (990..=1024).contains(&p99),
        "p99 {p99} outside the plausible band"
    );
    assert!(p99 >= p50, "quantiles must be monotonic");
}

#[test]
fn quantiles_catch_a_heavy_tail() {
    // 980 fast samples and 20 very slow ones. The tail must be >1% of the
    // population for p99 to land inside it: with exactly 1% slow, the 990th
    // sorted sample is still a fast one and a low p99 would be *correct*.
    let mut h = Histogram::new();
    for _ in 0..980 {
        h.record_micros(10);
    }
    for _ in 0..20 {
        h.record_micros(1_000_000);
    }
    assert!(h.p50_micros() <= 16, "p50 must ignore the tail");
    assert!(
        h.p99_micros() >= 500_000,
        "p99 {} must reflect the slow tail",
        h.p99_micros()
    );
}

#[test]
fn a_tail_of_exactly_one_percent_does_not_move_p99() {
    // The boundary case that makes the test above subtle, pinned so the
    // quantile rank arithmetic cannot silently drift.
    let mut h = Histogram::new();
    for _ in 0..990 {
        h.record_micros(10);
    }
    for _ in 0..10 {
        h.record_micros(1_000_000);
    }
    assert!(
        h.p99_micros() <= 16,
        "the 990th of 1000 samples is still fast; p99 {} should be low",
        h.p99_micros()
    );
    // p999 reaches into the tail, though.
    assert!(h.p999_micros() >= 500_000, "p999 must see the tail");
}

#[test]
fn quantile_never_exceeds_the_observed_maximum() {
    let mut h = Histogram::new();
    h.record_micros(5);
    h.record_micros(7);
    // Bucket 2 has an upper bound of 8, but the real max is 7.
    assert!(h.p99_micros() <= 7, "must not report above the true max");
    assert!(h.quantile_micros(1000) <= 7);
}

#[test]
fn quantile_argument_is_clamped() {
    let mut h = Histogram::new();
    h.record_micros(100);
    assert_eq!(h.quantile_micros(-5000), h.quantile_micros(0));
    assert_eq!(h.quantile_micros(50_000), h.quantile_micros(1000));
}

#[test]
fn single_sample_reports_itself_at_every_quantile() {
    let mut h = Histogram::new();
    h.record_micros(42);
    assert_eq!(h.p50_micros(), 42);
    assert_eq!(h.p99_micros(), 42);
    assert_eq!(h.p999_micros(), 42);
}

#[test]
fn timer_records_on_drop() {
    let mut h = Histogram::new();
    let t = Timer::start(5_000);
    t.stop(7_000, &mut h);
    assert_eq!(h.count(), 1);
    assert!(h.max_micros() >= 1_000, "should have measured 2ms");
}

#[test]
fn cache_hit_ratio_is_correct() {
    let mut m = EngineMetrics::new();
    assert_eq!(m.cache_hit_parts(), (0, 0), "no data means no ratio");
    m.cache_hits.add(75);
    m.cache_misses.add(25);
    let (hits, total) = m.cache_hit_parts();
    assert!((hits as f64 / total as f64 - 0.75).abs() < 1e-9);
}

#[test]
fn report_covers_every_required_metric() {
    let mut m = EngineMetrics::new();
    m.wal_fsyncs.add(3);
    m.wal_fsync_latency.record_micros(150);
    m.cache_hits.add(9);
    m.cache_misses.add(1);
    m.compactions.increment();
    m.raft_commit_lag.set(7);

    let r = m.report("0.900", "0.0", "1.00");
    // The directive names these four explicitly.
    assert!(r.contains("p50="), "WAL fsync percentiles");
    assert!(r.contains("p999="));
    assert!(r.contains("MB/s"), "compaction throughput");
    assert!(r.contains("ratio="), "cache hit ratio");
    assert!(r.contains("commit_lag=7"), "raft commit index lag");
}

#[test]
fn prometheus_output_is_well_formed() {
    let mut m = EngineMetrics::new();
    m.reads.add(100);
    m.cache_hits.add(80);
    m.cache_misses.add(20);
    m.read_latency.record_micros(250);

    let p = m.prometheus("0.8", "0");
    assert!(p.contains("# TYPE phoenixdb_reads_total counter"));
    assert!(p.contains("phoenixdb_reads_total 100"));
    assert!(p.contains("# TYPE phoenixdb_cache_hit_ratio gauge"));
    assert!(p.contains("phoenixdb_read_micros{quantile=\"0.99\"}"));
    assert!(p.contains("phoenixdb_read_micros_count 1"));

    // Every HELP must be followed by a TYPE, and no line may be blank.
    for line in p.lines() {
        assert!(
            !line.trim().is_empty(),
            "no blank lines in exposition format"
        );
    }
    let helps = p.matches("# HELP").count();
    let types = p.matches("# TYPE").count();
    assert_eq!(helps, types, "each metric needs both HELP and TYPE");
}

#[test]
fn the_smallest_sample_may_be_the_largest_number() {
    let mut h = Histogram::new();
    h.record_micros(u64::MAX);
    assert_eq!(h.min_micros(), u64::MAX);
    h.record_micros(3);
    assert_eq!(h.min_micros(), 3);
}

#[test]
fn quantiles_bracket_the_sample_of_their_rank() {
    let mut h = Histogram::new();
    let mut samples: Vec<u64> = (1..=200).map(|i| i * i).collect();
    for s in &samples {
        h.record_micros(*s);
    }
    samples.sort_unstable();
    let mut last = 0;
    for q in [0i64, 1, 250, 500, 900, 990, 999, 1000, 5000] {
        let rank = (200 * q.clamp(0, 1000) as usize).div_ceil(1000).max(1);
        let sample = samples[rank - 1];
        let n = h.quantile_micros(q);
        assert!(sample <= n && n <= 2 * sample, "{q}: {sample} as {n}");
        assert!(last <= n && n <= h.max_micros());
        last = n;
    }
    assert_eq!(h.p50_micros(), 16384);
}
