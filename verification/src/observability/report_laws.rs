//! What reports and spans tell.

use crate::error::decimal;
use crate::interface_laws::{
    extends, has_part, lemma_extends, lemma_extends_on, lemma_part_stays, lemma_two,
};
use crate::observability::metrics::{
    quantile_of, with_counter, with_field, with_gauge, with_summary, EngineMetrics, Samples,
};
use crate::observability::tracing::{
    closed_at, named_in, of_trace, opened, retained, value_for, Finished, Started,
};
use vstd::prelude::*;

verus! {

// ---- the report -----------------------------------------------------------------------------

/// A label with a number behind it.
pub open spec fn labelled(label: Seq<char>, n: u64) -> Seq<char> {
    label + decimal(n as nat)
}

proof fn lemma_field(s: Seq<char>, label: Seq<char>, n: u64)
    ensures
        extends(s, with_field(s, label, n)),
        has_part(with_field(s, label, n), labelled(label, n)),
{
    lemma_two(s, label, decimal(n as nat));
}

#[verifier::spinoff_prover]
proof fn lemma_wal_line(m: EngineMetrics, s: Seq<char>)
    ensures
        extends(s, m.wal_line(s)),
        has_part(m.wal_line(s), labelled("wal    fsyncs="@, m.wal_fsyncs@)),
        has_part(m.wal_line(s), labelled(" bytes="@, m.wal_bytes_written@)),
        has_part(m.wal_line(s), labelled(" p50="@, quantile_of(m.wal_fsync_latency@, 500))),
        has_part(m.wal_line(s), labelled("us p99="@, quantile_of(m.wal_fsync_latency@, 990))),
        has_part(m.wal_line(s), labelled("us p999="@, quantile_of(m.wal_fsync_latency@, 999))),
{
    let s0 = s;
    let s1 = with_field(s0, "wal    fsyncs="@, m.wal_fsyncs@);
    lemma_field(s0, "wal    fsyncs="@, m.wal_fsyncs@);
    let s2 = with_field(s1, " bytes="@, m.wal_bytes_written@);
    lemma_field(s1, " bytes="@, m.wal_bytes_written@);
    let s3 = with_field(s2, " p50="@, quantile_of(m.wal_fsync_latency@, 500));
    lemma_field(s2, " p50="@, quantile_of(m.wal_fsync_latency@, 500));
    let s4 = with_field(s3, "us p99="@, quantile_of(m.wal_fsync_latency@, 990));
    lemma_field(s3, "us p99="@, quantile_of(m.wal_fsync_latency@, 990));
    let s5 = with_field(s4, "us p999="@, quantile_of(m.wal_fsync_latency@, 999));
    lemma_field(s4, "us p999="@, quantile_of(m.wal_fsync_latency@, 999));
    let s6 = s5 + "us\n"@;
    lemma_extends(s5, "us\n"@);
    assert(m.wal_line(s) == s6);
    lemma_extends_on(s4, s5, s6);
    lemma_extends_on(s3, s4, s6);
    lemma_extends_on(s2, s3, s6);
    lemma_extends_on(s1, s2, s6);
    lemma_extends_on(s0, s1, s6);
    lemma_part_stays(s1, s6, labelled("wal    fsyncs="@, m.wal_fsyncs@));
    lemma_part_stays(s2, s6, labelled(" bytes="@, m.wal_bytes_written@));
    lemma_part_stays(s3, s6, labelled(" p50="@, quantile_of(m.wal_fsync_latency@, 500)));
    lemma_part_stays(s4, s6, labelled("us p99="@, quantile_of(m.wal_fsync_latency@, 990)));
    lemma_part_stays(s5, s6, labelled("us p999="@, quantile_of(m.wal_fsync_latency@, 999)));
}

#[verifier::spinoff_prover]
proof fn lemma_cache_line(m: EngineMetrics, s: Seq<char>, ratio: Seq<char>)
    ensures
        extends(s, m.cache_line(s, ratio)),
        has_part(m.cache_line(s, ratio), labelled("cache  hits="@, m.cache_hits@)),
        has_part(m.cache_line(s, ratio), labelled(" misses="@, m.cache_misses@)),
        has_part(m.cache_line(s, ratio), labelled(" resident="@, m.cache_resident_pages@)),
        has_part(m.cache_line(s, ratio), labelled(" evictions="@, m.cache_evictions@)),
        has_part(m.cache_line(s, ratio), " ratio="@ + ratio),
{
    let s0 = s;
    let s1 = with_field(s0, "cache  hits="@, m.cache_hits@);
    lemma_field(s0, "cache  hits="@, m.cache_hits@);
    let s2 = with_field(s1, " misses="@, m.cache_misses@);
    lemma_field(s1, " misses="@, m.cache_misses@);
    let s3 = s2 + " ratio="@;
    lemma_extends(s2, " ratio="@);
    let s4 = s3 + ratio;
    lemma_extends(s3, ratio);
    let s5 = with_field(s4, " resident="@, m.cache_resident_pages@);
    lemma_field(s4, " resident="@, m.cache_resident_pages@);
    let s6 = with_field(s5, " evictions="@, m.cache_evictions@);
    lemma_field(s5, " evictions="@, m.cache_evictions@);
    let s7 = s6 + "\n"@;
    lemma_extends(s6, "\n"@);
    assert(m.cache_line(s, ratio) == s7);
    lemma_extends_on(s5, s6, s7);
    lemma_extends_on(s4, s5, s7);
    lemma_extends_on(s3, s4, s7);
    lemma_extends_on(s2, s3, s7);
    lemma_extends_on(s1, s2, s7);
    lemma_extends_on(s0, s1, s7);
    lemma_part_stays(s1, s7, labelled("cache  hits="@, m.cache_hits@));
    lemma_part_stays(s2, s7, labelled(" misses="@, m.cache_misses@));
    lemma_part_stays(s5, s7, labelled(" resident="@, m.cache_resident_pages@));
    lemma_part_stays(s6, s7, labelled(" evictions="@, m.cache_evictions@));
    lemma_two(s2, " ratio="@, ratio);
    lemma_part_stays(s4, s7, " ratio="@ + ratio);
}

#[verifier::spinoff_prover]
proof fn lemma_lsm_line(m: EngineMetrics, s: Seq<char>, throughput: Seq<char>, amplification: Seq<char>)
    ensures
        extends(s, m.lsm_line(s, throughput, amplification)),
        has_part(m.lsm_line(s, throughput, amplification), labelled("lsm    flushes="@, m.flushes@)),
        has_part(m.lsm_line(s, throughput, amplification), labelled(" compactions="@, m.compactions@)),
        has_part(m.lsm_line(s, throughput, amplification), labelled(" tables="@, m.sstable_count@)),
        has_part(m.lsm_line(s, throughput, amplification), " throughput="@ + throughput),
        has_part(m.lsm_line(s, throughput, amplification), "MB/s amp="@ + amplification),
{
    let s0 = s;
    let s1 = with_field(s0, "lsm    flushes="@, m.flushes@);
    lemma_field(s0, "lsm    flushes="@, m.flushes@);
    let s2 = with_field(s1, " compactions="@, m.compactions@);
    lemma_field(s1, " compactions="@, m.compactions@);
    let s3 = with_field(s2, " tables="@, m.sstable_count@);
    lemma_field(s2, " tables="@, m.sstable_count@);
    let s4 = s3 + " throughput="@;
    lemma_extends(s3, " throughput="@);
    let s5 = s4 + throughput;
    lemma_extends(s4, throughput);
    let s6 = s5 + "MB/s amp="@;
    lemma_extends(s5, "MB/s amp="@);
    let s7 = s6 + amplification;
    lemma_extends(s6, amplification);
    let s8 = s7 + "x\n"@;
    lemma_extends(s7, "x\n"@);
    assert(m.lsm_line(s, throughput, amplification) == s8);
    lemma_extends_on(s6, s7, s8);
    lemma_extends_on(s5, s6, s8);
    lemma_extends_on(s4, s5, s8);
    lemma_extends_on(s3, s4, s8);
    lemma_extends_on(s2, s3, s8);
    lemma_extends_on(s1, s2, s8);
    lemma_extends_on(s0, s1, s8);
    lemma_part_stays(s1, s8, labelled("lsm    flushes="@, m.flushes@));
    lemma_part_stays(s2, s8, labelled(" compactions="@, m.compactions@));
    lemma_part_stays(s3, s8, labelled(" tables="@, m.sstable_count@));
    lemma_two(s3, " throughput="@, throughput);
    lemma_part_stays(s5, s8, " throughput="@ + throughput);
    lemma_two(s5, "MB/s amp="@, amplification);
    lemma_part_stays(s7, s8, "MB/s amp="@ + amplification);
}

#[verifier::spinoff_prover]
proof fn lemma_txn_line(m: EngineMetrics, s: Seq<char>)
    ensures
        extends(s, m.txn_line(s)),
        has_part(m.txn_line(s), labelled("txn    commits="@, m.txn_commits@)),
        has_part(m.txn_line(s), labelled(" rollbacks="@, m.txn_rollbacks@)),
        has_part(m.txn_line(s), labelled(" conflicts="@, m.txn_conflicts@)),
        has_part(m.txn_line(s), labelled(" p99="@, quantile_of(m.txn_commit_latency@, 990))),
{
    let s0 = s;
    let s1 = with_field(s0, "txn    commits="@, m.txn_commits@);
    lemma_field(s0, "txn    commits="@, m.txn_commits@);
    let s2 = with_field(s1, " rollbacks="@, m.txn_rollbacks@);
    lemma_field(s1, " rollbacks="@, m.txn_rollbacks@);
    let s3 = with_field(s2, " conflicts="@, m.txn_conflicts@);
    lemma_field(s2, " conflicts="@, m.txn_conflicts@);
    let s4 = with_field(s3, " p99="@, quantile_of(m.txn_commit_latency@, 990));
    lemma_field(s3, " p99="@, quantile_of(m.txn_commit_latency@, 990));
    let s5 = s4 + "us\n"@;
    lemma_extends(s4, "us\n"@);
    assert(m.txn_line(s) == s5);
    lemma_extends_on(s3, s4, s5);
    lemma_extends_on(s2, s3, s5);
    lemma_extends_on(s1, s2, s5);
    lemma_extends_on(s0, s1, s5);
    lemma_part_stays(s1, s5, labelled("txn    commits="@, m.txn_commits@));
    lemma_part_stays(s2, s5, labelled(" rollbacks="@, m.txn_rollbacks@));
    lemma_part_stays(s3, s5, labelled(" conflicts="@, m.txn_conflicts@));
    lemma_part_stays(s4, s5, labelled(" p99="@, quantile_of(m.txn_commit_latency@, 990)));
}

#[verifier::spinoff_prover]
proof fn lemma_query_line(m: EngineMetrics, s: Seq<char>)
    ensures
        extends(s, m.query_line(s)),
        has_part(m.query_line(s), labelled("query  reads="@, m.reads@)),
        has_part(m.query_line(s), labelled(" writes="@, m.writes@)),
        has_part(m.query_line(s), labelled(" read_p50="@, quantile_of(m.read_latency@, 500))),
        has_part(m.query_line(s), labelled("us read_p99="@, quantile_of(m.read_latency@, 990))),
{
    let s0 = s;
    let s1 = with_field(s0, "query  reads="@, m.reads@);
    lemma_field(s0, "query  reads="@, m.reads@);
    let s2 = with_field(s1, " writes="@, m.writes@);
    lemma_field(s1, " writes="@, m.writes@);
    let s3 = with_field(s2, " read_p50="@, quantile_of(m.read_latency@, 500));
    lemma_field(s2, " read_p50="@, quantile_of(m.read_latency@, 500));
    let s4 = with_field(s3, "us read_p99="@, quantile_of(m.read_latency@, 990));
    lemma_field(s3, "us read_p99="@, quantile_of(m.read_latency@, 990));
    let s5 = s4 + "us\n"@;
    lemma_extends(s4, "us\n"@);
    assert(m.query_line(s) == s5);
    lemma_extends_on(s3, s4, s5);
    lemma_extends_on(s2, s3, s5);
    lemma_extends_on(s1, s2, s5);
    lemma_extends_on(s0, s1, s5);
    lemma_part_stays(s1, s5, labelled("query  reads="@, m.reads@));
    lemma_part_stays(s2, s5, labelled(" writes="@, m.writes@));
    lemma_part_stays(s3, s5, labelled(" read_p50="@, quantile_of(m.read_latency@, 500)));
    lemma_part_stays(s4, s5, labelled("us read_p99="@, quantile_of(m.read_latency@, 990)));
}

#[verifier::spinoff_prover]
proof fn lemma_raft_line(m: EngineMetrics, s: Seq<char>)
    ensures
        extends(s, m.raft_line(s)),
        has_part(m.raft_line(s), labelled("raft   commit_lag="@, m.raft_commit_lag@)),
        has_part(m.raft_line(s), labelled(" appended="@, m.raft_entries_appended@)),
        has_part(m.raft_line(s), labelled(" elections="@, m.raft_elections@)),
{
    let s0 = s;
    let s1 = with_field(s0, "raft   commit_lag="@, m.raft_commit_lag@);
    lemma_field(s0, "raft   commit_lag="@, m.raft_commit_lag@);
    let s2 = with_field(s1, " appended="@, m.raft_entries_appended@);
    lemma_field(s1, " appended="@, m.raft_entries_appended@);
    let s3 = with_field(s2, " elections="@, m.raft_elections@);
    lemma_field(s2, " elections="@, m.raft_elections@);
    let s4 = s3 + "\n"@;
    lemma_extends(s3, "\n"@);
    assert(m.raft_line(s) == s4);
    lemma_extends_on(s2, s3, s4);
    lemma_extends_on(s1, s2, s4);
    lemma_extends_on(s0, s1, s4);
    lemma_part_stays(s1, s4, labelled("raft   commit_lag="@, m.raft_commit_lag@));
    lemma_part_stays(s2, s4, labelled(" appended="@, m.raft_entries_appended@));
    lemma_part_stays(s3, s4, labelled(" elections="@, m.raft_elections@));
}

/// The report tells every figure under its own label.
#[verifier::spinoff_prover]
#[verifier::rlimit(40)]
pub proof fn law_reports_tell_every_figure(
    m: EngineMetrics,
    ratio: Seq<char>,
    throughput: Seq<char>,
    amplification: Seq<char>,
)
    ensures
        ({
            let t = m.report_text(ratio, throughput, amplification);
            &&& has_part(t, labelled("wal    fsyncs="@, m.wal_fsyncs@))
            &&& has_part(t, labelled(" bytes="@, m.wal_bytes_written@))
            &&& has_part(t, labelled(" p50="@, quantile_of(m.wal_fsync_latency@, 500)))
            &&& has_part(t, labelled("us p99="@, quantile_of(m.wal_fsync_latency@, 990)))
            &&& has_part(t, labelled("us p999="@, quantile_of(m.wal_fsync_latency@, 999)))
            &&& has_part(t, labelled("cache  hits="@, m.cache_hits@))
            &&& has_part(t, labelled(" misses="@, m.cache_misses@))
            &&& has_part(t, labelled(" resident="@, m.cache_resident_pages@))
            &&& has_part(t, labelled(" evictions="@, m.cache_evictions@))
            &&& has_part(t, " ratio="@ + ratio)
            &&& has_part(t, labelled("lsm    flushes="@, m.flushes@))
            &&& has_part(t, labelled(" compactions="@, m.compactions@))
            &&& has_part(t, labelled(" tables="@, m.sstable_count@))
            &&& has_part(t, " throughput="@ + throughput)
            &&& has_part(t, "MB/s amp="@ + amplification)
            &&& has_part(t, labelled("txn    commits="@, m.txn_commits@))
            &&& has_part(t, labelled(" rollbacks="@, m.txn_rollbacks@))
            &&& has_part(t, labelled(" conflicts="@, m.txn_conflicts@))
            &&& has_part(t, labelled(" p99="@, quantile_of(m.txn_commit_latency@, 990)))
            &&& has_part(t, labelled("query  reads="@, m.reads@))
            &&& has_part(t, labelled(" writes="@, m.writes@))
            &&& has_part(t, labelled(" read_p50="@, quantile_of(m.read_latency@, 500)))
            &&& has_part(t, labelled("us read_p99="@, quantile_of(m.read_latency@, 990)))
            &&& has_part(t, labelled("raft   commit_lag="@, m.raft_commit_lag@))
            &&& has_part(t, labelled(" appended="@, m.raft_entries_appended@))
            &&& has_part(t, labelled(" elections="@, m.raft_elections@))
        }),
{
    let s0 = "PhoenixDB metrics\n=================\n"@;
    let s1 = m.wal_line(s0);
    lemma_wal_line(m, s0);
    let s2 = m.cache_line(s1, ratio);
    lemma_cache_line(m, s1, ratio);
    let s3 = m.lsm_line(s2, throughput, amplification);
    lemma_lsm_line(m, s2, throughput, amplification);
    let s4 = m.txn_line(s3);
    lemma_txn_line(m, s3);
    let s5 = m.query_line(s4);
    lemma_query_line(m, s4);
    let s6 = m.raft_line(s5);
    lemma_raft_line(m, s5);
    assert(m.report_text(ratio, throughput, amplification) == s6);
    lemma_extends_on(s4, s5, s6);
    lemma_extends_on(s3, s4, s6);
    lemma_extends_on(s2, s3, s6);
    lemma_extends_on(s1, s2, s6);
    lemma_part_stays(s1, s6, labelled("wal    fsyncs="@, m.wal_fsyncs@));
    lemma_part_stays(s1, s6, labelled(" bytes="@, m.wal_bytes_written@));
    lemma_part_stays(s1, s6, labelled(" p50="@, quantile_of(m.wal_fsync_latency@, 500)));
    lemma_part_stays(s1, s6, labelled("us p99="@, quantile_of(m.wal_fsync_latency@, 990)));
    lemma_part_stays(s1, s6, labelled("us p999="@, quantile_of(m.wal_fsync_latency@, 999)));
    lemma_part_stays(s2, s6, labelled("cache  hits="@, m.cache_hits@));
    lemma_part_stays(s2, s6, labelled(" misses="@, m.cache_misses@));
    lemma_part_stays(s2, s6, labelled(" resident="@, m.cache_resident_pages@));
    lemma_part_stays(s2, s6, labelled(" evictions="@, m.cache_evictions@));
    lemma_part_stays(s2, s6, " ratio="@ + ratio);
    lemma_part_stays(s3, s6, labelled("lsm    flushes="@, m.flushes@));
    lemma_part_stays(s3, s6, labelled(" compactions="@, m.compactions@));
    lemma_part_stays(s3, s6, labelled(" tables="@, m.sstable_count@));
    lemma_part_stays(s3, s6, " throughput="@ + throughput);
    lemma_part_stays(s3, s6, "MB/s amp="@ + amplification);
    lemma_part_stays(s4, s6, labelled("txn    commits="@, m.txn_commits@));
    lemma_part_stays(s4, s6, labelled(" rollbacks="@, m.txn_rollbacks@));
    lemma_part_stays(s4, s6, labelled(" conflicts="@, m.txn_conflicts@));
    lemma_part_stays(s4, s6, labelled(" p99="@, quantile_of(m.txn_commit_latency@, 990)));
    lemma_part_stays(s5, s6, labelled("query  reads="@, m.reads@));
    lemma_part_stays(s5, s6, labelled(" writes="@, m.writes@));
    lemma_part_stays(s5, s6, labelled(" read_p50="@, quantile_of(m.read_latency@, 500)));
    lemma_part_stays(s5, s6, labelled("us read_p99="@, quantile_of(m.read_latency@, 990)));
}

// ---- the exposition format ------------------------------------------------------------------

/// A line of the exposition format: a name and its value.
pub open spec fn line(name: Seq<char>, v: Seq<char>) -> Seq<char> {
    name + " "@ + v + "\n"@
}

proof fn lemma_line(t: Seq<char>, name: Seq<char>, sep: Seq<char>, v: Seq<char>)
    ensures
        extends(t, t + name + sep + v + "\n"@),
        has_part(t + name + sep + v + "\n"@, name + sep + v + "\n"@),
{
    assert(t + name + sep + v + "\n"@ =~= t + (name + sep + v + "\n"@));
    lemma_extends(t, name + sep + v + "\n"@);
}

proof fn lemma_head(s: Seq<char>, name: Seq<char>, help: Seq<char>, kind: Seq<char>)
    ensures
        extends(s, s + "# HELP "@ + name + " "@ + help + "\n# TYPE "@ + name + kind),
{
    let rest = "# HELP "@ + name + " "@ + help + "\n# TYPE "@ + name + kind;
    assert(s + "# HELP "@ + name + " "@ + help + "\n# TYPE "@ + name + kind =~= s + rest);
    lemma_extends(s, rest);
}

proof fn lemma_counter(s: Seq<char>, name: Seq<char>, help: Seq<char>, v: u64)
    ensures
        extends(s, with_counter(s, name, help, v)),
        has_part(with_counter(s, name, help, v), line(name, decimal(v as nat))),
{
    let t = s + "# HELP "@ + name + " "@ + help + "\n# TYPE "@ + name + " counter\n"@;
    lemma_head(s, name, help, " counter\n"@);
    lemma_line(t, name, " "@, decimal(v as nat));
    lemma_extends_on(s, t, with_counter(s, name, help, v));
}

proof fn lemma_gauge(s: Seq<char>, name: Seq<char>, help: Seq<char>, v: Seq<char>)
    ensures
        extends(s, with_gauge(s, name, help, v)),
        has_part(with_gauge(s, name, help, v), line(name, v)),
{
    let t = s + "# HELP "@ + name + " "@ + help + "\n# TYPE "@ + name + " gauge\n"@;
    lemma_head(s, name, help, " gauge\n"@);
    lemma_line(t, name, " "@, v);
    lemma_extends_on(s, t, with_gauge(s, name, help, v));
}

/// The text tells a latency: three quantiles, how many samples there are and
/// their sum.
pub open spec fn tells_latency(t: Seq<char>, name: Seq<char>, h: Samples) -> bool {
    &&& has_part(
        t,
        name + "{quantile=\"0.5\"} "@ + decimal(quantile_of(h, 500) as nat) + "\n"@,
    )
    &&& has_part(
        t,
        name + "{quantile=\"0.99\"} "@ + decimal(quantile_of(h, 990) as nat) + "\n"@,
    )
    &&& has_part(
        t,
        name + "{quantile=\"0.999\"} "@ + decimal(quantile_of(h, 999) as nat) + "\n"@,
    )
    &&& has_part(t, name + "_count "@ + decimal(h.count as nat) + "\n"@)
    &&& has_part(t, name + "_sum "@ + decimal(h.sum as nat) + "\n"@)
}

proof fn lemma_latency_stays(t: Seq<char>, u: Seq<char>, name: Seq<char>, h: Samples)
    requires
        tells_latency(t, name, h),
        extends(t, u),
    ensures
        tells_latency(u, name, h),
{
    lemma_part_stays(
        t,
        u,
        name + "{quantile=\"0.5\"} "@ + decimal(quantile_of(h, 500) as nat) + "\n"@,
    );
    lemma_part_stays(
        t,
        u,
        name + "{quantile=\"0.99\"} "@ + decimal(quantile_of(h, 990) as nat) + "\n"@,
    );
    lemma_part_stays(
        t,
        u,
        name + "{quantile=\"0.999\"} "@ + decimal(quantile_of(h, 999) as nat) + "\n"@,
    );
    lemma_part_stays(t, u, name + "_count "@ + decimal(h.count as nat) + "\n"@);
    lemma_part_stays(t, u, name + "_sum "@ + decimal(h.sum as nat) + "\n"@);
}

#[verifier::spinoff_prover]
proof fn lemma_summary(s: Seq<char>, name: Seq<char>, help: Seq<char>, h: Samples)
    ensures
        extends(s, with_summary(s, name, help, h)),
        tells_latency(with_summary(s, name, help, h), name, h),
{
    let t0 = s + "# HELP "@ + name + " "@ + help + "\n# TYPE "@ + name + " summary\n"@;
    lemma_head(s, name, help, " summary\n"@);
    let (a, b, c) = (
        decimal(quantile_of(h, 500) as nat),
        decimal(quantile_of(h, 990) as nat),
        decimal(quantile_of(h, 999) as nat),
    );
    let t1 = t0 + name + "{quantile=\"0.5\"} "@ + a + "\n"@;
    lemma_line(t0, name, "{quantile=\"0.5\"} "@, a);
    let t2 = t1 + name + "{quantile=\"0.99\"} "@ + b + "\n"@;
    lemma_line(t1, name, "{quantile=\"0.99\"} "@, b);
    let t3 = t2 + name + "{quantile=\"0.999\"} "@ + c + "\n"@;
    lemma_line(t2, name, "{quantile=\"0.999\"} "@, c);
    let t4 = t3 + name + "_count "@ + decimal(h.count as nat) + "\n"@;
    lemma_line(t3, name, "_count "@, decimal(h.count as nat));
    let t5 = t4 + name + "_sum "@ + decimal(h.sum as nat) + "\n"@;
    lemma_line(t4, name, "_sum "@, decimal(h.sum as nat));
    assert(with_summary(s, name, help, h) == t5);
    lemma_extends_on(t3, t4, t5);
    lemma_extends_on(t2, t3, t5);
    lemma_extends_on(t1, t2, t5);
    lemma_extends_on(t0, t1, t5);
    lemma_extends_on(s, t0, t5);
    lemma_part_stays(t1, t5, name + "{quantile=\"0.5\"} "@ + a + "\n"@);
    lemma_part_stays(t2, t5, name + "{quantile=\"0.99\"} "@ + b + "\n"@);
    lemma_part_stays(t3, t5, name + "{quantile=\"0.999\"} "@ + c + "\n"@);
    lemma_part_stays(t4, t5, name + "_count "@ + decimal(h.count as nat) + "\n"@);
}

/// The exposition tells every metric under its own name.
#[verifier::spinoff_prover]
#[verifier::rlimit(60)]
pub proof fn law_expositions_tell_every_metric(
    m: EngineMetrics,
    ratio: Seq<char>,
    throughput: Seq<char>,
)
    ensures
        ({
            let t = m.prometheus_text(ratio, throughput);
            &&& has_part(t, line("phoenixdb_wal_fsyncs_total"@, decimal(m.wal_fsyncs@ as nat)))
            &&& has_part(t, line("phoenixdb_wal_bytes_total"@, decimal(m.wal_bytes_written@ as nat)))
            &&& has_part(t, line("phoenixdb_cache_hits_total"@, decimal(m.cache_hits@ as nat)))
            &&& has_part(t, line("phoenixdb_cache_misses_total"@, decimal(m.cache_misses@ as nat)))
            &&& has_part(t, line("phoenixdb_flushes_total"@, decimal(m.flushes@ as nat)))
            &&& has_part(t, line("phoenixdb_compactions_total"@, decimal(m.compactions@ as nat)))
            &&& has_part(t, line("phoenixdb_txn_commits_total"@, decimal(m.txn_commits@ as nat)))
            &&& has_part(t, line("phoenixdb_txn_conflicts_total"@, decimal(m.txn_conflicts@ as nat)))
            &&& has_part(t, line("phoenixdb_reads_total"@, decimal(m.reads@ as nat)))
            &&& has_part(t, line("phoenixdb_writes_total"@, decimal(m.writes@ as nat)))
            &&& has_part(t, line("phoenixdb_cache_hit_ratio"@, ratio))
            &&& has_part(t, line("phoenixdb_sstable_count"@, decimal(m.sstable_count@ as nat)))
            &&& has_part(t, line("phoenixdb_raft_commit_lag"@, decimal(m.raft_commit_lag@ as nat)))
            &&& has_part(t, line("phoenixdb_compaction_throughput_mbps"@, throughput))
            &&& tells_latency(t, "phoenixdb_wal_fsync_micros"@, m.wal_fsync_latency@)
            &&& tells_latency(t, "phoenixdb_commit_micros"@, m.txn_commit_latency@)
            &&& tells_latency(t, "phoenixdb_read_micros"@, m.read_latency@)
        }),
{
    let s0 = ""@;
    let s1 = with_counter(s0, "phoenixdb_wal_fsyncs_total"@, "WAL fsync calls"@, m.wal_fsyncs@);
    lemma_counter(s0, "phoenixdb_wal_fsyncs_total"@, "WAL fsync calls"@, m.wal_fsyncs@);
    let s2 = with_counter(s1, "phoenixdb_wal_bytes_total"@, "WAL bytes written"@, m.wal_bytes_written@);
    lemma_counter(s1, "phoenixdb_wal_bytes_total"@, "WAL bytes written"@, m.wal_bytes_written@);
    let s3 = with_counter(s2, "phoenixdb_cache_hits_total"@, "Page cache hits"@, m.cache_hits@);
    lemma_counter(s2, "phoenixdb_cache_hits_total"@, "Page cache hits"@, m.cache_hits@);
    let s4 = with_counter(s3, "phoenixdb_cache_misses_total"@, "Page cache misses"@, m.cache_misses@);
    lemma_counter(s3, "phoenixdb_cache_misses_total"@, "Page cache misses"@, m.cache_misses@);
    let s5 = with_counter(s4, "phoenixdb_flushes_total"@, "MemTable flushes"@, m.flushes@);
    lemma_counter(s4, "phoenixdb_flushes_total"@, "MemTable flushes"@, m.flushes@);
    let s6 = with_counter(s5, "phoenixdb_compactions_total"@, "Compactions run"@, m.compactions@);
    lemma_counter(s5, "phoenixdb_compactions_total"@, "Compactions run"@, m.compactions@);
    let s7 = with_counter(s6, "phoenixdb_txn_commits_total"@, "Transactions committed"@, m.txn_commits@);
    lemma_counter(s6, "phoenixdb_txn_commits_total"@, "Transactions committed"@, m.txn_commits@);
    let s8 = with_counter(s7, "phoenixdb_txn_conflicts_total"@, "Write-write conflicts"@, m.txn_conflicts@);
    lemma_counter(s7, "phoenixdb_txn_conflicts_total"@, "Write-write conflicts"@, m.txn_conflicts@);
    let s9 = with_counter(s8, "phoenixdb_reads_total"@, "Point reads"@, m.reads@);
    lemma_counter(s8, "phoenixdb_reads_total"@, "Point reads"@, m.reads@);
    let s10 = with_counter(s9, "phoenixdb_writes_total"@, "Writes applied"@, m.writes@);
    lemma_counter(s9, "phoenixdb_writes_total"@, "Writes applied"@, m.writes@);
    let s11 = with_gauge(s10, "phoenixdb_cache_hit_ratio"@, "Cache hit ratio"@, ratio);
    lemma_gauge(s10, "phoenixdb_cache_hit_ratio"@, "Cache hit ratio"@, ratio);
    let s12 = with_gauge(s11, "phoenixdb_sstable_count"@, "Live SSTables"@, decimal(m.sstable_count@ as nat));
    lemma_gauge(s11, "phoenixdb_sstable_count"@, "Live SSTables"@, decimal(m.sstable_count@ as nat));
    let s13 = with_gauge(s12, "phoenixdb_raft_commit_lag"@, "Raft commit index lag"@, decimal(m.raft_commit_lag@ as nat));
    lemma_gauge(s12, "phoenixdb_raft_commit_lag"@, "Raft commit index lag"@, decimal(m.raft_commit_lag@ as nat));
    let s14 = with_gauge(s13, "phoenixdb_compaction_throughput_mbps"@, "Compaction MB/s"@, throughput);
    lemma_gauge(s13, "phoenixdb_compaction_throughput_mbps"@, "Compaction MB/s"@, throughput);
    let s15 = with_summary(s14, "phoenixdb_wal_fsync_micros"@, "WAL fsync latency"@, m.wal_fsync_latency@);
    lemma_summary(s14, "phoenixdb_wal_fsync_micros"@, "WAL fsync latency"@, m.wal_fsync_latency@);
    let s16 = with_summary(s15, "phoenixdb_commit_micros"@, "Commit latency"@, m.txn_commit_latency@);
    lemma_summary(s15, "phoenixdb_commit_micros"@, "Commit latency"@, m.txn_commit_latency@);
    let s17 = with_summary(s16, "phoenixdb_read_micros"@, "Read latency"@, m.read_latency@);
    lemma_summary(s16, "phoenixdb_read_micros"@, "Read latency"@, m.read_latency@);
    assert(m.prometheus_text(ratio, throughput) == s17);
    lemma_extends_on(s15, s16, s17);
    lemma_extends_on(s14, s15, s17);
    lemma_extends_on(s13, s14, s17);
    lemma_extends_on(s12, s13, s17);
    lemma_extends_on(s11, s12, s17);
    lemma_extends_on(s10, s11, s17);
    lemma_extends_on(s9, s10, s17);
    lemma_extends_on(s8, s9, s17);
    lemma_extends_on(s7, s8, s17);
    lemma_extends_on(s6, s7, s17);
    lemma_extends_on(s5, s6, s17);
    lemma_extends_on(s4, s5, s17);
    lemma_extends_on(s3, s4, s17);
    lemma_extends_on(s2, s3, s17);
    lemma_extends_on(s1, s2, s17);
    lemma_part_stays(s1, s17, line("phoenixdb_wal_fsyncs_total"@, decimal(m.wal_fsyncs@ as nat)));
    lemma_part_stays(s2, s17, line("phoenixdb_wal_bytes_total"@, decimal(m.wal_bytes_written@ as nat)));
    lemma_part_stays(s3, s17, line("phoenixdb_cache_hits_total"@, decimal(m.cache_hits@ as nat)));
    lemma_part_stays(s4, s17, line("phoenixdb_cache_misses_total"@, decimal(m.cache_misses@ as nat)));
    lemma_part_stays(s5, s17, line("phoenixdb_flushes_total"@, decimal(m.flushes@ as nat)));
    lemma_part_stays(s6, s17, line("phoenixdb_compactions_total"@, decimal(m.compactions@ as nat)));
    lemma_part_stays(s7, s17, line("phoenixdb_txn_commits_total"@, decimal(m.txn_commits@ as nat)));
    lemma_part_stays(s8, s17, line("phoenixdb_txn_conflicts_total"@, decimal(m.txn_conflicts@ as nat)));
    lemma_part_stays(s9, s17, line("phoenixdb_reads_total"@, decimal(m.reads@ as nat)));
    lemma_part_stays(s10, s17, line("phoenixdb_writes_total"@, decimal(m.writes@ as nat)));
    lemma_part_stays(s11, s17, line("phoenixdb_cache_hit_ratio"@, ratio));
    lemma_part_stays(s12, s17, line("phoenixdb_sstable_count"@, decimal(m.sstable_count@ as nat)));
    lemma_part_stays(s13, s17, line("phoenixdb_raft_commit_lag"@, decimal(m.raft_commit_lag@ as nat)));
    lemma_part_stays(s14, s17, line("phoenixdb_compaction_throughput_mbps"@, throughput));
    lemma_latency_stays(s15, s17, "phoenixdb_wal_fsync_micros"@, m.wal_fsync_latency@);
    lemma_latency_stays(s16, s17, "phoenixdb_commit_micros"@, m.txn_commit_latency@);
}

// ---- spans ----------------------------------------------------------------------------------

/// A span that is closed tells how long it was open, and keeps its ids and its
/// name; a clock that went backwards counts as no time.
pub proof fn law_spans_measure_time(
    trace: u64,
    span: u64,
    parent: Option<u64>,
    name: Seq<char>,
    start: u128,
    end: u128,
)
    ensures
        ({
            let f = closed_at(opened(trace, span, parent, name, start), end);
            &&& end >= start ==> start + f.duration == end
            &&& end < start ==> f.duration == 0
            &&& f.trace_id == trace && f.span_id == span && f.parent_id == parent
            &&& f.name == name && f.attributes.len() == 0 && !f.error
        }),
{
}

/// What a span was given while it was open is told when it is closed.
pub proof fn law_closing_keeps_what_was_noted(s: Started, now: u128)
    ensures
        ({
            let f = closed_at(s, now);
            &&& f.attributes == s.attributes && f.error == s.error
            &&& f.trace_id == s.trace_id && f.span_id == s.span_id && f.parent_id == s.parent_id
            &&& f.name == s.name
        }),
{
}

/// A ring keeps the latest spans: the new one comes last, and only the oldest
/// goes, and only where there is no room for it.
pub proof fn law_rings_keep_the_latest(s: Seq<Finished>, x: Finished, room: int)
    requires
        room >= 1,
        s.len() <= room,
    ensures
        ({
            let now = retained(s.push(x), room);
            &&& now.len() > 0 && now.last() == x
            &&& s.len() < room ==> now == s.push(x)
            &&& s.len() == room ==> now.len() == room && forall|i: int|
                0 <= i < room - 1 ==> #[trigger] now[i] == s[i + 1]
        }),
{
}

/// Spans are picked out by their trace, or by their name, in the order in which
/// they came.
pub proof fn law_spans_are_picked_out(a: Seq<Finished>, x: Finished, trace: u64, name: Seq<char>)
    ensures
        of_trace(a.push(x), trace) == if x.trace_id == trace {
            of_trace(a, trace).push(x)
        } else {
            of_trace(a, trace)
        },
        named_in(a.push(x), name) == if x.name == name {
            named_in(a, name).push(x)
        } else {
            named_in(a, name)
        },
        of_trace(Seq::empty(), trace).len() == 0,
        named_in(Seq::empty(), name).len() == 0,
{
    assert(a.push(x).drop_last() =~= a);
}

/// An attribute is found by its name, the first of several.
pub proof fn law_attributes_are_found(v: Seq<(Seq<char>, Seq<char>)>, i: int, key: Seq<char>)
    requires
        0 <= i <= v.len(),
        forall|j: int| 0 <= j < i ==> (#[trigger] v[j]).0 != key,
        i < v.len() ==> v[i].0 == key,
    ensures
        value_for(v, key) == if i < v.len() {
            Some(v[i].1)
        } else {
            None
        },
    decreases v.len(),
{
    if v.len() > 0 && i > 0 {
        let rest = v.subrange(1, v.len() as int);
        assert forall|j: int| 0 <= j < i - 1 implies (#[trigger] rest[j]).0 != key by {
            assert(rest[j] == v[j + 1]);
        }
        if i < v.len() {
            assert(rest[i - 1] == v[i]);
        }
        assert(v[0].0 != key);
        law_attributes_are_found(rest, i - 1, key);
    }
}

} // verus!
