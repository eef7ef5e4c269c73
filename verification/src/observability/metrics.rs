//! Metrics: counters, gauges and latency histograms.
//!
//! # Histogram design
//!
//! Latencies are recorded in **fixed logarithmic buckets** rather than by
//! keeping every sample. That bounds memory at a few hundred bytes per
//! histogram regardless of traffic, which matters for a database that may run
//! for months. The cost is that quantiles are approximate: a reported p99 is
//! the upper bound of the bucket containing the true p99. Bucket boundaries
//! double, so the error is at most 2x — sufficient for spotting a regression,
//! not for billing.
//!
//! The required percentiles (p50, p99, p999) are computed by walking the
//! cumulative bucket counts.

use crate::error::{decimal, decimal_string};
use vstd::arithmetic::power2::{
    lemma2_to64, lemma_pow2_strictly_increases, lemma_pow2_unfold, pow2,
};
use vstd::prelude::*;

verus! {

/// Number of buckets in a [`Histogram`].
///
/// With a 1 µs base and doubling boundaries, 32 buckets span 1 µs to ~1.2 hours,
/// which comfortably covers an fsync that has gone pathologically wrong.
pub const HISTOGRAM_BUCKETS: usize = 32;

/// A sum that wraps around at sixty-four bits.
pub open spec fn wrapped(n: int) -> u64 {
    (n % 0x1_0000_0000_0000_0000) as u64
}

/// A monotonically increasing counter.
#[derive(Debug, Clone, Copy, PartialEq, Eq)]
pub struct Counter {
    value: u64,
}

impl View for Counter {
    type V = u64;

    closed spec fn view(&self) -> u64 {
        self.value
    }
}

impl Counter {
    /// Creates a counter at zero.
    #[must_use]
    pub fn new() -> (c: Self)
        ensures
            c@ == 0,
    {
        Counter { value: 0 }
    }

    /// Adds one.
    pub fn increment(&mut self)
        ensures
            final(self)@ == wrapped(old(self)@ + 1),
    {
        self.add(1);
    }

    /// Adds `n`.
    pub fn add(&mut self, n: u64)
        ensures
            final(self)@ == wrapped(old(self)@ + n),
    {
        self.value = self.value.wrapping_add(n);
    }

    /// Current value.
    #[must_use]
    pub fn get(&self) -> (n: u64)
        ensures
            n == self@,
    {
        self.value
    }

    /// Resets to zero, returning the previous value.
    pub fn reset(&mut self) -> (n: u64)
        ensures
            n == old(self)@,
            final(self)@ == 0,
    {
        let n: u64 = self.value;
        self.value = 0;
        n
    }
}

/// A value that can go up or down.
#[derive(Debug, Clone, Copy, PartialEq, Eq)]
pub struct Gauge {
    value: u64,
}

impl View for Gauge {
    type V = u64;

    closed spec fn view(&self) -> u64 {
        self.value
    }
}

impl Gauge {
    /// Creates a gauge at zero.
    #[must_use]
    pub fn new() -> (g: Self)
        ensures
            g@ == 0,
    {
        Gauge { value: 0 }
    }

    /// Overwrites the value.
    pub fn set(&mut self, v: u64)
        ensures
            final(self)@ == v,
    {
        self.value = v;
    }

    /// Adds `n`.
    pub fn add(&mut self, n: u64)
        ensures
            final(self)@ == wrapped(old(self)@ + n),
    {
        self.value = self.value.wrapping_add(n);
    }

    /// Subtracts `n`, saturating at zero.
    pub fn sub(&mut self, n: u64)
        ensures
            final(self)@ == if n > old(self)@ {
                0
            } else {
                old(self)@ - n
            },
    {
        self.value = self.value.saturating_sub(n);
    }

    /// Current value.
    #[must_use]
    pub fn get(&self) -> (n: u64)
        ensures
            n == self@,
    {
        self.value
    }
}

/// How often a number can be halved before it is below two.
pub open spec fn halvings(n: nat) -> nat
    decreases n,
{
    if n < 2 {
        0
    } else {
        1 + halvings(n / 2)
    }
}

/// The bucket of a sample.
pub open spec fn bucket_of(micros: u64) -> int {
    let h = halvings(micros as nat);
    if h < HISTOGRAM_BUCKETS {
        h as int
    } else {
        HISTOGRAM_BUCKETS - 1
    }
}

/// The upper bound of a bucket.
pub open spec fn bound_of(i: int) -> u64 {
    if i >= HISTOGRAM_BUCKETS - 1 {
        u64::MAX
    } else {
        pow2((i + 1) as nat) as u64
    }
}

/// The number of samples in the first buckets.
pub open spec fn total_of(b: Seq<u64>) -> nat
    decreases b.len(),
{
    if b.len() == 0 {
        0
    } else {
        total_of(b.drop_last()) + b.last() as nat
    }
}

/// The first bucket by which so many samples are counted; all buckets if there
/// is none.
pub open spec fn reaches(b: Seq<u64>, target: int, i: int) -> int
    decreases b.len() - i,
{
    if i >= b.len() {
        b.len() as int
    } else if total_of(b.subrange(0, i + 1)) >= target {
        i
    } else {
        reaches(b, target, i + 1)
    }
}

/// The rank of the sample that a quantile asks for: the smallest that is at
/// least that share of the samples, and at least the first.
pub open spec fn rank_of(count: u64, thousandths: int) -> int {
    let q = if thousandths < 0 {
        0
    } else if thousandths > 1000 {
        1000
    } else {
        thousandths
    };
    let r = (count * q + 999) / 1000;
    if r < 1 {
        1
    } else {
        r
    }
}

/// The samples of a histogram.
#[verifier::ext_equal]
pub ghost struct Samples {
    /// How many fall into each bucket.
    pub buckets: Seq<u64>,
    /// How many there are.
    pub count: u64,
    /// Their sum, wrapped around.
    pub sum: u64,
    /// The smallest; the largest number if there is none.
    pub min: u64,
    /// The largest; nothing if there is none.
    pub max: u64,
}

/// The samples with one more.
pub open spec fn with_sample(s: Samples, micros: u64) -> Samples {
    let b = bucket_of(micros);
    Samples {
        buckets: s.buckets.update(b, (s.buckets[b] + 1) as u64),
        count: (s.count + 1) as u64,
        sum: wrapped(s.sum + micros),
        min: if micros < s.min {
            micros
        } else {
            s.min
        },
        max: if micros > s.max {
            micros
        } else {
            s.max
        },
    }
}

/// What a quantile is reported as: the upper bound of the bucket of the sample
/// that it asks for, and never more than the largest sample.
pub open spec fn quantile_of(s: Samples, thousandths: int) -> u64 {
    if s.count == 0 {
        0
    } else {
        let i = reaches(s.buckets, rank_of(s.count, thousandths), 0);
        let top = if s.max > 1 {
            s.max
        } else {
            1
        };
        if i >= s.buckets.len() {
            s.max
        } else if bound_of(i) < top {
            bound_of(i)
        } else {
            top
        }
    }
}

/// A latency histogram with logarithmic buckets.
///
/// Bucket `i` covers `[2^i, 2^(i+1))` microseconds; bucket 0 also absorbs
/// sub-microsecond samples, and the top bucket absorbs everything above its
/// lower bound.
#[derive(Debug)]
pub struct Histogram {
    buckets: Vec<u64>,
    count: u64,
    sum_micros: u64,
    min_micros: u64,
    max_micros: u64,
}

impl View for Histogram {
    type V = Samples;

    closed spec fn view(&self) -> Samples {
        Samples {
            buckets: self.buckets@,
            count: self.count,
            sum: self.sum_micros,
            min: self.min_micros,
            max: self.max_micros,
        }
    }
}

/// What a histogram holds before the first sample.
pub open spec fn no_samples() -> Samples {
    Samples {
        buckets: Seq::new(HISTOGRAM_BUCKETS as nat, |i: int| 0u64),
        count: 0,
        sum: 0,
        min: u64::MAX,
        max: 0,
    }
}

impl Histogram {
    /// The buckets hold the samples.
    pub open spec fn wf(&self) -> bool {
        &&& self@.buckets.len() == HISTOGRAM_BUCKETS
        &&& total_of(self@.buckets) == self@.count
    }

    /// Creates an empty histogram.
    #[must_use]
    pub fn new() -> (h: Self)
        ensures
            h.wf(),
            h@ == no_samples(),
    {
        let mut buckets: Vec<u64> = Vec::new();
        let mut i: usize = 0;
        while i < HISTOGRAM_BUCKETS
            invariant
                i <= HISTOGRAM_BUCKETS,
                buckets@ == Seq::new(i as nat, |j: int| 0u64),
                total_of(buckets@) == 0,
            decreases HISTOGRAM_BUCKETS - i,
        {
            let ghost was = buckets@;
            buckets.push(0);
            i += 1;
            assert(buckets@.drop_last() =~= was);
            assert(buckets@ =~= Seq::new(i as nat, |j: int| 0u64));
        }
        Histogram { buckets, count: 0, sum_micros: 0, min_micros: u64::MAX, max_micros: 0 }
    }

    /// Bucket index for `micros`.
    #[must_use]
    pub fn bucket_for(micros: u64) -> (i: usize)
        ensures
            i == bucket_of(micros),
            i < HISTOGRAM_BUCKETS,
    {
        let mut n: u64 = micros;
        let mut h: usize = 0;
        while n >= 2
            invariant
                halvings(micros as nat) == h + halvings(n as nat),
                h <= micros - n,
                h + n <= u64::MAX,
                h < HISTOGRAM_BUCKETS,
            decreases n,
        {
            if h == HISTOGRAM_BUCKETS - 1 {
                return h;
            }
            n = n / 2;
            h += 1;
        }
        h
    }

    /// Upper bound of bucket `i`, in microseconds.
    #[must_use]
    pub fn bucket_upper_bound(i: usize) -> (b: u64)
        ensures
            b == bound_of(i as int),
    {
        if i >= HISTOGRAM_BUCKETS - 1 {
            return u64::MAX;
        }
        let mut b: u64 = 2;
        let mut k: usize = 0;
        proof {
            lemma2_to64();
        }
        while k < i
            invariant
                k <= i < HISTOGRAM_BUCKETS - 1,
                b == pow2((k + 1) as nat),
                b <= 0x8000_0000,
            decreases i - k,
        {
            proof {
                lemma2_to64();
                lemma_pow2_unfold((k + 2) as nat);
                lemma_pow2_strictly_increases((k + 1) as nat, 31);
            }
            b = b * 2;
            k += 1;
        }
        b
    }

    /// Records a sample.
    pub fn record_micros(&mut self, micros: u64)
        requires
            old(self).wf(),
            old(self)@.count < u64::MAX,
        ensures
            final(self).wf(),
            final(self)@ == with_sample(old(self)@, micros),
    {
        let b: usize = Histogram::bucket_for(micros);
        let ghost was = self.buckets@;
        proof {
            lemma_total_bound(was, b as int);
            lemma_total_update(was, b as int, (was[b as int] + 1) as u64);
        }
        let n: u64 = self.buckets[b];
        self.buckets.set(b, n + 1);
        self.count = self.count + 1;
        self.sum_micros = self.sum_micros.wrapping_add(micros);
        if micros < self.min_micros {
            self.min_micros = micros;
        }
        if micros > self.max_micros {
            self.max_micros = micros;
        }
    }

    /// Records an elapsed time, in microseconds.
    pub fn record(&mut self, duration: u128)
        requires
            old(self).wf(),
            old(self)@.count < u64::MAX,
        ensures
            final(self).wf(),
            final(self)@ == with_sample(
                old(self)@,
                if duration > u64::MAX {
                    u64::MAX
                } else {
                    duration as u64
                },
            ),
    {
        let micros: u64 = if duration > u64::MAX as u128 {
            u64::MAX
        } else {
            duration as u64
        };
        self.record_micros(micros);
    }

    /// Number of samples recorded.
    #[must_use]
    pub fn count(&self) -> (n: u64)
        ensures
            n == self@.count,
    {
        self.count
    }

    /// Sum of every sample, in microseconds.
    #[must_use]
    pub fn sum_micros(&self) -> (n: u64)
        ensures
            n == self@.sum,
    {
        self.sum_micros
    }

    /// Smallest sample, or 0 when empty. Exact, not bucketed.
    #[must_use]
    pub fn min_micros(&self) -> (n: u64)
        ensures
            n == if self@.count == 0 {
                0
            } else {
                self@.min
            },
    {
        if self.count == 0 {
            0
        } else {
            self.min_micros
        }
    }

    /// Largest sample. Exact, not bucketed.
    #[must_use]
    pub fn max_micros(&self) -> (n: u64)
        ensures
            n == self@.max,
    {
        self.max_micros
    }

    /// Approximate quantile in microseconds, asked for in thousandths.
    ///
    /// The argument is clamped to `[0, 1000]`. Returns the upper bound of the
    /// bucket that contains the requested quantile, so the result is an
    /// over-estimate by at most one bucket width (2x).
    #[must_use]
    pub fn quantile_micros(&self, thousandths: i64) -> (n: u64)
        requires
            self.wf(),
        ensures
            n == quantile_of(self@, thousandths as int),
    {
        let total: u64 = self.count;
        if total == 0 {
            return 0;
        }
        let q: u64 = if thousandths < 0 {
            0
        } else if thousandths > 1000 {
            1000
        } else {
            thousandths as u64
        };
        assert(total * q <= u64::MAX * 1000) by (nonlinear_arith)
            requires
                total <= u64::MAX,
                q <= 1000,
        ;
        let rank: u128 = (total as u128 * q as u128 + 999) / 1000;
        let target: u128 = if rank < 1 {
            1
        } else {
            rank
        };
        assert(target == rank_of(total, thousandths as int));
        let top: u64 = if self.max_micros > 1 {
            self.max_micros
        } else {
            1
        };
        let mut cumulative: u64 = 0;
        let mut i: usize = 0;
        assert(total_of(self.buckets@.subrange(0, 0)) == 0);
        while i < self.buckets.len()
            invariant
                i <= self.buckets@.len(),
                self.wf(),
                cumulative == total_of(self.buckets@.subrange(0, i as int)),
                total == self.count,
                total > 0,
                top == if self.max_micros > 1 {
                    self.max_micros
                } else {
                    1
                },
                target == rank_of(total, thousandths as int),
                reaches(self.buckets@, target as int, 0) == reaches(
                    self.buckets@,
                    target as int,
                    i as int,
                ),
            decreases self.buckets@.len() - i,
        {
            proof {
                let more = self.buckets@.subrange(0, i + 1);
                assert(more.drop_last() =~= self.buckets@.subrange(0, i as int));
                lemma_total_grows(self.buckets@, i + 1);
            }
            cumulative = cumulative + self.buckets[i];
            if cumulative as u128 >= target {
                let bound: u64 = Histogram::bucket_upper_bound(i);
                return if bound < top {
                    bound
                } else {
                    top
                };
            }
            i += 1;
        }
        self.max_micros
    }

    /// p50 in microseconds.
    #[must_use]
    pub fn p50_micros(&self) -> (n: u64)
        requires
            self.wf(),
        ensures
            n == quantile_of(self@, 500),
    {
        self.quantile_micros(500)
    }

    /// p99 in microseconds.
    #[must_use]
    pub fn p99_micros(&self) -> (n: u64)
        requires
            self.wf(),
        ensures
            n == quantile_of(self@, 990),
    {
        self.quantile_micros(990)
    }

    /// p999 in microseconds.
    #[must_use]
    pub fn p999_micros(&self) -> (n: u64)
        requires
            self.wf(),
        ensures
            n == quantile_of(self@, 999),
    {
        self.quantile_micros(999)
    }

    /// Snapshot of the bucket counts.
    #[must_use]
    pub fn buckets(&self) -> (b: Vec<u64>)
        ensures
            b@ == self@.buckets,
    {
        let mut b: Vec<u64> = Vec::new();
        let mut i: usize = 0;
        while i < self.buckets.len()
            invariant
                i <= self.buckets@.len(),
                b@ == self.buckets@.subrange(0, i as int),
            decreases self.buckets@.len() - i,
        {
            b.push(self.buckets[i]);
            i += 1;
            assert(b@ =~= self.buckets@.subrange(0, i as int));
        }
        assert(b@ =~= self.buckets@);
        b
    }
}

pub(crate) proof fn lemma_total_update(b: Seq<u64>, i: int, v: u64)
    requires
        0 <= i < b.len(),
    ensures
        total_of(b.update(i, v)) == total_of(b) - b[i] + v,
    decreases b.len(),
{
    if i == b.len() - 1 {
        assert(b.update(i, v).drop_last() =~= b.drop_last());
    } else {
        assert(b.update(i, v).drop_last() =~= b.drop_last().update(i, v));
        lemma_total_update(b.drop_last(), i, v);
    }
}

proof fn lemma_total_bound(b: Seq<u64>, i: int)
    requires
        0 <= i < b.len(),
    ensures
        b[i] <= total_of(b),
    decreases b.len(),
{
    if i < b.len() - 1 {
        lemma_total_bound(b.drop_last(), i);
    }
}

proof fn lemma_total_grows(b: Seq<u64>, i: int)
    requires
        0 <= i <= b.len(),
    ensures
        total_of(b.subrange(0, i)) <= total_of(b),
    decreases b.len() - i,
{
    if i < b.len() {
        lemma_total_grows(b, i + 1);
        assert(b.subrange(0, i + 1).drop_last() =~= b.subrange(0, i));
    } else {
        assert(b.subrange(0, i) =~= b);
    }
}

/// A number is at least the power of two of its halvings, and below the next.
proof fn lemma_halvings(n: nat)
    requires
        n >= 1,
    ensures
        pow2(halvings(n)) <= n < pow2(halvings(n) + 1),
    decreases n,
{
    lemma2_to64();
    if n >= 2 {
        lemma_halvings(n / 2);
        lemma_pow2_unfold(halvings(n));
        lemma_pow2_unfold(halvings(n) + 1);
    }
}

/// Bucket `i` covers `[2^i, 2^(i+1))`: a sample above one microsecond is at
/// least the lower bound of its bucket, and below the upper bound, except in
/// the top bucket.
pub proof fn law_buckets_double(micros: u64)
    ensures
        micros >= 2 ==> pow2(bucket_of(micros) as nat) <= micros,
        bucket_of(micros) < HISTOGRAM_BUCKETS - 1 ==> micros < bound_of(bucket_of(micros)),
{
    lemma2_to64();
    if micros >= 2 {
        let h = halvings(micros as nat);
        lemma_halvings(micros as nat);
        if h >= HISTOGRAM_BUCKETS {
            lemma_pow2_strictly_increases(31, h);
        } else if h < 31 {
            if h + 1 < 31 {
                lemma_pow2_strictly_increases(h + 1, 31);
            }
        }
    }
}

/// A quantile is never reported above the largest sample, or above a
/// microsecond where that is larger; without samples it is nothing.
pub proof fn law_quantiles_stay_below_the_maximum(s: Samples, thousandths: int)
    ensures
        quantile_of(s, thousandths) <= if s.max > 1 {
            s.max
        } else {
            1
        },
        s.count == 0 ==> quantile_of(s, thousandths) == 0,
{
}

/// Quantiles are monotonic: asking for a larger share reports no less.
pub proof fn law_quantiles_are_monotonic(s: Samples, a: int, b: int)
    requires
        a <= b,
        s.buckets.len() == HISTOGRAM_BUCKETS,
        total_of(s.buckets) == s.count,
    ensures
        quantile_of(s, a) <= quantile_of(s, b),
{
    if s.count > 0 {
        let (x, y) = (rank_of(s.count, a), rank_of(s.count, b));
        let p = if a < 0 {
            0
        } else if a > 1000 {
            1000
        } else {
            a
        };
        let q = if b < 0 {
            0
        } else if b > 1000 {
            1000
        } else {
            b
        };
        assert(s.count * p <= s.count * q) by (nonlinear_arith)
            requires
                p <= q,
                s.count >= 0,
        ;
        assert(x <= y);
        lemma_reaches_monotonic(s.buckets, x, y, 0);
        let (i, j) = (reaches(s.buckets, x, 0), reaches(s.buckets, y, 0));
        lemma_rank(s.count, b);
        lemma_reaches(s.buckets, y, 0);
        lemma_bounds_grow(i, j);
    }
}

/// A quantile asks for one of the samples.
pub(crate) proof fn lemma_rank(count: u64, thousandths: int)
    requires
        count > 0,
    ensures
        1 <= rank_of(count, thousandths) <= count,
{
    let q = if thousandths < 0 {
        0
    } else if thousandths > 1000 {
        1000
    } else {
        thousandths
    };
    assert(count * q <= count * 1000) by (nonlinear_arith)
        requires
            q <= 1000,
            count > 0,
    ;
}

/// Which bucket the first is by which so many samples are counted.
pub(crate) proof fn lemma_reaches(b: Seq<u64>, target: int, i: int)
    requires
        0 <= i < b.len(),
        total_of(b) >= target,
    ensures
        i <= reaches(b, target, i) < b.len(),
        total_of(b.subrange(0, reaches(b, target, i) + 1)) >= target,
        forall|k: int|
            i <= k < reaches(b, target, i) ==> total_of(#[trigger] b.subrange(0, k + 1)) < target,
    decreases b.len() - i,
{
    if total_of(b.subrange(0, i + 1)) < target {
        if i + 1 == b.len() {
            assert(b.subrange(0, i + 1) =~= b);
        }
        lemma_reaches(b, target, i + 1);
    }
}

proof fn lemma_reaches_monotonic(b: Seq<u64>, x: int, y: int, i: int)
    requires
        x <= y,
        0 <= i <= b.len(),
    ensures
        i <= reaches(b, x, i) <= reaches(b, y, i) <= b.len(),
    decreases b.len() - i,
{
    if i < b.len() {
        lemma_reaches_monotonic(b, x, y, i + 1);
    }
}

proof fn lemma_bounds_grow(i: int, j: int)
    requires
        0 <= i <= j < HISTOGRAM_BUCKETS,
    ensures
        bound_of(i) <= bound_of(j),
{
    lemma2_to64();
    if i < j && j < HISTOGRAM_BUCKETS - 1 {
        lemma_pow2_strictly_increases((i + 1) as nat, (j + 1) as nat);
        if j + 1 < 31 {
            lemma_pow2_strictly_increases((j + 1) as nat, 31);
        }
    }
}

/// Times a block of work between two readings of a clock in microseconds.
#[derive(Debug, Clone, Copy)]
pub struct Timer {
    started: u128,
}

impl View for Timer {
    type V = u128;

    closed spec fn view(&self) -> u128 {
        self.started
    }
}

impl Timer {
    /// Starts timing at the reading `now`.
    #[must_use]
    pub fn start(now: u128) -> (t: Self)
        ensures
            t@ == now,
    {
        Timer { started: now }
    }

    /// Elapsed time at the reading `now`; nothing if the clock went back.
    #[must_use]
    pub fn elapsed(&self, now: u128) -> (d: u128)
        ensures
            d == if now > self@ {
                now - self@
            } else {
                0
            },
    {
        if now > self.started {
            now - self.started
        } else {
            0
        }
    }

    /// Stops timing and records the elapsed time.
    pub fn stop(self, now: u128, histogram: &mut Histogram)
        requires
            old(histogram).wf(),
            old(histogram)@.count < u64::MAX,
        ensures
            final(histogram).wf(),
            ({
                let d = if now > self@ {
                    now - self@
                } else {
                    0
                };
                final(histogram)@ == with_sample(
                    old(histogram)@,
                    if d > u64::MAX {
                        u64::MAX
                    } else {
                        d as u64
                    },
                )
            }),
    {
        let d: u128 = self.elapsed(now);
        histogram.record(d);
    }
}

/// The engine-wide metric set: WAL fsync latency percentiles, compaction
/// throughput, page cache hit ratio, and Raft commit-index lag.
#[derive(Debug)]
pub struct EngineMetrics {
    /// WAL `fsync` latency. p50/p99/p999 come from this.
    pub wal_fsync_latency: Histogram,
    /// WAL bytes appended.
    pub wal_bytes_written: Counter,
    /// WAL `fsync` calls.
    pub wal_fsyncs: Counter,
    /// Reads served from the page cache.
    pub cache_hits: Counter,
    /// Reads that had to touch the mapping or disk.
    pub cache_misses: Counter,
    /// Pages currently resident.
    pub cache_resident_pages: Gauge,
    /// Pages evicted.
    pub cache_evictions: Counter,
    /// MemTable flushes completed.
    pub flushes: Counter,
    /// Compactions completed.
    pub compactions: Counter,
    /// Bytes read by compaction.
    pub compaction_bytes_in: Counter,
    /// Bytes written by compaction.
    pub compaction_bytes_out: Counter,
    /// Wall-clock time per compaction.
    pub compaction_duration: Histogram,
    /// Live SSTables.
    pub sstable_count: Gauge,
    /// Transactions committed.
    pub txn_commits: Counter,
    /// Transactions rolled back.
    pub txn_rollbacks: Counter,
    /// Write-write conflicts detected.
    pub txn_conflicts: Counter,
    /// End-to-end commit latency.
    pub txn_commit_latency: Histogram,
    /// Point reads served.
    pub reads: Counter,
    /// Writes applied.
    pub writes: Counter,
    /// Read latency.
    pub read_latency: Histogram,
    /// Leader commit index minus this node's applied index.
    pub raft_commit_lag: Gauge,
    /// Raft log entries appended.
    pub raft_entries_appended: Counter,
    /// Leader elections observed.
    pub raft_elections: Counter,
}

/// Appends a text.
fn put(s: &mut String, text: &str)
    ensures
        final(s)@ == old(s)@ + text@,
{
    s.append(text);
}

/// Appends a number in decimal.
fn put_number(s: &mut String, n: u64)
    ensures
        final(s)@ == old(s)@ + decimal(n as nat),
{
    let d: String = decimal_string(n);
    s.append(d.as_str());
}

/// A text with a counter behind it, in exposition format.
pub open spec fn with_counter(s: Seq<char>, name: Seq<char>, help: Seq<char>, v: u64) -> Seq<char> {
    s + "# HELP "@ + name + " "@ + help + "\n# TYPE "@ + name + " counter\n"@ + name + " "@ + decimal(
        v as nat,
    ) + "\n"@
}

/// A text with a gauge behind it, in exposition format.
pub open spec fn with_gauge(
    s: Seq<char>,
    name: Seq<char>,
    help: Seq<char>,
    v: Seq<char>,
) -> Seq<char> {
    s + "# HELP "@ + name + " "@ + help + "\n# TYPE "@ + name + " gauge\n"@ + name + " "@ + v
        + "\n"@
}

/// A text with a latency summary behind it, which carries its quantiles as
/// labels.
pub open spec fn with_summary(
    s: Seq<char>,
    name: Seq<char>,
    help: Seq<char>,
    h: Samples,
) -> Seq<char> {
    let head = s + "# HELP "@ + name + " "@ + help + "\n# TYPE "@ + name + " summary\n"@;
    let p50 = head + name + "{quantile=\"0.5\"} "@ + decimal(quantile_of(h, 500) as nat) + "\n"@;
    let p99 = p50 + name + "{quantile=\"0.99\"} "@ + decimal(quantile_of(h, 990) as nat) + "\n"@;
    let p999 = p99 + name + "{quantile=\"0.999\"} "@ + decimal(quantile_of(h, 999) as nat)
        + "\n"@;
    let count = p999 + name + "_count "@ + decimal(h.count as nat) + "\n"@;
    count + name + "_sum "@ + decimal(h.sum as nat) + "\n"@
}

fn put_counter(s: &mut String, name: &str, help: &str, v: u64)
    ensures
        final(s)@ == with_counter(old(s)@, name@, help@, v),
{
    put(s, "# HELP ");
    put(s, name);
    put(s, " ");
    put(s, help);
    put(s, "\n# TYPE ");
    put(s, name);
    put(s, " counter\n");
    put(s, name);
    put(s, " ");
    put_number(s, v);
    put(s, "\n");
}

fn put_gauge(s: &mut String, name: &str, help: &str, v: &str)
    ensures
        final(s)@ == with_gauge(old(s)@, name@, help@, v@),
{
    put(s, "# HELP ");
    put(s, name);
    put(s, " ");
    put(s, help);
    put(s, "\n# TYPE ");
    put(s, name);
    put(s, " gauge\n");
    put(s, name);
    put(s, " ");
    put(s, v);
    put(s, "\n");
}

fn put_summary(s: &mut String, name: &str, help: &str, h: &Histogram)
    requires
        h.wf(),
    ensures
        final(s)@ == with_summary(old(s)@, name@, help@, h@),
{
    put(s, "# HELP ");
    put(s, name);
    put(s, " ");
    put(s, help);
    put(s, "\n# TYPE ");
    put(s, name);
    put(s, " summary\n");
    put(s, name);
    put(s, "{quantile=\"0.5\"} ");
    put_number(s, h.p50_micros());
    put(s, "\n");
    put(s, name);
    put(s, "{quantile=\"0.99\"} ");
    put_number(s, h.p99_micros());
    put(s, "\n");
    put(s, name);
    put(s, "{quantile=\"0.999\"} ");
    put_number(s, h.p999_micros());
    put(s, "\n");
    put(s, name);
    put(s, "_count ");
    put_number(s, h.count());
    put(s, "\n");
    put(s, name);
    put(s, "_sum ");
    put_number(s, h.sum_micros());
    put(s, "\n");
}

/// A text with a label and a number behind it.
pub open spec fn with_field(s: Seq<char>, label: Seq<char>, n: u64) -> Seq<char> {
    s + label + decimal(n as nat)
}

fn put_field(s: &mut String, label: &str, n: u64)
    ensures
        final(s)@ == with_field(old(s)@, label@, n),
{
    put(s, label);
    put_number(s, n);
}

impl EngineMetrics {
    /// The histograms are sound.
    pub open spec fn wf(&self) -> bool {
        &&& self.wal_fsync_latency.wf()
        &&& self.compaction_duration.wf()
        &&& self.txn_commit_latency.wf()
        &&& self.read_latency.wf()
    }

    /// Creates a zeroed metric set.
    #[must_use]
    pub fn new() -> (m: Self)
        ensures
            m.wf(),
            m.wal_bytes_written@ == 0,
            m.wal_fsyncs@ == 0,
            m.cache_hits@ == 0,
            m.cache_misses@ == 0,
            m.cache_resident_pages@ == 0,
            m.cache_evictions@ == 0,
            m.flushes@ == 0,
            m.compactions@ == 0,
            m.compaction_bytes_in@ == 0,
            m.compaction_bytes_out@ == 0,
            m.sstable_count@ == 0,
            m.txn_commits@ == 0,
            m.txn_rollbacks@ == 0,
            m.txn_conflicts@ == 0,
            m.reads@ == 0,
            m.writes@ == 0,
            m.raft_commit_lag@ == 0,
            m.raft_entries_appended@ == 0,
            m.raft_elections@ == 0,
            m.wal_fsync_latency@ == no_samples(),
            m.compaction_duration@ == no_samples(),
            m.txn_commit_latency@ == no_samples(),
            m.read_latency@ == no_samples(),
    {
        EngineMetrics {
            wal_fsync_latency: Histogram::new(),
            wal_bytes_written: Counter::new(),
            wal_fsyncs: Counter::new(),
            cache_hits: Counter::new(),
            cache_misses: Counter::new(),
            cache_resident_pages: Gauge::new(),
            cache_evictions: Counter::new(),
            flushes: Counter::new(),
            compactions: Counter::new(),
            compaction_bytes_in: Counter::new(),
            compaction_bytes_out: Counter::new(),
            compaction_duration: Histogram::new(),
            sstable_count: Gauge::new(),
            txn_commits: Counter::new(),
            txn_rollbacks: Counter::new(),
            txn_conflicts: Counter::new(),
            txn_commit_latency: Histogram::new(),
            reads: Counter::new(),
            writes: Counter::new(),
            read_latency: Histogram::new(),
            raft_commit_lag: Gauge::new(),
            raft_entries_appended: Counter::new(),
            raft_elections: Counter::new(),
        }
    }

    /// A text with the wal line behind it.
    pub open spec fn wal_line(&self, s: Seq<char>) -> Seq<char> {
        let s0 = s;
        let s1 = with_field(s0, "wal    fsyncs="@, self.wal_fsyncs@);
        let s2 = with_field(s1, " bytes="@, self.wal_bytes_written@);
        let s3 = with_field(s2, " p50="@, quantile_of(self.wal_fsync_latency@, 500));
        let s4 = with_field(s3, "us p99="@, quantile_of(self.wal_fsync_latency@, 990));
        let s5 = with_field(s4, "us p999="@, quantile_of(self.wal_fsync_latency@, 999));
        let s6 = s5 + "us\n"@;
        s6
    }

    fn put_wal_line(&self, s: &mut String)
        requires
            self.wf(),
        ensures
            final(s)@ == self.wal_line(old(s)@),
    {
        put_field(s, "wal    fsyncs=", self.wal_fsyncs.get());
        put_field(s, " bytes=", self.wal_bytes_written.get());
        put_field(s, " p50=", self.wal_fsync_latency.p50_micros());
        put_field(s, "us p99=", self.wal_fsync_latency.p99_micros());
        put_field(s, "us p999=", self.wal_fsync_latency.p999_micros());
        put(s, "us\n");
    }

    /// A text with the cache line behind it.
    pub open spec fn cache_line(&self, s: Seq<char>, ratio: Seq<char>) -> Seq<char> {
        let s0 = s;
        let s1 = with_field(s0, "cache  hits="@, self.cache_hits@);
        let s2 = with_field(s1, " misses="@, self.cache_misses@);
        let s3 = s2 + " ratio="@;
        let s4 = s3 + ratio;
        let s5 = with_field(s4, " resident="@, self.cache_resident_pages@);
        let s6 = with_field(s5, " evictions="@, self.cache_evictions@);
        let s7 = s6 + "\n"@;
        s7
    }

    fn put_cache_line(&self, s: &mut String, ratio: &str)
        requires
            self.wf(),
        ensures
            final(s)@ == self.cache_line(old(s)@, ratio@),
    {
        put_field(s, "cache  hits=", self.cache_hits.get());
        put_field(s, " misses=", self.cache_misses.get());
        put(s, " ratio=");
        put(s, ratio);
        put_field(s, " resident=", self.cache_resident_pages.get());
        put_field(s, " evictions=", self.cache_evictions.get());
        put(s, "\n");
    }

    /// A text with the lsm line behind it.
    pub open spec fn lsm_line(&self, s: Seq<char>, throughput: Seq<char>, amplification: Seq<char>) -> Seq<char> {
        let s0 = s;
        let s1 = with_field(s0, "lsm    flushes="@, self.flushes@);
        let s2 = with_field(s1, " compactions="@, self.compactions@);
        let s3 = with_field(s2, " tables="@, self.sstable_count@);
        let s4 = s3 + " throughput="@;
        let s5 = s4 + throughput;
        let s6 = s5 + "MB/s amp="@;
        let s7 = s6 + amplification;
        let s8 = s7 + "x\n"@;
        s8
    }

    fn put_lsm_line(&self, s: &mut String, throughput: &str, amplification: &str)
        requires
            self.wf(),
        ensures
            final(s)@ == self.lsm_line(old(s)@, throughput@, amplification@),
    {
        put_field(s, "lsm    flushes=", self.flushes.get());
        put_field(s, " compactions=", self.compactions.get());
        put_field(s, " tables=", self.sstable_count.get());
        put(s, " throughput=");
        put(s, throughput);
        put(s, "MB/s amp=");
        put(s, amplification);
        put(s, "x\n");
    }

    /// A text with the txn line behind it.
    pub open spec fn txn_line(&self, s: Seq<char>) -> Seq<char> {
        let s0 = s;
        let s1 = with_field(s0, "txn    commits="@, self.txn_commits@);
        let s2 = with_field(s1, " rollbacks="@, self.txn_rollbacks@);
        let s3 = with_field(s2, " conflicts="@, self.txn_conflicts@);
        let s4 = with_field(s3, " p99="@, quantile_of(self.txn_commit_latency@, 990));
        let s5 = s4 + "us\n"@;
        s5
    }

    fn put_txn_line(&self, s: &mut String)
        requires
            self.wf(),
        ensures
            final(s)@ == self.txn_line(old(s)@),
    {
        put_field(s, "txn    commits=", self.txn_commits.get());
        put_field(s, " rollbacks=", self.txn_rollbacks.get());
        put_field(s, " conflicts=", self.txn_conflicts.get());
        put_field(s, " p99=", self.txn_commit_latency.p99_micros());
        put(s, "us\n");
    }

    /// A text with the query line behind it.
    pub open spec fn query_line(&self, s: Seq<char>) -> Seq<char> {
        let s0 = s;
        let s1 = with_field(s0, "query  reads="@, self.reads@);
        let s2 = with_field(s1, " writes="@, self.writes@);
        let s3 = with_field(s2, " read_p50="@, quantile_of(self.read_latency@, 500));
        let s4 = with_field(s3, "us read_p99="@, quantile_of(self.read_latency@, 990));
        let s5 = s4 + "us\n"@;
        s5
    }

    fn put_query_line(&self, s: &mut String)
        requires
            self.wf(),
        ensures
            final(s)@ == self.query_line(old(s)@),
    {
        put_field(s, "query  reads=", self.reads.get());
        put_field(s, " writes=", self.writes.get());
        put_field(s, " read_p50=", self.read_latency.p50_micros());
        put_field(s, "us read_p99=", self.read_latency.p99_micros());
        put(s, "us\n");
    }

    /// A text with the raft line behind it.
    pub open spec fn raft_line(&self, s: Seq<char>) -> Seq<char> {
        let s0 = s;
        let s1 = with_field(s0, "raft   commit_lag="@, self.raft_commit_lag@);
        let s2 = with_field(s1, " appended="@, self.raft_entries_appended@);
        let s3 = with_field(s2, " elections="@, self.raft_elections@);
        let s4 = s3 + "\n"@;
        s4
    }

    fn put_raft_line(&self, s: &mut String)
        requires
            self.wf(),
        ensures
            final(s)@ == self.raft_line(old(s)@),
    {
        put_field(s, "raft   commit_lag=", self.raft_commit_lag.get());
        put_field(s, " appended=", self.raft_entries_appended.get());
        put_field(s, " elections=", self.raft_elections.get());
        put(s, "\n");
    }

    /// The report.
    pub open spec fn report_text(
        &self,
        ratio: Seq<char>,
        throughput: Seq<char>,
        amplification: Seq<char>,
    ) -> Seq<char> {
        let s = "PhoenixDB metrics\n=================\n"@;
        let s = self.wal_line(s);
        let s = self.cache_line(s, ratio);
        let s = self.lsm_line(s, throughput, amplification);
        let s = self.txn_line(s);
        let s = self.query_line(s);
        self.raft_line(s)
    }

    /// Renders a human-readable report, given the cache hit ratio, the
    /// compaction throughput and the write amplification as texts.
    #[must_use]
    pub fn report(&self, ratio: &str, throughput: &str, amplification: &str) -> (r: String)
        requires
            self.wf(),
        ensures
            r@ == self.report_text(ratio@, throughput@, amplification@),
    {
        let mut s: String = "PhoenixDB metrics\n=================\n".to_owned();
        self.put_wal_line(&mut s);
        self.put_cache_line(&mut s, ratio);
        self.put_lsm_line(&mut s, throughput, amplification);
        self.put_txn_line(&mut s);
        self.put_query_line(&mut s);
        self.put_raft_line(&mut s);
        s
    }

    /// The metric set in exposition format.
    pub open spec fn prometheus_text(&self, ratio: Seq<char>, throughput: Seq<char>) -> Seq<char> {
        let s = ""@;
        let s = with_counter(s, "phoenixdb_wal_fsyncs_total"@, "WAL fsync calls"@, self.wal_fsyncs@);
        let s = with_counter(s, "phoenixdb_wal_bytes_total"@, "WAL bytes written"@, self.wal_bytes_written@);
        let s = with_counter(s, "phoenixdb_cache_hits_total"@, "Page cache hits"@, self.cache_hits@);
        let s = with_counter(s, "phoenixdb_cache_misses_total"@, "Page cache misses"@, self.cache_misses@);
        let s = with_counter(s, "phoenixdb_flushes_total"@, "MemTable flushes"@, self.flushes@);
        let s = with_counter(s, "phoenixdb_compactions_total"@, "Compactions run"@, self.compactions@);
        let s = with_counter(s, "phoenixdb_txn_commits_total"@, "Transactions committed"@, self.txn_commits@);
        let s = with_counter(s, "phoenixdb_txn_conflicts_total"@, "Write-write conflicts"@, self.txn_conflicts@);
        let s = with_counter(s, "phoenixdb_reads_total"@, "Point reads"@, self.reads@);
        let s = with_counter(s, "phoenixdb_writes_total"@, "Writes applied"@, self.writes@);
        let s = with_gauge(s, "phoenixdb_cache_hit_ratio"@, "Cache hit ratio"@, ratio);
        let s = with_gauge(
            s,
            "phoenixdb_sstable_count"@,
            "Live SSTables"@,
            decimal(self.sstable_count@ as nat),
        );
        let s = with_gauge(
            s,
            "phoenixdb_raft_commit_lag"@,
            "Raft commit index lag"@,
            decimal(self.raft_commit_lag@ as nat),
        );
        let s = with_gauge(s, "phoenixdb_compaction_throughput_mbps"@, "Compaction MB/s"@, throughput);
        let s = with_summary(s, "phoenixdb_wal_fsync_micros"@, "WAL fsync latency"@, self.wal_fsync_latency@);
        let s = with_summary(s, "phoenixdb_commit_micros"@, "Commit latency"@, self.txn_commit_latency@);
        let s = with_summary(s, "phoenixdb_read_micros"@, "Read latency"@, self.read_latency@);
        s
    }

    /// Renders the metric set in Prometheus text exposition format, given the
    /// cache hit ratio and the compaction throughput as texts.
    #[must_use]
    pub fn prometheus(&self, ratio: &str, throughput: &str) -> (r: String)
        requires
            self.wf(),
        ensures
            r@ == self.prometheus_text(ratio@, throughput@),
    {
        let mut s: String = "".to_owned();
        put_counter(&mut s, "phoenixdb_wal_fsyncs_total", "WAL fsync calls", self.wal_fsyncs.get());
        put_counter(&mut s, "phoenixdb_wal_bytes_total", "WAL bytes written", self.wal_bytes_written.get());
        put_counter(&mut s, "phoenixdb_cache_hits_total", "Page cache hits", self.cache_hits.get());
        put_counter(&mut s, "phoenixdb_cache_misses_total", "Page cache misses", self.cache_misses.get());
        put_counter(&mut s, "phoenixdb_flushes_total", "MemTable flushes", self.flushes.get());
        put_counter(&mut s, "phoenixdb_compactions_total", "Compactions run", self.compactions.get());
        put_counter(&mut s, "phoenixdb_txn_commits_total", "Transactions committed", self.txn_commits.get());
        put_counter(&mut s, "phoenixdb_txn_conflicts_total", "Write-write conflicts", self.txn_conflicts.get());
        put_counter(&mut s, "phoenixdb_reads_total", "Point reads", self.reads.get());
        put_counter(&mut s, "phoenixdb_writes_total", "Writes applied", self.writes.get());
        put_gauge(&mut s, "phoenixdb_cache_hit_ratio", "Cache hit ratio", ratio);
        let sstable_count: String = decimal_string(self.sstable_count.get());
        put_gauge(&mut s, "phoenixdb_sstable_count", "Live SSTables", sstable_count.as_str());
        let raft_commit_lag: String = decimal_string(self.raft_commit_lag.get());
        put_gauge(&mut s, "phoenixdb_raft_commit_lag", "Raft commit index lag", raft_commit_lag.as_str());
        put_gauge(&mut s, "phoenixdb_compaction_throughput_mbps", "Compaction MB/s", throughput);
        put_summary(&mut s, "phoenixdb_wal_fsync_micros", "WAL fsync latency", &self.wal_fsync_latency);
        put_summary(&mut s, "phoenixdb_commit_micros", "Commit latency", &self.txn_commit_latency);
        put_summary(&mut s, "phoenixdb_read_micros", "Read latency", &self.read_latency);
        s
    }

    /// Reads served from memory and all reads, of which the hit ratio is the
    /// quotient.
    pub fn cache_hit_parts(&self) -> (r: (u64, u128))
        ensures
            r.0 == self.cache_hits@,
            r.1 == self.cache_hits@ + self.cache_misses@,
    {
        let hits: u64 = self.cache_hits.get();
        (hits, hits as u128 + self.cache_misses.get() as u128)
    }
}

} // verus!
