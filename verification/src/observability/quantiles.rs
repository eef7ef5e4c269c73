//! What quantiles say about the samples that were recorded.

use crate::observability::metrics::{
    bound_of, bucket_of, halvings, law_buckets_double, lemma_rank, lemma_reaches,
    lemma_total_update, no_samples, quantile_of, rank_of, reaches, total_of, with_sample, Samples,
    HISTOGRAM_BUCKETS,
};
use vstd::arithmetic::power2::{lemma2_to64, lemma_pow2_strictly_increases, lemma_pow2_unfold, pow2};
use vstd::prelude::*;

verus! {

/// What a histogram holds once these samples were recorded.
pub open spec fn samples_of(list: Seq<u64>) -> Samples
    decreases list.len(),
{
    if list.len() == 0 {
        no_samples()
    } else {
        with_sample(samples_of(list.drop_last()), list.last())
    }
}

/// How many samples are below `v`.
pub open spec fn below(list: Seq<u64>, v: u64) -> nat
    decreases list.len(),
{
    if list.len() == 0 {
        0
    } else {
        below(list.drop_last(), v) + if list.last() < v {
            1nat
        } else {
            0nat
        }
    }
}

/// How many samples are at most `v`.
pub open spec fn at_most(list: Seq<u64>, v: u64) -> nat
    decreases list.len(),
{
    if list.len() == 0 {
        0
    } else {
        at_most(list.drop_last(), v) + if list.last() <= v {
            1nat
        } else {
            0nat
        }
    }
}

/// `v` is the sample of that rank, counted from the smallest.
pub open spec fn ranks(list: Seq<u64>, v: u64, rank: int) -> bool {
    below(list, v) < rank <= at_most(list, v)
}

/// How many samples fall into the first buckets, up to the `i`-th.
spec fn within(list: Seq<u64>, i: int) -> nat
    decreases list.len(),
{
    if list.len() == 0 {
        0
    } else {
        within(list.drop_last(), i) + if bucket_of(list.last()) <= i {
            1nat
        } else {
            0nat
        }
    }
}

/// A larger number can be halved no less often.
proof fn lemma_halvings_grow(a: nat, b: nat)
    requires
        a <= b,
    ensures
        halvings(a) <= halvings(b),
    decreases b,
{
    if a >= 2 {
        lemma_halvings_grow(a / 2, b / 2);
    }
}

/// Buckets hold nothing at first.
proof fn lemma_nothing(b: Seq<u64>)
    requires
        forall|i: int| 0 <= i < b.len() ==> #[trigger] b[i] == 0,
    ensures
        total_of(b) == 0,
    decreases b.len(),
{
    if b.len() > 0 {
        lemma_nothing(b.drop_last());
    }
}

/// Every bucket holds no more than there are samples.
proof fn lemma_bucket_len(list: Seq<u64>)
    requires
        list.len() <= u64::MAX,
    ensures
        samples_of(list).buckets.len() == HISTOGRAM_BUCKETS,
        samples_of(list).count == list.len(),
        forall|i: int|
            0 <= i < HISTOGRAM_BUCKETS ==> #[trigger] samples_of(list).buckets[i] <= list.len(),
        forall|i: int| 0 <= i < list.len() ==> #[trigger] list[i] <= samples_of(list).max,
    decreases list.len(),
{
    if list.len() > 0 {
        let less = list.drop_last();
        lemma_bucket_len(less);
        assert forall|i: int| 0 <= i < list.len() implies #[trigger] list[i] <= samples_of(
            list,
        ).max by {
            if i < less.len() {
                assert(less[i] == list[i]);
            }
        }
    }
}

/// The first buckets count the samples that fall into them.
proof fn lemma_counted(list: Seq<u64>, i: int)
    requires
        list.len() <= u64::MAX,
        -1 <= i < HISTOGRAM_BUCKETS,
    ensures
        samples_of(list).buckets.len() == HISTOGRAM_BUCKETS,
        total_of(samples_of(list).buckets.subrange(0, i + 1)) == within(list, i),
    decreases list.len(),
{
    lemma_bucket_len(list);
    let now = samples_of(list).buckets;
    if list.len() == 0 {
        lemma_nothing(now.subrange(0, i + 1));
    } else {
        let less = list.drop_last();
        lemma_counted(less, i);
        lemma_bucket_len(less);
        let was = samples_of(less).buckets;
        let b = bucket_of(list.last());
        if b <= i {
            assert(now.subrange(0, i + 1) =~= was.subrange(0, i + 1).update(
                b,
                (was[b] + 1) as u64,
            ));
            lemma_total_update(was.subrange(0, i + 1), b, (was[b] + 1) as u64);
        } else {
            assert(now.subrange(0, i + 1) =~= was.subrange(0, i + 1));
        }
    }
}

/// How the buckets count around a sample.
proof fn lemma_around(list: Seq<u64>, v: u64)
    ensures
        at_most(list, v) <= within(list, bucket_of(v)),
        within(list, bucket_of(v) - 1) <= below(list, v),
        at_most(list, v) <= list.len(),
        at_most(list, v) > below(list, v) ==> list.contains(v),
        at_most(list, v) >= below(list, v),
    decreases list.len(),
{
    if list.len() > 0 {
        let less = list.drop_last();
        lemma_around(less, v);
        let s = list.last();
        if s <= v {
            lemma_halvings_grow(s as nat, v as nat);
        } else {
            lemma_halvings_grow(v as nat, s as nat);
        }
        if at_most(list, v) > below(list, v) {
            if s == v {
                assert(list[list.len() - 1] == v);
            } else {
                let j = choose|j: int| 0 <= j < less.len() && less[j] == v;
                assert(list[j] == v);
            }
        }
    }
}

/// All samples fall into some bucket.
proof fn lemma_all_within(list: Seq<u64>)
    ensures
        within(list, HISTOGRAM_BUCKETS - 1) == list.len(),
    decreases list.len(),
{
    if list.len() > 0 {
        lemma_all_within(list.drop_last());
    }
}

/// A quantile over-estimates by at most one bucket: it is reported as no less
/// than the sample of its rank and as at most twice that, unless the sample is
/// below a microsecond or beyond the lower bound of the top bucket.
pub proof fn law_quantiles_bracket_the_sample(list: Seq<u64>, thousandths: int, v: u64)
    requires
        0 < list.len() <= u64::MAX,
        ranks(list, v, rank_of(list.len() as u64, thousandths)),
    ensures
        quantile_of(samples_of(list), thousandths) >= v,
        1 <= v < 0x8000_0000 ==> quantile_of(samples_of(list), thousandths) <= 2 * v,
{
    let s = samples_of(list);
    let rank = rank_of(list.len() as u64, thousandths);
    let b = bucket_of(v);
    lemma_bucket_len(list);
    lemma_rank(s.count, thousandths);
    lemma_all_within(list);
    lemma_counted(list, HISTOGRAM_BUCKETS - 1);
    assert(s.buckets.subrange(0, HISTOGRAM_BUCKETS as int) =~= s.buckets);
    lemma_reaches(s.buckets, rank, 0);
    let i = reaches(s.buckets, rank, 0);
    lemma_around(list, v);
    lemma_counted(list, b);
    lemma_counted(list, b - 1);
    lemma_counted(list, i);
    if i < b {
        lemma_within_grows(list, i, b - 1);
    }
    if i > b {
        assert(total_of(s.buckets.subrange(0, b + 1)) < rank);
    }
    assert(i == b);
    let at = choose|j: int| 0 <= j < list.len() && list[j] == v;
    assert(list[at] == v);
    assert(v <= s.max);
    law_buckets_double(v);
    lemma2_to64();
    if 1 <= v < 0x8000_0000 {
        if v >= 2 {
            if b >= 31 {
                assert(pow2(31) <= v);
            }
            lemma_pow2_unfold((b + 1) as nat);
            if b + 1 < 31 {
                lemma_pow2_strictly_increases((b + 1) as nat, 31);
            }
        } else {
            assert(b == 0);
        }
        assert(bound_of(b) <= 2 * v);
    }
}

proof fn lemma_within_grows(list: Seq<u64>, i: int, j: int)
    requires
        i <= j,
    ensures
        within(list, i) <= within(list, j),
    decreases list.len(),
{
    if list.len() > 0 {
        lemma_within_grows(list.drop_last(), i, j);
    }
}

} // verus!
