//! Leveled compaction: bounding read amplification and reclaiming space.
//!
//! # Level invariants
//!
//! * **L0** holds freshly flushed tables. They may overlap each other freely,
//!   so a read must consult *every* L0 table (newest first). L0 is therefore
//!   size-limited by table *count*.
//! * **L1+** hold non-overlapping runs, kept sorted by key range. Each level's
//!   byte budget grows by [`LevelConfig::size_multiplier`].
//!
//! # Trigger and priority
//!
//! A level's *score* is how far it exceeds its budget. The scheduler always
//! picks the highest-scoring level, so the most write-amplifying backlog is
//! drained first. L0 scores on file count because its cost is proportional to
//! how many tables a read must touch. Scores are fractions, compared exactly.

use crate::bytes::lex_le;
use crate::lsm::merge::clipped;
use crate::lsm::sstable::{Summary, TableMeta};
use vstd::arithmetic::power::{lemma_pow0, lemma_pow1, pow};
use vstd::prelude::*;

verus! {

/// Tunables for the level layout and compaction triggers.
#[derive(Debug, Clone, Copy)]
pub struct LevelConfig {
    /// L0 table count that triggers a compaction into L1.
    pub l0_compaction_trigger: usize,
    /// Byte budget of L1; each deeper level multiplies it.
    pub base_level_bytes: u64,
    /// Growth factor between consecutive levels.
    pub size_multiplier: u64,
    /// Number of levels, including L0.
    pub max_levels: u32,
}

impl Default for LevelConfig {
    fn default() -> (c: Self)
        ensures
            c.l0_compaction_trigger == 4,
            c.base_level_bytes == 8 * 1024 * 1024,
            c.size_multiplier == 10,
            c.max_levels == 7,
    {
        LevelConfig {
            l0_compaction_trigger: 4,
            base_level_bytes: 8 * 1024 * 1024,
            size_multiplier: 10,
            max_levels: 7,
        }
    }
}

/// The byte budget of a level: that of L1, multiplied once per deeper level,
/// and at most the largest number. L0 has no byte budget.
pub open spec fn budget(c: LevelConfig, level: u32) -> u64 {
    if level == 0 {
        u64::MAX
    } else {
        clipped(c.base_level_bytes * clipped(pow(c.size_multiplier as int, (level - 1) as nat)))
    }
}

/// A power of a number, kept within sixty-four bits.
fn saturating_power(base: u64, exponent: u32) -> (p: u64)
    ensures
        p == clipped(pow(base as int, exponent as nat)),
{
    proof {
        lemma_pow0(base as int);
    }
    if exponent == 0 {
        return 1;
    }
    if base <= 1 {
        proof {
            lemma_small_powers(base as int, exponent as nat);
        }
        return base;
    }
    let mut p: u64 = base;
    let mut i: u32 = 1;
    proof {
        lemma_pow1(base as int);
    }
    while i < exponent
        invariant
            1 <= i <= exponent,
            2 <= base,
            p == pow(base as int, i as nat),
        decreases exponent - i,
    {
        proof {
            reveal(pow);
            assert(pow(base as int, (i + 1) as nat) == base * pow(base as int, i as nat));
            assert(base * p == p * base) by (nonlinear_arith);
        }
        match p.checked_mul(base) {
            Some(q) => {
                p = q;
            },
            None => {
                proof {
                    lemma_powers_grow(base as int, (i + 1) as nat, exponent as nat);
                }
                return u64::MAX;
            },
        }
        i += 1;
    }
    p
}

proof fn lemma_small_powers(base: int, exponent: nat)
    requires
        0 <= base <= 1,
        exponent >= 1,
    ensures
        pow(base, exponent) == base,
    decreases exponent,
{
    reveal(pow);
    if exponent == 1 {
        lemma_pow1(base);
    } else {
        lemma_small_powers(base, (exponent - 1) as nat);
        assert(base * base == base) by (nonlinear_arith)
            requires
                0 <= base <= 1,
        ;
    }
}

proof fn lemma_powers_grow(base: int, i: nat, j: nat)
    requires
        base >= 2,
        i <= j,
    ensures
        1 <= pow(base, i) <= pow(base, j),
    decreases j,
{
    reveal(pow);
    if i < j {
        lemma_powers_grow(base, i, (j - 1) as nat);
        let q = pow(base, (j - 1) as nat);
        assert(base * q >= q) by (nonlinear_arith)
            requires
                base >= 2,
                q >= 1,
        ;
    } else if j > 0 {
        lemma_powers_grow(base, (j - 1) as nat, (j - 1) as nat);
        let q = pow(base, (j - 1) as nat);
        assert(base * q >= 1) by (nonlinear_arith)
            requires
                base >= 2,
                q >= 1,
        ;
    }
}

impl LevelConfig {
    /// Byte budget for `level`. L0 is governed by file count, not bytes.
    #[must_use]
    pub fn level_budget(&self, level: u32) -> (b: u64)
        ensures
            b == budget(*self, level),
    {
        if level == 0 {
            return u64::MAX;
        }
        let p: u64 = saturating_power(self.size_multiplier, level - 1);
        assert(self.base_level_bytes * p <= u64::MAX * u64::MAX) by (nonlinear_arith)
            requires
                self.base_level_bytes <= u64::MAX,
                p <= u64::MAX,
        ;
        match self.base_level_bytes.checked_mul(p) {
            Some(b) => b,
            None => u64::MAX,
        }
    }
}

/// How far a level exceeds its budget: a fraction, or without bound where the
/// budget is nothing.
#[derive(Debug, Clone, Copy, PartialEq, Eq)]
pub struct Score {
    /// What the level holds.
    pub amount: u64,
    /// What it may hold.
    pub budget: u64,
}

/// The first score is the higher.
pub open spec fn exceeds(a: Score, b: Score) -> bool {
    if a.budget == 0 || b.budget == 0 {
        a.budget == 0 && b.budget != 0
    } else {
        a.amount * b.budget > b.amount * a.budget
    }
}

/// The level holds at least its budget.
pub open spec fn is_due(s: Score) -> bool {
    s.amount >= s.budget
}

impl Score {
    /// Whether this score is the higher.
    #[must_use]
    pub fn exceeds(&self, other: &Score) -> (r: bool)
        ensures
            r == exceeds(*self, *other),
    {
        if self.budget == 0 || other.budget == 0 {
            return self.budget == 0 && other.budget != 0;
        }
        assert(self.amount * other.budget <= u64::MAX * u64::MAX) by (nonlinear_arith)
            requires
                self.amount <= u64::MAX,
                other.budget <= u64::MAX,
        ;
        assert(other.amount * self.budget <= u64::MAX * u64::MAX) by (nonlinear_arith)
            requires
                other.amount <= u64::MAX,
                self.budget <= u64::MAX,
        ;
        self.amount as u128 * other.budget as u128 > other.amount as u128 * self.budget as u128
    }

    /// Whether a compaction is due.
    #[must_use]
    pub fn is_due(&self) -> (r: bool)
        ensures
            r == is_due(*self),
    {
        self.amount >= self.budget
    }
}

/// What a list of summaries says.
pub open spec fn metas(v: Seq<TableMeta>) -> Seq<Summary> {
    Seq::new(v.len(), |i: int| v[i]@)
}

/// Total size of a list of tables.
pub open spec fn bytes_of(v: Seq<Summary>) -> int
    decreases v.len(),
{
    if v.len() == 0 {
        0
    } else {
        bytes_of(v.drop_last()) + v.last().file_bytes
    }
}

/// The tables whose key range meets `[from, to]`, in order.
pub open spec fn meeting(v: Seq<Summary>, from: Seq<u8>, to: Seq<u8>) -> Seq<Summary>
    decreases v.len(),
{
    if v.len() == 0 {
        Seq::empty()
    } else {
        let t = v.last();
        let less = meeting(v.drop_last(), from, to);
        if lex_le(t.min_key, to) && lex_le(from, t.max_key) {
            less.push(t)
        } else {
            less
        }
    }
}

/// The key may be in the table.
pub open spec fn spans_key(t: Summary, key: Seq<u8>) -> bool {
    lex_le(t.min_key, key) && lex_le(key, t.max_key)
}

/// The tables that may hold the key, last first.
pub open spec fn newest_first(v: Seq<Summary>, key: Seq<u8>) -> Seq<Summary>
    decreases v.len(),
{
    if v.len() == 0 {
        Seq::empty()
    } else if spans_key(v.last(), key) {
        seq![v.last()] + newest_first(v.drop_last(), key)
    } else {
        newest_first(v.drop_last(), key)
    }
}

/// The first table that may hold the key, if there is one.
pub open spec fn only_one(v: Seq<Summary>, key: Seq<u8>) -> Seq<Summary>
    decreases v.len(),
{
    if v.len() == 0 {
        Seq::empty()
    } else if spans_key(v[0], key) {
        seq![v[0]]
    } else {
        only_one(v.subrange(1, v.len() as int), key)
    }
}

/// The tables that a lookup consults, in order: those of L0 that may hold the
/// key, newest first, then at most one of each deeper level.
pub open spec fn consulted(levels: Seq<Seq<Summary>>, key: Seq<u8>) -> Seq<Summary>
    decreases levels.len(),
{
    if levels.len() == 0 {
        Seq::empty()
    } else if levels.len() == 1 {
        newest_first(levels[0], key)
    } else {
        consulted(levels.drop_last(), key) + only_one(levels.last(), key)
    }
}

/// A planned unit of compaction work.
#[derive(Debug)]
pub struct CompactionJob {
    /// Level being drained.
    pub source_level: u32,
    /// Level the merged output is written to (`source_level + 1`).
    pub target_level: u32,
    /// Tables from the source level.
    pub source_tables: Vec<TableMeta>,
    /// Overlapping tables from the target level, which must be rewritten.
    pub target_tables: Vec<TableMeta>,
    /// Score that triggered this job; higher is more urgent.
    pub score: Score,
}

/// Copies a list of summaries.
pub(crate) fn copy_metas(v: &Vec<TableMeta>) -> (out: Vec<TableMeta>)
    ensures
        metas(out@) == metas(v@),
{
    let mut out: Vec<TableMeta> = Vec::new();
    let mut i: usize = 0;
    while i < v.len()
        invariant
            i <= v@.len(),
            metas(out@) == metas(v@).subrange(0, i as int),
        decreases v@.len() - i,
    {
        let ghost was = metas(out@);
        out.push(v[i].copy());
        assert(metas(out@) =~= was.push(v@[i as int]@));
        assert(metas(v@).subrange(0, i + 1) =~= was.push(v@[i as int]@));
        i += 1;
    }
    assert(metas(v@).subrange(0, i as int) =~= metas(v@));
    out
}

/// Adds up the sizes of a list of tables.
pub(crate) fn total_size(v: &Vec<TableMeta>, start: u64, Ghost(base): Ghost<int>) -> (n: u64)
    requires
        start == clipped(base),
        base >= 0,
    ensures
        n == clipped(base + bytes_of(metas(v@))),
        bytes_of(metas(v@)) >= 0,
{
    let ghost all = metas(v@);
    let mut n: u64 = start;
    let mut i: usize = 0;
    assert(all.subrange(0, 0) =~= Seq::<Summary>::empty());
    while i < v.len()
        invariant
            i <= v@.len(),
            all == metas(v@),
            base >= 0,
            bytes_of(all.subrange(0, i as int)) >= 0,
            n == clipped(base + bytes_of(all.subrange(0, i as int))),
        decreases v@.len() - i,
    {
        proof {
            let more = all.subrange(0, i + 1);
            assert(more.drop_last() =~= all.subrange(0, i as int));
            assert(more.last() == v@[i as int]@);
        }
        n = n.saturating_add(v[i].file_bytes);
        i += 1;
    }
    assert(all.subrange(0, i as int) =~= all);
    n
}

impl CompactionJob {
    /// Every table this job consumes.
    pub open spec fn inputs(&self) -> Seq<Summary> {
        metas(self.source_tables@) + metas(self.target_tables@)
    }

    /// Every table this job consumes.
    #[must_use]
    pub fn all_inputs(&self) -> (v: Vec<TableMeta>)
        ensures
            metas(v@) == self.inputs(),
    {
        let mut v: Vec<TableMeta> = copy_metas(&self.source_tables);
        let ghost head = metas(v@);
        let mut i: usize = 0;
        assert(metas(v@) =~= head + metas(self.target_tables@).subrange(0, 0));
        while i < self.target_tables.len()
            invariant
                i <= self.target_tables@.len(),
                metas(v@) == head + metas(self.target_tables@).subrange(0, i as int),
            decreases self.target_tables@.len() - i,
        {
            let ghost was = metas(v@);
            v.push(self.target_tables[i].copy());
            assert(metas(v@) =~= was.push(self.target_tables@[i as int]@));
            i += 1;
            assert(metas(v@) =~= head + metas(self.target_tables@).subrange(0, i as int));
        }
        assert(metas(self.target_tables@).subrange(0, i as int) =~= metas(self.target_tables@));
        v
    }

    /// Total input bytes, used to estimate compaction throughput. Stays at the
    /// largest number once it would pass it.
    #[must_use]
    pub fn input_bytes(&self) -> (n: u64)
        ensures
            n == clipped(
                bytes_of(metas(self.source_tables@)) + bytes_of(metas(self.target_tables@)),
            ),
    {
        let n: u64 = total_size(&self.source_tables, 0, Ghost(0));
        total_size(&self.target_tables, n, Ghost(bytes_of(metas(self.source_tables@))))
    }

    /// True when the output lands in the bottom-most level, which is the only
    /// place a tombstone may be discarded.
    #[must_use]
    pub fn is_bottom_most(&self, config: &LevelConfig) -> (r: bool)
        ensures
            r == (self.target_level + 1 >= config.max_levels),
    {
        self.target_level as u64 + 1 >= config.max_levels as u64
    }
}

} // verus!
