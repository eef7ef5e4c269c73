//! The set of live tables at each level, and which compaction is most urgent.

use crate::bytes::{before, copy_bytes, lemma_lex_transitive, lex_le, lex_lt};
use crate::lsm::compaction::{
    budget, bytes_of, consulted, copy_metas, exceeds, is_due, meeting, metas, newest_first,
    only_one, total_size, CompactionJob, LevelConfig, Score,
};
use crate::lsm::merge::clipped;
use crate::lsm::sstable::{lemma_not_before, Summary, TableMeta};
use vstd::prelude::*;

verus! {

/// The set of live tables at each level.
#[derive(Debug)]
pub struct LevelManifest {
    /// The tables of each level. L0 is in insertion order, newest last; deeper
    /// levels are sorted by their smallest keys.
    pub levels: Vec<Vec<TableMeta>>,
    /// The level layout in force.
    pub config: LevelConfig,
    /// The id that the next allocation returns.
    pub next_table_id: u64,
}

impl View for LevelManifest {
    type V = Seq<Seq<Summary>>;

    open spec fn view(&self) -> Seq<Seq<Summary>> {
        Seq::new(self.levels@.len(), |l: int| metas(self.levels@[l]@))
    }
}

/// Smallest keys do not descend.
pub open spec fn by_key(v: Seq<Summary>) -> bool {
    forall|i: int, j: int|
        0 <= i < j < v.len() ==> lex_le((#[trigger] v[i]).min_key, (#[trigger] v[j]).min_key)
}

/// The tables of a level; none where the level does not exist.
pub open spec fn level_of(levels: Seq<Seq<Summary>>, level: int) -> Seq<Summary> {
    if 0 <= level < levels.len() {
        levels[level]
    } else {
        Seq::empty()
    }
}

/// How many tables at the front have a smaller smallest key.
pub open spec fn slot_for(v: Seq<Summary>, key: Seq<u8>) -> nat
    decreases v.len(),
{
    if v.len() == 0 || !lex_lt(v[0].min_key, key) {
        0
    } else {
        1 + slot_for(v.subrange(1, v.len() as int), key)
    }
}

/// A level with one more table.
pub open spec fn with_table(v: Seq<Summary>, t: Summary) -> Seq<Summary> {
    if t.level == 0 {
        v.push(t)
    } else {
        v.insert(slot_for(v, t.min_key) as int, t)
    }
}

/// At least so many levels.
pub open spec fn padded(levels: Seq<Seq<Summary>>, n: int) -> Seq<Seq<Summary>> {
    if levels.len() >= n {
        levels
    } else {
        Seq::new(n as nat, |l: int| level_of(levels, l))
    }
}

/// The levels with one more table.
pub open spec fn added(levels: Seq<Seq<Summary>>, t: Summary) -> Seq<Seq<Summary>> {
    let p = padded(levels, t.level + 1);
    p.update(t.level as int, with_table(p[t.level as int], t))
}

/// A level without the first table of that id.
pub open spec fn retired(v: Seq<Summary>, id: u64) -> Seq<Summary>
    decreases v.len(),
{
    if v.len() == 0 {
        v
    } else {
        let rest = v.subrange(1, v.len() as int);
        if v[0].id == id {
            rest
        } else {
            seq![v[0]] + retired(rest, id)
        }
    }
}

/// The levels without a table.
pub open spec fn removed(levels: Seq<Seq<Summary>>, level: u32, id: u64) -> Seq<Seq<Summary>> {
    if level < levels.len() {
        levels.update(level as int, retired(levels[level as int], id))
    } else {
        levels
    }
}

/// The levels without the tables of a list.
pub open spec fn all_removed(
    levels: Seq<Seq<Summary>>,
    level: u32,
    ts: Seq<Summary>,
) -> Seq<Seq<Summary>>
    decreases ts.len(),
{
    if ts.len() == 0 {
        levels
    } else {
        removed(all_removed(levels, level, ts.drop_last()), level, ts.last().id)
    }
}

/// The levels with the tables of a list.
pub open spec fn all_added(levels: Seq<Seq<Summary>>, ts: Seq<Summary>) -> Seq<Seq<Summary>>
    decreases ts.len(),
{
    if ts.len() == 0 {
        levels
    } else {
        added(all_added(levels, ts.drop_last()), ts.last())
    }
}

/// The next free id once the ids of a list are taken.
pub open spec fn id_after(next: u64, ts: Seq<Summary>) -> u64
    decreases ts.len(),
{
    if ts.len() == 0 {
        next
    } else {
        let n = id_after(next, ts.drop_last());
        if ts.last().id >= n {
            (ts.last().id + 1) as u64
        } else {
            n
        }
    }
}

/// What an operation does with table ids.
pub ghost enum IdUse {
    /// Hands out an id.
    Allocate(u64),
    /// Sets future ids to at least this one.
    Reserve(u64),
    /// Registers a table.
    Register(Summary),
    /// Removes a table of that id.
    Retire(u64),
    /// Installs the outputs of a compaction.
    Install(Seq<Summary>),
}

/// How an operation moves the next free id.
pub open spec fn moves_on(was: u64, now: u64, u: IdUse) -> bool {
    match u {
        IdUse::Allocate(id) => id == was && now == id + 1,
        IdUse::Reserve(id) => now == if id > was {
            id
        } else {
            was
        },
        IdUse::Register(t) => t.id < u64::MAX && now == if t.id + 1 > was {
            (t.id + 1) as u64
        } else {
            was
        },
        IdUse::Retire(_) => now == was,
        IdUse::Install(ts) => (forall|i: int|
            0 <= i < ts.len() ==> (#[trigger] ts[i]).id < u64::MAX) && now == id_after(was, ts),
    }
}

/// Whether an operation takes that id.
pub open spec fn takes(u: IdUse, id: u64) -> bool {
    match u {
        IdUse::Allocate(x) => x == id,
        IdUse::Reserve(_) => false,
        IdUse::Register(t) => t.id == id,
        IdUse::Retire(_) => false,
        IdUse::Install(ts) => exists|i: int| 0 <= i < ts.len() && (#[trigger] ts[i]).id == id,
    }
}

/// Whether an operation sets future ids to at least that one.
pub open spec fn reserves(u: IdUse, id: u64) -> bool {
    u == IdUse::Reserve(id)
}

/// The next free ids before, between and after some operations.
pub open spec fn id_history(next: Seq<u64>, us: Seq<IdUse>) -> bool {
    &&& next.len() == us.len() + 1
    &&& forall|i: int| 0 <= i < us.len() ==> #[trigger] moves_on(next[i], next[i + 1], us[i])
}

/// How far a level exceeds its budget.
pub open spec fn score_of(levels: Seq<Seq<Summary>>, c: LevelConfig, level: u32) -> Score {
    let v = level_of(levels, level as int);
    if level == 0 {
        if c.l0_compaction_trigger == 0 && v.len() == 0 {
            Score { amount: 0, budget: 1 }
        } else {
            Score { amount: v.len() as u64, budget: c.l0_compaction_trigger as u64 }
        }
    } else if budget(c, level) == 0 {
        Score { amount: 0, budget: 1 }
    } else {
        Score { amount: clipped(bytes_of(v)), budget: budget(c, level) }
    }
}

/// The level below `n` with the highest score, the first of several; L0 with
/// nothing where no score is above nothing.
pub open spec fn most_urgent(levels: Seq<Seq<Summary>>, c: LevelConfig, n: nat) -> (u32, Score)
    decreases n,
{
    if n == 0 {
        (0u32, Score { amount: 0, budget: 1 })
    } else {
        let b = most_urgent(levels, c, (n - 1) as nat);
        let s = score_of(levels, c, (n - 1) as u32);
        if exceeds(s, b.1) {
            ((n - 1) as u32, s)
        } else {
            b
        }
    }
}

/// The place of the largest table, the first of several.
pub open spec fn largest(v: Seq<Summary>) -> int
    decreases v.len(),
{
    if v.len() <= 1 {
        0
    } else {
        let b = largest(v.drop_last());
        if v.last().file_bytes > v[b].file_bytes {
            v.len() - 1
        } else {
            b
        }
    }
}

/// The smallest key of a list of tables.
pub open spec fn least_key(v: Seq<Summary>) -> Seq<u8>
    decreases v.len(),
{
    if v.len() == 0 {
        Seq::empty()
    } else if v.len() == 1 {
        v[0].min_key
    } else {
        let k = least_key(v.drop_last());
        if lex_lt(v.last().min_key, k) {
            v.last().min_key
        } else {
            k
        }
    }
}

/// The largest key of a list of tables.
pub open spec fn greatest_key(v: Seq<Summary>) -> Seq<u8>
    decreases v.len(),
{
    if v.len() == 0 {
        Seq::empty()
    } else if v.len() == 1 {
        v[0].max_key
    } else {
        let k = greatest_key(v.drop_last());
        if lex_lt(k, v.last().max_key) {
            v.last().max_key
        } else {
            k
        }
    }
}

/// The tables of a level that are drained together: all of L0, whose tables
/// overlap, or the largest of a deeper level.
pub open spec fn drained(levels: Seq<Seq<Summary>>, level: u32) -> Seq<Summary> {
    let v = level_of(levels, level as int);
    if level == 0 {
        v
    } else if v.len() == 0 {
        Seq::empty()
    } else {
        seq![v[largest(v)]]
    }
}

impl LevelManifest {
    /// There is a level, and deeper levels are sorted.
    pub open spec fn wf(&self) -> bool {
        &&& 0 < self@.len() <= u32::MAX
        &&& forall|l: int| 1 <= l < self@.len() ==> by_key(#[trigger] self@[l])
    }

    /// Creates an empty manifest with `config.max_levels` levels.
    #[must_use]
    pub fn new(config: LevelConfig) -> (m: Self)
        ensures
            m@ == Seq::new(config.max_levels as nat, |l: int| Seq::<Summary>::empty()),
            m.config == config,
            m.next_table_id == 1,
            config.max_levels > 0 ==> m.wf(),
    {
        let mut levels: Vec<Vec<TableMeta>> = Vec::new();
        let mut l: u32 = 0;
        while l < config.max_levels
            invariant
                l <= config.max_levels,
                levels@.len() == l,
                forall|i: int| 0 <= i < l ==> (#[trigger] levels@[i])@.len() == 0,
            decreases config.max_levels - l,
        {
            levels.push(Vec::new());
            l += 1;
        }
        let m: LevelManifest = LevelManifest { levels, config, next_table_id: 1 };
        assert forall|i: int| 0 <= i < m@.len() implies #[trigger] m@[i]
            == Seq::<Summary>::empty() by {
            assert(metas(levels@[i]@) =~= Seq::<Summary>::empty());
        }
        assert(m@ =~= Seq::new(config.max_levels as nat, |l: int| Seq::<Summary>::empty()));
        m
    }

    /// The level layout in force.
    #[must_use]
    pub fn config(&self) -> (c: &LevelConfig)
        ensures
            *c == self.config,
    {
        &self.config
    }

    /// Allocates a fresh, unique table id.
    pub fn allocate_table_id(&mut self) -> (id: u64)
        requires
            old(self).next_table_id < u64::MAX,
        ensures
            id == old(self).next_table_id,
            final(self).next_table_id == id + 1,
            moves_on(old(self).next_table_id, final(self).next_table_id, IdUse::Allocate(id)),
            final(self).levels == old(self).levels,
            final(self).config == old(self).config,
    {
        let id: u64 = self.next_table_id;
        self.next_table_id = id + 1;
        id
    }

    /// The id the next allocation will return, without consuming it.
    #[must_use]
    pub fn peek_table_id(&self) -> (id: u64)
        ensures
            id == self.next_table_id,
    {
        self.next_table_id
    }

    /// Ensures future ids are at least `id`.
    ///
    /// Used at recovery: a table that was created and then removed still burned
    /// its id, and reusing it would let a stale orphaned file be mistaken for a
    /// live table.
    pub fn reserve_table_id(&mut self, id: u64)
        ensures
            final(self).next_table_id == if id > old(self).next_table_id {
                id
            } else {
                old(self).next_table_id
            },
            moves_on(old(self).next_table_id, final(self).next_table_id, IdUse::Reserve(id)),
            final(self).levels == old(self).levels,
            final(self).config == old(self).config,
    {
        if id > self.next_table_id {
            self.next_table_id = id;
        }
    }

    /// Tables at `level`, or none when the level does not exist.
    #[must_use]
    pub fn level(&self, level: u32) -> (v: Vec<TableMeta>)
        ensures
            metas(v@) == level_of(self@, level as int),
    {
        if (level as u64) < self.levels.len() as u64 {
            copy_metas(&self.levels[level as usize])
        } else {
            let v: Vec<TableMeta> = Vec::new();
            assert(metas(v@) =~= Seq::<Summary>::empty());
            v
        }
    }

    /// Total number of live tables. Stays at the largest number once it would
    /// pass it.
    #[must_use]
    pub fn table_count(&self) -> (n: usize)
        ensures
            n == if count_of(self@) > usize::MAX {
                usize::MAX as int
            } else {
                count_of(self@) as int
            },
    {
        let ghost all = self@;
        let mut n: usize = 0;
        let mut l: usize = 0;
        assert(all.subrange(0, 0) =~= Seq::<Seq<Summary>>::empty());
        while l < self.levels.len()
            invariant
                l <= self.levels@.len(),
                all == self@,
                n == if count_of(all.subrange(0, l as int)) > usize::MAX {
                    usize::MAX as int
                } else {
                    count_of(all.subrange(0, l as int)) as int
                },
            decreases self.levels@.len() - l,
        {
            proof {
                let more = all.subrange(0, l + 1);
                assert(more.drop_last() =~= all.subrange(0, l as int));
                assert(more.last() == metas(self.levels@[l as int]@));
            }
            n = n.saturating_add(self.levels[l].len());
            l += 1;
        }
        assert(all.subrange(0, l as int) =~= all);
        n
    }

    /// Total bytes across all levels. Stays at the largest number once it would
    /// pass it.
    #[must_use]
    pub fn total_bytes(&self) -> (n: u64)
        ensures
            n == clipped(size_of_all(self@)),
    {
        let ghost all = self@;
        let mut n: u64 = 0;
        let mut l: usize = 0;
        assert(all.subrange(0, 0) =~= Seq::<Seq<Summary>>::empty());
        while l < self.levels.len()
            invariant
                l <= self.levels@.len(),
                all == self@,
                size_of_all(all.subrange(0, l as int)) >= 0,
                n == clipped(size_of_all(all.subrange(0, l as int))),
            decreases self.levels@.len() - l,
        {
            proof {
                let more = all.subrange(0, l + 1);
                assert(more.drop_last() =~= all.subrange(0, l as int));
                assert(more.last() == metas(self.levels@[l as int]@));
            }
            n = total_size(&self.levels[l], n, Ghost(size_of_all(all.subrange(0, l as int))));
            l += 1;
        }
        assert(all.subrange(0, l as int) =~= all);
        n
    }

    /// Bytes held at `level`. Stays at the largest number once it would pass it.
    #[must_use]
    pub fn level_bytes(&self, level: u32) -> (n: u64)
        ensures
            n == clipped(bytes_of(level_of(self@, level as int))),
    {
        if (level as u64) < self.levels.len() as u64 {
            total_size(&self.levels[level as usize], 0, Ghost(0))
        } else {
            0
        }
    }

    /// Registers a table, keeping L1+ sorted by key range.
    ///
    /// L0 is kept in insertion order (newest last) because its tables overlap
    /// and must be searched newest-first.
    pub fn add_table(&mut self, meta: TableMeta)
        requires
            old(self).wf(),
            meta.id < u64::MAX,
            meta.level < u32::MAX,
        ensures
            final(self).wf(),
            final(self)@ == added(old(self)@, meta@),
            final(self).next_table_id == if meta.id + 1 > old(self).next_table_id {
                (meta.id + 1) as u64
            } else {
                old(self).next_table_id
            },
            moves_on(old(self).next_table_id, final(self).next_table_id, IdUse::Register(meta@)),
            final(self).config == old(self).config,
    {
        let ghost was = self@;
        let ghost t = meta@;
        let ghost pad = padded(was, t.level + 1);
        let level: usize = meta.level as usize;
        while self.levels.len() <= level
            invariant
                level == t.level,
                was.len() > 0,
                self.config == old(self).config,
                self.next_table_id == old(self).next_table_id,
                self@.len() <= pad.len(),
                pad == padded(was, t.level + 1),
                was.len() <= self@.len(),
                forall|l: int| 0 <= l < self@.len() ==> #[trigger] self@[l] == pad[l],
            decreases level + 1 - self.levels@.len(),
        {
            let ghost now = self@;
            self.levels.push(Vec::new());
            assert(self@.last() =~= Seq::<Summary>::empty());
            assert forall|l: int| 0 <= l < self@.len() implies #[trigger] self@[l] == pad[l] by {
                if l < now.len() {
                    assert(self@[l] == now[l]);
                }
            }
        }
        assert(self@ =~= pad);
        if meta.id + 1 > self.next_table_id {
            self.next_table_id = meta.id + 1;
        }
        let ghost v = pad[level as int];
        let top: bool = meta.level == 0;
        let pos: usize = if top {
            self.levels[level].len()
        } else {
            LevelManifest::find_slot(&self.levels[level], meta.min_key.as_slice())
        };
        assert(v == metas(self.levels@[level as int]@));
        let ghost raw = self.levels@[level as int]@;
        self.levels[level].insert(pos, meta);
        proof {
            assert(self.levels@[level as int]@ == raw.insert(pos as int, meta));
            assert(metas(self.levels@[level as int]@) =~= v.insert(pos as int, t));
            if top {
                assert(v.insert(pos as int, t) =~= v.push(t));
            } else {
                assert(by_key(v)) by {
                    if level < was.len() {
                        assert(v == was[level as int]);
                    }
                }
                lemma_slot(v, t);
            }
            assert(self@ =~= pad.update(level as int, with_table(v, t)));
            assert forall|l: int| 1 <= l < self@.len() implies by_key(#[trigger] self@[l]) by {
                if l != level {
                    assert(self@[l] == pad[l]);
                    if l < was.len() {
                        assert(pad[l] == was[l]);
                    }
                }
            }
        }
    }

    /// How many tables at the front have a smaller smallest key.
    fn find_slot(v: &Vec<TableMeta>, key: &[u8]) -> (n: usize)
        ensures
            n == slot_for(metas(v@), key@),
            n <= v@.len(),
    {
        let ghost all = metas(v@);
        let mut i: usize = 0;
        assert(all.subrange(0, all.len() as int) =~= all);
        while i < v.len()
            invariant
                i <= v@.len(),
                all == metas(v@),
                slot_for(all, key@) == i + slot_for(all.subrange(i as int, all.len() as int), key@),
            decreases v@.len() - i,
        {
            proof {
                let rest = all.subrange(i as int, all.len() as int);
                assert(rest[0] == v@[i as int]@);
                assert(rest.subrange(1, rest.len() as int) =~= all.subrange(
                    i + 1,
                    all.len() as int,
                ));
            }
            if !before(v[i].min_key.as_slice(), key) {
                return i;
            }
            i += 1;
        }
        i
    }

    /// Removes a table by id, returning it when present.
    pub fn remove_table(&mut self, level: u32, id: u64) -> (r: Option<TableMeta>)
        requires
            old(self).wf(),
        ensures
            final(self).wf(),
            final(self)@ == removed(old(self)@, level, id),
            final(self).config == old(self).config,
            final(self).next_table_id == old(self).next_table_id,
            moves_on(old(self).next_table_id, final(self).next_table_id, IdUse::Retire(id)),
            match r {
                Some(t) => t.id == id && level_of(old(self)@, level as int).contains(t@),
                None => forall|i: int|
                    0 <= i < level_of(old(self)@, level as int).len() ==> (#[trigger] level_of(
                        old(self)@,
                        level as int,
                    )[i]).id != id,
            },
    {
        if (level as u64) >= self.levels.len() as u64 {
            return None;
        }
        let at: usize = level as usize;
        let ghost was = self@;
        let ghost v = was[at as int];
        let mut i: usize = 0;
        assert(v.subrange(0, v.len() as int) =~= v);
        assert(Seq::<Summary>::empty() + retired(v, id) =~= retired(v, id));
        assert(v.subrange(0, 0) =~= Seq::<Summary>::empty());
        while i < self.levels[at].len()
            invariant
                at < self.levels@.len(),
                at == level,
                i <= self.levels@[at as int]@.len(),
                self.wf(),
                self@ == was,
                *self == *old(self),
                v == was[at as int],
                v == metas(self.levels@[at as int]@),
                retired(v, id) == v.subrange(0, i as int) + retired(
                    v.subrange(i as int, v.len() as int),
                    id,
                ),
                forall|k: int| 0 <= k < i ==> (#[trigger] v[k]).id != id,
            decreases self.levels@[at as int]@.len() - i,
        {
            proof {
                let rest = v.subrange(i as int, v.len() as int);
                assert(rest[0] == self.levels@[at as int]@[i as int]@);
                assert(rest.subrange(1, rest.len() as int) =~= v.subrange(i + 1, v.len() as int));
            }
            if self.levels[at][i].id == id {
                let ghost raw = self.levels@[at as int]@;
                let t: TableMeta = self.levels[at].remove(i);
                proof {
                    assert(self.levels@[at as int]@ == raw.remove(i as int));
                    let now = metas(self.levels@[at as int]@);
                    assert(now =~= v.remove(i as int));
                    assert(now =~= v.subrange(0, i as int) + v.subrange(i + 1, v.len() as int));
                    assert(t@ == v[i as int]);
                    assert(self@ =~= was.update(at as int, now));
                    lemma_removed_by_key(v, i as int);
                }
                return Some(t);
            }
            proof {
                let rest = v.subrange(i as int, v.len() as int);
                let tail = retired(v.subrange(i + 1, v.len() as int), id);
                assert(v.subrange(0, i as int) + (seq![rest[0]] + tail) =~= v.subrange(0, i + 1)
                    + tail);
            }
            i += 1;
        }
        proof {
            assert(v.subrange(0, i as int) =~= v);
            assert(retired(v.subrange(i as int, v.len() as int), id) =~= Seq::<Summary>::empty());
            assert(retired(v, id) =~= v);
            assert(was.update(at as int, v) =~= was);
        }
        None
    }

    /// Tables at `level` whose key range intersects `[from, to]`.
    #[must_use]
    pub fn overlapping(&self, level: u32, from: &[u8], to: &[u8]) -> (out: Vec<TableMeta>)
        ensures
            metas(out@) == meeting(level_of(self@, level as int), from@, to@),
    {
        let mut out: Vec<TableMeta> = Vec::new();
        assert(metas(out@) =~= Seq::<Summary>::empty());
        if (level as u64) >= self.levels.len() as u64 {
            return out;
        }
        let at: usize = level as usize;
        let ghost v = self@[at as int];
        let mut i: usize = 0;
        assert(v.subrange(0, 0) =~= Seq::<Summary>::empty());
        while i < self.levels[at].len()
            invariant
                at < self.levels@.len(),
                v == metas(self.levels@[at as int]@),
                i <= v.len(),
                metas(out@) == meeting(v.subrange(0, i as int), from@, to@),
            decreases v.len() - i,
        {
            let ghost was = metas(out@);
            proof {
                let more = v.subrange(0, i + 1);
                assert(more.drop_last() =~= v.subrange(0, i as int));
                assert(more.last() == self.levels@[at as int]@[i as int]@);
            }
            if self.levels[at][i].overlaps(from, to) {
                out.push(self.levels[at][i].copy());
                assert(metas(out@) =~= was.push(v[i as int]));
            }
            i += 1;
        }
        assert(v.subrange(0, i as int) =~= v);
        out
    }

    /// Tables that might hold `key`, ordered newest-first for a point lookup.
    ///
    /// L0 is returned in reverse insertion order (newest table first); deeper
    /// levels contribute at most one table each.
    #[must_use]
    pub fn lookup_order(&self, key: &[u8]) -> (out: Vec<TableMeta>)
        ensures
            metas(out@) == consulted(self@, key@),
    {
        let ghost all = self@;
        let mut out: Vec<TableMeta> = Vec::new();
        assert(metas(out@) =~= Seq::<Summary>::empty());
        if self.levels.len() == 0 {
            return out;
        }
        let ghost top = all[0];
        let mut i: usize = self.levels[0].len();
        assert(top.subrange(0, i as int) =~= top);
        assert(Seq::<Summary>::empty() + newest_first(top, key@) =~= newest_first(top, key@));
        while i > 0
            invariant
                self.levels@.len() > 0,
                top == metas(self.levels@[0]@),
                i <= top.len(),
                newest_first(top, key@) == metas(out@) + newest_first(
                    top.subrange(0, i as int),
                    key@,
                ),
            decreases i,
        {
            i -= 1;
            let ghost was = metas(out@);
            proof {
                let less = top.subrange(0, i + 1);
                assert(less.drop_last() =~= top.subrange(0, i as int));
                assert(less.last() == self.levels@[0]@[i as int]@);
            }
            if self.levels[0][i].may_contain(key) {
                out.push(self.levels[0][i].copy());
                proof {
                    let tail = newest_first(top.subrange(0, i as int), key@);
                    assert(metas(out@) =~= was.push(top[i as int]));
                    assert(was + (seq![top[i as int]] + tail) =~= was.push(top[i as int]) + tail);
                }
            }
        }
        assert(metas(out@) + newest_first(top.subrange(0, 0), key@) =~= metas(out@));
        let mut l: usize = 1;
        assert(all.subrange(0, 1)[0] == top);
        while l < self.levels.len()
            invariant
                1 <= l <= self.levels@.len(),
                all == self@,
                metas(out@) == consulted(all.subrange(0, l as int), key@),
            decreases self.levels@.len() - l,
        {
            let ghost was = metas(out@);
            let ghost v = all[l as int];
            proof {
                let more = all.subrange(0, l + 1);
                assert(more.drop_last() =~= all.subrange(0, l as int));
                assert(more.last() == v);
                assert(v == metas(self.levels@[l as int]@));
            }
            match LevelManifest::find_table(&self.levels[l], key) {
                Some(p) => {
                    out.push(self.levels[l][p].copy());
                    assert(metas(out@) =~= was + seq![v[p as int]]);
                },
                None => {
                    assert(was + Seq::<Summary>::empty() =~= was);
                },
            }
            l += 1;
        }
        assert(all.subrange(0, l as int) =~= all);
        out
    }

    /// The first table that may hold `key`.
    fn find_table(v: &Vec<TableMeta>, key: &[u8]) -> (r: Option<usize>)
        ensures
            match r {
                Some(p) => p < v@.len() && only_one(metas(v@), key@) == seq![metas(v@)[p as int]],
                None => only_one(metas(v@), key@) == Seq::<Summary>::empty(),
            },
    {
        let ghost all = metas(v@);
        let mut i: usize = 0;
        assert(all.subrange(0, all.len() as int) =~= all);
        while i < v.len()
            invariant
                i <= v@.len(),
                all == metas(v@),
                only_one(all, key@) == only_one(all.subrange(i as int, all.len() as int), key@),
            decreases v@.len() - i,
        {
            proof {
                let rest = all.subrange(i as int, all.len() as int);
                assert(rest[0] == v@[i as int]@);
                assert(rest.subrange(1, rest.len() as int) =~= all.subrange(
                    i + 1,
                    all.len() as int,
                ));
            }
            if v[i].may_contain(key) {
                return Some(i);
            }
            i += 1;
        }
        None
    }

    /// How far `level` exceeds its budget.
    #[must_use]
    pub fn score(&self, level: u32) -> (s: Score)
        ensures
            s == score_of(self@, self.config, level),
    {
        if level == 0 {
            let n: usize = if self.levels.len() > 0 {
                self.levels[0].len()
            } else {
                0
            };
            if self.config.l0_compaction_trigger == 0 && n == 0 {
                return Score { amount: 0, budget: 1 };
            }
            return Score { amount: n as u64, budget: self.config.l0_compaction_trigger as u64 };
        }
        let b: u64 = self.config.level_budget(level);
        if b == 0 {
            return Score { amount: 0, budget: 1 };
        }
        Score { amount: self.level_bytes(level), budget: b }
    }

    /// Plans the most urgent compaction, or `None` when every level is inside
    /// its budget. The bottom level has nowhere to drain to.
    #[must_use]
    pub fn pick_compaction(&self) -> (r: Option<CompactionJob>)
        requires
            self.wf(),
        ensures
            ({
                let (level, score) = most_urgent(self@, self.config, (self@.len() - 1) as nat);
                match r {
                    None => !is_due(score),
                    Some(job) => {
                        let source = drained(self@, level);
                        &&& is_due(score)
                        &&& job.score == score
                        &&& job.source_level == level
                        &&& job.target_level == level + 1
                        &&& job.target_level < self@.len()
                        &&& metas(job.source_tables@) == source
                        &&& source.len() > 0
                        &&& metas(job.target_tables@) == meeting(
                            self@[level + 1],
                            least_key(source),
                            greatest_key(source),
                        )
                    },
                }
            }),
    {
        let last_level: u32 = (self.levels.len() - 1) as u32;
        let mut best_level: u32 = 0;
        let mut best_score: Score = Score { amount: 0, budget: 1 };
        let mut l: u32 = 0;
        while l < last_level
            invariant
                l <= last_level,
                last_level == self@.len() - 1,
                (best_level, best_score) == most_urgent(self@, self.config, l as nat),
                best_level < l || (l == 0 && best_level == 0) || !is_due(best_score),
                is_due(best_score) ==> best_score == score_of(self@, self.config, best_level),
            decreases last_level - l,
        {
            let s: Score = self.score(l);
            if s.exceeds(&best_score) {
                best_level = l;
                best_score = s;
            }
            l += 1;
        }
        if !best_score.is_due() {
            return None;
        }
        proof {
            lemma_due_level_holds_tables(self@, self.config, best_level);
        }
        let at: usize = best_level as usize;
        let ghost v = self@[at as int];
        assert(v == metas(self.levels@[at as int]@));
        let source_tables: Vec<TableMeta> = if best_level == 0 {
            copy_metas(&self.levels[0])
        } else {
            let p: usize = LevelManifest::find_largest(&self.levels[at]);
            let mut one: Vec<TableMeta> = Vec::new();
            one.push(self.levels[at][p].copy());
            assert(metas(one@) =~= seq![v[largest(v)]]);
            one
        };
        let (from, to): (Vec<u8>, Vec<u8>) = LevelManifest::key_span(&source_tables);
        let target_tables: Vec<TableMeta> = self.overlapping(
            best_level + 1,
            from.as_slice(),
            to.as_slice(),
        );
        Some(
            CompactionJob {
                source_level: best_level,
                target_level: best_level + 1,
                source_tables,
                target_tables,
                score: best_score,
            },
        )
    }

    /// The place of the largest table.
    fn find_largest(v: &Vec<TableMeta>) -> (p: usize)
        requires
            v@.len() > 0,
        ensures
            p == largest(metas(v@)),
            p < v@.len(),
    {
        let ghost all = metas(v@);
        let mut p: usize = 0;
        let mut i: usize = 1;
        while i < v.len()
            invariant
                1 <= i <= v@.len(),
                p < i,
                all == metas(v@),
                p == largest(all.subrange(0, i as int)),
            decreases v@.len() - i,
        {
            proof {
                let more = all.subrange(0, i + 1);
                assert(more.drop_last() =~= all.subrange(0, i as int));
                assert(more.last() == v@[i as int]@);
                assert(more[p as int] == v@[p as int]@);
            }
            if v[i].file_bytes > v[p].file_bytes {
                p = i;
            }
            i += 1;
        }
        assert(all.subrange(0, i as int) =~= all);
        p
    }

    /// The smallest and the largest key of a list of tables.
    fn key_span(v: &Vec<TableMeta>) -> (r: (Vec<u8>, Vec<u8>))
        requires
            v@.len() > 0,
        ensures
            r.0@ == least_key(metas(v@)),
            r.1@ == greatest_key(metas(v@)),
    {
        let ghost all = metas(v@);
        let mut from: Vec<u8> = copy_bytes(v[0].min_key.as_slice());
        let mut to: Vec<u8> = copy_bytes(v[0].max_key.as_slice());
        let mut i: usize = 1;
        while i < v.len()
            invariant
                1 <= i <= v@.len(),
                all == metas(v@),
                from@ == least_key(all.subrange(0, i as int)),
                to@ == greatest_key(all.subrange(0, i as int)),
            decreases v@.len() - i,
        {
            proof {
                let more = all.subrange(0, i + 1);
                assert(more.drop_last() =~= all.subrange(0, i as int));
                assert(more.last() == v@[i as int]@);
            }
            if before(v[i].min_key.as_slice(), from.as_slice()) {
                from = copy_bytes(v[i].min_key.as_slice());
            }
            if before(to.as_slice(), v[i].max_key.as_slice()) {
                to = copy_bytes(v[i].max_key.as_slice());
            }
            i += 1;
        }
        assert(all.subrange(0, i as int) =~= all);
        (from, to)
    }

    /// Applies a completed compaction: inputs are retired, outputs installed.
    pub fn apply(&mut self, job: &CompactionJob, outputs: Vec<TableMeta>)
        requires
            old(self).wf(),
            forall|i: int|
                0 <= i < outputs@.len() ==> (#[trigger] outputs@[i]).id < u64::MAX
                    && outputs@[i].level < u32::MAX,
        ensures
            final(self).wf(),
            final(self)@ == all_added(
                all_removed(
                    all_removed(old(self)@, job.source_level, metas(job.source_tables@)),
                    job.target_level,
                    metas(job.target_tables@),
                ),
                metas(outputs@),
            ),
            final(self).config == old(self).config,
            final(self).next_table_id == id_after(old(self).next_table_id, metas(outputs@)),
            moves_on(
                old(self).next_table_id,
                final(self).next_table_id,
                IdUse::Install(metas(outputs@)),
            ),
    {
        self.retire(job.source_level, &job.source_tables);
        self.retire(job.target_level, &job.target_tables);
        let ghost base = self@;
        let ghost outs = metas(outputs@);
        let mut i: usize = 0;
        assert(outs.subrange(0, 0) =~= Seq::<Summary>::empty());
        while i < outputs.len()
            invariant
                i <= outputs@.len(),
                outs == metas(outputs@),
                self.wf(),
                self.config == old(self).config,
                self@ == all_added(base, outs.subrange(0, i as int)),
                forall|k: int|
                    0 <= k < outputs@.len() ==> (#[trigger] outputs@[k]).id < u64::MAX
                        && outputs@[k].level < u32::MAX,
                self.next_table_id == id_after(
                    old(self).next_table_id,
                    outs.subrange(0, i as int),
                ),
            decreases outputs@.len() - i,
        {
            proof {
                let more = outs.subrange(0, i + 1);
                assert(more.drop_last() =~= outs.subrange(0, i as int));
                assert(more.last() == outputs@[i as int]@);
            }
            self.add_table(outputs[i].copy());
            i += 1;
        }
        assert(outs.subrange(0, i as int) =~= outs);
    }

    /// Removes the tables of a list.
    fn retire(&mut self, level: u32, tables: &Vec<TableMeta>)
        requires
            old(self).wf(),
        ensures
            final(self).wf(),
            final(self)@ == all_removed(old(self)@, level, metas(tables@)),
            final(self).config == old(self).config,
            final(self).next_table_id == old(self).next_table_id,
    {
        let ghost ts = metas(tables@);
        let mut i: usize = 0;
        assert(ts.subrange(0, 0) =~= Seq::<Summary>::empty());
        while i < tables.len()
            invariant
                i <= tables@.len(),
                ts == metas(tables@),
                self.wf(),
                self.config == old(self).config,
                self.next_table_id == old(self).next_table_id,
                self@ == all_removed(old(self)@, level, ts.subrange(0, i as int)),
            decreases tables@.len() - i,
        {
            proof {
                let more = ts.subrange(0, i + 1);
                assert(more.drop_last() =~= ts.subrange(0, i as int));
                assert(more.last() == tables@[i as int]@);
            }
            let _gone: Option<TableMeta> = self.remove_table(level, tables[i].id);
            i += 1;
        }
        assert(ts.subrange(0, i as int) =~= ts);
    }
}

/// How many tables the levels hold.
pub open spec fn count_of(levels: Seq<Seq<Summary>>) -> nat
    decreases levels.len(),
{
    if levels.len() == 0 {
        0
    } else {
        count_of(levels.drop_last()) + levels.last().len()
    }
}

/// How many bytes the levels hold.
pub open spec fn size_of_all(levels: Seq<Seq<Summary>>) -> int
    decreases levels.len(),
{
    if levels.len() == 0 {
        0
    } else {
        size_of_all(levels.drop_last()) + bytes_of(levels.last())
    }
}

/// A table put at its slot keeps a level sorted.
pub(crate) proof fn lemma_slot(v: Seq<Summary>, t: Summary)
    requires
        by_key(v),
    ensures
        slot_for(v, t.min_key) <= v.len(),
        by_key(v.insert(slot_for(v, t.min_key) as int, t)),
{
    let n = slot_for(v, t.min_key) as int;
    lemma_slot_splits(v, t.min_key);
    let w = v.insert(n, t);
    assert forall|i: int, j: int| 0 <= i < j < w.len() implies lex_le(
        (#[trigger] w[i]).min_key,
        (#[trigger] w[j]).min_key,
    ) by {
        let a = if i < n {
            v[i]
        } else if i == n {
            t
        } else {
            v[i - 1]
        };
        let b = if j < n {
            v[j]
        } else if j == n {
            t
        } else {
            v[j - 1]
        };
        assert(w[i] == a && w[j] == b);
        if i == n {
            lemma_not_before(t.min_key, v[n].min_key);
            if j - 1 > n {
                assert(lex_le(v[n].min_key, v[j - 1].min_key));
                if lex_lt(t.min_key, v[n].min_key) && lex_lt(v[n].min_key, v[j - 1].min_key) {
                    lemma_lex_transitive(t.min_key, v[n].min_key, v[j - 1].min_key);
                }
            }
        }
    }
}

pub proof fn lemma_slot_splits(v: Seq<Summary>, key: Seq<u8>)
    ensures
        slot_for(v, key) <= v.len(),
        forall|i: int| 0 <= i < slot_for(v, key) ==> lex_lt((#[trigger] v[i]).min_key, key),
        slot_for(v, key) < v.len() ==> !lex_lt(v[slot_for(v, key) as int].min_key, key),
    decreases v.len(),
{
    if v.len() > 0 && lex_lt(v[0].min_key, key) {
        let rest = v.subrange(1, v.len() as int);
        lemma_slot_splits(rest, key);
        assert forall|i: int| 0 <= i < slot_for(v, key) implies lex_lt(
            (#[trigger] v[i]).min_key,
            key,
        ) by {
            if i > 0 {
                assert(v[i] == rest[i - 1]);
            }
        }
    }
}

pub(crate) proof fn lemma_removed_by_key(v: Seq<Summary>, i: int)
    requires
        0 <= i < v.len(),
    ensures
        by_key(v) ==> by_key(v.remove(i)),
{
    let w = v.remove(i);
    if by_key(v) {
        assert forall|a: int, b: int| 0 <= a < b < w.len() implies lex_le(
            (#[trigger] w[a]).min_key,
            (#[trigger] w[b]).min_key,
        ) by {
            let x = if a < i {
                a
            } else {
                a + 1
            };
            let y = if b < i {
                b
            } else {
                b + 1
            };
            assert(w[a] == v[x] && w[b] == v[y]);
        }
    }
}

/// A level that is due holds a table.
pub(crate) proof fn lemma_due_level_holds_tables(levels: Seq<Seq<Summary>>, c: LevelConfig, level: u32)
    requires
        is_due(score_of(levels, c, level)),
    ensures
        level_of(levels, level as int).len() > 0,
{
}

/// The next free id lies behind all that were taken.
pub(crate) proof fn lemma_ids_after(next: u64, ts: Seq<Summary>)
    requires
        forall|i: int| 0 <= i < ts.len() ==> (#[trigger] ts[i]).id < u64::MAX,
    ensures
        next <= id_after(next, ts),
        forall|i: int| 0 <= i < ts.len() ==> (#[trigger] ts[i]).id < id_after(next, ts),
    decreases ts.len(),
{
    if ts.len() > 0 {
        let front = ts.drop_last();
        assert forall|i: int| 0 <= i < front.len() implies (#[trigger] front[i]).id < u64::MAX by {
            assert(front[i] == ts[i]);
        }
        lemma_ids_after(next, front);
        assert forall|i: int| 0 <= i < ts.len() implies (#[trigger] ts[i]).id < id_after(
            next,
            ts,
        ) by {
            if i < front.len() {
                assert(front[i] == ts[i]);
            }
        }
    }
}

/// The next free id never falls.
proof fn lemma_ids_grow(next: Seq<u64>, us: Seq<IdUse>, i: int, j: int)
    requires
        id_history(next, us),
        0 <= i <= j <= us.len(),
    ensures
        next[i] <= next[j],
    decreases j - i,
{
    if i < j {
        assert(moves_on(next[i], next[i + 1], us[i]));
        match us[i] {
            IdUse::Install(ts) => {
                lemma_ids_after(next[i], ts);
            },
            _ => {},
        }
        lemma_ids_grow(next, us, i + 1, j);
    }
}

/// Table ids never repeat. Whatever happened before, an allocation returns the
/// id that a peek just before it shows; it is greater than every id that was
/// handed out, registered or installed by then, whether or not its table is
/// still there, and at least every id that was reserved.
pub proof fn law_table_ids_never_repeat(next: Seq<u64>, us: Seq<IdUse>, j: int, id: u64)
    requires
        id_history(next, us),
        0 <= j < us.len(),
        us[j] == IdUse::Allocate(id),
    ensures
        id == next[j],
        next[0] <= id,
        forall|i: int, x: u64| 0 <= i < j && #[trigger] takes(us[i], x) ==> x < id,
        forall|i: int, x: u64| 0 <= i < j && #[trigger] reserves(us[i], x) ==> x <= id,
{
    assert(moves_on(next[j], next[j + 1], us[j]));
    lemma_ids_grow(next, us, 0, j);
    assert forall|i: int, x: u64| 0 <= i < j && #[trigger] takes(us[i], x) implies x < id by {
        assert(moves_on(next[i], next[i + 1], us[i]));
        lemma_ids_grow(next, us, i + 1, j);
        match us[i] {
            IdUse::Install(ts) => {
                lemma_ids_after(next[i], ts);
            },
            _ => {},
        }
    }
    assert forall|i: int, x: u64| 0 <= i < j && #[trigger] reserves(us[i], x) implies x
        <= id by {
        assert(moves_on(next[i], next[i + 1], us[i]));
        lemma_ids_grow(next, us, i + 1, j);
    }
}

/// The first id that a fresh manifest hands out is one.
pub proof fn law_first_table_id(m: LevelManifest, now: u64, id: u64)
    requires
        m.next_table_id == 1,
        moves_on(m.next_table_id, now, IdUse::Allocate(id)),
    ensures
        id == 1,
{
}

/// Removing the table that stands at one place, the first of its id.
proof fn lemma_retired_there(v: Seq<Summary>, id: u64, p: int)
    requires
        0 <= p <= v.len(),
        forall|i: int| 0 <= i < p ==> (#[trigger] v[i]).id != id,
        p < v.len() ==> v[p].id == id,
    ensures
        retired(v, id) == if p < v.len() {
            v.remove(p)
        } else {
            v
        },
    decreases v.len(),
{
    if v.len() > 0 {
        let rest = v.subrange(1, v.len() as int);
        if p == 0 {
            assert(rest =~= v.remove(0));
        } else {
            assert forall|i: int| 0 <= i < p - 1 implies (#[trigger] rest[i]).id != id by {
                assert(rest[i] == v[i + 1]);
            }
            assert(v[0].id != id);
            if p < v.len() {
                assert(rest[p - 1] == v[p]);
            }
            lemma_retired_there(rest, id, p - 1);
            if p < v.len() {
                assert(seq![v[0]] + rest.remove(p - 1) =~= v.remove(p));
            } else {
                assert(seq![v[0]] + rest =~= v);
            }
        }
    }
}

/// Removing a table undoes adding it: where no table of its id was at its level,
/// every level is again as it was, and the table was the one of its id.
pub proof fn law_removing_undoes_adding(levels: Seq<Seq<Summary>>, t: Summary, l: int)
    requires
        levels.len() > 0,
        forall|i: int|
            0 <= i < level_of(levels, t.level as int).len() ==> (#[trigger] level_of(
                levels,
                t.level as int,
            )[i]).id != t.id,
    ensures
        level_of(removed(added(levels, t), t.level, t.id), l) == level_of(levels, l),
        level_of(added(levels, t), t.level as int).contains(t),
        forall|u: Summary| #[trigger]
            level_of(added(levels, t), t.level as int).contains(u) && u.id == t.id ==> u == t,
{
    let p = padded(levels, t.level + 1);
    let v = p[t.level as int];
    assert(v == level_of(levels, t.level as int));
    lemma_slot_splits(v, t.min_key);
    let w = with_table(v, t);
    let at = if t.level == 0 {
        v.len() as int
    } else {
        slot_for(v, t.min_key) as int
    };
    assert(w =~= v.insert(at, t));
    assert(w[at] == t);
    assert forall|i: int| 0 <= i < w.len() && i != at implies (#[trigger] w[i]).id != t.id by {
        if i < at {
            assert(w[i] == v[i]);
        } else {
            assert(w[i] == v[i - 1]);
        }
    }
    lemma_retired_there(w, t.id, at);
    assert(w.remove(at) =~= v);
}

/// Removing a table that is not there changes nothing.
pub proof fn law_removing_nothing(levels: Seq<Seq<Summary>>, level: u32, id: u64)
    requires
        forall|i: int|
            0 <= i < level_of(levels, level as int).len() ==> (#[trigger] level_of(
                levels,
                level as int,
            )[i]).id != id,
    ensures
        removed(levels, level, id) == levels,
{
    let v = level_of(levels, level as int);
    lemma_retired_there(v, id, v.len() as int);
    assert(removed(levels, level, id) =~= levels);
}

} // verus!
