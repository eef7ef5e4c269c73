//! Which level is drained first, and what is taken along.

use crate::bytes::{lemma_lex_total, lemma_lex_transitive, lex_le, lex_lt};
use crate::lsm::compaction::{budget, bytes_of, exceeds, is_due, meeting, LevelConfig, Score};
use crate::lsm::levels::{
    added, drained, greatest_key, largest, least_key, lemma_slot_splits, level_of, most_urgent,
    padded, score_of, slot_for, with_table,
};
use crate::lsm::merge::clipped;
use crate::lsm::sstable::Summary;
use vstd::arithmetic::power::{lemma_pow0, pow};
use vstd::prelude::*;

verus! {

// ---- priority -------------------------------------------------------------------------------

/// The higher of two scores is no lower than what the other is no lower than.
proof fn lemma_no_higher(x: Score, b: Score, s: Score)
    requires
        !exceeds(x, b),
        exceeds(s, b),
    ensures
        !exceeds(x, s),
{
    if x.budget != 0 && b.budget != 0 && s.budget != 0 {
        let (xa, xb, ba, bb, sa, sb) = (
            x.amount as int,
            x.budget as int,
            b.amount as int,
            b.budget as int,
            s.amount as int,
            s.budget as int,
        );
        assert(xa * sb <= sa * xb) by (nonlinear_arith)
            requires
                xa * bb <= ba * xb,
                sa * bb > ba * sb,
                xa >= 0,
                ba >= 0,
                sa >= 0,
                xb > 0,
                bb > 0,
                sb > 0,
        ;
    }
}

/// A score that is no higher than another that is not due is not due.
proof fn lemma_not_due(x: Score, b: Score)
    requires
        !exceeds(x, b),
        !is_due(b),
    ensures
        !is_due(x),
{
    let (xa, xb, ba, bb) = (x.amount as int, x.budget as int, b.amount as int, b.budget as int);
    if xb > 0 {
        assert(xa < xb) by (nonlinear_arith)
            requires
                xa * bb <= ba * xb,
                ba < bb,
                xa >= 0,
                ba >= 0,
                xb > 0,
        ;
    }
}

proof fn lemma_most_urgent(levels: Seq<Seq<Summary>>, c: LevelConfig, n: nat, l: u32)
    requires
        l < n <= u32::MAX,
    ensures
        !exceeds(score_of(levels, c, l), most_urgent(levels, c, n).1),
        most_urgent(levels, c, n).0 > l ==> exceeds(
            most_urgent(levels, c, n).1,
            score_of(levels, c, l),
        ),
    decreases n,
{
    let b = most_urgent(levels, c, (n - 1) as nat);
    let s = score_of(levels, c, (n - 1) as u32);
    let x = score_of(levels, c, l);
    lemma_never_above_itself(s);
    lemma_urgent_score(levels, c, (n - 1) as nat);
    if l < n - 1 {
        lemma_most_urgent(levels, c, (n - 1) as nat, l);
        if exceeds(s, b.1) {
            lemma_no_higher(x, b.1, s);
            lemma_above(s, b.1, x);
        }
    }
}

proof fn lemma_never_above_itself(s: Score)
    ensures
        !exceeds(s, s),
{
}

/// A score above another is above what is no higher than that one.
proof fn lemma_above(s: Score, b: Score, x: Score)
    requires
        exceeds(s, b),
        !exceeds(x, b),
    ensures
        exceeds(s, x),
{
    if x.budget != 0 && b.budget != 0 && s.budget != 0 {
        let (xa, xb, ba, bb, sa, sb) = (
            x.amount as int,
            x.budget as int,
            b.amount as int,
            b.budget as int,
            s.amount as int,
            s.budget as int,
        );
        assert(sa * xb > xa * sb) by (nonlinear_arith)
            requires
                xa * bb <= ba * xb,
                sa * bb > ba * sb,
                xa >= 0,
                ba >= 0,
                sa >= 0,
                xb > 0,
                bb > 0,
                sb > 0,
        ;
    }
}

proof fn lemma_urgent_score(levels: Seq<Seq<Summary>>, c: LevelConfig, n: nat)
    requires
        n <= u32::MAX,
    ensures
        ({
            let (level, score) = most_urgent(levels, c, n);
            ||| level < n && score == score_of(levels, c, level)
            ||| level == 0 && score == (Score { amount: 0, budget: 1 })
        }),
    decreases n,
{
    if n > 0 {
        lemma_urgent_score(levels, c, (n - 1) as nat);
    }
}

/// The level that is picked has the highest score of all that can be drained,
/// the first of several: no other holds more for what it may hold. Where none is
/// picked, all hold less than they may.
pub proof fn law_the_fullest_level_is_picked(
    levels: Seq<Seq<Summary>>,
    c: LevelConfig,
    l: u32,
)
    requires
        0 < levels.len() <= u32::MAX,
        l < levels.len() - 1,
    ensures
        ({
            let (level, top) = most_urgent(levels, c, (levels.len() - 1) as nat);
            let s = score_of(levels, c, l);
            &&& s.amount * top.budget <= top.amount * s.budget
            &&& s.budget == 0 ==> top.budget == 0
            &&& top.amount >= top.budget ==> level < levels.len() - 1 && top == score_of(
                levels,
                c,
                level,
            )
            &&& top.amount >= top.budget && l < level && s.budget > 0 && top.budget > 0 ==> s.amount
                * top.budget < top.amount * s.budget
            &&& top.amount < top.budget ==> s.amount < s.budget
        }),
{
    let n = (levels.len() - 1) as nat;
    let (level, top) = most_urgent(levels, c, n);
    let s = score_of(levels, c, l);
    lemma_most_urgent(levels, c, n, l);
    lemma_urgent_score(levels, c, n);
    if !is_due(top) {
        lemma_not_due(s, top);
    }
    assert(top.budget == 0 ==> s.amount * top.budget == 0 && top.amount * s.budget >= 0)
        by (nonlinear_arith)
        requires
            s.budget >= 0,
            top.amount >= 0,
    ;
    assert(s.budget == 0 && top.budget == 0 ==> s.amount * top.budget == 0) by (nonlinear_arith);
}

// ---- scores ---------------------------------------------------------------------------------

/// The sizes of a list with one more table, wherever it stands.
proof fn lemma_bytes_insert(v: Seq<Summary>, i: int, t: Summary)
    requires
        0 <= i <= v.len(),
    ensures
        bytes_of(v.insert(i, t)) == bytes_of(v) + t.file_bytes,
    decreases v.len(),
{
    let w = v.insert(i, t);
    if i == v.len() {
        assert(w.drop_last() =~= v);
    } else {
        lemma_bytes_insert(v.drop_last(), i, t);
        assert(w.drop_last() =~= v.drop_last().insert(i, t));
        assert(w.last() == v.last());
    }
}

/// L0 weighs its tables, a deeper level the bytes of its tables: one more table
/// counts as one in L0 and as its size elsewhere, and changes the score of no
/// other level.
pub proof fn law_scores_weigh_tables(
    levels: Seq<Seq<Summary>>,
    c: LevelConfig,
    t: Summary,
    l: u32,
)
    requires
        0 < levels.len(),
        level_of(levels, 0).len() < u64::MAX,
        c.l0_compaction_trigger > 0,
        t.level > 0 ==> budget(c, t.level) > 0 && 0 <= bytes_of(level_of(levels, t.level as int))
            && bytes_of(level_of(levels, t.level as int)) + t.file_bytes <= u64::MAX,
    ensures
        ({
            let was = score_of(levels, c, l);
            let now = score_of(added(levels, t), c, l);
            &&& now.budget == was.budget
            &&& l == t.level ==> now.amount == was.amount + if l == 0 {
                1
            } else {
                t.file_bytes as int
            }
            &&& l != t.level ==> now.amount == was.amount
            &&& level_of(levels, l as int).len() == 0 ==> was.amount == 0
        }),
{
    let p = padded(levels, t.level + 1);
    let v = p[t.level as int];
    assert(v == level_of(levels, t.level as int));
    lemma_slot_splits(v, t.min_key);
    let w = with_table(v, t);
    if t.level == 0 {
        assert(w =~= v.insert(v.len() as int, t));
        lemma_bytes_insert(v, v.len() as int, t);
    } else {
        lemma_bytes_insert(v, slot_for(v, t.min_key) as int, t);
    }
    assert(level_of(added(levels, t), t.level as int) == w);
    if l != t.level {
        assert(level_of(added(levels, t), l as int) == level_of(levels, l as int));
    }
}

/// L0 may hold as many tables as trigger a compaction. L1 may hold the base
/// budget, and each deeper level the multiple of the one above it, as far as
/// sixty-four bits reach.
pub proof fn law_budgets_grow_geometrically(
    levels: Seq<Seq<Summary>>,
    c: LevelConfig,
    l: u32,
)
    requires
        1 <= l < u32::MAX,
    ensures
        c.l0_compaction_trigger > 0 ==> score_of(levels, c, 0).budget == c.l0_compaction_trigger,
        budget(c, 1) == c.base_level_bytes,
        budget(c, l) > 0 ==> score_of(levels, c, l).budget == budget(c, l),
        ({
            let next = budget(c, l) * c.size_multiplier;
            budget(c, (l + 1) as u32) == if next > u64::MAX {
                u64::MAX as int
            } else {
                next
            }
        }),
{
    let m = c.size_multiplier as int;
    let base = c.base_level_bytes as int;
    lemma_pow0(m);
    let e = (l - 1) as nat;
    reveal(pow);
    assert(pow(m, l as nat) == m * pow(m, e));
    let q = pow(m, e);
    lemma_pow_bounds(m, e);
    assert(base * 1 == base);
    let top = u64::MAX as int;
    let mq = m * q;
    let (cq, cmq) = (clipped(q) as int, clipped(mq) as int);
    assert(mq >= 0) by (nonlinear_arith)
        requires
            m >= 0,
            q >= 0,
            mq == m * q,
    ;
    let here = base * cq;
    let there = base * cmq;
    assert(here >= 0 && there >= 0) by (nonlinear_arith)
        requires
            base >= 0,
            cq >= 0,
            cmq >= 0,
            here == base * cq,
            there == base * cmq,
    ;
    assert(budget(c, l) == clipped(here));
    assert(budget(c, (l + 1) as u32) == clipped(there));
    if base == 0 {
        assert(here == 0 && there == 0) by (nonlinear_arith)
            requires
                base == 0,
                here == base * cq,
                there == base * cmq,
        ;
        assert(0 * m == 0);
    } else if q <= top && mq <= top {
        assert(there == here * m) by (nonlinear_arith)
            requires
                here == base * q,
                there == base * (m * q),
        ;
        if here > top {
            assert(m == 0 ==> q == 0 || e == 0);
            if m >= 1 {
                assert(here * m >= here) by (nonlinear_arith)
                    requires
                        here >= 0,
                        m >= 1,
                ;
                assert(top * m >= top) by (nonlinear_arith)
                    requires
                        m >= 1,
                        top >= 0,
                ;
            } else {
                lemma_zero_powers(e);
                assert(here <= base) by (nonlinear_arith)
                    requires
                        here == base * q,
                        0 <= q <= 1,
                        base >= 0,
                ;
            }
        }
    } else {
        // The power has passed the top already, or does so now.
        assert(cmq == top) by {
            if mq <= top {
                assert(q > top);
                assert(m >= 1) by {
                    if m == 0 {
                        lemma_zero_powers(e);
                    }
                }
                assert(mq >= q) by (nonlinear_arith)
                    requires
                        mq == m * q,
                        m >= 1,
                        q >= 0,
                ;
            }
        }
        assert(there >= top) by (nonlinear_arith)
            requires
                there == base * cmq,
                cmq == top,
                base >= 1,
                top >= 0,
        ;
        if here > top {
            assert(m >= 1) by {
                if m == 0 {
                    lemma_zero_powers(e);
                    assert(mq == 0);
                }
            }
            assert(top * m >= top) by (nonlinear_arith)
                requires
                    m >= 1,
                    top >= 0,
            ;
        } else if q <= top {
            assert(here * m >= mq) by (nonlinear_arith)
                requires
                    here == base * q,
                    mq == m * q,
                    base >= 1,
                    m >= 0,
                    q >= 0,
            ;
        } else {
            assert(here >= top) by (nonlinear_arith)
                requires
                    here == base * cq,
                    cq == top,
                    base >= 1,
                    top >= 0,
            ;
            assert(m >= 1) by {
                if m == 0 {
                    lemma_zero_powers(e);
                }
            }
            assert(here * m >= here) by (nonlinear_arith)
                requires
                    here >= 0,
                    m >= 1,
            ;
        }
    }
}

proof fn lemma_pow_bounds(m: int, e: nat)
    requires
        m >= 0,
    ensures
        pow(m, e) >= 0,
    decreases e,
{
    reveal(pow);
    if e > 0 {
        lemma_pow_bounds(m, (e - 1) as nat);
        let q = pow(m, (e - 1) as nat);
        assert(m * q >= 0) by (nonlinear_arith)
            requires
                m >= 0,
                q >= 0,
        ;
    }
}

proof fn lemma_zero_powers(e: nat)
    ensures
        0 <= pow(0, e) <= 1,
{
    reveal(pow);
    lemma_pow0(0);
}

// ---- what a job takes -----------------------------------------------------------------------

proof fn lemma_none_larger(v: Seq<Summary>, i: int)
    requires
        0 <= i < v.len(),
    ensures
        0 <= largest(v) < v.len(),
        v[i].file_bytes <= v[largest(v)].file_bytes,
    decreases v.len(),
{
    if v.len() > 1 {
        let less = v.drop_last();
        lemma_none_larger(less, 0);
        assert(less[largest(less)] == v[largest(less)]);
        if i < less.len() {
            lemma_none_larger(less, i);
            assert(less[i] == v[i]);
        }
    }
}

proof fn lemma_least(v: Seq<Summary>) -> (b: int)
    requires
        v.len() > 0,
    ensures
        0 <= b < v.len(),
        least_key(v) == v[b].min_key,
        forall|i: int| 0 <= i < v.len() ==> lex_le(v[b].min_key, (#[trigger] v[i]).min_key),
    decreases v.len(),
{
    if v.len() == 1 {
        0
    } else {
        let less = v.drop_last();
        let b = lemma_least(less);
        let k = v[b].min_key;
        let last = v.last().min_key;
        lemma_lex_total(last, k);
        let r = if lex_lt(last, k) {
            v.len() - 1
        } else {
            b
        };
        assert forall|i: int| 0 <= i < v.len() implies lex_le(
            v[r].min_key,
            (#[trigger] v[i]).min_key,
        ) by {
            if i < less.len() {
                assert(less[i] == v[i]);
                assert(lex_le(k, v[i].min_key));
                if r != b && k != v[i].min_key {
                    lemma_lex_transitive(last, k, v[i].min_key);
                }
            }
        }
        r
    }
}

proof fn lemma_greatest(v: Seq<Summary>) -> (b: int)
    requires
        v.len() > 0,
    ensures
        0 <= b < v.len(),
        greatest_key(v) == v[b].max_key,
        forall|i: int| 0 <= i < v.len() ==> lex_le((#[trigger] v[i]).max_key, v[b].max_key),
    decreases v.len(),
{
    if v.len() == 1 {
        0
    } else {
        let less = v.drop_last();
        let b = lemma_greatest(less);
        let k = v[b].max_key;
        let last = v.last().max_key;
        lemma_lex_total(last, k);
        let r = if lex_lt(k, last) {
            v.len() - 1
        } else {
            b
        };
        assert forall|i: int| 0 <= i < v.len() implies lex_le(
            (#[trigger] v[i]).max_key,
            v[r].max_key,
        ) by {
            if i < less.len() {
                assert(less[i] == v[i]);
                assert(lex_le(v[i].max_key, k));
                if r != b && k != v[i].max_key {
                    lemma_lex_transitive(v[i].max_key, k, last);
                }
            }
        }
        r
    }
}

proof fn lemma_le_chain(a: Seq<u8>, b: Seq<u8>, c: Seq<u8>)
    requires
        lex_le(a, b),
        lex_le(b, c),
    ensures
        lex_le(a, c),
{
    if a != b && b != c {
        lemma_lex_transitive(a, b, c);
    }
}

proof fn lemma_met(v: Seq<Summary>, from: Seq<u8>, to: Seq<u8>, t: Summary)
    ensures
        meeting(v, from, to).contains(t) <==> v.contains(t) && lex_le(t.min_key, to) && lex_le(
            from,
            t.max_key,
        ),
    decreases v.len(),
{
    if v.len() > 0 {
        let less = v.drop_last();
        let all = meeting(v, from, to);
        let some = meeting(less, from, to);
        lemma_met(less, from, to, t);
        assert(v =~= less.push(v.last()));
        if less.contains(t) {
            let i = choose|i: int| 0 <= i < less.len() && less[i] == t;
            assert(v[i] == t);
        }
        if v.contains(t) && t != v.last() {
            let i = choose|i: int| 0 <= i < v.len() && v[i] == t;
            assert(less[i] == t);
        }
        if v.last() == t {
            assert(v[v.len() - 1] == t);
        }
        if some.contains(t) {
            let i = choose|i: int| 0 <= i < some.len() && some[i] == t;
            assert(all[i] == t);
        }
        if all.contains(t) && !some.contains(t) {
            let i = choose|i: int| 0 <= i < all.len() && all[i] == t;
            if i < some.len() {
                assert(some[i] == t);
            }
        }
        if all.len() > some.len() {
            assert(all[some.len() as int] == v.last());
        }
    }
}

/// A compaction drains L0 as a whole, and of a deeper level its largest table
/// alone. Of the level below it takes along exactly the tables that lie neither
/// before the first key of all that is drained nor behind the last, so that
/// none is left out that shares a key with what moves down.
pub proof fn law_jobs_take_what_overlaps(levels: Seq<Seq<Summary>>, level: u32, t: Summary)
    requires
        level + 1 < levels.len(),
        levels[level as int].len() > 0,
    ensures
        ({
            let here = levels[level as int];
            let below = levels[level + 1];
            let source = drained(levels, level);
            let target = meeting(below, least_key(source), greatest_key(source));
            &&& level == 0 ==> source == here
            &&& level > 0 ==> source.len() == 1 && here.contains(source[0]) && forall|i: int|
                0 <= i < here.len() ==> (#[trigger] here[i]).file_bytes <= source[0].file_bytes
            &&& target.contains(t) <==> below.contains(t) && exists|a: int, b: int|
                0 <= a < source.len() && 0 <= b < source.len() && lex_le(
                    t.min_key,
                    (#[trigger] source[a]).max_key,
                ) && lex_le((#[trigger] source[b]).min_key, t.max_key)
            &&& below.contains(t) ==> forall|i: int, key: Seq<u8>|
                0 <= i < source.len() && lex_le((#[trigger] source[i]).min_key, key) && lex_le(
                    key,
                    source[i].max_key,
                ) && lex_le(t.min_key, key) && #[trigger] lex_le(key, t.max_key)
                    ==> target.contains(t)
        }),
{
    let here = levels[level as int];
    let below = levels[level + 1];
    let source = drained(levels, level);
    if level > 0 {
        assert forall|i: int| 0 <= i < here.len() implies (#[trigger] here[i]).file_bytes
            <= source[0].file_bytes by {
            lemma_none_larger(here, i);
        }
        lemma_none_larger(here, 0);
        assert(here[largest(here)] == source[0]);
    }
    let lo = lemma_least(source);
    let hi = lemma_greatest(source);
    let target = meeting(below, least_key(source), greatest_key(source));
    lemma_met(below, least_key(source), greatest_key(source), t);
    if below.contains(t) && exists|a: int, b: int|
        0 <= a < source.len() && 0 <= b < source.len() && lex_le(
            t.min_key,
            (#[trigger] source[a]).max_key,
        ) && lex_le((#[trigger] source[b]).min_key, t.max_key) {
        let (a, b) = choose|a: int, b: int|
            0 <= a < source.len() && 0 <= b < source.len() && lex_le(
                t.min_key,
                (#[trigger] source[a]).max_key,
            ) && lex_le((#[trigger] source[b]).min_key, t.max_key);
        lemma_le_chain(t.min_key, source[a].max_key, source[hi].max_key);
        lemma_le_chain(source[lo].min_key, source[b].min_key, t.max_key);
    }
    if target.contains(t) {
        assert(lex_le(t.min_key, source[hi].max_key) && lex_le(source[lo].min_key, t.max_key));
    }
    if below.contains(t) {
        assert forall|i: int, key: Seq<u8>|
            0 <= i < source.len() && lex_le((#[trigger] source[i]).min_key, key) && lex_le(
                key,
                source[i].max_key,
            ) && lex_le(t.min_key, key) && #[trigger] lex_le(key, t.max_key) implies target.contains(
            t,
        ) by {
            lemma_le_chain(t.min_key, key, source[i].max_key);
            lemma_le_chain(source[i].min_key, key, t.max_key);
            lemma_le_chain(t.min_key, source[i].max_key, source[hi].max_key);
            lemma_le_chain(source[lo].min_key, source[i].min_key, t.max_key);
        }
    }
}

} // verus!
