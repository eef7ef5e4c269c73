//! What is damaged is noticed: nothing is read back whose checksum does not
//! stand beside it, and reading ends where the first damage begins.

use crate::bytes::{u32_at, u64_at};
use crate::checksum::crc32;
use crate::lsm::manifest::frame_at;
use crate::lsm::sstable::{footer_in, readable};
use crate::page::page_id_of;
use crate::pager::{journal_info, page_valid};
use crate::wal::{logged_at, read_log, read_on, top, Logged};
use vstd::prelude::*;

verus! {

/// A transaction that is read from the log lies there whole, behind its length
/// and its checksum.
pub proof fn law_logged_transactions_bear_their_checksum(log: Seq<u8>, pos: int)
    requires
        0 <= pos,
    ensures
        logged_at(log, pos) matches Some((e, end)) ==> {
            &&& pos + 24 <= end <= log.len()
            &&& u32_at(log, pos) == end - pos - 8
            &&& u32_at(log, pos + 4) == crc32(log.subrange(pos + 8, end))
        },
{
}

proof fn lemma_stops(log: Seq<u8>, pos: int, l: Seq<Logged>)
    requires
        0 <= pos <= log.len(),
    ensures
        pos <= read_on(log, pos, l).1 <= log.len(),
        logged_at(log, read_on(log, pos, l).1) is None,
        l.len() <= read_on(log, pos, l).0.len(),
        read_on(log, pos, l).0.subrange(0, l.len() as int) == l,
    decreases log.len() - pos,
{
    match logged_at(log, pos) {
        Some((e, end)) => {
            lemma_stops(log, end, l.push(e));
            let all = read_on(log, pos, l).0;
            assert(all.subrange(0, l.len() as int) =~= all.subrange(
                0,
                l.push(e).len() as int,
            ).subrange(0, l.len() as int));
            assert(l.push(e).subrange(0, l.len() as int) =~= l);
        },
        None => {
            assert(l.subrange(0, l.len() as int) =~= l);
        },
    }
}

/// Reading a log ends where no intact transaction stands, and nowhere before.
pub proof fn law_reading_ends_at_the_first_damage(log: Seq<u8>)
    ensures
        0 <= read_log(log).1 <= log.len(),
        logged_at(log, read_log(log).1) is None,
        logged_at(log, 0) is None <==> read_log(log).0.len() == 0,
{
    lemma_stops(log, 0, Seq::empty());
    if let Some((e, end)) = logged_at(log, 0) {
        lemma_stops(log, end, Seq::<Logged>::empty().push(e));
    }
}

/// The highest transaction id of a log is that of one of its transactions, and
/// none is higher.
pub proof fn law_no_id_is_higher(l: Seq<Logged>)
    ensures
        forall|i: int| 0 <= i < l.len() ==> (#[trigger] l[i]).txn <= top(l),
        top(l) == 0 || exists|i: int| 0 <= i < l.len() && (#[trigger] l[i]).txn == top(l),
    decreases l.len(),
{
    if l.len() > 0 {
        let less = l.drop_last();
        law_no_id_is_higher(less);
        assert(l[l.len() - 1] == l.last());
        assert forall|i: int| 0 <= i < l.len() implies (#[trigger] l[i]).txn <= top(l) by {
            if i < less.len() {
                assert(l[i] == less[i]);
            }
        }
        if top(l) == top(less) && top(less) != 0 {
            let i = choose|i: int| 0 <= i < less.len() && (#[trigger] less[i]).txn == top(less);
            assert(l[i] == less[i]);
        }
    }
}

/// An edit that is read from the manifest lies there whole, behind its length,
/// which is from one to 2^24 bytes, and its checksum.
pub proof fn law_edits_bear_their_checksum(log: Seq<u8>, pos: int)
    requires
        0 <= pos,
    ensures
        frame_at(log, pos) matches Some((payload, end)) ==> {
            &&& pos + 8 < end <= log.len()
            &&& end - pos - 8 <= 0x100_0000
            &&& u32_at(log, pos) == end - pos - 8
            &&& payload == log.subrange(pos + 8, end)
            &&& u32_at(log, pos + 4) == crc32(payload)
        },
{
}

/// A table that is opened ends in a footer with the checksum of all that comes
/// before it, and in the mark of a table.
pub proof fn law_tables_bear_their_checksum(file: Seq<u8>)
    ensures
        readable(file) ==> {
            &&& file.len() >= 76
            &&& u32_at(file, file.len() - 12) == crc32(file.subrange(0, file.len() - 76))
            &&& u64_at(file, file.len() - 8) == 0x5044_4253_5354_424C
        },
{
    if readable(file) {
        reveal(footer_in);
        let n = file.len() - 76;
        let foot = file.subrange(n, file.len() as int);
        assert(foot[64] == file[n + 64] && foot[65] == file[n + 65] && foot[66] == file[n + 66]
            && foot[67] == file[n + 67]);
        assert(foot[68] == file[n + 68] && foot[69] == file[n + 69] && foot[70] == file[n + 70]
            && foot[71] == file[n + 71]);
        assert(foot[72] == file[n + 72] && foot[73] == file[n + 73] && foot[74] == file[n + 74]
            && foot[75] == file[n + 75]);
    }
}

/// A journal that is replayed is complete: as long as it says, with the
/// checksum of all that comes before it and its end mark behind.
pub proof fn law_journals_bear_their_checksum(b: Seq<u8>)
    ensures
        journal_info(b) matches Some((target, count)) ==> {
            &&& b.len() == 40 + 4104 * count
            &&& u32_at(b, b.len() - 8) == crc32(b.subrange(0, b.len() - 8))
            &&& u32_at(b, b.len() - 4) == 0x4A45_4E44
            &&& u64_at(b, 0) == 0x5048_584A_524E_4C31
            &&& u32_at(b, 16) == target
        },
{
}

/// A page that is read begins with the checksum of the rest of it and says
/// where it belongs.
pub proof fn law_pages_bear_their_checksum(b: Seq<u8>, id: u32, other: u32)
    ensures
        page_valid(b, id) ==> u32_at(b, 0) == crc32(b.subrange(4, 4096)),
        page_valid(b, id) && page_valid(b, other) ==> id == other,
        page_valid(b, id) ==> page_id_of(b) == id,
{
}

} // verus!
