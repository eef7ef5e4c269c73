//! The names of table files, and which files nothing refers to.

use crate::bytes::copy_bytes;
use crate::lsm::compaction::metas;
use crate::lsm::sstable::{Summary, TableMeta};
use crate::ordered::{ascending, byte_lists, ByteSet};
use vstd::prelude::*;

verus! {

/// Digits that a file name has at least.
pub const NAME_DIGITS: usize = 10;

/// The decimal digits of a number.
pub open spec fn digits(n: nat) -> Seq<u8>
    decreases n,
{
    let last = seq![(48 + n % 10) as u8];
    if n < 10 {
        last
    } else {
        digits(n / 10) + last
    }
}

/// What follows the id in a table's file name.
pub open spec fn suffix() -> Seq<u8> {
    seq![46u8, 115u8, 115u8, 116u8]
}

/// So many zeros.
pub open spec fn zeros(n: nat) -> Seq<u8> {
    Seq::new(n, |i: int| 48u8)
}

/// The file name of a table: its id, padded with zeros, and the suffix `.sst`.
pub open spec fn name_of(id: u64) -> Seq<u8> {
    let d = digits(id as nat);
    let pad = if d.len() < NAME_DIGITS {
        (NAME_DIGITS - d.len()) as nat
    } else {
        0
    };
    zeros(pad) + d + suffix()
}

/// All bytes are decimal digits.
pub open spec fn all_digits(b: Seq<u8>) -> bool {
    forall|i: int| 0 <= i < b.len() ==> 48 <= #[trigger] b[i] <= 57
}

/// The number that digits write.
pub open spec fn value(b: Seq<u8>) -> nat
    decreases b.len(),
{
    if b.len() == 0 {
        0
    } else {
        value(b.drop_last()) * 10 + (b.last() - 48) as nat
    }
}

/// The number that a text writes: digits, with or without a plus sign in front.
pub open spec fn number_in(b: Seq<u8>) -> Option<u64> {
    let d = if b.len() > 0 && b[0] == 43 {
        b.subrange(1, b.len() as int)
    } else {
        b
    };
    if d.len() > 0 && all_digits(d) && value(d) <= u64::MAX {
        Some(value(d) as u64)
    } else {
        None
    }
}

/// The id in a table's file name; none for other files.
pub open spec fn id_in(name: Seq<u8>) -> Option<u64> {
    let n = name.len() - 4;
    if n > 0 && name.subrange(n, name.len() as int) == suffix() {
        number_in(name.subrange(0, n))
    } else {
        None
    }
}

/// Reads a number.
fn parse_number(b: &[u8]) -> (r: Option<u64>)
    ensures
        r == number_in(b@),
{
    let n: usize = b.len();
    let start: usize = if n > 0 && b[0] == 43 {
        1
    } else {
        0
    };
    let ghost d = b@.subrange(start as int, n as int);
    assert(start == 0 ==> d =~= b@);
    if start == n {
        return None;
    }
    let mut v: u64 = 0;
    let mut i: usize = start;
    assert(d.subrange(0, 0).len() == 0);
    while i < n
        invariant
            start <= i <= n,
            start < n,
            n == b@.len(),
            d == b@.subrange(start as int, n as int),
            number_in(b@) == if all_digits(d) && value(d) <= u64::MAX {
                Some(value(d) as u64)
            } else {
                None
            },
            v == value(d.subrange(0, i - start)),
            forall|k: int| 0 <= k < i - start ==> 48 <= #[trigger] d[k] <= 57,
        decreases n - i,
    {
        let c: u8 = b[i];
        let ghost k = i - start;
        let ghost more = d.subrange(0, k + 1);
        assert(d[k] == c);
        if c < 48 || c > 57 {
            assert(!all_digits(d));
            return None;
        }
        proof {
            assert(more.drop_last() =~= d.subrange(0, k));
            assert(more.last() == c);
            lemma_value_grows(d, k + 1);
        }
        match v.checked_mul(10) {
            Some(w) => match w.checked_add((c - 48) as u64) {
                Some(x) => {
                    v = x;
                },
                None => return None,
            },
            None => return None,
        }
        i += 1;
    }
    assert(d.subrange(0, i - start) =~= d);
    Some(v)
}

/// More digits write no smaller a number.
proof fn lemma_value_grows(d: Seq<u8>, k: int)
    requires
        0 <= k <= d.len(),
    ensures
        all_digits(d) ==> value(d.subrange(0, k)) <= value(d),
    decreases d.len() - k,
{
    if k < d.len() {
        lemma_value_grows(d, k + 1);
        let more = d.subrange(0, k + 1);
        assert(more.drop_last() =~= d.subrange(0, k));
    } else {
        assert(d.subrange(0, k) =~= d);
    }
}

/// The id in a table's file name.
pub fn table_id(name: &[u8]) -> (r: Option<u64>)
    ensures
        r == id_in(name@),
{
    let n: usize = name.len();
    if n <= 4 {
        return None;
    }
    let at: usize = n - 4;
    let ghost tail = name@.subrange(at as int, n as int);
    if !(name[at] == 46 && name[at + 1] == 115 && name[at + 2] == 115 && name[at + 3] == 116) {
        assert(tail[0] == name@[at as int] && tail[1] == name@[at + 1] && tail[2] == name@[at + 2]
            && tail[3] == name@[at + 3]);
        return None;
    }
    assert(tail =~= suffix());
    parse_number(vstd::slice::slice_subrange(name, 0, at))
}

/// File name for table `id`.
pub fn table_name(id: u64) -> (name: Vec<u8>)
    ensures
        name@ == name_of(id),
{
    let mut back: Vec<u8> = Vec::new();
    let mut rest: u64 = id;
    let ghost whole = digits(id as nat);
    back.push((48 + rest % 10) as u8);
    rest = rest / 10;
    assert(back@.reverse() =~= seq![(48 + id % 10) as u8]);
    while rest > 0
        invariant
            back@.len() > 0,
            whole == if rest > 0 {
                digits(rest as nat) + back@.reverse()
            } else {
                back@.reverse()
            },
        decreases rest,
    {
        let ghost was = back@;
        let c: u8 = (48 + rest % 10) as u8;
        back.push(c);
        proof {
            assert(back@.reverse() =~= seq![c] + was.reverse());
            let up = rest / 10;
            if rest >= 10 {
                assert(digits(rest as nat) == digits(up as nat) + seq![c]);
                assert((digits(up as nat) + seq![c]) + was.reverse() =~= digits(up as nat) + (
                seq![c] + was.reverse()));
            } else {
                assert(digits(rest as nat) == seq![c]);
            }
        }
        rest = rest / 10;
    }
    let mut name: Vec<u8> = Vec::new();
    let n: usize = back.len();
    let pad: usize = if n < NAME_DIGITS {
        NAME_DIGITS - n
    } else {
        0
    };
    let mut i: usize = 0;
    assert(name@ =~= zeros(0));
    while i < pad
        invariant
            i <= pad,
            name@ == zeros(i as nat),
        decreases pad - i,
    {
        name.push(48);
        i += 1;
        assert(name@ =~= zeros(i as nat));
    }
    let mut j: usize = n;
    assert(name@ =~= zeros(pad as nat) + whole.subrange(0, 0));
    while j > 0
        invariant
            j <= n,
            n == back@.len(),
            whole == back@.reverse(),
            name@ == zeros(pad as nat) + whole.subrange(0, n - j),
        decreases j,
    {
        let ghost was = name@;
        name.push(back[j - 1]);
        assert(whole[n - j] == back@[j - 1]);
        assert(name@ =~= zeros(pad as nat) + whole.subrange(0, n - j + 1));
        j -= 1;
    }
    assert(whole.subrange(0, n as int) =~= whole);
    name.push(46);
    name.push(115);
    name.push(115);
    name.push(116);
    assert(name@ =~= name_of(id));
    name
}

/// Leading zeros do not change the number.
proof fn lemma_padded(k: nat, n: nat)
    ensures
        all_digits(zeros(k) + digits(n)),
        value(zeros(k) + digits(n)) == n,
        digits(n).len() > 0,
    decreases n,
{
    let b = zeros(k) + digits(n);
    let c = (48 + n % 10) as u8;
    if n < 10 {
        assert(b.drop_last() =~= zeros(k));
        lemma_zeros(k);
    } else {
        lemma_padded(k, n / 10);
        assert(b.drop_last() =~= zeros(k) + digits(n / 10));
        assert(b =~= (zeros(k) + digits(n / 10)).push(c));
    }
}

proof fn lemma_zeros(k: nat)
    ensures
        value(zeros(k)) == 0,
    decreases k,
{
    if k > 0 {
        lemma_zeros((k - 1) as nat);
        assert(zeros(k).drop_last() =~= zeros((k - 1) as nat));
    }
}

/// A table's file name gives back its id.
pub proof fn law_names_give_back_ids(id: u64)
    ensures
        id_in(name_of(id)) == Some(id),
{
    let d = digits(id as nat);
    let pad = if d.len() < NAME_DIGITS {
        (NAME_DIGITS - d.len()) as nat
    } else {
        0
    };
    lemma_padded(pad, id as nat);
    let stem = zeros(pad) + d;
    let name = name_of(id);
    let n = name.len() - 4;
    assert(name.subrange(n, name.len() as int) =~= suffix());
    assert(name.subrange(0, n) =~= stem);
    assert(48 <= stem[0] <= 57);
}

/// Some table of the list has the id.
pub open spec fn refers(live: Seq<Summary>, id: u64) -> bool {
    exists|i: int| 0 <= i < live.len() && (#[trigger] live[i]).id == id
}

/// The file is a table's, and no live table has its id.
pub open spec fn is_orphan(name: Seq<u8>, live: Seq<Summary>) -> bool {
    match id_in(name) {
        Some(id) => !refers(live, id),
        None => false,
    }
}

/// Table files that the live set does not reference, in order of their names.
///
/// These are the debris of a crash between writing a table and committing its
/// manifest edit. Deleting them is always safe: no manifest edit mentions them,
/// so no reader can reach them.
pub fn orphaned_files(names: &Vec<Vec<u8>>, live: &Vec<TableMeta>) -> (out: Vec<Vec<u8>>)
    ensures
        ascending(byte_lists(out@)),
        forall|name: Seq<u8>| #[trigger]
            byte_lists(out@).contains(name) <==> byte_lists(names@).contains(name) && is_orphan(
                name,
                metas(live@),
            ),
{
    let ghost all = byte_lists(names@);
    let mut found: ByteSet = ByteSet::new();
    let mut i: usize = 0;
    while i < names.len()
        invariant
            i <= names@.len(),
            all == byte_lists(names@),
            found.wf(),
            forall|name: Seq<u8>| #[trigger]
                found@.contains(name) <==> all.subrange(0, i as int).contains(name) && is_orphan(
                    name,
                    metas(live@),
                ),
        decreases names@.len() - i,
    {
        let ghost was = found@;
        let ghost this = all[i as int];
        assert(this == names@[i as int]@);
        let orphan: bool = match table_id(names[i].as_slice()) {
            Some(id) => !mentions(live, id),
            None => false,
        };
        if orphan {
            found.insert(copy_bytes(names[i].as_slice()));
        }
        proof {
            let (a, b) = (all.subrange(0, i as int), all.subrange(0, i + 1));
            assert forall|name: Seq<u8>| #[trigger] found@.contains(name) <==> b.contains(name)
                && is_orphan(name, metas(live@)) by {
                assert(b =~= a.push(this));
                assert(was.contains(name) <==> a.contains(name) && is_orphan(name, metas(live@)));
                if a.contains(name) {
                    let k = choose|k: int| 0 <= k < a.len() && a[k] == name;
                    assert(b[k] == name);
                }
                assert(b[i as int] == this);
                if b.contains(name) {
                    let k = choose|k: int| 0 <= k < b.len() && b[k] == name;
                    if k < i {
                        assert(a[k] == name);
                    }
                }
            }
        }
        i += 1;
    }
    assert(all.subrange(0, i as int) =~= all);
    assert forall|name: Seq<u8>| #[trigger] byte_lists(found.items@).contains(name)
        == found@.contains(name) by {}
    found.items
}

/// Whether some table of the list has the id.
fn mentions(live: &Vec<TableMeta>, id: u64) -> (r: bool)
    ensures
        r == refers(metas(live@), id),
{
    let mut i: usize = 0;
    while i < live.len()
        invariant
            i <= live@.len(),
            forall|k: int| 0 <= k < i ==> (#[trigger] metas(live@)[k]).id != id,
        decreases live@.len() - i,
    {
        assert(metas(live@)[i as int] == live@[i as int]@);
        if live[i].id == id {
            return true;
        }
        i += 1;
    }
    false
}

} // verus!
