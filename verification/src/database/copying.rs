//! Copying a database into a new one, batch by batch in key order.

use crate::btree::scan::{listing, pairs, Bound, Entry};
use crate::bytes::copy_bytes;
use crate::database::batch::{outcome, step, BatchOp};
use crate::database::scans::{batch_len, weight, BATCH_BYTES, BATCH_KEYS};
use crate::database::writable;
use vstd::prelude::*;

verus! {

/// The steps put the first pairs of a list.
pub open spec fn puts(ops: Seq<BatchOp>, list: Seq<Entry>) -> bool {
    &&& ops.len() <= list.len()
    &&& forall|i: int|
        0 <= i < ops.len() ==> (#[trigger] ops[i] matches BatchOp::Put(k, v) && k@ == list[i].0
            && v@ == list[i].1)
}

/// A batch is complete: it holds all that is left, enough keys or enough bytes.
pub open spec fn complete(list: Seq<Entry>, n: int) -> bool {
    n == list.len() || n == BATCH_KEYS || weight(list.take(n)) >= BATCH_BYTES
}

/// What a new database holds of the first `n` pairs.
pub open spec fn upto(list: Seq<Entry>, n: nat) -> Map<Seq<u8>, Seq<u8>>
    decreases n,
{
    if n == 0 {
        Map::empty()
    } else {
        upto(list, (n - 1) as nat).insert(list[n - 1].0, list[n - 1].1)
    }
}

/// The next batch of a copy, from the pairs that are left: its writes, and the
/// bound behind which the copy goes on. None when nothing is left.
pub fn next_batch(list: &Vec<(Vec<u8>, Vec<u8>)>) -> (r: Option<(Vec<BatchOp>, Bound)>)
    ensures
        match r {
            Some((ops, cursor)) => {
                let n = ops@.len() as int;
                &&& 0 < n <= BATCH_KEYS
                &&& puts(ops@, pairs(list@))
                &&& complete(pairs(list@), n)
                &&& forall|i: int|
                    0 <= i < n ==> weight(#[trigger] pairs(list@).take(i)) < BATCH_BYTES
                &&& cursor matches Bound::Excluded(k) && k@ == pairs(list@)[n - 1].0
            },
            None => list@.len() == 0,
        },
{
    let n: usize = batch_len(list);
    let ghost l = pairs(list@);
    if n == 0 {
        assert(l.take(0) =~= Seq::empty());
        assert(list@.len() == 0) by {
            if list@.len() > 0 {
                assert(weight(l.take(0)) == 0);
            }
        }
        return None;
    }
    let mut ops: Vec<BatchOp> = Vec::new();
    let mut i: usize = 0;
    while i < n
        invariant
            i <= n <= list@.len(),
            l == pairs(list@),
            ops@.len() == i,
            puts(ops@, l),
        decreases n - i,
    {
        ops.push(
            BatchOp::Put(copy_bytes(list[i].0.as_slice()), copy_bytes(list[i].1.as_slice())),
        );
        i += 1;
    }
    assert(l.take(l.len() as int) =~= l);
    Some((ops, Bound::Excluded(copy_bytes(list[n - 1].0.as_slice()))))
}

proof fn lemma_puts(list: Seq<Entry>, done: nat, ops: Seq<BatchOp>)
    requires
        done + ops.len() <= list.len(),
        puts(ops, list.skip(done as int)),
        forall|i: int| 0 <= i < list.len() ==> writable((#[trigger] list[i]).0, list[i].1),
    ensures
        outcome(upto(list, done), ops) == Some(upto(list, (done + ops.len()) as nat)),
    decreases ops.len(),
{
    if ops.len() > 0 {
        let less = ops.drop_last();
        let rest = list.skip(done as int);
        assert forall|i: int| 0 <= i < less.len() implies (#[trigger] less[i] matches BatchOp::Put(
            k,
            v,
        ) && k@ == rest[i].0 && v@ == rest[i].1) by {
            assert(less[i] == ops[i]);
        }
        lemma_puts(list, done, less);
        let at = done + less.len();
        assert(ops[ops.len() - 1] == ops.last());
        assert(rest[ops.len() - 1] == list[at as int]);
        assert(writable(list[at as int].0, list[at as int].1));
        assert(step(upto(list, at as nat), ops.last()) == Some(upto(list, (at + 1) as nat)));
    }
}

proof fn lemma_upto(m: Map<Seq<u8>, Seq<u8>>, list: Seq<Entry>, n: nat)
    requires
        listing(m, list),
        n <= list.len(),
    ensures
        forall|k: Seq<u8>| #[trigger]
            upto(list, n).contains_key(k) <==> exists|i: int|
                0 <= i < n && (#[trigger] list[i]).0 == k,
        forall|k: Seq<u8>| #[trigger]
            upto(list, n).contains_key(k) ==> m.contains_key(k) && upto(list, n)[k] == m[k],
    decreases n,
{
    if n > 0 {
        lemma_upto(m, list, (n - 1) as nat);
        let last = list[n - 1];
        assert(m.contains_key(last.0) && m[last.0] == last.1);
        assert forall|k: Seq<u8>| #[trigger]
            upto(list, n).contains_key(k) <==> exists|i: int|
                0 <= i < n && (#[trigger] list[i]).0 == k by {
            if upto(list, (n - 1) as nat).contains_key(k) {
                let i = choose|i: int| 0 <= i < n - 1 && (#[trigger] list[i]).0 == k;
                assert(list[i].0 == k);
            }
        }
        assert forall|k: Seq<u8>| #[trigger] upto(list, n).contains_key(k) implies m.contains_key(k)
            && upto(list, n)[k] == m[k] by {
            if k != last.0 {
                assert(upto(list, (n - 1) as nat).contains_key(k));
            }
        }
    }
}

/// A copy holds what the database holds: each batch adds its pairs to what the
/// batches before it have put, and together they make up the contents.
pub proof fn law_batches_add_up(
    m: Map<Seq<u8>, Seq<u8>>,
    list: Seq<Entry>,
    done: nat,
    ops: Seq<BatchOp>,
)
    requires
        listing(m, list),
        forall|i: int| 0 <= i < list.len() ==> writable((#[trigger] list[i]).0, list[i].1),
        done + ops.len() <= list.len(),
        puts(ops, list.skip(done as int)),
    ensures
        outcome(upto(list, done), ops) == Some(upto(list, (done + ops.len()) as nat)),
        upto(list, 0) == Map::<Seq<u8>, Seq<u8>>::empty(),
        upto(list, list.len()) == m,
{
    lemma_puts(list, done, ops);
    lemma_upto(m, list, list.len());
    assert(upto(list, list.len()) =~= m) by {
        assert forall|k: Seq<u8>| m.contains_key(k) implies #[trigger] upto(
            list,
            list.len(),
        ).contains_key(k) by {
            let i = choose|i: int| 0 <= i < list.len() && (#[trigger] list[i]).0 == k;
            assert(list[i].0 == k);
        }
    }
}

} // verus!
