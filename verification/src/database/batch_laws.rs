//! What a batch does, told by the steps that name a key.

use crate::database::batch::{outcome, refused, step, BatchOp};
use crate::error::Error;
use vstd::prelude::*;

verus! {

/// The key that a step names.
pub open spec fn key_of(op: BatchOp) -> Seq<u8> {
    match op {
        BatchOp::Put(k, _) => k@,
        BatchOp::Delete(k) => k@,
        BatchOp::DeleteIfExists(k) => k@,
    }
}

/// Of the first `n` steps, step `i` is the last that names `k`.
pub open spec fn last_on(ops: Seq<BatchOp>, n: int, k: Seq<u8>, i: int) -> bool {
    &&& 0 <= i < n <= ops.len()
    &&& key_of(ops[i]) == k
    &&& forall|j: int| i < j < n ==> key_of(#[trigger] ops[j]) != k
}

/// None of the first `n` steps names `k`.
pub open spec fn untouched(ops: Seq<BatchOp>, n: int, k: Seq<u8>) -> bool {
    forall|j: int| 0 <= j < n ==> key_of(#[trigger] ops[j]) != k
}

/// After the first `n` steps `k` is there: the last of them that names it puts
/// it, or it was there and none names it.
pub open spec fn there(m: Map<Seq<u8>, Seq<u8>>, ops: Seq<BatchOp>, n: int, k: Seq<u8>) -> bool {
    ||| untouched(ops, n, k) && m.contains_key(k)
    ||| exists|i: int| #[trigger] last_on(ops, n, k, i) && ops[i] is Put
}

/// Step `i` can be taken when its turn comes: a pair to put has a key of 1 to
/// 1024 bytes and a value of at most ten mebibytes, a key to delete has 1 byte
/// to one mebibyte, and a plain delete finds its key.
pub open spec fn can_step(m: Map<Seq<u8>, Seq<u8>>, ops: Seq<BatchOp>, i: int) -> bool {
    match ops[i] {
        BatchOp::Put(k, v) => 1 <= k@.len() <= 1024 && v@.len() <= 10 * 1024 * 1024,
        BatchOp::Delete(k) => 1 <= k@.len() <= 1024 * 1024 && there(m, ops, i, k@),
        BatchOp::DeleteIfExists(k) => 1 <= k@.len() <= 1024 * 1024,
    }
}

/// What the first steps of a batch leave of one key, and that they can all be
/// taken.
proof fn lemma_first_steps(m: Map<Seq<u8>, Seq<u8>>, ops: Seq<BatchOp>, n: int, k: Seq<u8>)
    requires
        0 <= n <= ops.len(),
        outcome(m, ops.take(n)) is Some,
    ensures
        ({
            let now = outcome(m, ops.take(n))->0;
            &&& untouched(ops, n, k) ==> now.contains_key(k) == m.contains_key(k) && (m.contains_key(k)
                ==> now[k] == m[k])
            &&& forall|i: int| #[trigger]
                last_on(ops, n, k, i) ==> match ops[i] {
                    BatchOp::Put(_, v) => now.contains_key(k) && now[k] == v@,
                    _ => !now.contains_key(k),
                }
            &&& now.contains_key(k) == there(m, ops, n, k)
        }),
    decreases n,
{
    if n == 0 {
        assert(ops.take(0) =~= Seq::empty());
        assert(untouched(ops, 0, k));
    } else {
        let op = ops[n - 1];
        assert(ops.take(n).drop_last() =~= ops.take(n - 1));
        assert(ops.take(n).last() == op);
        lemma_first_steps(m, ops, n - 1, k);
        let prev = outcome(m, ops.take(n - 1))->0;
        let now = outcome(m, ops.take(n))->0;
        assert(step(prev, op) == Some(now));
        if key_of(op) == k {
            assert(last_on(ops, n, k, n - 1));
            assert(!untouched(ops, n, k));
            assert forall|i: int| #[trigger] last_on(ops, n, k, i) implies i == n - 1 by {
                if i < n - 1 {
                    assert(key_of(ops[n - 1]) != k);
                }
            }
        } else {
            assert(untouched(ops, n, k) == untouched(ops, n - 1, k)) by {
                if untouched(ops, n - 1, k) {
                    assert forall|j: int| 0 <= j < n implies key_of(#[trigger] ops[j]) != k by {}
                }
            }
            assert forall|i: int| #[trigger]
                last_on(ops, n, k, i) == last_on(ops, n - 1, k, i) by {}
            assert(now.contains_key(k) == prev.contains_key(k));
            assert(prev.contains_key(k) ==> now[k] == prev[k]);
            if there(m, ops, n - 1, k) && !untouched(ops, n - 1, k) {
                let i = choose|i: int| #[trigger] last_on(ops, n - 1, k, i) && ops[i] is Put;
                assert(last_on(ops, n, k, i));
            }
            if there(m, ops, n, k) && !untouched(ops, n, k) {
                let i = choose|i: int| #[trigger] last_on(ops, n, k, i) && ops[i] is Put;
                assert(last_on(ops, n - 1, k, i));
            }
        }
    }
}

/// A batch that is applied leaves of each key what the last step that names it
/// says: a put leaves its value, a delete of either kind leaves nothing, and a
/// key that no step names is as it was.
pub proof fn law_last_steps_decide(m: Map<Seq<u8>, Seq<u8>>, ops: Seq<BatchOp>, k: Seq<u8>)
    requires
        outcome(m, ops) is Some,
    ensures
        ({
            let now = outcome(m, ops)->0;
            let n = ops.len() as int;
            &&& untouched(ops, n, k) ==> now.contains_key(k) == m.contains_key(k) && (m.contains_key(k)
                ==> now[k] == m[k])
            &&& forall|i: int| #[trigger]
                last_on(ops, n, k, i) ==> match ops[i] {
                    BatchOp::Put(_, v) => now.contains_key(k) && now[k] == v@,
                    BatchOp::Delete(_) => !now.contains_key(k),
                    BatchOp::DeleteIfExists(_) => !now.contains_key(k),
                }
        }),
{
    assert(ops.take(ops.len() as int) =~= ops);
    lemma_first_steps(m, ops, ops.len() as int, k);
}

/// The first steps of a batch can be taken as long as each can when its turn
/// comes.
proof fn lemma_taken(m: Map<Seq<u8>, Seq<u8>>, ops: Seq<BatchOp>, n: int)
    requires
        0 <= n <= ops.len(),
    ensures
        outcome(m, ops.take(n)) is Some <==> forall|i: int|
            0 <= i < n ==> #[trigger] can_step(m, ops, i),
    decreases n,
{
    if n == 0 {
        assert(ops.take(0) =~= Seq::empty());
    } else {
        let op = ops[n - 1];
        assert(ops.take(n).drop_last() =~= ops.take(n - 1));
        assert(ops.take(n).last() == op);
        lemma_taken(m, ops, n - 1);
        if outcome(m, ops.take(n - 1)) is Some {
            lemma_first_steps(m, ops, n - 1, key_of(op));
            assert((step(outcome(m, ops.take(n - 1))->0, op) is Some) == can_step(m, ops, n - 1));
        } else {
            let i = choose|i: int| 0 <= i < n - 1 && !#[trigger] can_step(m, ops, i);
            assert(!can_step(m, ops, i));
        }
    }
}

/// A batch is applied whole or not at all: it is applied exactly when every
/// step can be taken when its turn comes.
pub proof fn law_batches_are_all_or_nothing(m: Map<Seq<u8>, Seq<u8>>, ops: Seq<BatchOp>)
    ensures
        outcome(m, ops) is Some <==> forall|i: int|
            0 <= i < ops.len() ==> #[trigger] can_step(m, ops, i),
{
    assert(ops.take(ops.len() as int) =~= ops);
    lemma_taken(m, ops, ops.len() as int);
}

/// How a batch is refused is told by the first step that cannot be taken: a
/// delete that does not find a key it may name says so, and anything else is an
/// invalid argument.
pub proof fn law_first_bad_step_refuses(
    m: Map<Seq<u8>, Seq<u8>>,
    ops: Seq<BatchOp>,
    i: int,
    e: Error,
)
    requires
        refused(m, ops, e),
        0 <= i < ops.len(),
        !can_step(m, ops, i),
        forall|j: int| 0 <= j < i ==> #[trigger] can_step(m, ops, j),
    ensures
        match ops[i] {
            BatchOp::Delete(k) => if 1 <= k@.len() <= 1024 * 1024 {
                e is NotFound
            } else {
                e is InvalidArgument
            },
            _ => e is InvalidArgument,
        },
{
    let a = choose|a: int|
        0 <= a < ops.len() && (#[trigger] outcome(m, ops.take(a))) is Some && step(
            outcome(m, ops.take(a))->0,
            ops[a],
        ) is None && crate::database::batch::refusal(ops[a], e);
    lemma_taken(m, ops, a);
    lemma_taken(m, ops, a + 1);
    assert(ops.take(a + 1).drop_last() =~= ops.take(a));
    assert(ops.take(a + 1).last() == ops[a]);
    assert(outcome(m, ops.take(a + 1)) is None);
    assert(!can_step(m, ops, a)) by {
        let j = choose|j: int| 0 <= j < a + 1 && !#[trigger] can_step(m, ops, j);
        assert(j == a);
    }
    if a < i {
        assert(can_step(m, ops, a));
    } else if i < a {
        assert(can_step(m, ops, i));
    }
}

} // verus!
