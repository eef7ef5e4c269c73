//! How a change of a collection reaches the database that keeps it.

use crate::bytes::{copy_bytes, same};
use crate::collection::mirror::all_writable;
use crate::database::batch::{outcome, step, BatchOp};
use crate::database::writable;
use crate::ordered::{byte_lists, lemma_index_of, Store};
use vstd::prelude::*;

verus! {

/// The first `n` of a store's keys.
spec fn first(s: Store, n: int) -> Set<Seq<u8>> {
    Set::new(|k: Seq<u8>| exists|i: int| 0 <= i < n && #[trigger] s.keys@[i]@ == k)
}

/// `a` without those of the keys that `b` does not have.
spec fn pruned(a: Map<Seq<u8>, Seq<u8>>, b: Map<Seq<u8>, Seq<u8>>, gone: Set<Seq<u8>>) -> Map<
    Seq<u8>,
    Seq<u8>,
> {
    a.restrict(Set::new(|k: Seq<u8>| b.contains_key(k) || !gone.contains(k)))
}

/// `a` with the values of `b` under some of the keys.
spec fn grown(a: Map<Seq<u8>, Seq<u8>>, b: Map<Seq<u8>, Seq<u8>>, done: Set<Seq<u8>>) -> Map<
    Seq<u8>,
    Seq<u8>,
> {
    Map::new(
        |k: Seq<u8>| a.contains_key(k) || (b.contains_key(k) && done.contains(k)),
        |k: Seq<u8>|
            if b.contains_key(k) && done.contains(k) {
                b[k]
            } else {
                a[k]
            },
    )
}

/// A batch with one more step.
proof fn lemma_more(m: Map<Seq<u8>, Seq<u8>>, ops: Seq<BatchOp>, op: BatchOp)
    ensures
        outcome(m, ops.push(op)) == match outcome(m, ops) {
            Some(p) => step(p, op),
            None => None,
        },
{
    assert(ops.push(op).drop_last() =~= ops);
}

/// The batch that takes one state of a store to another: what went is
/// deleted, what is new or different is written, and nothing else is touched.
pub fn store_changes(before: &Store, now: &Store) -> (ops: Vec<BatchOp>)
    requires
        before.wf(),
        now.wf(),
    ensures
        all_writable(before@) && all_writable(now@) ==> outcome(before@, ops@) == Some(now@),
        before@ == now@ ==> ops@.len() == 0,
{
    let ghost ok = all_writable(before@) && all_writable(now@);
    let ghost same_state = before@ == now@;
    let mut ops: Vec<BatchOp> = Vec::new();
    let mut i: usize = 0;
    proof {
        assert(pruned(before@, now@, first(*before, 0)) =~= before@);
    }
    while i < before.keys.len()
        invariant
            before.wf(),
            now.wf(),
            i <= before.keys@.len(),
            ok == (all_writable(before@) && all_writable(now@)),
            same_state == (before@ == now@),
            ok ==> outcome(before@, ops@) == Some(pruned(before@, now@, first(*before, i as int))),
            same_state ==> ops@.len() == 0,
        decreases before.keys@.len() - i,
    {
        let ghost k = before.keys@[i as int]@;
        let ghost p = pruned(before@, now@, first(*before, i as int));
        proof {
            lemma_index_of(byte_lists(before.keys@), i as int);
            lemma_first(*before, i as int);
            assert(before@.contains_key(k));
        }
        if !now.contains_key(before.keys[i].as_slice()) {
            let op: BatchOp = BatchOp::Delete(copy_bytes(before.keys[i].as_slice()));
            proof {
                lemma_more(before@, ops@, op);
                lemma_unlisted(*before, i as int);
                assert(ok ==> writable(k, before@[k]));
                assert(pruned(before@, now@, first(*before, i + 1)) =~= p.remove(k));
            }
            ops.push(op);
        } else {
            assert(pruned(before@, now@, first(*before, i + 1)) =~= p);
        }
        i += 1;
    }
    let ghost kept = pruned(before@, now@, first(*before, i as int));
    let mut j: usize = 0;
    proof {
        lemma_all(*before);
        assert(grown(kept, now@, first(*now, 0)) =~= kept);
    }
    while j < now.keys.len()
        invariant
            before.wf(),
            now.wf(),
            j <= now.keys@.len(),
            ok == (all_writable(before@) && all_writable(now@)),
            same_state == (before@ == now@),
            forall|x: Seq<u8>| #[trigger]
                kept.contains_key(x) ==> now@.contains_key(x) && before@.contains_key(x) && kept[x]
                    == before@[x],
            forall|x: Seq<u8>|
                before@.contains_key(x) && #[trigger] now@.contains_key(x) ==> kept.contains_key(x),
            ok ==> outcome(before@, ops@) == Some(grown(kept, now@, first(*now, j as int))),
            same_state ==> ops@.len() == 0,
        decreases now.keys@.len() - j,
    {
        let ghost k = now.keys@[j as int]@;
        let ghost p = grown(kept, now@, first(*now, j as int));
        proof {
            lemma_index_of(byte_lists(now.keys@), j as int);
            lemma_first(*now, j as int);
            lemma_unlisted(*now, j as int);
            assert(now@.contains_key(k) && now@[k] == now.values@[j as int]@);
        }
        let unchanged: bool = match before.get(now.keys[j].as_slice()) {
            Some(v) => same(v.as_slice(), now.values[j].as_slice()),
            None => false,
        };
        if unchanged {
            assert(grown(kept, now@, first(*now, j + 1)) =~= p);
        } else {
            let op: BatchOp = BatchOp::Put(
                copy_bytes(now.keys[j].as_slice()),
                copy_bytes(now.values[j].as_slice()),
            );
            proof {
                lemma_more(before@, ops@, op);
                assert(grown(kept, now@, first(*now, j + 1)) =~= p.insert(k, now@[k]));
            }
            ops.push(op);
        }
        j += 1;
    }
    proof {
        lemma_all(*now);
        assert(grown(kept, now@, first(*now, j as int)) =~= now@);
    }
    ops
}

/// One key more.
proof fn lemma_first(s: Store, i: int)
    requires
        0 <= i < s.keys@.len(),
    ensures
        first(s, i + 1) =~= first(s, i).insert(s.keys@[i]@),
{
    assert forall|k: Seq<u8>| first(s, i).insert(s.keys@[i]@).contains(k) implies first(
        s,
        i + 1,
    ).contains(k) by {
        if k == s.keys@[i]@ {
            assert(s.keys@[i]@ == k);
        } else {
            let x = choose|x: int| 0 <= x < i && #[trigger] s.keys@[x]@ == k;
            assert(s.keys@[x]@ == k);
        }
    }
}

/// The next key is not among the first.
proof fn lemma_unlisted(s: Store, i: int)
    requires
        s.wf(),
        0 <= i < s.keys@.len(),
    ensures
        !first(s, i).contains(s.keys@[i]@),
{
    let ks = byte_lists(s.keys@);
    lemma_index_of(ks, i);
    if first(s, i).contains(s.keys@[i]@) {
        let x = choose|x: int| 0 <= x < i && #[trigger] s.keys@[x]@ == s.keys@[i]@;
        lemma_index_of(ks, x);
        assert(ks[x] == ks[i]);
    }
}

/// All keys are those of the map.
proof fn lemma_all(s: Store)
    requires
        s.wf(),
    ensures
        forall|k: Seq<u8>| #[trigger] s@.contains_key(k) ==> first(s, s.keys@.len() as int).contains(k),
{
    let ks = byte_lists(s.keys@);
    assert forall|k: Seq<u8>| #[trigger] s@.contains_key(k) implies first(
        s,
        s.keys@.len() as int,
    ).contains(k) by {
        assert(ks.contains(k));
        let i = choose|i: int| 0 <= i < ks.len() && ks[i] == k;
        assert(s.keys@[i]@ == k);
    }
}

} // verus!
