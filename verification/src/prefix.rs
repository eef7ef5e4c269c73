//! Ranges of keys that share a prefix.

use crate::bytes::{lex_le, lex_lt};
use vstd::prelude::*;

verus! {

/// Whether `k` starts with `p`.
pub open spec fn starts(k: Seq<u8>, p: Seq<u8>) -> bool {
    k.len() >= p.len() && k.subrange(0, p.len() as int) == p
}

/// The first byte string behind all that start with `p`; there is none where
/// `p` holds nothing but `0xFF`.
pub open spec fn successor(p: Seq<u8>) -> Option<Seq<u8>>
    decreases p.len(),
{
    if p.len() == 0 {
        None
    } else {
        match successor(p.skip(1)) {
            Some(s) => Some(seq![p[0]] + s),
            None => if p[0] < 0xFF {
                Some(seq![(p[0] + 1) as u8])
            } else {
                None
            },
        }
    }
}

/// How the last byte decides the successor.
pub proof fn lemma_successor_step(q: Seq<u8>, b: u8)
    ensures
        b < 0xFF ==> successor(q.push(b)) == Some(q.push((b + 1) as u8)),
        b == 0xFF ==> successor(q.push(b)) == successor(q),
    decreases q.len(),
{
    let p = q.push(b);
    reveal_with_fuel(successor, 2);
    if q.len() == 0 {
        assert(p.skip(1) =~= Seq::empty());
        assert(seq![(b + 1) as u8] =~= q.push((b + 1) as u8));
    } else {
        assert(p.skip(1) =~= q.skip(1).push(b));
        lemma_successor_step(q.skip(1), b);
        assert(seq![q[0]] + q.skip(1).push((b + 1) as u8) =~= q.push((b + 1) as u8));
    }
}

/// A key starts with `p` exactly where it does not come before `p` and comes
/// before the successor of `p`.
pub proof fn law_successor_ends_the_prefix(p: Seq<u8>, k: Seq<u8>)
    ensures
        starts(k, p) == (lex_le(p, k) && (successor(p) is Some ==> lex_lt(k, successor(p)->0))),
    decreases p.len(),
{
    if p.len() == 0 {
        assert(k.subrange(0, 0) =~= p);
        if k.len() == 0 {
            assert(k =~= p);
        }
    } else if k.len() > 0 {
        let (q, j) = (p.skip(1), k.skip(1));
        law_successor_ends_the_prefix(q, j);
        assert(p =~= seq![p[0]] + q);
        assert(k =~= seq![k[0]] + j);
        if starts(k, p) {
            assert(k[0] == p[0]) by {
                assert(k.subrange(0, p.len() as int)[0] == p[0]);
            }
            assert(j.subrange(0, q.len() as int) =~= k.subrange(0, p.len() as int).skip(1));
        }
        if k[0] == p[0] && starts(j, q) {
            assert(k.subrange(0, p.len() as int) =~= seq![p[0]] + j.subrange(0, q.len() as int));
        }
        if k[0] == p[0] {
            assert(p == k <==> q == j);
            assert(lex_le(p, k) == lex_le(q, j));
            assert(starts(k, p) == starts(j, q));
        }
        match successor(q) {
            Some(s) => {
                let e = seq![p[0]] + s;
                assert(e.skip(1) =~= s);
            },
            None => {
                if p[0] < 0xFF {
                    let e = seq![(p[0] + 1) as u8];
                    assert(e.skip(1) =~= Seq::empty());
                    assert(!lex_lt(j, e.skip(1)));
                }
            },
        }
    }
}

/// The first byte string behind all that start with `prefix`, if any.
pub fn prefix_successor(prefix: &[u8]) -> (r: Option<Vec<u8>>)
    ensures
        match r {
            Some(s) => successor(prefix@) == Some(s@),
            None => successor(prefix@) is None,
        },
{
    let mut n: usize = prefix.len();
    assert(prefix@.subrange(0, n as int) =~= prefix@);
    while n > 0
        invariant
            n <= prefix@.len(),
            successor(prefix@) == successor(prefix@.subrange(0, n as int)),
        decreases n,
    {
        let b: u8 = prefix[n - 1];
        let ghost q = prefix@.subrange(0, n - 1);
        assert(prefix@.subrange(0, n as int) =~= q.push(b));
        proof {
            lemma_successor_step(q, b);
        }
        if b < 0xFF {
            let mut end: Vec<u8> = crate::bytes::copy_range(prefix, 0, n - 1);
            end.push(b + 1);
            assert(end@ =~= q.push((b + 1) as u8));
            return Some(end);
        }
        n = n - 1;
    }
    assert(prefix@.subrange(0, 0).len() == 0);
    None
}

} // verus!
