//! Bloom filters: O(1) negative lookups for SSTables.
//!
//! Every SSTable carries a filter over the full key set it contains. A point
//! lookup consults the filter *before* touching the disk, so a key that is not
//! present costs one cache-resident bit-probe instead of an index binary search
//! plus a block read. False positives only cost a wasted block read; **false
//! negatives are impossible**, which is what makes the filter safe to consult
//! before the real index.
//!
//! Kirsch-Mitzenmacher double hashing: two independent 64-bit hashes are
//! derived from one pass over the key and combined as `h1 + i·h2`.

use crate::bytes::{
    get_u32, get_u64, le32, le64, lemma_u32_bytes, lemma_u32_roundtrip, lemma_u64_bytes,
    lemma_u64_roundtrip, push_u32, push_u64, u32_at, u64_at,
};
use crate::error::Error;
use vstd::prelude::*;

verus! {

/// Bits allocated per key when no explicit budget is given.
pub const DEFAULT_BITS_PER_KEY: u32 = 10;

/// Serialised header size: `num_bits` (8) + `num_hashes` (4).
pub const HEADER_LEN: usize = 12;

/// Hard cap on filter size (128 MiB of bits) so a corrupt length cannot drive
/// an unbounded allocation during decode.
pub const MAX_BITS: u64 = 0x4000_0000;

/// A classic Bloom filter over byte-string keys.
#[derive(Debug, PartialEq, Eq)]
pub struct BloomFilter {
    /// Bit array, packed 64 bits per word.
    pub words: Vec<u64>,
    /// Number of addressable bits, a whole number of words.
    pub num_bits: u64,
    /// Number of hash probes per key.
    pub num_hashes: u32,
}

/// Where the first hash starts.
pub const FNV_OFFSET: u64 = 0xcbf2_9ce4_8422_2325;

/// Where the second hash starts.
pub const OTHER_OFFSET: u64 = 0x55c5_e55d_fb68_5f30;

/// What each step of the hashes multiplies by.
pub const FNV_PRIME: u64 = 0x0000_0100_0000_01b3;

/// The two running hashes after `key`.
pub open spec fn running(key: Seq<u8>) -> (u64, u64)
    decreases key.len(),
{
    if key.len() == 0 {
        (FNV_OFFSET, OTHER_OFFSET)
    } else {
        let (a, b) = running(key.drop_last());
        let byte = key.last() as u64;
        (
            (a ^ byte).wrapping_mul(FNV_PRIME),
            (((b << 7u64) | (b >> 57u64)) ^ byte).wrapping_mul(FNV_PRIME),
        )
    }
}

/// A bijective avalanche mixer.
pub open spec fn mixed(z: u64) -> u64 {
    let z = z.wrapping_add(0x9E37_79B9_7F4A_7C15u64);
    let z = (z ^ (z >> 30u64)).wrapping_mul(0xBF58_476D_1CE4_E5B9u64);
    let z = (z ^ (z >> 27u64)).wrapping_mul(0x94D0_49BB_1331_11EBu64);
    z ^ (z >> 31u64)
}

/// The two hashes of a key; the second is odd.
pub open spec fn hashes(key: Seq<u8>) -> (u64, u64) {
    let (a, b) = running(key);
    (mixed(a), mixed(b) | 1u64)
}

/// The bit that the `i`-th probe of a key looks at.
pub open spec fn probe(key: Seq<u8>, i: u64, num_bits: u64) -> u64 {
    let (h1, h2) = hashes(key);
    h1.wrapping_add(i.wrapping_mul(h2)) % num_bits
}

/// The bits that the probes of a key look at.
pub open spec fn probes(key: Seq<u8>, num_hashes: u32, num_bits: u64) -> Set<int> {
    Set::new(
        |b: int|
            exists|i: u64| 0 <= i < num_hashes && #[trigger] probe(key, i, num_bits) == b,
    )
}

/// Whether a bit is set.
pub open spec fn bit_set(words: Seq<u64>, b: int) -> bool {
    words[b / 64] & (1u64 << ((b % 64) as u64)) != 0
}

impl View for BloomFilter {
    type V = Set<int>;

    open spec fn view(&self) -> Set<int> {
        Set::new(|b: int| 0 <= b < self.num_bits && bit_set(self.words@, b))
    }
}

/// The bytes of a list of words.
pub open spec fn word_bytes(words: Seq<u64>) -> Seq<u8>
    decreases words.len(),
{
    if words.len() == 0 {
        Seq::empty()
    } else {
        word_bytes(words.drop_last()) + le64(words.last())
    }
}

/// A filter as bytes: its two numbers, then its words.
pub open spec fn filter_bytes(f: BloomFilter) -> Seq<u8> {
    le64(f.num_bits) + le32(f.num_hashes) + word_bytes(f.words@)
}

proof fn lemma_word_bytes_len(words: Seq<u64>)
    ensures
        word_bytes(words).len() == 8 * words.len(),
    decreases words.len(),
{
    if words.len() > 0 {
        lemma_word_bytes_len(words.drop_last());
    }
}

/// How many probes suit a number of bits per key: the nearest whole number to
/// that number times the natural logarithm of two, between 1 and 30.
pub open spec fn optimal_probes(bits_per_key: int) -> int {
    let k = (bits_per_key * 693_147 + 500_000) / 1_000_000;
    if k < 1 {
        1
    } else if k > 30 {
        30
    } else {
        k
    }
}

/// Bits per key, kept between 1 and 64.
pub open spec fn sane_bits(bits_per_key: u32) -> int {
    if bits_per_key < 1 {
        1
    } else if bits_per_key > 64 {
        64
    } else {
        bits_per_key as int
    }
}

/// How many bits a filter for so many keys has: a whole number of words, at
/// least one and at most the cap.
pub open spec fn sized_bits(keys: int, bits_per_key: int) -> int {
    let n = (if keys < 1 {
        1
    } else {
        keys
    }) * bits_per_key;
    if n < 64 {
        64
    } else if n > MAX_BITS {
        MAX_BITS as int
    } else {
        (n + 63) / 64 * 64
    }
}

/// The bits of a filter header are plausible.
pub open spec fn plausible(num_bits: u64, num_hashes: u32) -> bool {
    &&& 0 < num_bits <= MAX_BITS
    &&& num_bits % 64 == 0
    &&& 0 < num_hashes <= 30
}

/// SplitMix64 finaliser.
fn splitmix64(z: u64) -> (r: u64)
    ensures
        r == mixed(z),
{
    let z: u64 = z.wrapping_add(0x9E37_79B9_7F4A_7C15);
    let z: u64 = (z ^ (z >> 30)).wrapping_mul(0xBF58_476D_1CE4_E5B9);
    let z: u64 = (z ^ (z >> 27)).wrapping_mul(0x94D0_49BB_1331_11EB);
    z ^ (z >> 31)
}

/// Two independent 64-bit hashes from one pass over `key`.
fn hash_pair(key: &[u8]) -> (r: (u64, u64))
    ensures
        r == hashes(key@),
{
    let mut a: u64 = FNV_OFFSET;
    let mut b: u64 = OTHER_OFFSET;
    let mut i: usize = 0;
    assert(key@.subrange(0, 0) =~= Seq::empty());
    while i < key.len()
        invariant
            i <= key@.len(),
            (a, b) == running(key@.subrange(0, i as int)),
        decreases key@.len() - i,
    {
        let byte: u64 = key[i] as u64;
        a = (a ^ byte).wrapping_mul(FNV_PRIME);
        b = (((b << 7) | (b >> 57)) ^ byte).wrapping_mul(FNV_PRIME);
        assert(key@.subrange(0, i + 1).drop_last() =~= key@.subrange(0, i as int));
        i += 1;
    }
    assert(key@.subrange(0, i as int) =~= key@);
    (splitmix64(a), splitmix64(b) | 1)
}

/// What setting one bit of a word does to another.
proof fn lemma_set_bit(w: u64, s: u64, t: u64)
    requires
        s < 64,
        t < 64,
    ensures
        (w | (1u64 << s)) & (1u64 << t) != 0 <==> (w & (1u64 << t) != 0 || s == t),
{
    assert((w | (1u64 << s)) & (1u64 << t) != 0 <==> (w & (1u64 << t) != 0 || s == t))
        by (bit_vector)
        requires
            s < 64,
            t < 64,
    ;
}

impl BloomFilter {
    /// The words make up the bits.
    pub open spec fn wf(&self) -> bool {
        &&& plausible(self.num_bits, self.num_hashes)
        &&& self.words@.len() == self.num_bits / 64
    }

    /// Builds an empty filter sized for `expected_keys` at `bits_per_key`.
    ///
    /// `expected_keys` is only a sizing hint: inserting more keys than
    /// estimated raises the false-positive rate but never breaks correctness.
    #[must_use]
    pub fn with_capacity(expected_keys: usize, bits_per_key: u32) -> (f: Self)
        ensures
            f.wf(),
            f@ == Set::<int>::empty(),
            f.num_bits == sized_bits(expected_keys as int, sane_bits(bits_per_key)),
            f.num_hashes == optimal_probes(sane_bits(bits_per_key)),
    {
        let bpk: u64 = if bits_per_key < 1 {
            1
        } else if bits_per_key > 64 {
            64
        } else {
            bits_per_key as u64
        };
        let keys: u64 = if expected_keys < 1 {
            1
        } else {
            expected_keys as u64
        };
        assert(keys * bpk <= 0xFFFF_FFFF_FFFF_FFFF * 64) by (nonlinear_arith)
            requires
                keys <= 0xFFFF_FFFF_FFFF_FFFF,
                bpk <= 64,
        ;
        let wide: u128 = keys as u128 * bpk as u128;
        assert(wide == keys * bpk);
        let num_bits: u64 = if wide < 64 {
            64
        } else if wide > MAX_BITS as u128 {
            MAX_BITS
        } else {
            (wide as u64 + 63) / 64 * 64
        };
        let num_hashes: u32 = Self::optimal_hashes(bpk);
        let count: u64 = num_bits / 64;
        let mut words: Vec<u64> = Vec::new();
        let mut i: u64 = 0;
        while i < count
            invariant
                i <= count,
                count <= 0x100_0000,
                words@.len() == i,
                forall|j: int| 0 <= j < i ==> words@[j] == 0,
            decreases count - i,
        {
            words.push(0);
            i += 1;
        }
        let f: BloomFilter = BloomFilter { words, num_bits, num_hashes };
        assert forall|b: int| !f@.contains(b) by {
            if 0 <= b < num_bits {
                assert(words@[b / 64] == 0);
                let s = (b % 64) as u64;
                assert(0u64 & (1u64 << s) == 0) by (bit_vector);
            }
        }
        assert(f@ =~= Set::<int>::empty());
        f
    }

    /// The probe count for a number of bits per key, clamped to a sane one.
    fn optimal_hashes(bits_per_key: u64) -> (k: u32)
        requires
            1 <= bits_per_key <= 64,
        ensures
            k == optimal_probes(bits_per_key as int),
            1 <= k <= 30,
    {
        let k: u64 = (bits_per_key * 693_147 + 500_000) / 1_000_000;
        if k < 1 {
            1
        } else if k > 30 {
            30
        } else {
            k as u32
        }
    }

    /// Number of bits in the filter.
    #[must_use]
    pub fn num_bits(&self) -> (n: u64)
        ensures
            n == self.num_bits,
    {
        self.num_bits
    }

    /// Number of hash probes performed per key.
    #[must_use]
    pub fn num_hashes(&self) -> (n: u32)
        ensures
            n == self.num_hashes,
    {
        self.num_hashes
    }

    /// Heap footprint of the bit array in bytes.
    #[must_use]
    pub fn size_bytes(&self) -> (n: usize)
        requires
            self.wf(),
        ensures
            n == self.num_bits / 8,
    {
        self.words.len() * 8
    }

    /// Records `key` as present.
    pub fn insert(&mut self, key: &[u8])
        requires
            old(self).wf(),
        ensures
            final(self).wf(),
            final(self)@ == old(self)@.union(
                probes(key@, old(self).num_hashes, old(self).num_bits),
            ),
            final(self).num_bits == old(self).num_bits,
            final(self).num_hashes == old(self).num_hashes,
    {
        let (h1, h2): (u64, u64) = hash_pair(key);
        let n: u64 = self.num_hashes as u64;
        let ghost bits = self.num_bits;
        let mut i: u64 = 0;
        while i < n
            invariant
                i <= n,
                n == self.num_hashes,
                self.wf(),
                self.num_bits == old(self).num_bits,
                self.num_hashes == old(self).num_hashes,
                bits == self.num_bits,
                (h1, h2) == hashes(key@),
                forall|b: int|
                    0 <= b < bits ==> #[trigger] bit_set(self.words@, b) == (bit_set(
                        old(self).words@,
                        b,
                    ) || exists|j: u64| 0 <= j < i && #[trigger] probe(key@, j, bits) == b),
            decreases n - i,
        {
            let bit: u64 = h1.wrapping_add(i.wrapping_mul(h2)) % self.num_bits;
            assert(bit == probe(key@, i, bits));
            let at: usize = (bit / 64) as usize;
            assert(at < self.words@.len());
            let ghost was = self.words@;
            let w: u64 = self.words[at];
            self.words.set(at, w | (1u64 << (bit % 64)));
            assert forall|b: int| 0 <= b < bits implies #[trigger] bit_set(self.words@, b) == (
            bit_set(old(self).words@, b) || exists|j: u64|
                0 <= j < i + 1 && #[trigger] probe(key@, j, bits) == b) by {
                assert(bit_set(was, b) == (bit_set(old(self).words@, b) || exists|j: u64|
                    0 <= j < i && #[trigger] probe(key@, j, bits) == b));
                if b / 64 == at {
                    lemma_set_bit(w, (bit % 64) as u64, (b % 64) as u64);
                    assert((bit % 64 == b % 64) == (bit == b));
                }
                assert(bit_set(self.words@, b) == (bit_set(was, b) || bit == b));
            }
            i += 1;
        }
        assert(self@ =~= old(self)@.union(
            probes(key@, old(self).num_hashes, old(self).num_bits),
        )) by {
            assert forall|b: int| self@.contains(b) == old(self)@.union(
                probes(key@, old(self).num_hashes, old(self).num_bits),
            ).contains(b) by {
                if 0 <= b < bits {
                    assert(bit_set(self.words@, b) == (bit_set(old(self).words@, b) || exists|
                        j: u64,
                    |
                        0 <= j < n && #[trigger] probe(key@, j, bits) == b));
                }
            }
        }
    }

    /// Returns `false` only when `key` is **definitely absent**.
    ///
    /// A `true` result means "probably present" — the caller must still consult
    /// the real index.
    #[must_use]
    pub fn contains(&self, key: &[u8]) -> (r: bool)
        requires
            self.wf(),
        ensures
            r == probes(key@, self.num_hashes, self.num_bits).subset_of(self@),
    {
        let (h1, h2): (u64, u64) = hash_pair(key);
        let n: u64 = self.num_hashes as u64;
        let mut i: u64 = 0;
        while i < n
            invariant
                i <= n,
                n == self.num_hashes,
                self.wf(),
                (h1, h2) == hashes(key@),
                forall|j: u64|
                    0 <= j < i ==> self@.contains(#[trigger] probe(key@, j, self.num_bits) as int),
            decreases n - i,
        {
            let bit: u64 = h1.wrapping_add(i.wrapping_mul(h2)) % self.num_bits;
            assert(bit == probe(key@, i, self.num_bits));
            let at: usize = (bit / 64) as usize;
            assert(at < self.words@.len());
            if self.words[at] & (1u64 << (bit % 64)) == 0 {
                assert(!self@.contains(bit as int));
                assert(probes(key@, self.num_hashes, self.num_bits).contains(bit as int));
                return false;
            }
            i += 1;
        }
        assert forall|b: int| probes(key@, self.num_hashes, self.num_bits).contains(
            b,
        ) implies self@.contains(b) by {
            let j = choose|j: u64|
                0 <= j < self.num_hashes && #[trigger] probe(key@, j, self.num_bits) == b;
            assert(self@.contains(probe(key@, j, self.num_bits) as int));
        }
        true
    }

    /// Serialises the filter: `[num_bits u64][num_hashes u32][words…]`.
    #[must_use]
    pub fn encode(&self) -> (out: Vec<u8>)
        ensures
            out@ == filter_bytes(*self),
    {
        let mut out: Vec<u8> = Vec::new();
        push_u64(&mut out, self.num_bits);
        push_u32(&mut out, self.num_hashes);
        let ghost head = le64(self.num_bits) + le32(self.num_hashes);
        let mut i: usize = 0;
        assert(out@ =~= head + word_bytes(self.words@.subrange(0, 0)));
        while i < self.words.len()
            invariant
                i <= self.words@.len(),
                out@ == head + word_bytes(self.words@.subrange(0, i as int)),
            decreases self.words@.len() - i,
        {
            push_u64(&mut out, self.words[i]);
            let ghost more = self.words@.subrange(0, i + 1);
            assert(more.drop_last() =~= self.words@.subrange(0, i as int));
            assert(out@ =~= head + word_bytes(more));
            i += 1;
        }
        assert(self.words@.subrange(0, i as int) =~= self.words@);
        out
    }

    /// Parses a filter produced by [`BloomFilter::encode`].
    ///
    /// Every field is bounds-checked: a corrupt or hostile buffer yields
    /// [`Error::Corruption`] rather than a panic or a huge allocation.
    pub fn decode(bytes: &[u8]) -> (r: Result<Self, Error>)
        ensures
            match r {
                Ok(f) => f.wf() && bytes@ == filter_bytes(f),
                Err(e) => e is Corruption && forall|f: BloomFilter|
                    f.wf() ==> bytes@ != #[trigger] filter_bytes(f),
            },
    {
        let ghost b = bytes@;
        proof {
            assert forall|f: BloomFilter| f.wf() && b == #[trigger] filter_bytes(f) implies {
                &&& b.len() == 12 + 8 * f.words@.len()
                &&& u64_at(b, 0) == f.num_bits
                &&& u32_at(b, 8) == f.num_hashes
            } by {
                lemma_word_bytes_len(f.words@);
                assert(b.subrange(0, 8) =~= le64(f.num_bits));
                assert(b.subrange(8, 12) =~= le32(f.num_hashes));
                lemma_u64_roundtrip(b, 0, f.num_bits);
                lemma_u32_roundtrip(b, 8, f.num_hashes);
            }
        }
        if bytes.len() < HEADER_LEN {
            return Err(Error::corrupt("bloom filter is shorter than its header"));
        }
        let num_bits: u64 = get_u64(bytes, 0);
        let num_hashes: u32 = get_u32(bytes, 8);
        if num_bits == 0 || num_bits > MAX_BITS || num_bits % 64 != 0 {
            return Err(Error::corrupt("bloom filter declares an implausible bit count"));
        }
        if num_hashes == 0 || num_hashes > 30 {
            return Err(Error::corrupt("bloom filter declares an implausible probe count"));
        }
        let count: usize = (num_bits / 64) as usize;
        let expected: usize = HEADER_LEN + count * 8;
        if bytes.len() != expected {
            return Err(Error::corrupt("bloom filter has another length than its header implies"));
        }
        let mut words: Vec<u64> = Vec::new();
        let mut i: usize = 0;
        assert(b.subrange(12, 12) =~= word_bytes(words@));
        while i < count
            invariant
                i <= count,
                b == bytes@,
                count <= 0x100_0000,
                b.len() == 12 + count * 8,
                words@.len() == i,
                b.subrange(12, 12 + i * 8) == word_bytes(words@),
            decreases count - i,
        {
            let off: usize = HEADER_LEN + i * 8;
            let w: u64 = get_u64(bytes, off);
            let ghost was = words@;
            words.push(w);
            proof {
                assert(words@.drop_last() =~= was);
                lemma_u64_bytes(b, off as int);
                assert(b.subrange(12, 12 + (i + 1) * 8) =~= b.subrange(12, 12 + i * 8) + le64(w));
            }
            i += 1;
        }
        let f: BloomFilter = BloomFilter { words, num_bits, num_hashes };
        proof {
            lemma_u64_bytes(b, 0);
            lemma_u32_bytes(b, 8);
            assert(b =~= filter_bytes(f));
        }
        Ok(f)
    }
}

/// The bytes of a list of words determine the words.
proof fn lemma_word_bytes_injective(a: Seq<u64>, b: Seq<u64>)
    requires
        word_bytes(a) == word_bytes(b),
    ensures
        a == b,
    decreases a.len(),
{
    lemma_word_bytes_len(a);
    lemma_word_bytes_len(b);
    assert(a.len() == b.len());
    if a.len() > 0 {
        lemma_word_bytes_len(a.drop_last());
        lemma_word_bytes_len(b.drop_last());
        let (w, n) = (word_bytes(a), 8 * (a.len() - 1));
        assert(w.subrange(0, n) =~= word_bytes(a.drop_last()));
        assert(w.subrange(0, n) =~= word_bytes(b.drop_last()));
        assert(w.subrange(n, n + 8) =~= le64(a.last()));
        assert(w.subrange(n, n + 8) =~= le64(b.last()));
        lemma_u64_roundtrip(w, n, a.last());
        lemma_u64_roundtrip(w, n, b.last());
        lemma_word_bytes_injective(a.drop_last(), b.drop_last());
        assert(a =~= a.drop_last().push(a.last()));
        assert(b =~= b.drop_last().push(b.last()));
    }
}

/// The bytes of a filter determine it: what was encoded is what is decoded.
pub proof fn law_filter_bytes_determine_the_filter(f: BloomFilter, g: BloomFilter)
    requires
        filter_bytes(f) == filter_bytes(g),
    ensures
        f.num_bits == g.num_bits,
        f.num_hashes == g.num_hashes,
        f.words@ == g.words@,
        f@ == g@,
{
    lemma_word_bytes_len(f.words@);
    lemma_word_bytes_len(g.words@);
    let b = filter_bytes(f);
    assert(b.subrange(0, 8) =~= le64(f.num_bits));
    assert(b.subrange(0, 8) =~= le64(g.num_bits));
    assert(b.subrange(8, 12) =~= le32(f.num_hashes));
    assert(b.subrange(8, 12) =~= le32(g.num_hashes));
    lemma_u64_roundtrip(b, 0, f.num_bits);
    lemma_u64_roundtrip(b, 0, g.num_bits);
    lemma_u32_roundtrip(b, 8, f.num_hashes);
    lemma_u32_roundtrip(b, 8, g.num_hashes);
    assert(b.subrange(12, b.len() as int) =~= word_bytes(f.words@));
    assert(b.subrange(12, b.len() as int) =~= word_bytes(g.words@));
    lemma_word_bytes_injective(f.words@, g.words@);
    assert(f@ =~= g@);
}

/// A key that was inserted is found, whatever was inserted after it: there are
/// no false negatives.
pub proof fn law_no_false_negatives(
    before: Set<int>,
    key: Seq<u8>,
    later: Set<int>,
    num_hashes: u32,
    num_bits: u64,
)
    ensures
        probes(key, num_hashes, num_bits).subset_of(
            before.union(probes(key, num_hashes, num_bits)).union(later),
        ),
{
}

} // verus!
