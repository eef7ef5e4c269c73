use phoenixdb::lsm::bloom::{BloomFilter, DEFAULT_BITS_PER_KEY};

#[test]
fn no_false_negatives_ever() {
    let keys: Vec<Vec<u8>> = (0..5_000u32)
        .map(|i| format!("key-{i:08}").into_bytes())
        .collect();
    let mut f = BloomFilter::with_capacity(keys.len(), DEFAULT_BITS_PER_KEY);
    for k in &keys {
        f.insert(k);
    }
    for k in &keys {
        assert!(f.contains(k), "false negative on {k:?} — filter is unsound");
    }
}

#[test]
fn false_positive_rate_is_near_theory() {
    let n = 10_000usize;
    let mut f = BloomFilter::with_capacity(n, DEFAULT_BITS_PER_KEY);
    for i in 0..n {
        f.insert(format!("present-{i:08}").as_bytes());
    }
    let probes = 20_000;
    let mut hits = 0;
    for i in 0..probes {
        if f.contains(format!("absent-{i:08}").as_bytes()) {
            hits += 1;
        }
    }
    let observed = hits as f64 / probes as f64;
    // Theory says ~0.8 % at 10 bits/key; allow generous slack for hash luck.
    assert!(
        observed < 0.05,
        "false-positive rate {observed:.4} is far above the ~0.008 target"
    );
}

#[test]
fn empty_filter_rejects_everything() {
    let f = BloomFilter::with_capacity(1000, DEFAULT_BITS_PER_KEY);
    assert!(!f.contains(b"anything"));
}

#[test]
fn encode_decode_roundtrip() {
    let mut f = BloomFilter::with_capacity(500, 12);
    for i in 0..500u32 {
        f.insert(&i.to_le_bytes());
    }
    let bytes = f.encode();
    let back = BloomFilter::decode(&bytes).unwrap();
    assert_eq!(f, back);
    for i in 0..500u32 {
        assert!(back.contains(&i.to_le_bytes()));
    }
}

#[test]
fn decode_rejects_truncated_and_hostile_input() {
    assert!(BloomFilter::decode(&[]).is_err());
    assert!(BloomFilter::decode(&[0u8; 8]).is_err());

    let mut f = BloomFilter::with_capacity(64, 10);
    f.insert(b"x");
    let mut bytes = f.encode();
    // Claim an absurd bit count.
    bytes[0..8].copy_from_slice(&u64::MAX.to_le_bytes());
    assert!(BloomFilter::decode(&bytes).is_err());

    let mut bytes = f.encode();
    bytes.truncate(bytes.len() - 1);
    assert!(BloomFilter::decode(&bytes).is_err());

    let mut bytes = f.encode();
    bytes[8..12].copy_from_slice(&0u32.to_le_bytes()); // zero probes
    assert!(BloomFilter::decode(&bytes).is_err());
}

#[test]
fn sizing_is_sane() {
    let f = BloomFilter::with_capacity(1000, 10);
    assert_eq!(f.num_bits(), 10_048); // 10_000 rounded up to a word boundary
    assert_eq!(f.num_hashes(), 7);
}

#[test]
fn zero_expected_keys_still_builds() {
    let mut f = BloomFilter::with_capacity(0, 10);
    f.insert(b"k");
    assert!(f.contains(b"k"));
}
