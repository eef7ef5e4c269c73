use phoenixdb::btree::scan::Bound;
use phoenixdb::btree::{BTree, FillFactor};
use phoenixdb::error::Error;
use phoenixdb::page::{Page, MAX_KEY_SIZE, SENTINEL};
use phoenixdb::pager::Pager;
use std::collections::BTreeMap;

fn setup() -> (Pager, BTree) {
    let pager = Pager::open(&[], &[], 256).unwrap();
    (pager, BTree::new(FillFactor::default()))
}


/// Tiny deterministic PRNG so the model tests need no extra dependency.
struct XorShift(u64);
impl XorShift {
    fn next(&mut self) -> u64 {
        self.0 ^= self.0 << 13;
        self.0 ^= self.0 >> 7;
        self.0 ^= self.0 << 17;
        self.0
    }
    fn below(&mut self, n: u64) -> u64 {
        self.next() % n
    }
}

#[test]
fn insert_get_delete_roundtrip() {
    let (mut p, t) = setup();
    t.insert(&mut p, b"alpha", b"one").unwrap();
    t.insert(&mut p, b"beta", b"two").unwrap();
    assert_eq!(t.get(&mut p, b"alpha").unwrap(), b"one");
    assert_eq!(t.get(&mut p, b"beta").unwrap(), b"two");
    assert!(matches!(t.get(&mut p, b"gamma"), Err(Error::NotFound)));
    t.delete(&mut p, b"alpha").unwrap();
    assert!(matches!(t.get(&mut p, b"alpha"), Err(Error::NotFound)));
    assert!(matches!(t.delete(&mut p, b"alpha"), Err(Error::NotFound)));
}

#[test]
fn overwrite_replaces_value() {
    let (mut p, t) = setup();
    t.insert(&mut p, b"k", b"v1").unwrap();
    t.insert(&mut p, b"k", b"v2").unwrap();
    assert_eq!(t.get(&mut p, b"k").unwrap(), b"v2");
    assert_eq!(t.len(&mut p).unwrap(), 1);
}

#[test]
fn splits_produce_a_valid_ordered_tree() {
    let (mut p, t) = setup();
    let n = 2000u32;
    for i in 0..n {
        let key = format!("key{i:06}");
        let value = format!("value-{i}");
        t.insert(&mut p, key.as_bytes(), value.as_bytes()).unwrap();
    }
    for i in 0..n {
        let key = format!("key{i:06}");
        let expected = format!("value-{i}");
        assert_eq!(
            t.get(&mut p, key.as_bytes()).unwrap(),
            expected.as_bytes(),
            "lookup failed for {key}"
        );
    }
    assert_eq!(t.len(&mut p).unwrap(), n as u64);
    t.verify(&mut p).unwrap();

    let scanned = t.scan(&mut p).unwrap();
    assert_eq!(scanned.len(), n as usize);
    for w in scanned.windows(2) {
        assert!(w[0].0 < w[1].0, "scan is not ordered");
    }
}

#[test]
fn reverse_insertion_order_still_splits_correctly() {
    let (mut p, t) = setup();
    for i in (0..800u32).rev() {
        let key = format!("k{i:05}");
        t.insert(&mut p, key.as_bytes(), b"v").unwrap();
    }
    t.verify(&mut p).unwrap();
    assert_eq!(t.len(&mut p).unwrap(), 800);
}

#[test]
fn large_values_use_overflow_pages() {
    let (mut p, t) = setup();
    let big = vec![0xCDu8; 200_000];
    t.insert(&mut p, b"big", &big).unwrap();
    t.insert(&mut p, b"small", b"x").unwrap();
    assert_eq!(t.get(&mut p, b"big").unwrap(), big);
    assert_eq!(t.get(&mut p, b"small").unwrap(), b"x");
    t.delete(&mut p, b"big").unwrap();
    assert!(matches!(t.get(&mut p, b"big"), Err(Error::NotFound)));
}

#[test]
fn empty_key_is_rejected() {
    let (mut p, t) = setup();
    assert!(matches!(
        t.insert(&mut p, b"", b"v"),
        Err(Error::InvalidArgument(_))
    ));
}

#[test]
fn oversized_key_is_rejected() {
    let (mut p, t) = setup();
    let key = vec![b'k'; MAX_KEY_SIZE + 1];
    assert!(matches!(
        t.insert(&mut p, &key, b"v"),
        Err(Error::InvalidArgument(_))
    ));
}

#[test]
fn fill_factor_is_clamped() {
    // A tenth and twice the usable bytes of a page.
    let f = FillFactor::new(406, 8128);
    assert!(f.min_used_bytes() >= 2032);
    assert!(f.max_used_bytes() <= 4064);
    assert!(f.min_used_bytes() < f.max_used_bytes());
}

#[test]
fn tight_fill_factor_splits_earlier() {
    let mut p = Pager::open(&[], &[], 256).unwrap();
    let t = BTree::new(FillFactor::new(2032, 2438));
    for i in 0..500u32 {
        let key = format!("k{i:05}");
        t.insert(&mut p, key.as_bytes(), b"payload").unwrap();
    }
    t.verify(&mut p).unwrap();
    assert_eq!(t.len(&mut p).unwrap(), 500);
    // A 0.6 max fill must use more pages than the default 1.0 policy.
    let (mut dense, default_tree) = setup();
    for i in 0..500u32 {
        let key = format!("k{i:05}");
        default_tree
            .insert(&mut dense, key.as_bytes(), b"payload")
            .unwrap();
    }
    assert!(
        p.meta().page_count > dense.meta().page_count,
        "0.6 fill used {} pages, 1.0 fill used {}",
        p.meta().page_count,
        dense.meta().page_count
    );
    t.check(&mut p).unwrap();
}

#[test]
fn delete_then_reinsert_across_splits() {
    let (mut p, t) = setup();
    for i in 0..600u32 {
        t.insert(&mut p, format!("k{i:05}").as_bytes(), b"v")
            .unwrap();
    }
    for i in (0..600u32).step_by(2) {
        t.delete(&mut p, format!("k{i:05}").as_bytes()).unwrap();
    }
    assert_eq!(t.len(&mut p).unwrap(), 300);
    for i in (0..600u32).step_by(2) {
        t.insert(&mut p, format!("k{i:05}").as_bytes(), b"w")
            .unwrap();
    }
    assert_eq!(t.len(&mut p).unwrap(), 600);
    t.verify(&mut p).unwrap();
    assert_eq!(t.get(&mut p, b"k00000").unwrap(), b"w");
    assert_eq!(t.get(&mut p, b"k00001").unwrap(), b"v");
}

#[test]
fn binary_keys_with_nulls_work() {
    let (mut p, t) = setup();
    let keys: Vec<Vec<u8>> = vec![
        vec![0x00, 0x01],
        vec![0x00, 0x02],
        vec![0xFF, 0x00],
        vec![0x00],
    ];
    for k in &keys {
        t.insert(&mut p, k, b"v").unwrap();
    }
    for k in &keys {
        assert_eq!(t.get(&mut p, k).unwrap(), b"v");
    }
    assert_eq!(t.len(&mut p).unwrap(), keys.len() as u64);
}

#[test]
fn cyclic_leaf_chain_is_an_error_not_a_hang() {
    let (mut p, t) = setup();
    for i in 0..400u32 {
        t.insert(&mut p, format!("k{i:05}").as_bytes(), &[0u8; 64])
            .unwrap();
    }
    // Point the first leaf's sibling link back at itself.
    let first = t.first_leaf(&mut p).unwrap();
    let mut leaf = p.read_page(first).unwrap();
    leaf.set_extra(first);
    p.write_page(leaf);

    // The walk must stop near the page count, long before this limit.
    let err = t.scan_iter(&mut p, 100_000).unwrap_err();
    assert!(matches!(err, Error::Corruption(_)), "got {err:?}");
    assert!(matches!(t.len(&mut p), Err(Error::Corruption(_))));
    assert!(matches!(t.verify(&mut p), Err(Error::Corruption(_))));
}

#[test]
fn growing_a_value_in_a_full_leaf_keeps_its_neighbours() {
    // Regression: a replacement that no longer fit removed the old cell,
    // failed, and then removed slot `idx` again — deleting the next key.
    let (mut p, t) = setup();
    t.insert(&mut p, b"k0", b"x").unwrap();
    for i in 1..4u32 {
        t.insert(&mut p, format!("k{i}").as_bytes(), &[1u8; 1000])
            .unwrap();
    }
    t.insert(&mut p, b"k0", &[2u8; 1024]).unwrap();
    let keys: Vec<Vec<u8>> = t.scan(&mut p).unwrap().into_iter().map(|(k, _)| k).collect();
    assert_eq!(
        keys,
        vec![
            b"k0".to_vec(),
            b"k1".to_vec(),
            b"k2".to_vec(),
            b"k3".to_vec()
        ]
    );
    assert_eq!(t.get(&mut p, b"k0").unwrap(), vec![2u8; 1024]);
    t.check(&mut p).unwrap();
}

#[test]
fn maximum_size_keys_and_values_always_split() {
    // Regression: count-based splits could leave the incoming cell with
    // no room, failing the insert (and every later checkpoint) with Full.
    let (mut p, t) = setup();
    let key = |c: u8, n: usize| {
        let mut k = vec![c; n];
        k[0] = c;
        k
    };
    t.insert(&mut p, &key(b'a', MAX_KEY_SIZE), &[0u8; 1024])
        .unwrap();
    t.insert(&mut p, &key(b'c', MAX_KEY_SIZE), &[0u8; 8])
        .unwrap();
    t.insert(&mut p, &key(b'b', MAX_KEY_SIZE), &[0u8; 1024])
        .unwrap();
    let mut rng = XorShift(7);
    for i in 0..300u32 {
        let len = 1 + rng.below(MAX_KEY_SIZE as u64) as usize;
        let mut k = vec![0u8; len];
        for b in &mut k {
            *b = rng.next() as u8;
        }
        k[0] = (i % 251) as u8;
        let v = vec![1u8; rng.below(2048) as usize];
        t.insert(&mut p, &k, &v).unwrap();
    }
    let report = t.check(&mut p).unwrap();
    assert!(report.depth >= 2);
}

#[test]
fn deleting_everything_returns_pages_to_the_free_list() {
    let (mut p, t) = setup();
    for i in 0..3000u32 {
        t.insert(&mut p, format!("key{i:06}").as_bytes(), &[9u8; 40])
            .unwrap();
    }
    let before = t.check(&mut p).unwrap();
    assert!(before.depth >= 2, "want a multi-level tree, got {before:?}");
    for i in 0..3000u32 {
        t.delete(&mut p, format!("key{i:06}").as_bytes()).unwrap();
    }
    let after = t.check(&mut p).unwrap();
    assert_eq!(after.keys, 0);
    assert_eq!(after.depth, 1, "the root must collapse back to one leaf");
    assert_eq!(after.leaf_pages, 1);
    assert_eq!(after.internal_pages, 0);
    assert_eq!(
        after.free_pages,
        before.leaf_pages + before.internal_pages - 1,
        "every page but the surviving root leaf is reusable"
    );
    // Freed pages are recycled rather than growing the file.
    let page_count = p.meta().page_count;
    for i in 0..3000u32 {
        t.insert(&mut p, format!("key{i:06}").as_bytes(), &[9u8; 40])
            .unwrap();
    }
    assert_eq!(p.meta().page_count, page_count);
    t.check(&mut p).unwrap();
}

#[test]
fn deleting_a_middle_range_keeps_the_leaf_chain_consistent() {
    let (mut p, t) = setup();
    for i in 0..2000u32 {
        t.insert(&mut p, format!("k{i:05}").as_bytes(), &[1u8; 64])
            .unwrap();
    }
    for i in 500..1500u32 {
        t.delete(&mut p, format!("k{i:05}").as_bytes()).unwrap();
    }
    let report = t.check(&mut p).unwrap();
    assert_eq!(report.keys, 1000);
    assert!(report.free_pages > 0);
    let keys: Vec<Vec<u8>> = t.scan(&mut p).unwrap().into_iter().map(|(k, _)| k).collect();
    assert_eq!(keys.len(), 1000);
    assert_eq!(keys[499], b"k00499");
    assert_eq!(keys[500], b"k01500");
}

#[test]
fn range_iter_honours_bounds_and_early_stop() {
    let (mut p, t) = setup();
    for i in 0..1000u32 {
        t.insert(
            &mut p,
            format!("k{i:04}").as_bytes(),
            format!("{i}").as_bytes(),
        )
        .unwrap();
    }
    let mut collect = |lo: Bound, hi: Bound| -> Vec<String> {
        t.range_iter(&mut p, &lo, &hi, usize::MAX)
            .unwrap()
            .into_iter()
            .map(|(k, _)| String::from_utf8(k).unwrap())
            .collect()
    };
    let inc = |k: &[u8]| Bound::Included(k.to_vec());
    let exc = |k: &[u8]| Bound::Excluded(k.to_vec());
    let r = collect(inc(b"k0100"), exc(b"k0105"));
    assert_eq!(r, ["k0100", "k0101", "k0102", "k0103", "k0104"]);
    let r = collect(exc(b"k0100"), inc(b"k0102"));
    assert_eq!(r, ["k0101", "k0102"]);
    let r = collect(inc(b"k0998x"), Bound::Unbounded);
    assert_eq!(r, ["k0999"]);
    let r = collect(inc(b"a"), exc(b"k0002"));
    assert_eq!(r, ["k0000", "k0001"]);
    assert!(collect(inc(b"z"), Bound::Unbounded).is_empty());

    let seen = t
        .range_iter(&mut p, &Bound::Unbounded, &Bound::Unbounded, 10)
        .unwrap()
        .len();
    assert_eq!(seen, 10, "the limit stops the walk");
}

#[test]
fn random_operations_match_a_model() {
    for (seed, fill) in [
        (1u64, FillFactor::default()),
        (99, FillFactor::new(2032, 2844)),
    ] {
        let mut p = Pager::open(&[], &[], 64).unwrap();
        let t = BTree::new(fill);
        let mut model: BTreeMap<Vec<u8>, Vec<u8>> = BTreeMap::new();
        let mut rng = XorShift(seed);
        for round in 0..20 {
            for _ in 0..400 {
                let key = format!("{:05}", rng.below(3000)).into_bytes();
                match rng.below(10) {
                    0..=5 => {
                        // Mix inline, near-limit and overflow values.
                        let len = match rng.below(4) {
                            0 => rng.below(16),
                            1 => 900 + rng.below(200),
                            2 => rng.below(300),
                            _ => 2000 + rng.below(9000),
                        } as usize;
                        let value = vec![(rng.next() & 0xFF) as u8; len];
                        t.insert(&mut p, &key, &value).unwrap();
                        model.insert(key, value);
                    }
                    _ => {
                        let expected = model.remove(&key).is_some();
                        match t.delete(&mut p, &key) {
                            Ok(()) => assert!(expected),
                            Err(Error::NotFound) => assert!(!expected),
                            Err(e) => panic!("delete failed: {e:?}"),
                        }
                    }
                }
            }
            if round % 5 == 4 {
                p.flush().unwrap();
            }
            let report = t.check(&mut p).unwrap();
            assert_eq!(report.keys, model.len() as u64, "seed {seed} round {round}");
        }
        let scanned = t.scan(&mut p).unwrap();
        let expected: Vec<(Vec<u8>, Vec<u8>)> = model.into_iter().collect();
        assert_eq!(scanned, expected, "seed {seed}");
    }
}

#[test]
fn check_detects_a_key_outside_its_parent_range() {
    let (mut p, t) = setup();
    for i in 0..400u32 {
        t.insert(&mut p, format!("k{i:04}").as_bytes(), &[0u8; 64])
            .unwrap();
    }
    // Rewrite the last leaf's first key to something smaller than its
    // separator: ordering inside the page still holds, the range does not.
    let mut leaf_id = t.first_leaf(&mut p).unwrap();
    loop {
        let leaf = p.read_page(leaf_id).unwrap();
        if leaf.extra() == SENTINEL {
            break;
        }
        leaf_id = leaf.extra();
    }
    let mut leaf = p.read_page(leaf_id).unwrap();
    let cell = Page::encode_leaf_cell(b"a", &[0u8; 64], 64, None);
    leaf.replace_cell_at(0, &cell).unwrap();
    p.write_page(leaf);
    assert!(matches!(t.check(&mut p), Err(Error::Corruption(_))));
}

#[test]
fn sequential_inserts_fill_leaves_instead_of_halving_them() {
    let (mut p, t) = setup();
    for i in 0..20_000u32 {
        t.insert(&mut p, format!("key{i:08}").as_bytes(), &[9u8; 40])
            .unwrap();
    }
    let report = t.check(&mut p).unwrap();
    assert!(report.depth >= 3, "{report:?}");
    assert!(
        report.underfull_leaves <= 1,
        "append-only load should pack leaves: {report:?}"
    );
    // Random order still balances.
    let (mut p2, t2) = setup();
    let mut rng = XorShift(3);
    for _ in 0..5_000 {
        let k = format!("key{:08}", rng.below(1_000_000));
        t2.insert(&mut p2, k.as_bytes(), &[9u8; 40]).unwrap();
    }
    t2.check(&mut p2).unwrap();
}

#[test]
fn fill_factors_leave_a_gap() {
    let f = FillFactor::new(4064, 4064);
    assert_eq!((f.min_used_bytes(), f.max_used_bytes()), (4063, 4064));
    let f = FillFactor::new(3000, 100);
    assert_eq!((f.min_used_bytes(), f.max_used_bytes()), (3000, 3001));
    let f = FillFactor::new(0, 0);
    assert_eq!((f.min_used_bytes(), f.max_used_bytes()), (2032, 2033));
}

#[test]
fn the_check_counts_what_reads_find() {
    let (mut p, t) = setup();
    assert_eq!(t.check(&mut p).unwrap().keys, 0);
    for i in 0..500u32 {
        t.insert(&mut p, format!("k{:03}", i % 300).as_bytes(), b"v").unwrap();
    }
    t.delete(&mut p, b"k007").unwrap();
    assert_eq!(t.check(&mut p).unwrap().keys, 299);
    assert_eq!(t.len(&mut p).unwrap(), 299);
}

#[test]
fn a_leaf_is_cut_evenly_and_an_appended_key_goes_alone() {
    let leaf_keys = |p: &mut Pager, id: u32| {
        let page = p.read_page(id).unwrap();
        (page.num_keys(), page.extra())
    };
    // Four cells of about a thousand bytes fill a leaf.
    let (mut p, t) = setup();
    for k in [b"a", b"b", b"c"] {
        t.insert(&mut p, k, &[7; 990]).unwrap();
    }
    t.insert(&mut p, b"d", &[7; 990]).unwrap();
    assert_eq!(leaf_keys(&mut p, 1), (4, SENTINEL));
    t.insert(&mut p, b"e", &[7; 990]).unwrap();
    let (left, right) = leaf_keys(&mut p, 1);
    assert_eq!(left, 4, "the full leaf stays as it is");
    assert_eq!(leaf_keys(&mut p, right), (1, SENTINEL));
    t.insert(&mut p, b"aa", &[7; 990]).unwrap();
    let (left, middle) = leaf_keys(&mut p, 1);
    assert_eq!(left, 2);
    assert_eq!(leaf_keys(&mut p, middle), (3, right));
}
