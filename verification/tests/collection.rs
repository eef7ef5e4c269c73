use phoenixdb::collection::api::Collection;
use phoenixdb::collection::documents::{Config, Document};
use phoenixdb::collection::filter::Filter;
use phoenixdb::collection::keys::{key, DOC, IDS};
use phoenixdb::collection::options::{options_from, CollectionOptions, Metric};
use phoenixdb::collection::search::{query_terms, Fusion, SearchRequest};
use phoenixdb::error::Error;
use phoenixdb::json::Json;
use phoenixdb::ordered::Store;
use std::collections::HashMap;

fn json(text: &str) -> Json {
    Json::from_text(text).unwrap()
}

fn options(dim: usize) -> CollectionOptions {
    CollectionOptions {
        dim,
        sync_on_write: false,
        ..CollectionOptions::default()
    }
}

fn open(dim: usize) -> Collection {
    Collection::open(Store::new(), None, options(dim), &Vec::new())
        .unwrap()
        .collection
}

fn bits(v: &[f32]) -> Vec<u32> {
    v.iter().map(|x| x.to_bits()).collect()
}

fn doc(id: &str, text: &str, metadata: &str, vector: Option<&[f32]>) -> Document {
    Document {
        id: id.into(),
        text: Some(text.into()),
        metadata: json(metadata),
        vector: vector.map(bits),
    }
}

fn filter(text: &str) -> Filter {
    Filter::parse(&json(text)).unwrap()
}

fn names(items: &[&str]) -> Vec<String> {
    items.iter().map(|s| s.to_string()).collect()
}

#[test]
fn documents_round_trip_and_replace_cleanly() {
    let mut c = open(2);
    c.upsert(&vec![
        doc("a", "red apples", r#"{"kind":"fruit","n":1}"#, Some(&[1.0, 0.0])),
        doc("b", "green pears", r#"{"kind":"fruit","n":2}"#, Some(&[0.0, 1.0])),
        doc("c", "blue cars", r#"{"kind":"car"}"#, None),
    ])
    .unwrap();

    let a = c.get("a", true).unwrap().unwrap();
    assert_eq!(a.document.text.as_deref(), Some("red apples"));
    assert_eq!(a.document.metadata, json(r#"{"kind":"fruit","n":1}"#));
    assert!(a.wants_vector);
    assert!(!c.get("a", false).unwrap().unwrap().wants_vector);
    assert!(c.get("zzz", false).unwrap().is_none());
    assert_eq!(c.count(None).unwrap(), 3);
    assert_eq!(c.count(Some(&filter(r#"{"kind": "fruit"}"#))).unwrap(), 2);

    // Replace `a`: its old metadata, terms and vector must all be gone.
    let gone = c
        .upsert(&vec![doc("a", "yellow bananas", r#"{"kind":"snack"}"#, None)])
        .unwrap();
    assert_eq!(gone, vec![b"a".to_vec()], "its vector goes away");
    assert_eq!(c.count(Some(&filter(r#"{"kind": "fruit"}"#))).unwrap(), 1);
    assert_eq!(
        c.count(Some(&filter(r#"{"n": {"$exists": true}}"#))).unwrap(),
        1
    );
    let terms = query_terms("apples");
    assert_eq!(terms, vec![b"apple".to_vec()]);
    assert!(c.postings(&terms[0]).is_empty(), "stale postings");
    assert!(!c.get("a", true).unwrap().unwrap().wants_vector);
    let stats = c.stats(1).unwrap();
    assert_eq!(
        (stats.documents, stats.text_documents, stats.vectors),
        (3, 3, 1)
    );

    assert_eq!(c.delete(&names(&["a", "missing", "b"])).unwrap(), 2);
    assert_eq!(c.count(None).unwrap(), 1);
    assert_eq!(
        c.count(Some(&filter(r#"{"kind": {"$exists": true}}"#))).unwrap(),
        1
    );
}

#[test]
fn list_paginates_in_id_order() {
    let mut c = open(0);
    let docs: Vec<Document> = (0..25)
        .map(|i| {
            doc(
                &format!("d{i:02}"),
                "x",
                &format!("{{\"even\":{}}}", i % 2 == 0),
                None,
            )
        })
        .collect();
    c.upsert(&docs).unwrap();
    let mut seen: Vec<String> = Vec::new();
    let mut after: Option<String> = None;
    loop {
        let page = c.list(None, 10, after.as_deref()).unwrap();
        if page.is_empty() {
            break;
        }
        after = page.last().map(|d| d.id.clone());
        seen.extend(page.into_iter().map(|d| d.id));
    }
    let expected: Vec<String> = (0..25).map(|i| format!("d{i:02}")).collect();
    assert_eq!(seen, expected);
    let evens = c.list(Some(&filter(r#"{"even": true}"#)), 0, None).unwrap();
    assert_eq!(evens.len(), 13);
}

/// A small deterministic generator, so the property test needs no crate.
struct Lcg(u64);

impl Lcg {
    fn next(&mut self) -> u64 {
        self.0 = self
            .0
            .wrapping_mul(6_364_136_223_846_793_005)
            .wrapping_add(1_442_695_040_888_963_407);
        self.0 >> 33
    }
    fn below(&mut self, n: u64) -> u64 {
        self.next() % n
    }
    fn pick<'a, T>(&mut self, items: &'a [T]) -> &'a T {
        &items[self.below(items.len() as u64) as usize]
    }
}

fn random_metadata(rng: &mut Lcg) -> String {
    let mut m: Vec<String> = Vec::new();
    let cats = ["a", "b", "c"];
    if rng.below(5) != 0 {
        m.push(format!("\"cat\":\"{}\"", rng.pick(&cats)));
    }
    if rng.below(4) != 0 {
        m.push(format!("\"n\":{}", rng.below(10) as i64 - 3));
    }
    if rng.below(3) == 0 {
        let tags: Vec<String> = (0..rng.below(3))
            .map(|_| format!("\"{}\"", rng.pick(&["x", "y", "z"])))
            .collect();
        m.push(format!("\"tags\":[{}]", tags.join(",")));
    }
    if rng.below(3) == 0 {
        m.push(format!("\"flag\":{}", rng.below(2) == 0));
    }
    if rng.below(4) == 0 {
        let v = rng.below(3);
        let s = rng.pick(&cats);
        m.push(format!("\"nested\":{{\"v\":{v},\"s\":\"{s}\"}}"));
    }
    if rng.below(6) == 0 {
        m.push("\"maybe\":null".to_string());
    }
    if rng.below(8) == 0 {
        m.push("\"mixed\":[1,\"1\",null,{\"deep\":2}]".to_string());
    }
    format!("{{{}}}", m.join(","))
}

fn random_filter(rng: &mut Lcg, depth: u32) -> String {
    let fields = [
        "cat",
        "n",
        "tags",
        "flag",
        "nested.v",
        "nested.s",
        "maybe",
        "mixed",
        "mixed.deep",
        "nested",
        "nope",
    ];
    let scalars = [
        "\"a\"", "\"b\"", "\"x\"", "1", "0", "-2", "2.5", "true", "null", "\"1\"",
    ];
    let field = *rng.pick(&fields);
    if depth < 2 && rng.below(4) == 0 {
        let op = *rng.pick(&["$and", "$or"]);
        let parts: Vec<String> = (0..1 + rng.below(3))
            .map(|_| random_filter(rng, depth + 1))
            .collect();
        return format!("{{\"{op}\":[{}]}}", parts.join(","));
    }
    if depth < 2 && rng.below(8) == 0 {
        return format!("{{\"$not\":{}}}", random_filter(rng, depth + 1));
    }
    let operand = match rng.below(9) {
        0 => rng.pick(&scalars).to_string(),
        1 => format!("{{\"$ne\":{}}}", rng.pick(&scalars)),
        2 => format!("{{\"$gt\":{}}}", rng.below(6) as i64 - 3),
        3 => format!("{{\"$lte\":\"{}\"}}", rng.pick(&["a", "b", "x"])),
        4 => "{\"$gte\":0,\"$lt\":3}".to_string(),
        5 => {
            let first = *rng.pick(&scalars);
            let second = *rng.pick(&scalars);
            format!("{{\"$in\":[{first},{second}]}}")
        }
        6 => format!("{{\"$nin\":[{}]}}", rng.pick(&scalars)),
        7 => format!("{{\"$exists\":{}}}", rng.below(2) == 0),
        _ => "{\"$lt\":2.5}".to_string(),
    };
    format!("{{\"{field}\":{operand}}}")
}

#[test]
fn index_filters_agree_with_the_reference_semantics() {
    let mut c = open(0);
    let mut rng = Lcg(0x5eed);
    let mut model: HashMap<String, String> = HashMap::new();
    for round in 0..4 {
        let mut docs: Vec<Document> = Vec::new();
        for _ in 0..60 {
            let id = format!("doc{}", rng.below(80));
            let text = random_metadata(&mut rng);
            docs.push(Document { id: id.clone(), text: None, metadata: json(&text), vector: None });
            model.insert(id, text);
        }
        c.upsert(&docs).unwrap();
        let doomed: Vec<String> = (0..8).map(|_| format!("doc{}", rng.below(80))).collect();
        c.delete(&doomed).unwrap();
        for id in &doomed {
            model.remove(id);
        }
        assert_eq!(c.count(None).unwrap(), model.len() as u64, "round {round}");

        for _ in 0..150 {
            let spec = random_filter(&mut rng, 0);
            let f = filter(&spec);
            let mut expected: Vec<&str> = model
                .iter()
                .filter(|(_, m)| f.matches(&json(m)))
                .map(|(id, _)| id.as_str())
                .collect();
            expected.sort_unstable();
            let got: Vec<String> = c
                .list(Some(&f), 0, None)
                .unwrap()
                .into_iter()
                .map(|d| d.id)
                .collect();
            assert_eq!(got, expected, "filter {spec}");
        }
    }
}

#[test]
fn collection_persists_and_checks_its_layout() {
    let mut c = open(3);
    c.upsert(&vec![doc(
        "a",
        "persisted text",
        r#"{"k":1}"#,
        Some(&[0.1, 0.2, 0.3]),
    )])
    .unwrap();
    let config = c.config;
    c.close();
    let opened =
        Collection::open(c.store, Some(config), options(0), &names(&["a"])).unwrap();
    let c = opened.collection;
    assert_eq!(c.dim(), 3, "dim 0 adopts the stored layout");
    assert_eq!(
        c.stats(1).unwrap().repaired,
        0,
        "a clean close needs no repair"
    );
    let got = c.get("a", true).unwrap().unwrap();
    assert_eq!(got.document.text.as_deref(), Some("persisted text"));
    assert!(got.wants_vector);

    let err = Collection::open(
        c.store.copy(),
        Some(config),
        CollectionOptions {
            dim: 4,
            ..Default::default()
        },
        &Vec::new(),
    )
    .unwrap_err();
    assert!(err.describe().contains("3-dimensional"), "{err:?}");
    let err = Collection::open(
        c.store.copy(),
        Some(config),
        CollectionOptions {
            dim: 3,
            metric: Metric::Euclidean,
            ..Default::default()
        },
        &Vec::new(),
    )
    .unwrap_err();
    assert!(err.describe().contains("metric"), "{err:?}");
}

#[test]
fn a_crash_between_vector_write_and_commit_is_repaired() {
    let mut c = open(2);
    c.upsert(&vec![doc("kept", "t", "{}", Some(&[1.0, 0.0]))])
        .unwrap();
    let config = c.config;
    // No close: the "open" mark survives, and so does an orphaned vector.
    let opened = Collection::open(
        c.store,
        Some(config),
        options(2),
        &names(&["kept", "orphan"]),
    )
    .unwrap();
    assert_eq!(opened.orphans, vec![b"orphan".to_vec()]);
    assert_eq!(opened.collection.stats(1).unwrap().repaired, 1);
}

#[test]
fn upsert_is_all_or_nothing_and_last_duplicate_wins() {
    let mut c = open(2);
    let bad = vec![
        doc("ok", "fine", "{}", Some(&[1.0, 0.0])),
        doc("bad", "wrong dim", "{}", Some(&[1.0, 0.0, 0.0])),
    ];
    assert!(c.upsert(&bad).is_err());
    for invalid in [
        doc("", "empty id", "{}", None),
        doc("x\n", "control char", "{}", None),
        doc("m", "array metadata", "[1]", None),
        doc("d", "dotted key", r#"{"a.b":1}"#, None),
        doc("v", "nan", "{}", Some(&[f32::NAN, 0.0])),
    ] {
        let id = invalid.id.clone();
        assert!(
            matches!(c.upsert(&vec![invalid]), Err(Error::InvalidArgument(_))),
            "{id:?}"
        );
    }
    assert_eq!(c.count(None).unwrap(), 0);

    let gone = c
        .upsert(&vec![
            doc("dup", "first", r#"{"v":1}"#, None),
            doc("dup", "second", r#"{"v":2}"#, Some(&[0.0, 1.0])),
        ])
        .unwrap();
    assert!(gone.is_empty(), "a vector set later in the batch survives");
    let d = c.get("dup", true).unwrap().unwrap();
    assert_eq!(d.document.text.as_deref(), Some("second"));
    assert!(d.wants_vector);
    assert_eq!(c.count(Some(&filter(r#"{"v": 1}"#))).unwrap(), 0);
    assert_eq!(c.stats(1).unwrap().documents, 1);
}

#[test]
fn text_only_collections_reject_vectors() {
    let mut c = open(0);
    assert!(c.upsert(&vec![doc("a", "t", "{}", Some(&[1.0]))]).is_err());
    c.upsert(&vec![doc("a", "hello world", r#"{"n":1}"#, None)])
        .unwrap();
    assert!(c
        .plan(&SearchRequest {
            vector: Some(bits(&[1.0])),
            ..SearchRequest::new(1)
        })
        .is_err());
    // No query at all: the filter's matches, in id order.
    let plan = c.plan(&SearchRequest::new(10)).unwrap().unwrap();
    assert_eq!(c.browse(&plan.allowed, 10), vec![b"a".to_vec()]);
}

#[test]
fn search_requests_parse_from_json() {
    let req = SearchRequest::from_json(&json(
        r#"{
        "k": 7, "text": "hi", "filter": {"a": 1}, "ef": 99,
        "fusion": {"alpha": 0.25}, "mmr": 0.5, "candidates": 30,
        "min_score": 0.1, "include": ["vector"]
    }"#,
    ))
    .unwrap();
    assert_eq!(req.k, 7);
    assert_eq!(req.text.as_deref(), Some("hi"));
    assert_eq!(req.filter, Some(filter(r#"{"a": 1}"#)));
    assert_eq!(
        req.fusion,
        Fusion::Weighted {
            alpha: 0.25f64.to_bits()
        }
    );
    assert_eq!(
        (req.ef, req.candidates, req.mmr),
        (Some(99), Some(30), Some(0.5f64.to_bits()))
    );
    assert!(req.include_vector && !req.include_text && !req.include_metadata);
    assert_eq!(
        SearchRequest::from_json(&json(r#"{"fusion": {"rrf": 10}}"#))
            .unwrap()
            .fusion,
        Fusion::Rrf {
            k: 10.0f64.to_bits()
        }
    );
    for bad in [
        "[]",
        r#"{"k": -1}"#,
        r#"{"bogus": 1}"#,
        r#"{"fusion": "max"}"#,
        r#"{"include": ["everything"]}"#,
        r#"{"filter": {"$xor": []}}"#,
    ] {
        assert!(
            matches!(
                SearchRequest::from_json(&json(bad)),
                Err(Error::InvalidArgument(_))
            ),
            "{bad}"
        );
    }
}

#[test]
fn options_are_validated() {
    assert!(options_from(Some(&json(r#"{"dim": 3, "metric": "l2"}"#))).is_ok());
    assert!(options_from(Some(&json(r#"{"metric": "manhattan"}"#))).is_err());
    assert!(options_from(Some(&json(r#"{"dim": -1}"#))).is_err());
    assert!(options_from(Some(&json(r#"{"surprise": true}"#))).is_err());
    assert!(options_from(Some(&json("[]"))).is_err());
}

#[test]
fn postings_hold_frequencies_and_lengths() {
    let mut c = open(0);
    c.upsert(&vec![
        doc("db", "database database file", "{}", None),
        doc("mix", "vector database", "{}", None),
    ])
    .unwrap();
    let hits = c.postings(b"database");
    let rows: Vec<(&[u8], u32, u32)> = hits
        .iter()
        .map(|p| (p.id.as_slice(), p.count, p.len))
        .collect();
    assert_eq!(rows, vec![(&b"db"[..], 2, 3), (&b"mix"[..], 1, 2)]);
    assert!(query_terms("the and of").is_empty());
}

#[test]
fn layouts_with_an_unknown_metric_are_refused() {
    let foreign = Config {
        version: 1,
        dim: 0,
        metric: 9,
        text_index: true,
    };
    assert!(matches!(
        Collection::open(Store::new(), Some(foreign), options(0), &Vec::new()),
        Err(Error::InvalidArgument(_))
    ));
}

#[test]
fn documents_with_text_are_counted_without_an_index() {
    for text_index in [true, false] {
        let asked = CollectionOptions { text_index, ..options(0) };
        let mut c = Collection::open(Store::new(), None, asked, &Vec::new())
            .unwrap()
            .collection;
        c.upsert(&vec![doc("a", "red apples", "{}", None), doc("b", "pears", "{}", None)])
            .unwrap();
        assert_eq!(c.stats(0).unwrap().text_documents, 2);
        c.upsert(&vec![doc("a", "green apples", "{}", None)]).unwrap();
        assert_eq!(c.stats(0).unwrap().text_documents, 2, "replaced, not added");
        c.upsert(&vec![Document { text: None, ..doc("a", "", "{}", None) }]).unwrap();
        assert_eq!(c.stats(0).unwrap().text_documents, 1);
        c.delete(&names(&["a", "b"])).unwrap();
        let stats = c.stats(0).unwrap();
        assert_eq!((stats.documents, stats.text_documents), (0, 0));
        assert_eq!(c.postings(b"pear").len(), 0);
    }
}

#[test]
fn ids_that_are_no_text_are_listed_mended() {
    let mut c = open(0);
    c.upsert(&vec![doc("plain", "x", "{}", None)]).unwrap();
    let record = c.store.get(&key(DOC, b"plain")).unwrap();
    c.store.insert(key(IDS, b"a\xFFb"), Vec::new());
    c.store.insert(key(DOC, "a\u{FFFD}b".as_bytes()), record);
    let ids: Vec<String> = c.list(None, 0, None).unwrap().into_iter().map(|d| d.id).collect();
    assert_eq!(ids, ["a\u{FFFD}b", "plain"]);
}

#[test]
fn fields_that_make_keys_too_long_are_refused() {
    let mut c = open(0);
    let name = "n".repeat(250);
    let nested = |depth: usize| {
        let mut text = "1".to_string();
        for _ in 0..depth {
            text = format!("{{\"{name}\":{text}}}");
        }
        doc("deep", "x", &text, None)
    };
    c.upsert(&vec![nested(3)]).unwrap();
    let err = c.upsert(&vec![doc("other", "y", "{}", None), nested(5)]);
    assert!(matches!(err, Err(Error::InvalidArgument(_))));
    assert_eq!(c.count(None).unwrap(), 1, "nothing of the batch is stored");
}

#[test]
fn metadata_is_stored_as_compact_text() {
    let mut c = open(0);
    c.upsert(&vec![doc("m", "x", r#" { "b" : [1, -2, "q\u0041"], "a" : { } } "#, None)])
        .unwrap();
    let record = c.store.get(&key(DOC, b"m")).unwrap();
    let text = br#"{"a":{},"b":[1,-2,"qA"]}"#;
    assert_eq!(record[..8], (text.len() as u64).to_le_bytes());
    assert_eq!(&record[8..8 + text.len()], text);
    let back = c.get("m", false).unwrap().unwrap().document.metadata;
    assert_eq!(back, json(r#"{"b":[1,-2,"qA"],"a":{}}"#));
}

#[test]
fn metadata_with_fractions_is_stored() {
    let mut c = open(0);
    c.upsert(&vec![doc("f", "x", r#"{"half":0.5,"big":1e300,"huge":18446744073709551615}"#, None)])
        .unwrap();
    let back = c.get("f", false).unwrap().unwrap().document.metadata;
    assert_eq!(back, json(r#"{"half":0.5,"big":1e300,"huge":18446744073709551615}"#));
    assert_eq!(c.count(Some(&filter(r#"{"half":{"$lt":0.75}}"#))).unwrap(), 1);
}

#[test]
fn records_stand_in_their_places_whatever_else_is_stored() {
    let mut c = open(0);
    c.upsert(&vec![doc("a", "x", "{}", None), doc("b", "y", "{}", None)]).unwrap();
    // What is stored of `a` is not what was indexed for it.
    let other = c.store.get(&key(DOC, b"b")).unwrap();
    c.store.insert(key(DOC, b"a"), other.clone());
    c.upsert(&vec![doc("a", "z", r#"{"n":1}"#, None)]).unwrap();
    assert_eq!(c.get("a", false).unwrap().unwrap().document.text.as_deref(), Some("z"));
    assert_eq!(c.store.get(&key(DOC, b"b")), Some(other.clone()));
    c.store.insert(key(DOC, b"a"), other.clone());
    assert_eq!(c.delete(&names(&["a", "a", "none"])).unwrap(), 1);
    assert_eq!(c.store.get(&key(DOC, b"a")), None);
    assert_eq!(c.store.get(&key(IDS, b"a")), None);
    assert_eq!(c.store.get(&key(DOC, b"b")), Some(other));
}
