use phoenixdb::collection::api::Collection;
use phoenixdb::collection::documents::Document;
use phoenixdb::collection::keys::{key, DOC, IDS};
use phoenixdb::collection::options::CollectionOptions;
use phoenixdb::collection::persist::store_changes;
use phoenixdb::collection::wire::{documents_from_text, parse_documents, parse_ids};
use phoenixdb::database::batch::BatchOp;
use phoenixdb::database::{Database, Options};
use phoenixdb::error::Error;
use phoenixdb::json::{json_text, Json};
use phoenixdb::ordered::Store;
use phoenixdb::pager::Pager;

fn json(text: &str) -> Json {
    Json::from_text(text).unwrap()
}

fn texts(items: &[&str]) -> Vec<String> {
    items.iter().map(|s| s.to_string()).collect()
}

fn plain(id: &str, text: &str, metadata: &str) -> Document {
    Document {
        id: id.into(),
        text: Some(text.into()),
        metadata: json(metadata),
        vector: None,
    }
}

fn open() -> Collection {
    Collection::open(Store::new(), None, CollectionOptions::default(), &Vec::new())
        .unwrap()
        .collection
}

#[test]
fn documents_are_read_with_their_embeddings() {
    let docs = json(
        r#"[{"id":"a","text":"hi","metadata":{"n":1},"has_vector":true},
            {"id":"b"},
            {"id":"c","text":null,"has_vector":true}]"#,
    );
    let floats = vec![1, 2, 3, 4];
    let out = parse_documents(&docs, &floats, 2).unwrap();
    assert_eq!(out.len(), 3);
    assert_eq!(out[0].id, "a");
    assert_eq!(out[0].text.as_deref(), Some("hi"));
    assert_eq!(out[0].metadata, json(r#"{"n":1}"#));
    assert_eq!(out[0].vector, Some(vec![1, 2]));
    assert_eq!(out[1].vector, None);
    assert_eq!(out[1].metadata, Json::Null);
    assert_eq!(out[2].text, None);
    assert_eq!(out[2].vector, Some(vec![3, 4]));
}

#[test]
fn malformed_batches_are_refused() {
    for bad in [
        r#"[{"text":"no id"}]"#,
        r#"[{"id":3}]"#,
        r#"[{"id":"a","text":5}]"#,
        r#"[{"id":"a","has_vector":1}]"#,
        r#"[{"id":"a","extra":1}]"#,
        r#"["a"]"#,
    ] {
        assert!(
            matches!(
                parse_documents(&json(bad), &Vec::new(), 2),
                Err(Error::InvalidArgument(_))
            ),
            "{bad}"
        );
    }
    let asks = json(r#"[{"id":"a","has_vector":true}]"#);
    assert!(parse_documents(&asks, &vec![1], 2).is_err(), "too few");
    assert!(parse_documents(&asks, &vec![1, 2, 3], 2).is_err(), "too many");
    assert!(parse_documents(&asks, &Vec::new(), 0).is_err(), "none here");
    assert!(parse_documents(&json("{}"), &Vec::new(), 0).is_err());
}

#[test]
fn ids_are_strings() {
    assert_eq!(parse_ids(&json(r#"["a","b"]"#)).unwrap(), texts(&["a", "b"]));
    assert!(parse_ids(&json("[]")).unwrap().is_empty());
    assert!(matches!(
        parse_ids(&json("[1]")),
        Err(Error::InvalidArgument(_))
    ));
    assert!(parse_ids(&json(r#""a""#)).is_err());
}

#[test]
fn store_changes_take_one_state_to_the_other() {
    let mut before = Store::new();
    before.insert(b"gone".to_vec(), b"1".to_vec());
    before.insert(b"kept".to_vec(), b"2".to_vec());
    before.insert(b"new value".to_vec(), b"3".to_vec());
    let mut now = Store::new();
    now.insert(b"added".to_vec(), b"4".to_vec());
    now.insert(b"kept".to_vec(), b"2".to_vec());
    now.insert(b"new value".to_vec(), b"5".to_vec());
    let ops = store_changes(&before, &now);
    assert_eq!(ops.len(), 3, "what is the same is not touched");
    assert!(ops
        .iter()
        .all(|op| !matches!(op, BatchOp::Put(k, _) if k == b"kept")));

    let pager = Pager::open(&[], &[], 16).unwrap();
    let mut db = Database::open(pager, &Vec::new(), 0, Options::default())
        .unwrap()
        .database;
    db.write_batch(&store_changes(&Store::new(), &before)).unwrap();
    db.write_batch(&ops).unwrap();
    let pairs: Vec<(Vec<u8>, Vec<u8>)> = now
        .keys
        .iter()
        .cloned()
        .zip(now.values.iter().cloned())
        .collect();
    assert_eq!(db.scan().unwrap(), pairs);
}

#[test]
fn a_collection_survives_its_database() {
    let pager = Pager::open(&[], &[], 16).unwrap();
    let mut db = Database::open(pager, &Vec::new(), 0, Options::default())
        .unwrap()
        .database;
    let mut c = open();
    let config = c.config;
    db.write_batch(&store_changes(&Store::new(), &c.store)).unwrap();
    let staged = c
        .stage(&vec![plain("a", "red apple", r#"{"n":1}"#), plain("b", "pear", "{}")])
        .unwrap();
    db.write_batch(&store_changes(&c.store, &staged.store)).unwrap();
    c.commit(staged);

    let mut store = Store::new();
    for (k, v) in db.scan().unwrap() {
        store.insert(k, v);
    }
    assert_eq!(store, c.store);
    let back = Collection::open(store, Some(config), CollectionOptions::default(), &Vec::new())
        .unwrap()
        .collection;
    let got = back.get("a", false).unwrap().unwrap();
    assert_eq!(got.document.text.as_deref(), Some("red apple"));
    assert_eq!(back.count(None).unwrap(), 2);
}

#[test]
fn records_that_are_no_records_are_reported() {
    let mut c = open();
    c.store.insert(key(DOC, b"bad"), vec![1, 2, 3]);
    assert!(matches!(c.get("bad", false), Err(Error::Serialization(_))));
}

#[test]
fn malformed_id_bytes_are_shown_with_replacements() {
    let mut c = open();
    c.upsert(&vec![plain("ok", "", "{}")]).unwrap();
    let mut id = vec![0xFF];
    id.extend_from_slice(b"x");
    c.store.insert(key(IDS, &id), Vec::new());
    let shown = c.browse(&None, 10);
    assert!(shown.contains(&b"ok".to_vec()));
    assert!(shown.contains(&"\u{FFFD}x".as_bytes().to_vec()));
}

#[test]
fn documents_come_from_their_text() {
    let text = r#"[{"id":"a","metadata":{"z":1,"k":[true]},"has_vector":true},{"id":"b"}]"#;
    let out = documents_from_text(text, &vec![5, 6], 2).unwrap();
    assert_eq!(out.len(), 2);
    assert_eq!(out[0].vector, Some(vec![5, 6]));
    let mut c = Collection::open(
        Store::new(),
        None,
        CollectionOptions { dim: 2, ..CollectionOptions::default() },
        &Vec::new(),
    )
    .unwrap()
    .collection;
    c.upsert(&out).unwrap();
    let back = c.get("a", false).unwrap().unwrap().document.metadata;
    assert_eq!(back, json(r#"{"k":[true],"z":1}"#));
    for bad in ["", "[", "{}", r#"[{"id":1}]"#] {
        assert!(
            matches!(
                documents_from_text(bad, &Vec::new(), 0),
                Err(Error::InvalidArgument(_))
            ),
            "{bad}"
        );
    }
}

#[test]
fn values_are_written_as_text() {
    for text in ["null", "true", "[]", "{}", "-7", "18446744073709551615", r#""a\nb""#] {
        assert_eq!(json_text(&json(text)), text);
    }
    assert_eq!(json_text(&json(r#"{"b":1,"a":[0.5,null]}"#)), r#"{"a":[0.5,null],"b":1}"#);
    let deep = "[".repeat(127) + &"]".repeat(127);
    assert_eq!(json_text(&json(&deep)), deep);
    assert!(Json::from_text(&("[".repeat(128) + &"]".repeat(128))).is_none());
}
