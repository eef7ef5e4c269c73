use phoenixdb::collection::filter::Filter;
use phoenixdb::collection::flatten::flatten;
use phoenixdb::collection::scalar::{Scalar, MAX_INDEXED_STRING};
use phoenixdb::error::Error;
use phoenixdb::json::Json;

fn json(text: &str) -> Json {
    Json::from_text(text).unwrap()
}

fn f(text: &str) -> Filter {
    Filter::parse(&json(text)).unwrap()
}

fn number(x: f64) -> Scalar {
    Scalar::Number(x.to_bits())
}

#[test]
fn parses_the_documented_forms() {
    assert_eq!(f("{}"), Filter::All);
    assert_eq!(f(r#"{"a": 1}"#), Filter::Eq("a".into(), number(1.0)));
    assert!(matches!(f(r#"{"a": 1, "b": 2}"#), Filter::And(v) if v.len() == 2));
    assert!(matches!(
        f(r#"{"y": {"$gte": 2020, "$lt": 2025}}"#),
        Filter::And(v) if v.len() == 2
    ));
    assert!(matches!(
        f(r#"{"$or": [{"a": 1}, {"b": 2}]}"#),
        Filter::Or(_)
    ));
    assert!(matches!(f(r#"{"$not": {"a": 1}}"#), Filter::Not(_)));
    for bad in [
        "[]",
        r#"{"$xor": []}"#,
        r#"{"a": {"$regex": "x"}}"#,
        r#"{"a": [1, 2]}"#,
        r#"{"a": {"b": 1}}"#,
        r#"{"a": {"$gt": true}}"#,
        r#"{"$or": []}"#,
        r#"{"a": {"$exists": 1}}"#,
    ] {
        assert!(
            matches!(Filter::parse(&json(bad)), Err(Error::InvalidArgument(_))),
            "{bad} should be rejected"
        );
    }
}

#[test]
fn in_memory_semantics_follow_mongodb() {
    let doc = json(
        r#"{
        "cat": "news", "year": 2021, "tags": ["ai", "rust"],
        "author": {"name": "ada", "age": 36}, "none": null
    }"#,
    );
    assert!(f(r#"{"cat": "news"}"#).matches(&doc));
    assert!(f(r#"{"tags": "ai"}"#).matches(&doc), "array contains");
    assert!(f(r#"{"author.name": "ada"}"#).matches(&doc), "dot path");
    assert!(f(r#"{"year": {"$gt": 2020, "$lte": 2021}}"#).matches(&doc));
    assert!(
        !f(r#"{"year": {"$gt": "2020"}}"#).matches(&doc),
        "no cross-type range"
    );
    assert!(f(r#"{"tags": {"$in": ["go", "rust"]}}"#).matches(&doc));
    assert!(f(r#"{"tags": {"$nin": ["go"]}}"#).matches(&doc));
    assert!(
        f(r#"{"missing": {"$ne": 1}}"#).matches(&doc),
        "$ne matches absent"
    );
    assert!(f(r#"{"missing": {"$exists": false}}"#).matches(&doc));
    assert!(f(r#"{"none": null}"#).matches(&doc));
    assert!(f(r#"{"none": {"$exists": true}}"#).matches(&doc));
    assert!(!f(r#"{"$not": {"cat": "news"}}"#).matches(&doc));
}

#[test]
fn long_strings_are_stored_but_never_compared() {
    let long = "x".repeat(MAX_INDEXED_STRING + 1);
    let doc = json(&format!("{{\"body\": \"{long}\", \"tag\": \"t\"}}"));
    assert!(
        Filter::parse(&json(&format!("{{\"body\": \"{long}\"}}"))).is_err(),
        "operand too long"
    );
    assert!(!f(r#"{"body": {"$gt": "a"}}"#).matches(&doc));
    assert!(f(r#"{"body": {"$exists": true}}"#).matches(&doc));
    let flat = flatten(&doc, 100).unwrap();
    assert_eq!(flat.values.len(), 1);
    assert!(flat.present.contains(b"body"));
}

#[test]
fn encodings_are_ordered_and_prefix_free() {
    let nums = [-1e9, -2.5, -0.0, 0.0, 1.0, 2.5, 1e9];
    for w in nums.windows(2) {
        let (a, b) = (number(w[0]).encode(), number(w[1]).encode());
        assert!(a <= b, "{} vs {}", w[0], w[1]);
    }
    assert_eq!(number(-0.0).encode(), number(0.0).encode());
    let strs = ["", "a", "a\0", "a\0b", "ab", "b"];
    for w in strs.windows(2) {
        let (a, b) = (
            Scalar::Str(w[0].into()).encode(),
            Scalar::Str(w[1].into()).encode(),
        );
        assert!(a < b, "{:?} vs {:?}", w[0], w[1]);
        assert!(!b.starts_with(&a), "{:?} must not prefix {:?}", w[0], w[1]);
    }
}

#[test]
fn flatten_walks_objects_and_arrays() {
    let doc = json(
        r#"{
        "a": 1, "b": {"c": "x"}, "t": ["p", "q", "p"], "o": [{"k": 1}], "e": [], "z": {}
    }"#,
    );
    let flat = flatten(&doc, 100).unwrap();
    let paths: Vec<&[u8]> = flat.values.iter().map(|(p, _)| p.as_slice()).collect();
    let expected: [&[u8]; 5] = [b"a", b"b.c", b"o.k", b"t", b"t"];
    assert_eq!(paths, expected, "duplicates collapse");
    let present: Vec<&[u8]> = flat.present.items.iter().map(|p| p.as_slice()).collect();
    let expected: [&[u8]; 7] = [b"a", b"b", b"b.c", b"o", b"o.k", b"t", b"z"];
    assert_eq!(present, expected);
    // The presence index agrees with the in-memory rule, path by path.
    for path in ["a", "b", "b.c", "o", "o.k", "t", "e", "z", "missing", "a.x"] {
        assert_eq!(
            flat.present.contains(path.as_bytes()),
            f(&format!("{{\"{path}\": {{\"$exists\": true}}}}")).matches(&doc),
            "{path}"
        );
    }
    assert!(flatten(&json(r#"{"bad\u0000": 1}"#), 100).is_err());
    assert!(
        flatten(&json(r#"{"a.b": 1}"#), 100).is_err(),
        "dotted keys are ambiguous"
    );
    let many: Vec<String> = (0..20).map(|i| format!("\"k{i}\": {i}")).collect();
    let many = format!("{{{}}}", many.join(", "));
    assert!(flatten(&json(&many), 10).is_err());
}
