use phoenixdb::btree::check::TreeReport;
use phoenixdb::btree::scan::Bound;
use phoenixdb::database::batch::BatchOp;
use phoenixdb::database::Stats;
use phoenixdb::error::{Error, PhoenixStatus};
use phoenixdb::interface::{
    bound_arg, check_k, float_extent, id_arg, json_string, latency_of, options_of, parse_batch,
    path_arg, push_pair, scan_buffer,
    spans_json, Latency, PhoenixStats, PhoenixTreeReport,
};
use phoenixdb::observability::tracing::{CollectingExporter, Tracer};
use phoenixdb::prefix::prefix_successor;

fn record(code: u8, key: &[u8], value: Option<&[u8]>) -> Vec<u8> {
    let mut out = vec![code];
    out.extend_from_slice(&(key.len() as u32).to_le_bytes());
    out.extend_from_slice(key);
    if let Some(v) = value {
        out.extend_from_slice(&(v.len() as u32).to_le_bytes());
        out.extend_from_slice(v);
    }
    out
}

#[test]
fn batches_are_decoded() {
    let mut bytes = record(1, b"a", Some(b"one"));
    bytes.extend(record(2, b"b", None));
    bytes.extend(record(3, b"c", None));
    assert_eq!(
        parse_batch(&bytes).unwrap(),
        vec![
            BatchOp::Put(b"a".to_vec(), b"one".to_vec()),
            BatchOp::Delete(b"b".to_vec()),
            BatchOp::DeleteIfExists(b"c".to_vec()),
        ]
    );
    assert!(parse_batch(&[]).unwrap().is_empty());
    // Cut anywhere but between records, a batch is refused.
    let first = record(1, b"a", Some(b"one")).len();
    let second = first + record(2, b"b", None).len();
    for n in 1..bytes.len() {
        let whole = n == first || n == second;
        assert_eq!(parse_batch(&bytes[..n]).is_ok(), whole, "{n}");
    }
    assert!(matches!(
        parse_batch(&record(9, b"k", None)),
        Err(Error::InvalidArgument(_))
    ));
    assert!(parse_batch(&record(2, b"", None)).is_err(), "empty key");
}

#[test]
fn pairs_are_length_prefixed() {
    let mut out = Vec::new();
    push_pair(&mut out, b"k", b"vv");
    assert_eq!(out, [1, 0, 0, 0, b'k', 2, 0, 0, 0, b'v', b'v']);
}

#[test]
fn scan_buffers_stop_at_their_limits() {
    let list: Vec<(Vec<u8>, Vec<u8>)> = (0..4u8).map(|i| (vec![i], vec![i; 2])).collect();
    assert_eq!(scan_buffer(&list, 0, 0).1, 4);
    assert_eq!(scan_buffer(&list, 2, 0).1, 2);
    assert_eq!(scan_buffer(&list, 0, 12).1, 2, "each pair takes 11 bytes");
    assert_eq!(scan_buffer(&list, 0, 11).1, 1);
    assert_eq!(scan_buffer(&list, 0, 0).0.len(), 44);
}

#[test]
fn bounds_have_modes() {
    assert_eq!(bound_arg(b"ignored", 0).unwrap(), Bound::Unbounded);
    assert_eq!(bound_arg(b"k", 1).unwrap(), Bound::Included(b"k".to_vec()));
    assert_eq!(bound_arg(b"k", 2).unwrap(), Bound::Excluded(b"k".to_vec()));
    assert!(bound_arg(b"k", 3).is_err());
    assert!(bound_arg(&vec![0u8; (1 << 20) + 1], 1).is_err());
}

#[test]
fn option_numbers_are_clamped() {
    let o = options_of(-1, 0, 0, 0).unwrap();
    assert!(o.sync_on_commit && !o.tracing);
    assert_eq!((o.cache_pages, o.checkpoint_bytes), (1024, 4 * 1024 * 1024));
    let o = options_of(0, u64::MAX, 1, 7).unwrap();
    assert!(!o.sync_on_commit && o.tracing);
    assert_eq!((o.cache_pages, o.checkpoint_bytes), (1 << 20, 4096));
    assert!(matches!(
        options_of(2, 0, 0, 0),
        Err(Error::InvalidArgument(_))
    ));
}

#[test]
fn strings_are_quoted_as_json() {
    assert_eq!(json_string("plain"), "\"plain\"");
    assert_eq!(
        json_string("a\"b\\c\n\r\t\u{1}\u{1f}é"),
        "\"a\\\"b\\\\c\\n\\r\\t\\u0001\\u001fé\""
    );
}

#[test]
fn spans_are_listed_as_json() {
    let mut tracer = Tracer::new(CollectingExporter::new(4));
    assert_eq!(spans_json(&tracer.exporter.spans()), "[]");
    let p = tracer.span("open".to_string(), 0);
    let mut c = tracer.child_of(&p, "read".to_string(), 0);
    c.set_attribute("key".to_string(), "a\"b".to_string());
    c.set_attribute("n".to_string(), "1".to_string());
    tracer.finish(c, 12);
    tracer.finish(p, 20);
    let spans = tracer.exporter.spans();
    let (trace, parent, child) = (spans[0].trace_id, spans[1].span_id, spans[0].span_id);
    assert_eq!(
        spans_json(&spans),
        format!(
            "[{{\"name\":\"read\",\"trace_id\":{trace},\"span_id\":{child},\"parent_id\":{parent},\"duration_us\":12,\"error\":false,\"attributes\":{{\"key\":\"a\\\"b\",\"n\":\"1\"}}}},{{\"name\":\"open\",\"trace_id\":{trace},\"span_id\":{parent},\"parent_id\":null,\"duration_us\":20,\"error\":false,\"attributes\":{{}}}}]"
        )
    );
}

#[test]
fn latencies_are_found_by_name() {
    assert_eq!(latency_of("get"), Some(Latency::Read));
    assert_eq!(latency_of("delete"), Some(Latency::Write));
    assert_eq!(latency_of("scan"), Some(Latency::Scan));
    assert_eq!(latency_of("commit"), Some(Latency::Commit));
    assert_eq!(latency_of("checkpoint"), Some(Latency::Checkpoint));
    assert_eq!(latency_of("other"), None);
}

#[test]
fn reports_keep_their_numbers() {
    let p = PhoenixStats::of(Stats {
        page_count: 1,
        active_txns: 2,
        pending_keys: 3,
        wal_bytes: 4,
        commit_ts: 5,
        tree_ts: 6,
        cache_hits: 7,
        cache_misses: 8,
    });
    assert_eq!((p.page_count, p.reserved, p.cache_misses), (1, 0, 8));
    let r = PhoenixTreeReport::of(&TreeReport {
        depth: 1,
        keys: 9,
        ..TreeReport::default()
    });
    assert_eq!((r.depth, r.keys, r.reserved), (1, 9, 0));
}

#[test]
fn errors_have_stable_codes() {
    assert_eq!(Error::NotFound.status(), PhoenixStatus::NotFound);
    assert_eq!(Error::Conflict.status(), PhoenixStatus::Conflict);
    assert_eq!(
        Error::TxnNotFound(7).describe(),
        "unknown or finished transaction 7"
    );
}

#[test]
fn prefixes_have_successors() {
    assert_eq!(prefix_successor(b"ab"), Some(b"ac".to_vec()));
    assert_eq!(prefix_successor(&[b'a', 0xFF]), Some(b"b".to_vec()));
    assert_eq!(prefix_successor(&[0xFF, 0xFF]), None);
    assert_eq!(prefix_successor(b""), None);
}

#[test]
fn float_buffers_are_checked_before_they_are_read() {
    assert_eq!(float_extent(4096, 3, 8).unwrap(), 12);
    assert!(float_extent(4096, 0, 8).is_err(), "nothing");
    assert!(float_extent(4096, 9, 8).is_err(), "too many");
    assert!(float_extent(0, 3, 8).is_err(), "null");
    assert!(float_extent(4098, 3, 8).is_err(), "misaligned");
    assert!(float_extent(usize::MAX - 3, 1, 8).is_err(), "wraps");
    assert!(check_k(0).is_err() && check_k(4097).is_err());
    assert!(check_k(1).is_ok() && check_k(4096).is_ok());
}

#[test]
fn text_arguments_are_short_and_utf8() {
    assert_eq!(id_arg("héllo".as_bytes()).unwrap(), "héllo");
    assert_eq!(path_arg(b"/tmp/x.pdb").unwrap(), "/tmp/x.pdb");
    assert!(id_arg(b"").is_err() && path_arg(b"").is_err());
    assert!(id_arg(&[b'a'; 129]).is_err());
    assert!(id_arg(&[b'a'; 128]).is_ok());
    assert!(path_arg(&[b'a'; 4097]).is_err());
    assert!(matches!(
        path_arg(&[0xFF, 0xFE]),
        Err(Error::InvalidArgument(_))
    ));
}
