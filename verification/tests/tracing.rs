use phoenixdb::observability::tracing::{
    group_by_trace, CollectingExporter, NullExporter, SpanRecord, Tracer,
};

fn tracer_with_collector() -> Tracer<CollectingExporter> {
    Tracer::new(CollectingExporter::new(100))
}

#[test]
fn a_span_is_exported_when_dropped() {
    let mut tracer = tracer_with_collector();
    assert!(tracer.exporter.is_empty());
    let s = tracer.span("txn.commit".to_string(), 0);
    tracer.finish(s, 1);
    let spans = tracer.exporter.spans();
    assert_eq!(spans.len(), 1);
    assert_eq!(spans[0].name, "txn.commit");
    assert!(spans[0].parent_id.is_none(), "root span has no parent");
}

#[test]
fn span_measures_elapsed_time() {
    let mut tracer = tracer_with_collector();
    let s = tracer.span("slow".to_string(), 10_000);
    tracer.finish(s, 13_000);
    let s = &tracer.exporter.spans()[0];
    assert_eq!(s.duration_micros(), 3_000);
}

#[test]
fn child_spans_share_the_trace_and_link_to_the_parent() {
    let mut tracer = tracer_with_collector();
    let parent = tracer.span("query".to_string(), 0);
    let c1 = tracer.child_of(&parent, "index.scan".to_string(), 1);
    let c2 = tracer.child_of(&parent, "page.read".to_string(), 2);
    tracer.finish(c2, 3);
    tracer.finish(c1, 4);
    tracer.finish(parent, 5);
    let spans = tracer.exporter.spans();
    assert_eq!(spans.len(), 3);
    let trace = spans[0].trace_id;
    assert!(
        spans.iter().all(|s| s.trace_id == trace),
        "one logical operation must share one trace id"
    );
    let children: Vec<&SpanRecord> = spans.iter().filter(|s| s.parent_id.is_some()).collect();
    assert_eq!(children.len(), 2);
    // Children close before the parent, so the parent is exported last.
    assert!(spans.last().unwrap().parent_id.is_none());
}

#[test]
fn span_ids_are_unique() {
    let mut tracer = tracer_with_collector();
    for i in 0..50 {
        let s = tracer.span(format!("op{i}"), 0);
        tracer.finish(s, 0);
    }
    let spans = tracer.exporter.spans();
    let mut ids: Vec<u64> = spans.iter().map(|s| s.span_id).collect();
    ids.sort_unstable();
    ids.dedup();
    assert_eq!(ids.len(), 50, "span ids collided");
}

#[test]
fn attributes_are_recorded() {
    let mut tracer = tracer_with_collector();
    let mut s = tracer.span("get".to_string(), 0);
    s.set_attribute("key".to_string(), "user:42".to_string());
    s.set_attribute("bytes".to_string(), "128".to_string());
    tracer.finish(s, 1);
    let s = &tracer.exporter.spans()[0];
    assert_eq!(s.attribute("key"), Some("user:42"));
    assert_eq!(s.attribute("bytes"), Some("128"));
    assert_eq!(s.attribute("missing"), None);
    assert!(!s.error);
}

#[test]
fn builder_style_attributes_work() {
    let mut tracer = tracer_with_collector();
    let s = tracer
        .span("op".to_string(), 0)
        .with_attribute("k".to_string(), "v".to_string());
    tracer.finish(s, 1);
    assert_eq!(tracer.exporter.spans()[0].attribute("k"), Some("v"));
}

#[test]
fn errors_are_flagged_and_described() {
    let mut tracer = tracer_with_collector();
    let mut s = tracer.span("commit".to_string(), 0);
    s.set_error("write-write conflict".to_string());
    tracer.finish(s, 1);
    let s = &tracer.exporter.spans()[0];
    assert!(s.error);
    assert_eq!(s.attribute("error"), Some("write-write conflict"));
}

#[test]
fn a_disabled_tracer_exports_nothing() {
    let mut tracer: Tracer<NullExporter> = Tracer::disabled();
    assert!(!tracer.is_enabled());
    let mut s = tracer.span("op".to_string(), 0);
    s.set_attribute("k".to_string(), "v".to_string());
    tracer.finish(s, 1);

    let mut quiet = tracer_with_collector();
    quiet.enabled = false;
    let s = quiet.span("op".to_string(), 0);
    quiet.finish(s, 1);
    assert!(
        quiet.exporter.is_empty(),
        "disabled tracer must not export"
    );
}

#[test]
fn collector_is_bounded_and_drops_the_oldest() {
    let mut tracer = Tracer::new(CollectingExporter::new(3));
    for i in 0..10 {
        let s = tracer.span(format!("op{i}"), 0);
        tracer.finish(s, 0);
    }
    assert_eq!(tracer.exporter.len(), 3, "must not grow without bound");
    let names: Vec<String> = tracer
        .exporter
        .spans()
        .iter()
        .map(|s| s.name.clone())
        .collect();
    assert_eq!(names, vec!["op7", "op8", "op9"], "oldest are evicted");
}

#[test]
fn spans_can_be_filtered_by_name() {
    let mut tracer = tracer_with_collector();
    for name in ["read", "write", "read"] {
        let s = tracer.span(name.to_string(), 0);
        tracer.finish(s, 0);
    }
    assert_eq!(tracer.exporter.named("read").len(), 2);
    assert_eq!(tracer.exporter.named("write").len(), 1);
    assert_eq!(tracer.exporter.named("nope").len(), 0);
}

#[test]
fn grouping_reconstructs_the_call_tree() {
    let mut tracer = tracer_with_collector();
    for _ in 0..2 {
        let p = tracer.span("txn".to_string(), 0);
        let c = tracer.child_of(&p, "insert".to_string(), 1);
        tracer.finish(c, 2);
        tracer.finish(p, 3);
    }
    let grouped = group_by_trace(&tracer.exporter.spans());
    assert_eq!(grouped.len(), 2, "two independent traces");
    for (_, spans) in &grouped {
        assert_eq!(spans.len(), 2, "each trace has a parent and a child");
    }
}

#[test]
fn a_cleared_collector_is_empty() {
    let mut e = CollectingExporter::new(4);
    let mut tracer = tracer_with_collector();
    let s = tracer.span("op".to_string(), 2);
    e.keep(s.close(9));
    assert_eq!(e.spans()[0].duration_micros(), 7);
    e.clear();
    assert!(e.is_empty());
}

#[test]
fn flushing_keeps_what_was_collected() {
    let mut tracer = tracer_with_collector();
    let s = tracer.span("txn".to_string(), 0);
    tracer.finish(s, 1);
    tracer.flush();
    assert_eq!(tracer.exporter.spans().len(), 1);
    let s = tracer.span("next".to_string(), 2);
    tracer.finish(s, 3);
    let ids: Vec<u64> = tracer.exporter.spans().iter().map(|s| s.span_id).collect();
    assert!(ids[0] < ids[1]);
}
