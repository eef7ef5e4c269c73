//! Structured tracing: hierarchical spans with timing.
//!
//! # Model
//!
//! A [`Span`] measures one unit of work — a transaction, a query, a compaction.
//! Spans carry a trace id (shared by everything in one logical operation), a
//! span id, an optional parent id, key/value attributes, and a duration.
//!
//! # Export
//!
//! Completed spans are handed to a [`SpanExporter`]. There are two:
//! [`NullExporter`] (drops everything) and [`CollectingExporter`] (keeps a
//! bounded ring in memory, for tests and `EXPLAIN`-style debugging).
//!
//! Clock readings are handed in, in microseconds.

use crate::bytes::same;
use vstd::prelude::*;
use vstd::utf8::*;

verus! {

/// A finished span, ready for export.
#[derive(Debug, Clone, PartialEq, Eq)]
pub struct SpanRecord {
    /// Identifies the whole logical operation.
    pub trace_id: u64,
    /// Identifies this span.
    pub span_id: u64,
    /// Enclosing span, when nested.
    pub parent_id: Option<u64>,
    /// Operation name, e.g. `"txn.commit"`.
    pub name: String,
    /// Wall-clock duration in microseconds.
    pub duration: u128,
    /// Structured key/value context.
    pub attributes: Vec<(String, String)>,
    /// Whether the operation failed.
    pub error: bool,
}

/// What a finished span says.
pub ghost struct Finished {
    /// The whole logical operation.
    pub trace_id: u64,
    /// The span.
    pub span_id: u64,
    /// The enclosing span.
    pub parent_id: Option<u64>,
    /// The operation.
    pub name: Seq<char>,
    /// The duration.
    pub duration: u128,
    /// The context.
    pub attributes: Seq<(Seq<char>, Seq<char>)>,
    /// Whether it failed.
    pub error: bool,
}

/// What a list of attributes says.
pub open spec fn pairs_of(v: Seq<(String, String)>) -> Seq<(Seq<char>, Seq<char>)> {
    Seq::new(v.len(), |i: int| (v[i].0@, v[i].1@))
}

/// What a list of finished spans says.
pub open spec fn records(v: Seq<SpanRecord>) -> Seq<Finished> {
    Seq::new(v.len(), |i: int| v[i]@)
}

impl View for SpanRecord {
    type V = Finished;

    open spec fn view(&self) -> Finished {
        Finished {
            trace_id: self.trace_id,
            span_id: self.span_id,
            parent_id: self.parent_id,
            name: self.name@,
            duration: self.duration,
            attributes: pairs_of(self.attributes@),
            error: self.error,
        }
    }
}

/// The value of the first attribute of that name.
pub open spec fn value_for(v: Seq<(Seq<char>, Seq<char>)>, key: Seq<char>) -> Option<Seq<char>>
    decreases v.len(),
{
    if v.len() == 0 {
        None
    } else if v[0].0 == key {
        Some(v[0].1)
    } else {
        value_for(v.subrange(1, v.len() as int), key)
    }
}

/// Whether two texts are the same.
fn same_text(a: &str, b: &str) -> (r: bool)
    ensures
        r == (a@ == b@),
{
    proof {
        encode_utf8_decode_utf8(a@);
        encode_utf8_decode_utf8(b@);
    }
    same(a.as_bytes(), b.as_bytes())
}

/// Copies a list of attributes.
fn copy_pairs(v: &Vec<(String, String)>) -> (out: Vec<(String, String)>)
    ensures
        pairs_of(out@) == pairs_of(v@),
{
    let mut out: Vec<(String, String)> = Vec::new();
    let mut i: usize = 0;
    while i < v.len()
        invariant
            i <= v@.len(),
            pairs_of(out@) == pairs_of(v@).subrange(0, i as int),
        decreases v@.len() - i,
    {
        let ghost was = pairs_of(out@);
        out.push((v[i].0.as_str().to_owned(), v[i].1.as_str().to_owned()));
        assert(pairs_of(out@) =~= was.push(pairs_of(v@)[i as int]));
        i += 1;
        assert(pairs_of(out@) =~= pairs_of(v@).subrange(0, i as int));
    }
    assert(pairs_of(out@) =~= pairs_of(v@));
    out
}

impl SpanRecord {
    /// Duration in microseconds, at most the largest number of sixty-four bits.
    #[must_use]
    pub fn duration_micros(&self) -> (n: u64)
        ensures
            n == if self.duration > u64::MAX {
                u64::MAX as int
            } else {
                self.duration as int
            },
    {
        if self.duration > u64::MAX as u128 {
            u64::MAX
        } else {
            self.duration as u64
        }
    }

    /// Value of `key`, if present.
    #[must_use]
    pub fn attribute(&self, key: &str) -> (r: Option<&str>)
        ensures
            match r {
                Some(v) => value_for(self@.attributes, key@) == Some(v@),
                None => value_for(self@.attributes, key@) is None,
            },
    {
        let ghost all = pairs_of(self.attributes@);
        let mut i: usize = 0;
        assert(all.subrange(0, all.len() as int) =~= all);
        while i < self.attributes.len()
            invariant
                i <= self.attributes@.len(),
                all == pairs_of(self.attributes@),
                value_for(all, key@) == value_for(all.subrange(i as int, all.len() as int), key@),
            decreases self.attributes@.len() - i,
        {
            proof {
                let rest = all.subrange(i as int, all.len() as int);
                assert(rest[0] == all[i as int]);
                assert(rest.subrange(1, rest.len() as int) =~= all.subrange(
                    i + 1,
                    all.len() as int,
                ));
            }
            if same_text(self.attributes[i].0.as_str(), key) {
                return Some(self.attributes[i].1.as_str());
            }
            i += 1;
        }
        None
    }

    /// A copy.
    fn copy(&self) -> (r: SpanRecord)
        ensures
            r@ == self@,
    {
        SpanRecord {
            trace_id: self.trace_id,
            span_id: self.span_id,
            parent_id: self.parent_id,
            name: self.name.as_str().to_owned(),
            duration: self.duration,
            attributes: copy_pairs(&self.attributes),
            error: self.error,
        }
    }
}

/// Copies a list of finished spans.
fn copy_records(v: &Vec<SpanRecord>) -> (out: Vec<SpanRecord>)
    ensures
        records(out@) == records(v@),
{
    let mut out: Vec<SpanRecord> = Vec::new();
    let mut i: usize = 0;
    while i < v.len()
        invariant
            i <= v@.len(),
            records(out@) == records(v@).subrange(0, i as int),
        decreases v@.len() - i,
    {
        let ghost was = records(out@);
        out.push(v[i].copy());
        assert(records(out@) =~= was.push(records(v@)[i as int]));
        i += 1;
        assert(records(out@) =~= records(v@).subrange(0, i as int));
    }
    assert(records(out@) =~= records(v@));
    out
}

/// Receives completed spans.
///
/// Implementations must be cheap and must not panic.
pub trait SpanExporter: Sized {
    /// What becomes of the exporter when it is handed a span.
    spec fn takes(before: Self, span: Finished, after: Self) -> bool;

    /// What becomes of the exporter when it is flushed.
    spec fn flushes(before: Self, after: Self) -> bool;

    /// Called once per completed span.
    fn export(&mut self, span: SpanRecord)
        ensures
            Self::takes(*old(self), span@, *final(self)),
    ;

    /// Flushes any buffered spans.
    fn flush(&mut self)
        ensures
            Self::flushes(*old(self), *final(self)),
    ;
}

/// Discards every span.
#[derive(Debug, Clone, Copy)]
pub struct NullExporter;

impl SpanExporter for NullExporter {
    open spec fn takes(before: Self, span: Finished, after: Self) -> bool {
        after == before
    }

    open spec fn flushes(before: Self, after: Self) -> bool {
        after == before
    }

    fn export(&mut self, _span: SpanRecord) {
    }

    fn flush(&mut self) {
    }
}

/// Keeps the most recent spans in memory.
///
/// Bounded so a long-running process cannot leak: once `capacity` is reached
/// the oldest span is dropped.
#[derive(Debug)]
pub struct CollectingExporter {
    spans: Vec<SpanRecord>,
    capacity: usize,
}

impl View for CollectingExporter {
    type V = Seq<Finished>;

    closed spec fn view(&self) -> Seq<Finished> {
        records(self.spans@)
    }
}

/// The last spans, so many at most.
pub open spec fn retained(s: Seq<Finished>, capacity: int) -> Seq<Finished> {
    if s.len() > capacity {
        s.subrange(1, s.len() as int)
    } else {
        s
    }
}

impl CollectingExporter {
    /// How many spans are kept.
    pub closed spec fn room(&self) -> int {
        self.capacity as int
    }

    /// No more spans are kept than there is room for.
    pub open spec fn wf(&self) -> bool {
        self@.len() <= self.room() && self.room() >= 1
    }

    /// Creates an exporter retaining at most `capacity` spans, one at least.
    #[must_use]
    pub fn new(capacity: usize) -> (e: Self)
        ensures
            e.wf(),
            e@ == Seq::<Finished>::empty(),
            e.room() == if capacity > 1 {
                capacity as int
            } else {
                1
            },
    {
        let e: CollectingExporter = CollectingExporter {
            spans: Vec::new(),
            capacity: if capacity > 1 {
                capacity
            } else {
                1
            },
        };
        assert(e@ =~= Seq::<Finished>::empty());
        e
    }

    /// Snapshot of the retained spans, oldest first.
    #[must_use]
    pub fn spans(&self) -> (v: Vec<SpanRecord>)
        ensures
            records(v@) == self@,
    {
        copy_records(&self.spans)
    }

    /// Number of retained spans.
    #[must_use]
    pub fn len(&self) -> (n: usize)
        ensures
            n == self@.len(),
    {
        self.spans.len()
    }

    /// True when nothing has been recorded.
    #[must_use]
    pub fn is_empty(&self) -> (r: bool)
        ensures
            r == (self@.len() == 0),
    {
        self.spans.len() == 0
    }

    /// Discards everything retained.
    pub fn clear(&mut self)
        ensures
            final(self)@ == Seq::<Finished>::empty(),
            final(self).room() == old(self).room(),
    {
        self.spans = Vec::new();
        assert(self@ =~= Seq::<Finished>::empty());
    }

    /// Retained spans whose name is `name`.
    #[must_use]
    pub fn named(&self, name: &str) -> (v: Vec<SpanRecord>)
        ensures
            records(v@) == named_in(self@, name@),
    {
        let ghost all = self@;
        let mut v: Vec<SpanRecord> = Vec::new();
        let mut i: usize = 0;
        assert(records(v@) =~= named_in(all.subrange(0, 0), name@));
        while i < self.spans.len()
            invariant
                i <= self.spans@.len(),
                all == self@,
                records(v@) == named_in(all.subrange(0, i as int), name@),
            decreases self.spans@.len() - i,
        {
            let ghost was = records(v@);
            proof {
                let more = all.subrange(0, i + 1);
                assert(more.drop_last() =~= all.subrange(0, i as int));
                assert(more.last() == self.spans@[i as int]@);
            }
            if same_text(self.spans[i].name.as_str(), name) {
                v.push(self.spans[i].copy());
                assert(records(v@) =~= was.push(self.spans@[i as int]@));
            }
            i += 1;
        }
        assert(all.subrange(0, i as int) =~= all);
        v
    }

    /// Keeps a span; drops the oldest where there is no room.
    pub fn keep(&mut self, span: SpanRecord)
        ensures
            final(self)@ == retained(old(self)@.push(span@), old(self).room()),
            final(self).room() == old(self).room(),
            old(self).wf() ==> final(self).wf(),
    {
        let ghost was = self@;
        let ghost s = span@;
        self.spans.push(span);
        assert(self@ =~= was.push(s));
        if self.spans.len() > self.capacity {
            let _oldest: SpanRecord = self.spans.remove(0);
            assert(self@ =~= was.push(s).subrange(1, was.len() as int + 1));
        }
    }
}

/// The spans of that name, in order.
pub open spec fn named_in(s: Seq<Finished>, name: Seq<char>) -> Seq<Finished>
    decreases s.len(),
{
    if s.len() == 0 {
        s
    } else {
        let less = named_in(s.drop_last(), name);
        if s.last().name == name {
            less.push(s.last())
        } else {
            less
        }
    }
}

impl SpanExporter for CollectingExporter {
    open spec fn takes(before: Self, span: Finished, after: Self) -> bool {
        &&& after@ == retained(before@.push(span), before.room())
        &&& after.room() == before.room()
        &&& before.wf() ==> after.wf()
    }

    open spec fn flushes(before: Self, after: Self) -> bool {
        after == before
    }

    fn export(&mut self, span: SpanRecord) {
        self.keep(span);
    }

    fn flush(&mut self) {
    }
}

/// Creates spans and routes them to an exporter.
#[derive(Debug)]
pub struct Tracer<E> {
    /// Where finished spans go.
    pub exporter: E,
    /// The id that the next span gets.
    pub next_id: u64,
    /// Whether spans are exported.
    pub enabled: bool,
}

/// An in-flight span. It is exported when it is finished.
#[derive(Debug)]
pub struct Span {
    trace_id: u64,
    span_id: u64,
    parent_id: Option<u64>,
    name: String,
    started: u128,
    attributes: Vec<(String, String)>,
    error: bool,
}

/// What an in-flight span says.
pub ghost struct Started {
    /// The whole logical operation.
    pub trace_id: u64,
    /// The span.
    pub span_id: u64,
    /// The enclosing span.
    pub parent_id: Option<u64>,
    /// The operation.
    pub name: Seq<char>,
    /// When it started.
    pub started: u128,
    /// The context.
    pub attributes: Seq<(Seq<char>, Seq<char>)>,
    /// Whether it failed.
    pub error: bool,
}

impl View for Span {
    type V = Started;

    closed spec fn view(&self) -> Started {
        Started {
            trace_id: self.trace_id,
            span_id: self.span_id,
            parent_id: self.parent_id,
            name: self.name@,
            started: self.started,
            attributes: pairs_of(self.attributes@),
            error: self.error,
        }
    }
}

/// A span that starts.
pub open spec fn opened(
    trace_id: u64,
    span_id: u64,
    parent_id: Option<u64>,
    name: Seq<char>,
    now: u128,
) -> Started {
    Started {
        trace_id,
        span_id,
        parent_id,
        name,
        started: now,
        attributes: Seq::empty(),
        error: false,
    }
}

/// A span that ends.
pub open spec fn closed_at(s: Started, now: u128) -> Finished {
    Finished {
        trace_id: s.trace_id,
        span_id: s.span_id,
        parent_id: s.parent_id,
        name: s.name,
        duration: if now > s.started {
            (now - s.started) as u128
        } else {
            0
        },
        attributes: s.attributes,
        error: s.error,
    }
}

impl Tracer<NullExporter> {
    /// Creates a disabled tracer: spans are created but never exported.
    #[must_use]
    pub fn disabled() -> (t: Self)
        ensures
            t.next_id == 1,
            !t.enabled,
    {
        Tracer { exporter: NullExporter, next_id: 1, enabled: false }
    }
}

impl<E> Tracer<E> {
    /// Creates a tracer exporting to `exporter`.
    #[must_use]
    pub fn new(exporter: E) -> (t: Self)
        ensures
            t.exporter == exporter,
            t.next_id == 1,
            t.enabled,
    {
        Tracer { exporter, next_id: 1, enabled: true }
    }

    /// Whether spans are exported.
    #[must_use]
    pub fn is_enabled(&self) -> (r: bool)
        ensures
            r == self.enabled,
    {
        self.enabled
    }

    /// Allocates a unique id.
    fn allocate_id(&mut self) -> (id: u64)
        ensures
            id == old(self).next_id,
            final(self).next_id == (old(self).next_id + 1) % 0x1_0000_0000_0000_0000,
            final(self).exporter == old(self).exporter,
            final(self).enabled == old(self).enabled,
    {
        let id: u64 = self.next_id;
        self.next_id = id.wrapping_add(1);
        id
    }

    /// Starts a root span for a new trace at the reading `now`.
    #[must_use]
    pub fn span(&mut self, name: String, now: u128) -> (s: Span)
        ensures
            s@ == opened(old(self).next_id, old(self).next_id, None, name@, now),
            final(self).next_id == (old(self).next_id + 1) % 0x1_0000_0000_0000_0000,
            final(self).exporter == old(self).exporter,
            final(self).enabled == old(self).enabled,
    {
        let id: u64 = self.allocate_id();
        let s: Span = Span {
            trace_id: id,
            span_id: id,
            parent_id: None,
            name,
            started: now,
            attributes: Vec::new(),
            error: false,
        };
        assert(pairs_of(s.attributes@) =~= Seq::<(Seq<char>, Seq<char>)>::empty());
        s
    }

    /// Starts a span nested inside `parent`, sharing its trace id.
    #[must_use]
    pub fn child_of(&mut self, parent: &Span, name: String, now: u128) -> (s: Span)
        ensures
            s@ == opened(
                parent@.trace_id,
                old(self).next_id,
                Some(parent@.span_id),
                name@,
                now,
            ),
            final(self).next_id == (old(self).next_id + 1) % 0x1_0000_0000_0000_0000,
            final(self).exporter == old(self).exporter,
            final(self).enabled == old(self).enabled,
    {
        let id: u64 = self.allocate_id();
        let s: Span = Span {
            trace_id: parent.trace_id,
            span_id: id,
            parent_id: Some(parent.span_id),
            name,
            started: now,
            attributes: Vec::new(),
            error: false,
        };
        assert(pairs_of(s.attributes@) =~= Seq::<(Seq<char>, Seq<char>)>::empty());
        s
    }
}

impl<E: SpanExporter> Tracer<E> {
    /// Ends a span at the reading `now`, exporting it if the tracer is enabled.
    pub fn finish(&mut self, span: Span, now: u128)
        ensures
            final(self).next_id == old(self).next_id,
            final(self).enabled == old(self).enabled,
            !old(self).enabled ==> final(self).exporter == old(self).exporter,
            old(self).enabled ==> E::takes(
                old(self).exporter,
                closed_at(span@, now),
                final(self).exporter,
            ),
    {
        if !self.enabled {
            return;
        }
        let record: SpanRecord = span.close(now);
        self.exporter.export(record);
    }

    /// Flushes the exporter.
    pub fn flush(&mut self)
        ensures
            final(self).next_id == old(self).next_id,
            final(self).enabled == old(self).enabled,
            E::flushes(old(self).exporter, final(self).exporter),
    {
        self.exporter.flush();
    }
}

impl Span {
    /// This span's trace id.
    #[must_use]
    pub fn trace_id(&self) -> (n: u64)
        ensures
            n == self@.trace_id,
    {
        self.trace_id
    }

    /// This span's id.
    #[must_use]
    pub fn span_id(&self) -> (n: u64)
        ensures
            n == self@.span_id,
    {
        self.span_id
    }

    /// Attaches a key/value attribute.
    pub fn set_attribute(&mut self, key: String, value: String)
        ensures
            final(self)@ == (Started {
                attributes: old(self)@.attributes.push((key@, value@)),
                ..old(self)@
            }),
    {
        let ghost was = pairs_of(self.attributes@);
        self.attributes.push((key, value));
        assert(pairs_of(self.attributes@) =~= was.push((key@, value@)));
    }

    /// Builder form of [`Span::set_attribute`].
    #[must_use]
    pub fn with_attribute(self, key: String, value: String) -> (s: Self)
        ensures
            s@ == (Started { attributes: self@.attributes.push((key@, value@)), ..self@ }),
    {
        let mut s: Span = self;
        s.set_attribute(key, value);
        s
    }

    /// Marks the operation as failed.
    pub fn set_error(&mut self, message: String)
        ensures
            final(self)@ == (Started {
                attributes: old(self)@.attributes.push(("error"@, message@)),
                error: true,
                ..old(self)@
            }),
    {
        self.error = true;
        self.set_attribute("error".to_owned(), message);
    }

    /// Time elapsed at the reading `now`; nothing if the clock went back.
    #[must_use]
    pub fn elapsed(&self, now: u128) -> (d: u128)
        ensures
            d == closed_at(self@, now).duration,
    {
        if now > self.started {
            now - self.started
        } else {
            0
        }
    }

    /// Ends the span.
    pub fn close(self, now: u128) -> (r: SpanRecord)
        ensures
            r@ == closed_at(self@, now),
    {
        let duration: u128 = self.elapsed(now);
        SpanRecord {
            trace_id: self.trace_id,
            span_id: self.span_id,
            parent_id: self.parent_id,
            name: self.name,
            duration,
            attributes: self.attributes,
            error: self.error,
        }
    }
}

/// The spans of a trace, in order.
pub open spec fn of_trace(s: Seq<Finished>, id: u64) -> Seq<Finished>
    decreases s.len(),
{
    if s.len() == 0 {
        s
    } else {
        let less = of_trace(s.drop_last(), id);
        if s.last().trace_id == id {
            less.push(s.last())
        } else {
            less
        }
    }
}

/// Each group holds the spans of its trace, no two groups are of one trace, and
/// every span is in a group.
pub open spec fn groups(v: Seq<(u64, Vec<SpanRecord>)>, s: Seq<Finished>) -> bool {
    &&& forall|g: int|
        0 <= g < v.len() ==> records((#[trigger] v[g]).1@) == of_trace(s, v[g].0)
            && v[g].1@.len() > 0
    &&& forall|g: int, h: int| 0 <= g < h < v.len() ==> (#[trigger] v[g]).0 != (#[trigger] v[h]).0
    &&& forall|i: int| 0 <= i < s.len() ==> has_group(v, (#[trigger] s[i]).trace_id)
}

/// There is a group of the trace.
pub open spec fn has_group(v: Seq<(u64, Vec<SpanRecord>)>, id: u64) -> bool {
    exists|g: int| 0 <= g < v.len() && (#[trigger] v[g]).0 == id
}

/// Groups spans by trace id, for rendering a call tree. The groups stand in the
/// order in which their traces first occur.
#[must_use]
pub fn group_by_trace(spans: &Vec<SpanRecord>) -> (out: Vec<(u64, Vec<SpanRecord>)>)
    ensures
        groups(out@, records(spans@)),
{
    let ghost all = records(spans@);
    let mut out: Vec<(u64, Vec<SpanRecord>)> = Vec::new();
    let mut i: usize = 0;
    while i < spans.len()
        invariant
            i <= spans@.len(),
            all == records(spans@),
            groups(out@, all.subrange(0, i as int)),
        decreases spans@.len() - i,
    {
        let ghost was = all.subrange(0, i as int);
        let ghost now = all.subrange(0, i + 1);
        let ghost this = all[i as int];
        let ghost before = out@;
        let id: u64 = spans[i].trace_id;
        let mut g: usize = 0;
        while g < out.len() && out[g].0 != id
            invariant
                g <= out@.len(),
                out@ == before,
                forall|h: int| 0 <= h < g ==> (#[trigger] out@[h]).0 != id,
            decreases out@.len() - g,
        {
            g += 1;
        }
        proof {
            assert(now.drop_last() =~= was);
            assert(now.last() == this);
            assert(this == spans@[i as int]@);
        }
        if g < out.len() {
            let ghost old_group = records(out@[g as int].1@);
            out[g].1.push(spans[i].copy());
            proof {
                assert(records(out@[g as int].1@) =~= old_group.push(this));
                assert(out@[g as int].0 == id);
                assert forall|h: int| 0 <= h < out@.len() implies records((#[trigger] out@[h]).1@)
                    == of_trace(now, out@[h].0) && out@[h].1@.len() > 0 by {
                    if h != g {
                        assert(out@[h] == before[h]);
                        if h < g {
                            assert(before[h].0 != before[g as int].0);
                        } else {
                            assert(before[g as int].0 != before[h].0);
                        }
                    }
                }
                assert forall|a: int, b: int| 0 <= a < b < out@.len() implies (
                #[trigger] out@[a]).0 != (#[trigger] out@[b]).0 by {
                    assert(out@[a].0 == before[a].0);
                    assert(out@[b].0 == before[b].0);
                }
                assert forall|k: int| 0 <= k < now.len() implies has_group(
                    out@,
                    (#[trigger] now[k]).trace_id,
                ) by {
                    if k < i {
                        assert(now[k] == was[k]);
                        let h = choose|h: int|
                            0 <= h < before.len() && (#[trigger] before[h]).0
                                == was[k].trace_id;
                        assert(out@[h].0 == before[h].0);
                    } else {
                        assert(out@[g as int].0 == id);
                    }
                }
            }
        } else {
            let mut fresh: Vec<SpanRecord> = Vec::new();
            fresh.push(spans[i].copy());
            proof {
                lemma_no_trace(before, was, id);
                assert(records(fresh@) =~= seq![this]);
                assert(of_trace(now, id) =~= seq![this]);
            }
            out.push((id, fresh));
            proof {
                let n = before.len() as int;
                assert(out@[n].0 == id);
                assert forall|h: int| 0 <= h < out@.len() implies records((#[trigger] out@[h]).1@)
                    == of_trace(now, out@[h].0) && out@[h].1@.len() > 0 by {
                    if h < n {
                        assert(out@[h] == before[h]);
                    }
                }
                assert forall|a: int, b: int| 0 <= a < b < out@.len() implies (
                #[trigger] out@[a]).0 != (#[trigger] out@[b]).0 by {
                    assert(out@[a] == before[a]);
                    if b < n {
                        assert(out@[b] == before[b]);
                    }
                }
                assert forall|k: int| 0 <= k < now.len() implies has_group(
                    out@,
                    (#[trigger] now[k]).trace_id,
                ) by {
                    if k < i {
                        assert(now[k] == was[k]);
                        let h = choose|h: int|
                            0 <= h < before.len() && (#[trigger] before[h]).0
                                == was[k].trace_id;
                        assert(out@[h] == before[h]);
                    } else {
                        assert(out@[n].0 == id);
                    }
                }
            }
        }
        i += 1;
    }
    assert(all.subrange(0, i as int) =~= all);
    out
}

/// A trace without a group has no span yet.
proof fn lemma_no_trace(v: Seq<(u64, Vec<SpanRecord>)>, s: Seq<Finished>, id: u64)
    requires
        groups(v, s),
        forall|h: int| 0 <= h < v.len() ==> (#[trigger] v[h]).0 != id,
    ensures
        of_trace(s, id).len() == 0,
{
    assert forall|i: int| 0 <= i < s.len() implies (#[trigger] s[i]).trace_id != id by {
        assert(has_group(v, s[i].trace_id));
    }
    lemma_of_no_trace(s, id);
}

proof fn lemma_of_no_trace(s: Seq<Finished>, id: u64)
    requires
        forall|i: int| 0 <= i < s.len() ==> (#[trigger] s[i]).trace_id != id,
    ensures
        of_trace(s, id).len() == 0,
    decreases s.len(),
{
    if s.len() > 0 {
        let less = s.drop_last();
        assert forall|i: int| 0 <= i < less.len() implies (#[trigger] less[i]).trace_id != id by {
            assert(less[i] == s[i]);
        }
        lemma_of_no_trace(less, id);
        assert(s[s.len() - 1].trace_id != id);
    }
}

} // verus!
