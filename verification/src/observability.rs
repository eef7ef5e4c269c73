//! Observability: metrics and tracing.
//!
//! * [`metrics`] — counters, gauges and latency histograms. Renders the
//!   Prometheus text format directly.
//! * [`quantiles`] — what a histogram says about its samples.
//! * [`tracing`] — hierarchical spans with timing, exported through a
//!   [`SpanExporter`](tracing::SpanExporter).
//!
//! Reading the clock and dividing in floating point are left to the caller,
//! who hands in the readings and the texts.

pub mod metrics;
pub mod quantiles;
pub mod report_laws;
pub mod tracing;

pub use metrics::{Counter, EngineMetrics, Gauge, Histogram, Timer};
pub use tracing::{Span, SpanExporter, SpanRecord, Tracer};
