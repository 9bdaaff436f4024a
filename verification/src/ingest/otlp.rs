//! OTLP messages as plain values.
//!
//! These types hold what the protobuf messages of OTLP hold. A floating-point number is
//! held as the bits of its IEEE 754 representation.

use vstd::prelude::*;

verus! {

/// A value of any kind; a message may leave the kind out.
#[derive(Debug)]
pub struct OtlpAnyValue {
    pub value: Option<OtlpValue>,
}

#[derive(Debug)]
pub enum OtlpValue {
    StringValue(String),
    BoolValue(bool),
    IntValue(i64),
    DoubleValue(u64),
    BytesValue(Vec<u8>),
    ArrayValue(Vec<OtlpAnyValue>),
    KvlistValue(Vec<OtlpKeyValue>),
}

#[derive(Debug)]
pub struct OtlpKeyValue {
    pub key: String,
    pub value: Option<OtlpAnyValue>,
}

#[derive(Debug)]
pub struct OtlpScope {
    pub name: String,
    pub version: String,
    pub attributes: Vec<OtlpKeyValue>,
}

#[derive(Debug)]
pub struct OtlpResource {
    pub attributes: Vec<OtlpKeyValue>,
}

// ── Logs ────────────────────────────────────────────────────────────────────

#[derive(Debug)]
pub struct OtlpLog {
    pub time_unix_nano: u64,
    pub observed_time_unix_nano: u64,
    pub severity_number: i32,
    pub severity_text: String,
    pub body: Option<OtlpAnyValue>,
    pub attributes: Vec<OtlpKeyValue>,
    pub trace_id: Vec<u8>,
    pub span_id: Vec<u8>,
}

#[derive(Debug)]
pub struct ScopeLogs {
    pub scope: Option<OtlpScope>,
    pub log_records: Vec<OtlpLog>,
    pub schema_url: String,
}

#[derive(Debug)]
pub struct ResourceLogs {
    pub resource: Option<OtlpResource>,
    pub scope_logs: Vec<ScopeLogs>,
    pub schema_url: String,
}

// ── Metrics ─────────────────────────────────────────────────────────────────

#[derive(Debug, Clone, Copy, PartialEq, Eq, Structural)]
pub enum NumberValue {
    AsDouble(u64),
    AsInt(i64),
}

#[derive(Debug)]
pub struct NumberPoint {
    pub attributes: Vec<OtlpKeyValue>,
    pub start_time_unix_nano: u64,
    pub time_unix_nano: u64,
    pub value: Option<NumberValue>,
}

#[derive(Debug)]
pub struct HistogramPoint {
    pub attributes: Vec<OtlpKeyValue>,
    pub start_time_unix_nano: u64,
    pub time_unix_nano: u64,
    pub count: u64,
    pub sum: Option<u64>,
    pub min: Option<u64>,
    pub max: Option<u64>,
    pub bucket_counts: Vec<u64>,
    pub explicit_bounds: Vec<u64>,
}

#[derive(Debug)]
pub struct OtlpSum {
    pub data_points: Vec<NumberPoint>,
    pub aggregation_temporality: i32,
    pub is_monotonic: bool,
}

#[derive(Debug)]
pub struct OtlpHistogram {
    pub data_points: Vec<HistogramPoint>,
    pub aggregation_temporality: i32,
}

/// The data of a metric. Exponential histograms and summaries are known, and their points
/// are not read.
#[derive(Debug)]
pub enum MetricData {
    Gauge(Vec<NumberPoint>),
    Sum(OtlpSum),
    Histogram(OtlpHistogram),
    ExponentialHistogram,
    Summary,
}

#[derive(Debug)]
pub struct OtlpMetric {
    pub name: String,
    pub description: String,
    pub unit: String,
    pub data: Option<MetricData>,
}

#[derive(Debug)]
pub struct ScopeMetrics {
    pub scope: Option<OtlpScope>,
    pub metrics: Vec<OtlpMetric>,
    pub schema_url: String,
}

#[derive(Debug)]
pub struct ResourceMetrics {
    pub resource: Option<OtlpResource>,
    pub scope_metrics: Vec<ScopeMetrics>,
    pub schema_url: String,
}

// ── Spans ───────────────────────────────────────────────────────────────────

#[derive(Debug)]
pub struct OtlpEvent {
    pub time_unix_nano: u64,
    pub name: String,
    pub attributes: Vec<OtlpKeyValue>,
}

#[derive(Debug)]
pub struct OtlpLink {
    pub trace_id: Vec<u8>,
    pub span_id: Vec<u8>,
    pub trace_state: String,
    pub attributes: Vec<OtlpKeyValue>,
}

#[derive(Debug)]
pub struct OtlpStatus {
    pub message: String,
    pub code: i32,
}

#[derive(Debug)]
pub struct OtlpSpan {
    pub trace_id: Vec<u8>,
    pub span_id: Vec<u8>,
    pub parent_span_id: Vec<u8>,
    pub name: String,
    pub kind: i32,
    pub start_time_unix_nano: u64,
    pub end_time_unix_nano: u64,
    pub attributes: Vec<OtlpKeyValue>,
    pub events: Vec<OtlpEvent>,
    pub links: Vec<OtlpLink>,
    pub status: Option<OtlpStatus>,
}

#[derive(Debug)]
pub struct ScopeSpans {
    pub scope: Option<OtlpScope>,
    pub spans: Vec<OtlpSpan>,
    pub schema_url: String,
}

#[derive(Debug)]
pub struct ResourceSpans {
    pub resource: Option<OtlpResource>,
    pub scope_spans: Vec<ScopeSpans>,
    pub schema_url: String,
}

} // verus!
