use infralens::common::model::{get_attr, AnyValue, MetricType};
use infralens::ingest::error::IngestError;
use infralens::ingest::handler::{
    grpc_refusal, read_logs, read_metrics, read_spans, reply_to_submit, request_encoding,
    submit_outcome, unsupported_reply, Encoding, GrpcCode, Offer,
};
use infralens::ingest::hex::{hex_to_16, hex_to_8};
use infralens::ingest::normalizer::{
    convert_any_value, normalise_logs, normalise_metrics, normalise_spans,
};
use infralens::ingest::otlp::{
    HistogramPoint, MetricData, NumberPoint, NumberValue, OtlpAnyValue, OtlpEvent, OtlpHistogram,
    OtlpKeyValue, OtlpLink, OtlpLog, OtlpMetric, OtlpResource, OtlpScope, OtlpSpan, OtlpStatus,
    OtlpSum, OtlpValue, ResourceLogs, ResourceMetrics, ResourceSpans, ScopeLogs, ScopeMetrics,
    ScopeSpans,
};

fn text(s: &str) -> OtlpAnyValue {
    OtlpAnyValue { value: Some(OtlpValue::StringValue(s.to_string())) }
}

fn pair(key: &str, value: OtlpAnyValue) -> OtlpKeyValue {
    OtlpKeyValue { key: key.to_string(), value: Some(value) }
}

fn make_log(ts: u64, body: &str) -> OtlpLog {
    OtlpLog {
        time_unix_nano: ts,
        observed_time_unix_nano: ts,
        severity_number: 9,
        severity_text: "INFO".to_string(),
        body: Some(text(body)),
        attributes: vec![pair("env", text("prod"))],
        trace_id: Vec::new(),
        span_id: Vec::new(),
    }
}

fn make_span() -> OtlpSpan {
    OtlpSpan {
        trace_id: vec![1u8; 16],
        span_id: vec![2u8; 8],
        parent_span_id: Vec::new(),
        name: "my-span".to_string(),
        kind: 0,
        start_time_unix_nano: 1_000_000_000,
        end_time_unix_nano: 1_500_000_000,
        attributes: Vec::new(),
        events: Vec::new(),
        links: Vec::new(),
        status: None,
    }
}

fn in_resource(spans: Vec<OtlpSpan>) -> Vec<ResourceSpans> {
    vec![ResourceSpans {
        resource: None,
        scope_spans: vec![ScopeSpans { scope: None, spans, schema_url: String::new() }],
        schema_url: String::new(),
    }]
}

#[test]
fn log_normalisation_preserves_fields() {
    let resource_logs = vec![ResourceLogs {
        resource: None,
        scope_logs: vec![ScopeLogs {
            scope: None,
            log_records: vec![make_log(1_000_000, "test message")],
            schema_url: "https://example.com/schema".to_string(),
        }],
        schema_url: String::new(),
    }];

    let records = normalise_logs(&resource_logs);
    assert_eq!(records.len(), 1);
    let rec = &records[0];
    assert_eq!(rec.timestamp_ns, 1_000_000);
    assert_eq!(rec.severity_number, 9);
    assert!(matches!(&rec.body, Some(AnyValue::String(s)) if s == "test message"));
    assert!(get_attr(&rec.attributes, "env").is_some());
    assert_eq!(rec.schema_url, "https://example.com/schema");
}

#[test]
fn span_normalisation_computes_duration() {
    let spans = normalise_spans(&in_resource(vec![make_span()]));
    assert_eq!(spans.len(), 1);
    assert_eq!(spans[0].duration_ns, 500_000_000);
    assert_eq!(spans[0].name, "my-span");
}

#[test]
fn spans_without_identity_are_dropped() {
    let mut a = make_span();
    a.trace_id = vec![1u8; 15];
    let mut b = make_span();
    b.span_id = Vec::new();
    let mut c = make_span();
    c.end_time_unix_nano = 5;
    c.parent_span_id = vec![3u8; 8];
    c.status = Some(OtlpStatus { message: "bad".to_string(), code: 2 });
    c.events = vec![OtlpEvent {
        time_unix_nano: 7,
        name: "e".to_string(),
        attributes: vec![pair("k", text("v"))],
    }];
    c.links = vec![
        OtlpLink {
            trace_id: vec![4u8; 16],
            span_id: vec![5u8; 8],
            trace_state: "ts".to_string(),
            attributes: Vec::new(),
        },
        OtlpLink {
            trace_id: Vec::new(),
            span_id: vec![5u8; 8],
            trace_state: String::new(),
            attributes: Vec::new(),
        },
    ];
    let spans = normalise_spans(&in_resource(vec![a, b, c]));
    assert_eq!(spans.len(), 1);
    assert_eq!(spans[0].duration_ns, 0);
    assert_eq!(spans[0].parent_span_id, Some([3u8; 8]));
    assert_eq!(spans[0].status_code, 2);
    assert_eq!(spans[0].status_message, "bad");
    assert_eq!(spans[0].events.len(), 1);
    assert_eq!(spans[0].links.len(), 1);
    assert_eq!(spans[0].links[0].trace_id, [4u8; 16]);
}

#[test]
fn attribute_values_convert() {
    let inner = OtlpKeyValue { key: "none".to_string(), value: None };
    let v = OtlpAnyValue {
        value: Some(OtlpValue::KvlistValue(vec![
            inner,
            pair("i", OtlpAnyValue { value: Some(OtlpValue::IntValue(-1)) }),
            pair("i", OtlpAnyValue { value: Some(OtlpValue::BoolValue(true)) }),
        ])),
    };
    match convert_any_value(&v) {
        AnyValue::KeyValues(m) => {
            assert_eq!(m.len(), 2);
            assert!(matches!(get_attr(&m, "none"), Some(AnyValue::String(s)) if s.is_empty()));
            assert!(matches!(get_attr(&m, "i"), Some(AnyValue::Bool(true))));
        }
        _ => panic!("expected a map"),
    }
    let list = OtlpAnyValue {
        value: Some(OtlpValue::ArrayValue(vec![
            OtlpAnyValue { value: None },
            OtlpAnyValue { value: Some(OtlpValue::DoubleValue(2.5f64.to_bits())) },
            OtlpAnyValue { value: Some(OtlpValue::BytesValue(vec![1, 2])) },
        ])),
    };
    match convert_any_value(&list) {
        AnyValue::Array(a) => {
            assert!(matches!(&a[0], AnyValue::String(s) if s.is_empty()));
            assert!(matches!(&a[1], AnyValue::Double(b) if f64::from_bits(*b) == 2.5));
            assert!(matches!(&a[2], AnyValue::Bytes(b) if b == &vec![1, 2]));
        }
        _ => panic!("expected a list"),
    }
}

fn point(value: NumberValue) -> NumberPoint {
    NumberPoint {
        attributes: vec![OtlpKeyValue { key: "dropped".to_string(), value: None }],
        start_time_unix_nano: 1,
        time_unix_nano: 2,
        value: Some(value),
    }
}

fn metric(name: &str, data: Option<MetricData>) -> OtlpMetric {
    OtlpMetric { name: name.to_string(), description: String::new(), unit: "1".to_string(), data }
}

#[test]
fn metrics_normalise_by_kind() {
    let histogram = HistogramPoint {
        attributes: Vec::new(),
        start_time_unix_nano: 1,
        time_unix_nano: 3,
        count: 2,
        sum: Some(5.0f64.to_bits()),
        min: None,
        max: None,
        bucket_counts: vec![1, 1],
        explicit_bounds: vec![1.0f64.to_bits()],
    };
    let message = vec![ResourceMetrics {
        resource: Some(OtlpResource { attributes: vec![pair("service.name", text("api"))] }),
        scope_metrics: vec![ScopeMetrics {
            scope: Some(OtlpScope {
                name: "lib".to_string(),
                version: "1".to_string(),
                attributes: Vec::new(),
            }),
            metrics: vec![
                metric("g", Some(MetricData::Gauge(vec![point(NumberValue::AsInt(4))]))),
                metric(
                    "s",
                    Some(MetricData::Sum(OtlpSum {
                        data_points: vec![point(NumberValue::AsDouble(0.5f64.to_bits()))],
                        aggregation_temporality: 2,
                        is_monotonic: true,
                    })),
                ),
                metric(
                    "h",
                    Some(MetricData::Histogram(OtlpHistogram {
                        data_points: vec![histogram],
                        aggregation_temporality: 1,
                    })),
                ),
                metric("x", Some(MetricData::ExponentialHistogram)),
                metric("y", Some(MetricData::Summary)),
                metric("z", None),
            ],
            schema_url: "u".to_string(),
        }],
        schema_url: String::new(),
    }];
    let out = normalise_metrics(&message);
    assert_eq!(out.len(), 3);
    assert!(matches!(out[0].metric_type, MetricType::Gauge));
    assert_eq!(out[0].value_int, Some(4));
    assert_eq!(out[0].value_double, None);
    assert!(out[0].attributes.is_empty());
    assert!(matches!(
        out[1].metric_type,
        MetricType::Sum { is_monotonic: true, temporality: 2 }
    ));
    assert_eq!(out[1].value_double.map(f64::from_bits), Some(0.5));
    assert!(matches!(out[2].metric_type, MetricType::Histogram { temporality: 1 }));
    assert_eq!(out[2].histogram.as_ref().unwrap().count, 2);
    assert_eq!(out[2].scope.name, "lib");
    assert!(get_attr(&out[2].resource_attributes, "service.name").is_some());
}

// ── Hexadecimal identifiers ─────────────────────────────────────────────────

#[test]
fn hex_identifiers() {
    assert_eq!(hex_to_8("0102030405060708"), Some([1, 2, 3, 4, 5, 6, 7, 8]));
    assert_eq!(hex_to_8("  fFfFfFfFfFfFfFfF\n"), Some([255; 8]));
    assert_eq!(hex_to_8("010203040506070"), None);
    assert_eq!(hex_to_8("010203040506070g"), None);
    assert_eq!(hex_to_8("+1+2+3+4+5+6+7+8"), Some([1, 2, 3, 4, 5, 6, 7, 8]));
    let id = "000102030405060708090a0b0c0d0e0f";
    assert_eq!(hex_to_16(id), Some([0, 1, 2, 3, 4, 5, 6, 7, 8, 9, 10, 11, 12, 13, 14, 15]));
    assert_eq!(hex_to_16(""), None);
}

// ── JSON ────────────────────────────────────────────────────────────────────

fn no_message<T>() -> Result<Vec<T>, String> {
    Err("not protobuf".to_string())
}

#[test]
fn json_logs() {
    let body = br#"{"resourceLogs":[{"resource":{"attributes":[{"key":"service.name","value":{"stringValue":"api"}}]},
        "scopeLogs":[{"scope":{"name":"lib"},"schemaUrl":"u","logRecords":[
            {"timeUnixNano":"12","severityNumber":9,"severityText":"INFO",
             "traceId":"000102030405060708090a0b0c0d0e0f","spanId":"0102030405060708",
             "body":{"stringValue":"hi"},
             "attributes":[{"key":"n","value":{"intValue":"7"}},{"key":"d","value":{"doubleValue":1.5}},
                           {"key":"b","value":{"boolValue":true}},{"value":{}},
                           {"key":"a","value":{"arrayValue":{"values":[{"intValue":1}]}}}]},
            {"timeUnixNano":5,"observedTimeUnixNano":6}
        ]}]}]}"#;
    let logs = read_logs(Encoding::Json, body, no_message()).unwrap();
    assert_eq!(logs.len(), 2);
    assert_eq!(logs[0].timestamp_ns, 12);
    assert_eq!(logs[0].observed_timestamp_ns, 12);
    assert_eq!(logs[0].span_id, Some([1, 2, 3, 4, 5, 6, 7, 8]));
    assert!(matches!(&logs[0].body, Some(AnyValue::String(s)) if s == "hi"));
    assert_eq!(logs[0].attributes.len(), 4);
    assert!(matches!(get_attr(&logs[0].attributes, "n"), Some(AnyValue::Int(7))));
    assert!(
        matches!(get_attr(&logs[0].attributes, "d"), Some(AnyValue::Double(b)) if f64::from_bits(*b) == 1.5)
    );
    assert!(matches!(get_attr(&logs[0].attributes, "a"), Some(AnyValue::Array(a)) if a.len() == 1));
    assert_eq!(logs[0].scope.name, "lib");
    assert_eq!(logs[0].schema_url, "u");
    assert!(get_attr(&logs[0].resource_attributes, "service.name").is_some());
    assert_eq!(logs[1].timestamp_ns, 5);
    assert_eq!(logs[1].observed_timestamp_ns, 6);
    assert!(logs[1].body.is_none());
}

#[test]
fn json_metrics() {
    let body = br#"{"resourceMetrics":[{"scopeMetrics":[{"metrics":[
        {"name":"g","gauge":{"dataPoints":[{"timeUnixNano":"3","asDouble":2}]}},
        {"name":"s","sum":{"isMonotonic":true,"aggregationTemporality":2,"dataPoints":[{"asInt":4},{"asInt":"5"}]}},
        {"name":"h","histogram":{"dataPoints":[{}]}}]}]}]}"#;
    let out = read_metrics(Encoding::Json, body, no_message()).unwrap();
    assert_eq!(out.len(), 3);
    assert_eq!(out[0].value_double.map(f64::from_bits), Some(2.0));
    assert_eq!(out[0].timestamp_ns, 3);
    assert_eq!(out[1].value_int, Some(4));
    assert!(matches!(
        out[1].metric_type,
        MetricType::Sum { is_monotonic: true, temporality: 2 }
    ));
    assert_eq!(out[2].value_int, None);
}

#[test]
fn json_spans() {
    let body = br#"{"resourceSpans":[{"scopeSpans":[{"spans":[
        {"traceId":"000102030405060708090a0b0c0d0e0f","spanId":"0102030405060708","name":"op","kind":2,
         "startTimeUnixNano":"10","endTimeUnixNano":"25","status":{"code":1,"message":"ok"},
         "events":[{"timeUnixNano":"11","name":"e"}],
         "links":[{"traceId":"x","spanId":"y"},
                  {"traceId":"000102030405060708090a0b0c0d0e0f","spanId":"0102030405060708","traceState":"t"}]},
        {"traceId":"zz","spanId":"0102030405060708"}]}]}]}"#;
    let spans = read_spans(Encoding::Json, body, no_message()).unwrap();
    assert_eq!(spans.len(), 1);
    assert_eq!(spans[0].duration_ns, 15);
    assert_eq!(spans[0].kind, 2);
    assert_eq!(spans[0].status_code, 1);
    assert_eq!(spans[0].status_message, "ok");
    assert_eq!(spans[0].events[0].timestamp_ns, 11);
    assert_eq!(spans[0].links.len(), 1);
    assert_eq!(spans[0].links[0].trace_state, "t");
}

#[test]
fn json_that_is_none() {
    let message = read_logs(Encoding::Json, b"{", no_message()).unwrap_err();
    let want = serde_json::from_slice::<serde_json::Value>(b"{").unwrap_err().to_string();
    assert_eq!((message.status, message.body), (400, want));
    assert!(read_logs(Encoding::Json, b"[1,2]", no_message()).unwrap().is_empty());
    assert!(read_spans(Encoding::Json, b"{}", no_message()).unwrap().is_empty());
}

#[test]
fn protobuf_messages() {
    let logs = vec![ResourceLogs {
        resource: None,
        scope_logs: vec![ScopeLogs {
            scope: None,
            log_records: vec![make_log(1, "a"), make_log(2, "b")],
            schema_url: String::new(),
        }],
        schema_url: String::new(),
    }];
    assert_eq!(read_logs(Encoding::Protobuf, b"", Ok(logs)).unwrap().len(), 2);
    let bad = read_spans(Encoding::Protobuf, b"", no_message()).unwrap_err();
    assert_eq!((bad.status, bad.body.as_str()), (400, "not protobuf"));
}

// ── Answers ─────────────────────────────────────────────────────────────────

#[test]
fn content_types() {
    assert_eq!(request_encoding("application/json; charset=utf-8"), Some(Encoding::Json));
    assert_eq!(request_encoding("application/x-protobuf"), Some(Encoding::Protobuf));
    assert_eq!(request_encoding("text/plain"), None);
    assert_eq!(request_encoding(""), None);
    let r = unsupported_reply();
    assert_eq!(r.status, 415);
    assert_eq!(r.body, "Content-Type must be application/json or application/x-protobuf");
}

#[test]
fn answers_to_submissions() {
    let ok = reply_to_submit(Ok(()), Encoding::Json);
    assert_eq!((ok.status, ok.content_type), (200, Some("application/json")));
    assert_eq!(ok.body, "{\"partialSuccess\":{}}");
    let proto = reply_to_submit(Ok(()), Encoding::Protobuf);
    assert_eq!((proto.status, proto.content_type), (200, Some("application/x-protobuf")));
    assert_eq!(proto.body, "");
    let full = reply_to_submit(Err(IngestError::BufferFull), Encoding::Json);
    assert_eq!(full.status, 429);
    assert_eq!(full.body, "back-pressure: ingest buffer full");
    let failed = reply_to_submit(Err(IngestError::Storage("x".to_string())), Encoding::Json);
    assert_eq!(failed.status, 500);
    assert_eq!(failed.body, "storage error: x");
}

#[test]
fn only_full_buffers_are_retriable() {
    assert!(IngestError::BufferFull.is_retriable());
    assert!(!IngestError::Storage("x".to_string()).is_retriable());
    let n = IngestError::Normalisation("y".to_string());
    assert!(!n.is_retriable());
    assert_eq!(n.message(), "normalisation error: y");
    assert!(matches!(grpc_refusal(&IngestError::BufferFull).0, GrpcCode::ResourceExhausted));
    assert!(matches!(grpc_refusal(&n).0, GrpcCode::Internal));
    assert_eq!(grpc_refusal(&n).1, "normalisation error: y");
    assert!(submit_outcome(Offer::Taken).is_ok());
    assert!(matches!(submit_outcome(Offer::Full), Err(IngestError::BufferFull)));
    assert!(matches!(submit_outcome(Offer::Closed), Err(IngestError::BufferFull)));
}
