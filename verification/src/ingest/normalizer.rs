//! Normalisation: from OTLP messages to the data model.

use crate::common::model::{
    any_view_parts, attrs_view, collect_attrs, distinct_keys, duplicate_attrs, empty_scope,
    events_view, links_view, put_attr, values_view, AnyModel, AnyValue, EventModel, HistogramData,
    HistogramModel, InstrumentationScope, LinkModel, LogModel, LogRecord, MetricModel, MetricPoint,
    MetricType, ScopeModel, SpanEvent, SpanLink, SpanModel, SpanRecord,
};
use crate::ingest::hex::{array16, array8};
use crate::common::model::{logs_views, metrics_views, spans_views};
use crate::ingest::json_decoder::{duration, Attrs};
use crate::ingest::otlp::{
    HistogramPoint, MetricData, NumberPoint, NumberValue, OtlpAnyValue, OtlpEvent, OtlpKeyValue,
    OtlpLink, OtlpLog, OtlpMetric, OtlpResource, OtlpScope, OtlpSpan, OtlpValue, ResourceLogs,
    ResourceMetrics, ResourceSpans, ScopeLogs, ScopeMetrics, ScopeSpans,
};
use vstd::prelude::*;

verus! {

// ── Values ──────────────────────────────────────────────────────────────────

/// The attribute value that a message holds; the empty text if it holds none.
pub open spec fn value_of(v: OtlpAnyValue) -> AnyModel
    decreases v, 0nat,
{
    match v.value {
        Some(OtlpValue::StringValue(s)) => AnyModel::String(s@),
        Some(OtlpValue::BoolValue(b)) => AnyModel::Bool(b),
        Some(OtlpValue::IntValue(i)) => AnyModel::Int(i),
        Some(OtlpValue::DoubleValue(d)) => AnyModel::Double(d),
        Some(OtlpValue::BytesValue(b)) => AnyModel::Bytes(b@),
        Some(OtlpValue::ArrayValue(a)) => AnyModel::Array(value_list(a, a@.len())),
        Some(OtlpValue::KvlistValue(kv)) => AnyModel::KeyValues(
            collect_attrs(kv_list(kv, kv@.len())),
        ),
        None => AnyModel::String(Seq::empty()),
    }
}

/// The values of the first `n` items of an array.
pub open spec fn value_list(a: Vec<OtlpAnyValue>, n: nat) -> Seq<AnyModel>
    decreases a, n,
{
    if n == 0 || n > a@.len() {
        Seq::empty()
    } else {
        value_list(a, (n - 1) as nat).push(value_of(a@[n - 1]))
    }
}

/// The first `n` pairs of a list of keys and values. A missing value is the empty text.
pub open spec fn kv_list(kv: Vec<OtlpKeyValue>, n: nat) -> Attrs
    decreases kv, n,
{
    if n == 0 || n > kv@.len() {
        Seq::empty()
    } else {
        kv_list(kv, (n - 1) as nat).push(
            (
                kv@[n - 1].key@,
                match kv@[n - 1].value {
                    Some(v) => value_of(v),
                    None => AnyModel::String(Seq::empty()),
                },
            ),
        )
    }
}

fn empty_text() -> (v: AnyValue)
    ensures
        v@ == AnyModel::String(Seq::empty()),
{
    let none = String::new();
    assert(none@ =~= Seq::empty());
    AnyValue::String(none)
}

/// The attribute value that a message holds.
pub fn convert_any_value(v: &OtlpAnyValue) -> (out: AnyValue)
    ensures
        out@ == value_of(*v),
    decreases v,
{
    match &v.value {
        Some(OtlpValue::StringValue(s)) => AnyValue::String(s.clone()),
        Some(OtlpValue::BoolValue(b)) => AnyValue::Bool(*b),
        Some(OtlpValue::IntValue(i)) => AnyValue::Int(*i),
        Some(OtlpValue::DoubleValue(d)) => AnyValue::Double(*d),
        Some(OtlpValue::BytesValue(b)) => {
            let copy = crate::bytes::copy_range(b.as_slice(), 0, b.len());
            assert(copy@ =~= b@);
            AnyValue::Bytes(copy)
        },
        Some(OtlpValue::ArrayValue(a)) => {
            let mut list: Vec<AnyValue> = Vec::new();
            assert(values_view(list@) =~= Seq::empty());
            for i in 0..a.len()
                invariant
                    v.value matches Some(OtlpValue::ArrayValue(x)) && a == &x,
                    values_view(list@) == value_list(*a, i as nat),
            {
                let ghost before = values_view(list@);
                let x = convert_any_value(&a[i]);
                let ghost m = x@;
                list.push(x);
                assert(values_view(list@) =~= before.push(m));
            }
            let out = AnyValue::Array(list);
            proof {
                any_view_parts(out);
            }
            out
        },
        Some(OtlpValue::KvlistValue(kv)) => {
            let mut list: Vec<(String, AnyValue)> = Vec::new();
            assert(attrs_view(list@) =~= Seq::empty());
            for i in 0..kv.len()
                invariant
                    v.value matches Some(OtlpValue::KvlistValue(x)) && kv == &x,
                    attrs_view(list@) == collect_attrs(kv_list(*kv, i as nat)),
                    distinct_keys(attrs_view(list@)),
            {
                let x = match &kv[i].value {
                    Some(w) => convert_any_value(w),
                    None => empty_text(),
                };
                let ghost front = kv_list(*kv, i as nat);
                assert(front.push((kv@[i as int].key@, x@)).drop_last() =~= front);
                put_attr(&mut list, kv[i].key.clone(), x);
            }
            let out = AnyValue::KeyValues(list);
            proof {
                any_view_parts(out);
            }
            out
        },
        None => empty_text(),
    }
}

/// The pairs of the first `n` attributes that have a value.
pub open spec fn attr_pairs(kv: Seq<OtlpKeyValue>, n: nat) -> Attrs
    decreases n,
{
    if n == 0 {
        Seq::empty()
    } else {
        match kv[n - 1].value {
            Some(v) => attr_pairs(kv, (n - 1) as nat).push((kv[n - 1].key@, value_of(v))),
            None => attr_pairs(kv, (n - 1) as nat),
        }
    }
}

/// The attributes of a message: those that have a value, the last of each name.
pub open spec fn attributes_of(kv: Seq<OtlpKeyValue>) -> Attrs {
    collect_attrs(attr_pairs(kv, kv.len()))
}

fn convert_attrs(kv: &Vec<OtlpKeyValue>) -> (out: Vec<(String, AnyValue)>)
    ensures
        attrs_view(out@) == attributes_of(kv@),
        distinct_keys(attrs_view(out@)),
{
    let mut out: Vec<(String, AnyValue)> = Vec::new();
    assert(attrs_view(out@) =~= Seq::empty());
    for i in 0..kv.len()
        invariant
            attrs_view(out@) == collect_attrs(attr_pairs(kv@, i as nat)),
            distinct_keys(attrs_view(out@)),
    {
        match &kv[i].value {
            Some(v) => {
                let x = convert_any_value(v);
                let ghost front = attr_pairs(kv@, i as nat);
                assert(front.push((kv@[i as int].key@, x@)).drop_last() =~= front);
                put_attr(&mut out, kv[i].key.clone(), x);
            },
            None => {},
        }
    }
    out
}

/// The scope of a message; the empty one if there is none.
pub open spec fn message_scope(scope: Option<OtlpScope>) -> ScopeModel {
    match scope {
        Some(s) => ScopeModel {
            name: s.name@,
            version: s.version@,
            attributes: attributes_of(s.attributes@),
        },
        None => empty_scope(),
    }
}

fn convert_scope(scope: &Option<OtlpScope>) -> (out: InstrumentationScope)
    ensures
        out@ == message_scope(*scope),
{
    match scope {
        Some(s) => InstrumentationScope {
            name: s.name.clone(),
            version: s.version.clone(),
            attributes: convert_attrs(&s.attributes),
        },
        None => InstrumentationScope::default(),
    }
}

/// The attributes of a resource, none if there is no resource.
pub open spec fn message_resource(resource: Option<OtlpResource>) -> Attrs {
    match resource {
        Some(r) => attributes_of(r.attributes@),
        None => Seq::empty(),
    }
}

fn convert_resource(resource: &Option<OtlpResource>) -> (out: Vec<(String, AnyValue)>)
    ensures
        attrs_view(out@) == message_resource(*resource),
{
    match resource {
        Some(r) => convert_attrs(&r.attributes),
        None => {
            let none: Vec<(String, AnyValue)> = Vec::new();
            assert(attrs_view(none@) =~= Seq::empty());
            none
        },
    }
}

/// An identifier of `n` bytes; none if there are more or fewer.
pub open spec fn exact_id(b: Seq<u8>, n: nat) -> Option<Seq<u8>> {
    if b.len() == n {
        Some(b)
    } else {
        None
    }
}

// ── Logs ────────────────────────────────────────────────────────────────────

/// The log record that a message holds.
pub open spec fn log_of(p: OtlpLog, resource: Attrs, scope: ScopeModel, url: Seq<char>) -> LogModel {
    LogModel {
        timestamp_ns: p.time_unix_nano,
        observed_timestamp_ns: p.observed_time_unix_nano,
        trace_id: exact_id(p.trace_id@, 16),
        span_id: exact_id(p.span_id@, 8),
        severity_number: p.severity_number,
        severity_text: p.severity_text@,
        body: match p.body {
            Some(b) => Some(value_of(b)),
            None => None,
        },
        attributes: attributes_of(p.attributes@),
        resource_attributes: resource,
        scope,
        schema_url: url,
    }
}

/// The log record of a message, in a list.
pub open spec fn logs_of(p: OtlpLog, resource: Attrs, scope: ScopeModel, url: Seq<char>) -> Seq<LogModel> {
    seq![log_of(p, resource, scope, url)]
}

fn add_logs(
    p: &OtlpLog,
    resource: &Vec<(String, AnyValue)>,
    scope: &InstrumentationScope,
    url: &str,
    out: &mut Vec<LogRecord>,
)
    ensures
        logs_views(final(out)@) == logs_views(old(out)@) + logs_of(
            *p,
            attrs_view(resource@),
            scope@,
            url@,
        ),
{
    let ghost start = logs_views(out@);
    let r = LogRecord {
        timestamp_ns: p.time_unix_nano,
        observed_timestamp_ns: p.observed_time_unix_nano,
        trace_id: array16(p.trace_id.as_slice()),
        span_id: array8(p.span_id.as_slice()),
        severity_number: p.severity_number,
        severity_text: p.severity_text.clone(),
        body: match &p.body {
            Some(b) => Some(convert_any_value(b)),
            None => None,
        },
        attributes: convert_attrs(&p.attributes),
        resource_attributes: duplicate_attrs(resource),
        scope: scope.duplicate(),
        schema_url: url.to_string(),
    };
    let ghost m = r@;
    assert(m == log_of(*p, attrs_view(resource@), scope@, url@));
    out.push(r);
    assert(logs_views(out@) =~= start + seq![m]);
}

/// The log records of the first `n` records of a scope.
pub open spec fn logs_in(a: Seq<OtlpLog>, n: nat, resource: Attrs, scope: ScopeModel, url: Seq<char>) -> Seq<LogModel>
    decreases n,
{
    if n == 0 {
        Seq::empty()
    } else {
        logs_in(a, (n - 1) as nat, resource, scope, url) + logs_of(a[n - 1], resource, scope, url)
    }
}

/// The log records of the first `n` scopes of a resource.
pub open spec fn logs_in_scopes(a: Seq<ScopeLogs>, n: nat, resource: Attrs) -> Seq<LogModel>
    decreases n,
{
    if n == 0 {
        Seq::empty()
    } else {
        let s = a[n - 1];
        logs_in_scopes(a, (n - 1) as nat, resource) + logs_in(
            s.log_records@,
            s.log_records@.len(),
            resource,
            message_scope(s.scope),
            s.schema_url@,
        )
    }
}

/// The log records of the first `n` resources.
pub open spec fn logs_in_resources(a: Seq<ResourceLogs>, n: nat) -> Seq<LogModel>
    decreases n,
{
    if n == 0 {
        Seq::empty()
    } else {
        let r = a[n - 1];
        logs_in_resources(a, (n - 1) as nat) + logs_in_scopes(
            r.scope_logs@,
            r.scope_logs@.len(),
            message_resource(r.resource),
        )
    }
}

/// The log records of a message.
pub fn normalise_logs(message: &Vec<ResourceLogs>) -> (out: Vec<LogRecord>)
    ensures
        logs_views(out@) == logs_in_resources(message@, message@.len()),
{
    let mut out: Vec<LogRecord> = Vec::new();
    assert(logs_views(out@) =~= Seq::empty());
    for i in 0..message.len()
        invariant
            logs_views(out@) == logs_in_resources(message@, i as nat),
    {
        let r = &message[i];
        let resource = convert_resource(&r.resource);
        let ghost done = logs_views(out@);
        assert(done + Seq::empty() =~= done);
        for j in 0..r.scope_logs.len()
            invariant
                attrs_view(resource@) == message_resource(r.resource),
                logs_views(out@) == done + logs_in_scopes(
                    r.scope_logs@,
                    j as nat,
                    attrs_view(resource@),
                ),
        {
            let s = &r.scope_logs[j];
            let scope = convert_scope(&s.scope);
            let ghost front = logs_in_scopes(r.scope_logs@, j as nat, attrs_view(resource@));
            let ghost start = logs_views(out@);
            assert(start + Seq::empty() =~= start);
            for k in 0..s.log_records.len()
                invariant
                    scope@ == message_scope(s.scope),
                    logs_views(out@) == start + logs_in(
                        s.log_records@,
                        k as nat,
                        attrs_view(resource@),
                        scope@,
                        s.schema_url@,
                    ),
            {
                let ghost before = logs_in(
                    s.log_records@,
                    k as nat,
                    attrs_view(resource@),
                    scope@,
                    s.schema_url@,
                );
                add_logs(&s.log_records[k], &resource, &scope, s.schema_url.as_str(), &mut out);
                assert(logs_views(out@) =~= start + (before + logs_of(
                    s.log_records@[k as int],
                    attrs_view(resource@),
                    scope@,
                    s.schema_url@,
                )));
            }
            assert(logs_views(out@) =~= done + (front + logs_in(
                s.log_records@,
                s.log_records@.len(),
                attrs_view(resource@),
                scope@,
                s.schema_url@,
            )));
        }
    }
    out
}

// ── Metrics ─────────────────────────────────────────────────────────────────

/// The point that a metric gives with everything but its own values.
pub open spec fn bare_point(
    m: OtlpMetric,
    time: u64,
    start: u64,
    attributes: Seq<OtlpKeyValue>,
    metric_type: MetricType,
    resource: Attrs,
    scope: ScopeModel,
    url: Seq<char>,
) -> MetricModel {
    MetricModel {
        timestamp_ns: time,
        start_timestamp_ns: start,
        name: m.name@,
        description: m.description@,
        unit: m.unit@,
        metric_type,
        value_double: None,
        value_int: None,
        histogram: None,
        attributes: attributes_of(attributes),
        resource_attributes: resource,
        scope,
        schema_url: url,
    }
}

/// The point of a gauge or of a sum.
pub open spec fn number_point(
    dp: NumberPoint,
    m: OtlpMetric,
    metric_type: MetricType,
    resource: Attrs,
    scope: ScopeModel,
    url: Seq<char>,
) -> MetricModel {
    MetricModel {
        value_double: match dp.value {
            Some(NumberValue::AsDouble(d)) => Some(d),
            _ => None,
        },
        value_int: match dp.value {
            Some(NumberValue::AsInt(i)) => Some(i),
            _ => None,
        },
        ..bare_point(
            m,
            dp.time_unix_nano,
            dp.start_time_unix_nano,
            dp.attributes@,
            metric_type,
            resource,
            scope,
            url,
        )
    }
}

/// The point of a histogram.
pub open spec fn histogram_point(
    dp: HistogramPoint,
    m: OtlpMetric,
    metric_type: MetricType,
    resource: Attrs,
    scope: ScopeModel,
    url: Seq<char>,
) -> MetricModel {
    MetricModel {
        histogram: Some(
            HistogramModel {
                count: dp.count,
                sum: dp.sum,
                min: dp.min,
                max: dp.max,
                explicit_bounds: dp.explicit_bounds@,
                bucket_counts: dp.bucket_counts@,
            },
        ),
        ..bare_point(
            m,
            dp.time_unix_nano,
            dp.start_time_unix_nano,
            dp.attributes@,
            metric_type,
            resource,
            scope,
            url,
        )
    }
}

/// The points of a metric. Exponential histograms and summaries have none.
pub open spec fn metrics_of(m: OtlpMetric, resource: Attrs, scope: ScopeModel, url: Seq<char>) -> Seq<MetricModel> {
    match m.data {
        Some(MetricData::Gauge(g)) => Seq::new(
            g@.len(),
            |i: int| number_point(g@[i], m, MetricType::Gauge, resource, scope, url),
        ),
        Some(MetricData::Sum(s)) => Seq::new(
            s.data_points@.len(),
            |i: int|
                number_point(
                    s.data_points@[i],
                    m,
                    MetricType::Sum {
                        is_monotonic: s.is_monotonic,
                        temporality: s.aggregation_temporality,
                    },
                    resource,
                    scope,
                    url,
                ),
        ),
        Some(MetricData::Histogram(h)) => Seq::new(
            h.data_points@.len(),
            |i: int|
                histogram_point(
                    h.data_points@[i],
                    m,
                    MetricType::Histogram { temporality: h.aggregation_temporality },
                    resource,
                    scope,
                    url,
                ),
        ),
        _ => Seq::empty(),
    }
}

fn copy_u64(v: &Vec<u64>) -> (out: Vec<u64>)
    ensures
        out@ == v@,
{
    let mut out: Vec<u64> = Vec::new();
    for i in 0..v.len()
        invariant
            out@ == v@.take(i as int),
    {
        out.push(v[i]);
        assert(out@ =~= v@.take(i + 1));
    }
    assert(v@.take(v@.len() as int) =~= v@);
    out
}

fn normalise_number(
    dp: &NumberPoint,
    m: &OtlpMetric,
    metric_type: MetricType,
    resource: &Vec<(String, AnyValue)>,
    scope: &InstrumentationScope,
    url: &str,
) -> (out: MetricPoint)
    ensures
        out@ == number_point(*dp, *m, metric_type, attrs_view(resource@), scope@, url@),
{
    MetricPoint {
        timestamp_ns: dp.time_unix_nano,
        start_timestamp_ns: dp.start_time_unix_nano,
        name: m.name.clone(),
        description: m.description.clone(),
        unit: m.unit.clone(),
        metric_type,
        value_double: match dp.value {
            Some(NumberValue::AsDouble(d)) => Some(d),
            _ => None,
        },
        value_int: match dp.value {
            Some(NumberValue::AsInt(i)) => Some(i),
            _ => None,
        },
        histogram: None,
        attributes: convert_attrs(&dp.attributes),
        resource_attributes: duplicate_attrs(resource),
        scope: scope.duplicate(),
        schema_url: url.to_string(),
    }
}

fn normalise_histogram(
    dp: &HistogramPoint,
    m: &OtlpMetric,
    metric_type: MetricType,
    resource: &Vec<(String, AnyValue)>,
    scope: &InstrumentationScope,
    url: &str,
) -> (out: MetricPoint)
    ensures
        out@ == histogram_point(*dp, *m, metric_type, attrs_view(resource@), scope@, url@),
{
    MetricPoint {
        timestamp_ns: dp.time_unix_nano,
        start_timestamp_ns: dp.start_time_unix_nano,
        name: m.name.clone(),
        description: m.description.clone(),
        unit: m.unit.clone(),
        metric_type,
        value_double: None,
        value_int: None,
        histogram: Some(
            HistogramData {
                count: dp.count,
                sum: dp.sum,
                min: dp.min,
                max: dp.max,
                explicit_bounds: copy_u64(&dp.explicit_bounds),
                bucket_counts: copy_u64(&dp.bucket_counts),
            },
        ),
        attributes: convert_attrs(&dp.attributes),
        resource_attributes: duplicate_attrs(resource),
        scope: scope.duplicate(),
        schema_url: url.to_string(),
    }
}

/// The points of one metric.
pub fn normalise_metric(
    m: &OtlpMetric,
    resource: &Vec<(String, AnyValue)>,
    scope: &InstrumentationScope,
    url: &str,
) -> (out: Vec<MetricPoint>)
    ensures
        metrics_views(out@) == metrics_of(*m, attrs_view(resource@), scope@, url@),
{
    let ghost want = metrics_of(*m, attrs_view(resource@), scope@, url@);
    let mut out: Vec<MetricPoint> = Vec::new();
    match &m.data {
        Some(MetricData::Gauge(g)) => {
            for i in 0..g.len()
                invariant
                    m.data matches Some(MetricData::Gauge(x)) && g == &x,
                    want == metrics_of(*m, attrs_view(resource@), scope@, url@),
                    out@.len() == i,
                    metrics_views(out@) =~= want.take(i as int),
            {
                let ghost before = metrics_views(out@);
                let p = normalise_number(&g[i], m, MetricType::Gauge, resource, scope, url);
                let ghost pm = p@;
                out.push(p);
                assert(metrics_views(out@) =~= before.push(pm));
                assert(want[i as int] == pm);
            }
        },
        Some(MetricData::Sum(s)) => {
            let kind = MetricType::Sum {
                is_monotonic: s.is_monotonic,
                temporality: s.aggregation_temporality,
            };
            for i in 0..s.data_points.len()
                invariant
                    m.data matches Some(MetricData::Sum(x)) && s == &x,
                    kind == (MetricType::Sum {
                        is_monotonic: s.is_monotonic,
                        temporality: s.aggregation_temporality,
                    }),
                    want == metrics_of(*m, attrs_view(resource@), scope@, url@),
                    out@.len() == i,
                    metrics_views(out@) =~= want.take(i as int),
            {
                let ghost before = metrics_views(out@);
                let p = normalise_number(&s.data_points[i], m, kind, resource, scope, url);
                let ghost pm = p@;
                out.push(p);
                assert(metrics_views(out@) =~= before.push(pm));
                assert(want[i as int] == pm);
            }
        },
        Some(MetricData::Histogram(h)) => {
            let kind = MetricType::Histogram { temporality: h.aggregation_temporality };
            for i in 0..h.data_points.len()
                invariant
                    m.data matches Some(MetricData::Histogram(x)) && h == &x,
                    kind == (MetricType::Histogram { temporality: h.aggregation_temporality }),
                    want == metrics_of(*m, attrs_view(resource@), scope@, url@),
                    out@.len() == i,
                    metrics_views(out@) =~= want.take(i as int),
            {
                let ghost before = metrics_views(out@);
                let p = normalise_histogram(&h.data_points[i], m, kind, resource, scope, url);
                let ghost pm = p@;
                out.push(p);
                assert(metrics_views(out@) =~= before.push(pm));
                assert(want[i as int] == pm);
            }
        },
        _ => {},
    }
    assert(metrics_views(out@) =~= want);
    out
}

fn add_metrics(
    m: &OtlpMetric,
    resource: &Vec<(String, AnyValue)>,
    scope: &InstrumentationScope,
    url: &str,
    out: &mut Vec<MetricPoint>,
)
    ensures
        metrics_views(final(out)@) == metrics_views(old(out)@) + metrics_of(
            *m,
            attrs_view(resource@),
            scope@,
            url@,
        ),
{
    let ghost start = out@;
    let mut points = normalise_metric(m, resource, scope, url);
    let ghost more = points@;
    out.append(&mut points);
    assert(metrics_views(out@) =~= metrics_views(start) + metrics_views(more));
}

/// The metric points of the first `n` records of a scope.
pub open spec fn metrics_in(a: Seq<OtlpMetric>, n: nat, resource: Attrs, scope: ScopeModel, url: Seq<char>) -> Seq<MetricModel>
    decreases n,
{
    if n == 0 {
        Seq::empty()
    } else {
        metrics_in(a, (n - 1) as nat, resource, scope, url) + metrics_of(a[n - 1], resource, scope, url)
    }
}

/// The metric points of the first `n` scopes of a resource.
pub open spec fn metrics_in_scopes(a: Seq<ScopeMetrics>, n: nat, resource: Attrs) -> Seq<MetricModel>
    decreases n,
{
    if n == 0 {
        Seq::empty()
    } else {
        let s = a[n - 1];
        metrics_in_scopes(a, (n - 1) as nat, resource) + metrics_in(
            s.metrics@,
            s.metrics@.len(),
            resource,
            message_scope(s.scope),
            s.schema_url@,
        )
    }
}

/// The metric points of the first `n` resources.
pub open spec fn metrics_in_resources(a: Seq<ResourceMetrics>, n: nat) -> Seq<MetricModel>
    decreases n,
{
    if n == 0 {
        Seq::empty()
    } else {
        let r = a[n - 1];
        metrics_in_resources(a, (n - 1) as nat) + metrics_in_scopes(
            r.scope_metrics@,
            r.scope_metrics@.len(),
            message_resource(r.resource),
        )
    }
}

/// The metric points of a message.
pub fn normalise_metrics(message: &Vec<ResourceMetrics>) -> (out: Vec<MetricPoint>)
    ensures
        metrics_views(out@) == metrics_in_resources(message@, message@.len()),
{
    let mut out: Vec<MetricPoint> = Vec::new();
    assert(metrics_views(out@) =~= Seq::empty());
    for i in 0..message.len()
        invariant
            metrics_views(out@) == metrics_in_resources(message@, i as nat),
    {
        let r = &message[i];
        let resource = convert_resource(&r.resource);
        let ghost done = metrics_views(out@);
        assert(done + Seq::empty() =~= done);
        for j in 0..r.scope_metrics.len()
            invariant
                attrs_view(resource@) == message_resource(r.resource),
                metrics_views(out@) == done + metrics_in_scopes(
                    r.scope_metrics@,
                    j as nat,
                    attrs_view(resource@),
                ),
        {
            let s = &r.scope_metrics[j];
            let scope = convert_scope(&s.scope);
            let ghost front = metrics_in_scopes(r.scope_metrics@, j as nat, attrs_view(resource@));
            let ghost start = metrics_views(out@);
            assert(start + Seq::empty() =~= start);
            for k in 0..s.metrics.len()
                invariant
                    scope@ == message_scope(s.scope),
                    metrics_views(out@) == start + metrics_in(
                        s.metrics@,
                        k as nat,
                        attrs_view(resource@),
                        scope@,
                        s.schema_url@,
                    ),
            {
                let ghost before = metrics_in(
                    s.metrics@,
                    k as nat,
                    attrs_view(resource@),
                    scope@,
                    s.schema_url@,
                );
                add_metrics(&s.metrics[k], &resource, &scope, s.schema_url.as_str(), &mut out);
                assert(metrics_views(out@) =~= start + (before + metrics_of(
                    s.metrics@[k as int],
                    attrs_view(resource@),
                    scope@,
                    s.schema_url@,
                )));
            }
            assert(metrics_views(out@) =~= done + (front + metrics_in(
                s.metrics@,
                s.metrics@.len(),
                attrs_view(resource@),
                scope@,
                s.schema_url@,
            )));
        }
    }
    out
}

// ── Spans ───────────────────────────────────────────────────────────────────

/// The event of a span.
pub open spec fn event_of(e: OtlpEvent) -> EventModel {
    EventModel {
        timestamp_ns: e.time_unix_nano,
        name: e.name@,
        attributes: attributes_of(e.attributes@),
    }
}

/// The link of a span; none without two identifiers of the right length.
pub open spec fn link_of(l: OtlpLink) -> Option<LinkModel> {
    if l.trace_id@.len() == 16 && l.span_id@.len() == 8 {
        Some(
            LinkModel {
                trace_id: l.trace_id@,
                span_id: l.span_id@,
                trace_state: l.trace_state@,
                attributes: attributes_of(l.attributes@),
            },
        )
    } else {
        None
    }
}

/// The links of the first `n` items of a list.
pub open spec fn links_in(a: Seq<OtlpLink>, n: nat) -> Seq<LinkModel>
    decreases n,
{
    if n == 0 {
        Seq::empty()
    } else {
        match link_of(a[n - 1]) {
            Some(l) => links_in(a, (n - 1) as nat).push(l),
            None => links_in(a, (n - 1) as nat),
        }
    }
}

/// The span of a message; none without two identifiers of the right length.
pub open spec fn spans_of(p: OtlpSpan, resource: Attrs, scope: ScopeModel, url: Seq<char>) -> Seq<SpanModel> {
    if p.trace_id@.len() == 16 && p.span_id@.len() == 8 {
        seq![
            SpanModel {
                trace_id: p.trace_id@,
                span_id: p.span_id@,
                parent_span_id: exact_id(p.parent_span_id@, 8),
                name: p.name@,
                kind: p.kind,
                start_time_ns: p.start_time_unix_nano,
                end_time_ns: p.end_time_unix_nano,
                duration_ns: duration(p.start_time_unix_nano, p.end_time_unix_nano),
                status_code: match p.status {
                    Some(s) => s.code,
                    None => 0,
                },
                status_message: match p.status {
                    Some(s) => s.message@,
                    None => Seq::empty(),
                },
                attributes: attributes_of(p.attributes@),
                resource_attributes: resource,
                scope,
                events: Seq::new(p.events@.len(), |i: int| event_of(p.events@[i])),
                links: links_in(p.links@, p.links@.len()),
                schema_url: url,
            },
        ]
    } else {
        Seq::empty()
    }
}

fn convert_events(a: &Vec<OtlpEvent>) -> (out: Vec<SpanEvent>)
    ensures
        events_view(out@) == Seq::new(a@.len(), |i: int| event_of(a@[i])),
{
    let mut out: Vec<SpanEvent> = Vec::new();
    for i in 0..a.len()
        invariant
            events_view(out@) =~= Seq::new(i as nat, |k: int| event_of(a@[k])),
    {
        let ghost before = events_view(out@);
        let e = SpanEvent {
            timestamp_ns: a[i].time_unix_nano,
            name: a[i].name.clone(),
            attributes: convert_attrs(&a[i].attributes),
        };
        let ghost m = e@;
        out.push(e);
        assert(events_view(out@) =~= before.push(m));
    }
    out
}

fn convert_links(a: &Vec<OtlpLink>) -> (out: Vec<SpanLink>)
    ensures
        links_view(out@) == links_in(a@, a@.len()),
{
    let mut out: Vec<SpanLink> = Vec::new();
    assert(links_view(out@) =~= Seq::empty());
    for i in 0..a.len()
        invariant
            links_view(out@) == links_in(a@, i as nat),
    {
        let l = &a[i];
        let ghost before = links_view(out@);
        match (array16(l.trace_id.as_slice()), array8(l.span_id.as_slice())) {
            (Some(trace_id), Some(span_id)) => {
                let link = SpanLink {
                    trace_id,
                    span_id,
                    trace_state: l.trace_state.clone(),
                    attributes: convert_attrs(&l.attributes),
                };
                let ghost m = link@;
                out.push(link);
                assert(links_view(out@) =~= before.push(m));
            },
            _ => {},
        }
    }
    out
}

fn add_spans(
    p: &OtlpSpan,
    resource: &Vec<(String, AnyValue)>,
    scope: &InstrumentationScope,
    url: &str,
    out: &mut Vec<SpanRecord>,
)
    ensures
        spans_views(final(out)@) == spans_views(old(out)@) + spans_of(
            *p,
            attrs_view(resource@),
            scope@,
            url@,
        ),
{
    let ghost first = spans_views(out@);
    assert(first + Seq::empty() =~= first);
    let trace_id = match array16(p.trace_id.as_slice()) {
        Some(id) => id,
        None => {
            return;
        },
    };
    let span_id = match array8(p.span_id.as_slice()) {
        Some(id) => id,
        None => {
            return;
        },
    };
    let (status_code, status_message): (i32, String) = match &p.status {
        Some(s) => (s.code, s.message.clone()),
        None => {
            let none = String::new();
            assert(none@ =~= Seq::empty());
            (0, none)
        },
    };
    let r = SpanRecord {
        trace_id,
        span_id,
        parent_span_id: array8(p.parent_span_id.as_slice()),
        name: p.name.clone(),
        kind: p.kind,
        start_time_ns: p.start_time_unix_nano,
        end_time_ns: p.end_time_unix_nano,
        duration_ns: p.end_time_unix_nano.saturating_sub(p.start_time_unix_nano),
        status_code,
        status_message,
        attributes: convert_attrs(&p.attributes),
        resource_attributes: duplicate_attrs(resource),
        scope: scope.duplicate(),
        events: convert_events(&p.events),
        links: convert_links(&p.links),
        schema_url: url.to_string(),
    };
    let ghost m = r@;
    out.push(r);
    assert(spans_views(out@) =~= first + seq![m]);
    assert(spans_of(*p, attrs_view(resource@), scope@, url@) =~= seq![m]);
}

/// The spans of the first `n` records of a scope.
pub open spec fn spans_in(a: Seq<OtlpSpan>, n: nat, resource: Attrs, scope: ScopeModel, url: Seq<char>) -> Seq<SpanModel>
    decreases n,
{
    if n == 0 {
        Seq::empty()
    } else {
        spans_in(a, (n - 1) as nat, resource, scope, url) + spans_of(a[n - 1], resource, scope, url)
    }
}

/// The spans of the first `n` scopes of a resource.
pub open spec fn spans_in_scopes(a: Seq<ScopeSpans>, n: nat, resource: Attrs) -> Seq<SpanModel>
    decreases n,
{
    if n == 0 {
        Seq::empty()
    } else {
        let s = a[n - 1];
        spans_in_scopes(a, (n - 1) as nat, resource) + spans_in(
            s.spans@,
            s.spans@.len(),
            resource,
            message_scope(s.scope),
            s.schema_url@,
        )
    }
}

/// The spans of the first `n` resources.
pub open spec fn spans_in_resources(a: Seq<ResourceSpans>, n: nat) -> Seq<SpanModel>
    decreases n,
{
    if n == 0 {
        Seq::empty()
    } else {
        let r = a[n - 1];
        spans_in_resources(a, (n - 1) as nat) + spans_in_scopes(
            r.scope_spans@,
            r.scope_spans@.len(),
            message_resource(r.resource),
        )
    }
}

/// The spans of a message.
pub fn normalise_spans(message: &Vec<ResourceSpans>) -> (out: Vec<SpanRecord>)
    ensures
        spans_views(out@) == spans_in_resources(message@, message@.len()),
{
    let mut out: Vec<SpanRecord> = Vec::new();
    assert(spans_views(out@) =~= Seq::empty());
    for i in 0..message.len()
        invariant
            spans_views(out@) == spans_in_resources(message@, i as nat),
    {
        let r = &message[i];
        let resource = convert_resource(&r.resource);
        let ghost done = spans_views(out@);
        assert(done + Seq::empty() =~= done);
        for j in 0..r.scope_spans.len()
            invariant
                attrs_view(resource@) == message_resource(r.resource),
                spans_views(out@) == done + spans_in_scopes(
                    r.scope_spans@,
                    j as nat,
                    attrs_view(resource@),
                ),
        {
            let s = &r.scope_spans[j];
            let scope = convert_scope(&s.scope);
            let ghost front = spans_in_scopes(r.scope_spans@, j as nat, attrs_view(resource@));
            let ghost start = spans_views(out@);
            assert(start + Seq::empty() =~= start);
            for k in 0..s.spans.len()
                invariant
                    scope@ == message_scope(s.scope),
                    spans_views(out@) == start + spans_in(
                        s.spans@,
                        k as nat,
                        attrs_view(resource@),
                        scope@,
                        s.schema_url@,
                    ),
            {
                let ghost before = spans_in(
                    s.spans@,
                    k as nat,
                    attrs_view(resource@),
                    scope@,
                    s.schema_url@,
                );
                add_spans(&s.spans[k], &resource, &scope, s.schema_url.as_str(), &mut out);
                assert(spans_views(out@) =~= start + (before + spans_of(
                    s.spans@[k as int],
                    attrs_view(resource@),
                    scope@,
                    s.schema_url@,
                )));
            }
            assert(spans_views(out@) =~= done + (front + spans_in(
                s.spans@,
                s.spans@.len(),
                attrs_view(resource@),
                scope@,
                s.schema_url@,
            )));
        }
    }
    out
}

} // verus!
