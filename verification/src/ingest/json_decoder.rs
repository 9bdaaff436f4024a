//! Decoder of OTLP documents in JSON.
//!
//! Names of members are in camel case, timestamps are decimal texts or numbers, and
//! identifiers are texts of hexadecimal digits.

use crate::common::model::{
    logs_views, metrics_views, spans_views, attrs_view, collect_attrs, distinct_keys,
    duplicate_attrs, empty_scope, events_view, id16_view, id8_view, links_view, put_attr,
    values_view, AnyModel, AnyValue, EventModel, InstrumentationScope, LinkModel, LogModel,
    LogRecord, MetricModel, MetricPoint, MetricType, ScopeModel, SpanEvent, SpanLink, SpanModel,
    SpanRecord,
};
use crate::ingest::hex::{hex_bytes, hex_to_16, hex_to_8};
use crate::json::{
    as_flag, as_float, as_int, as_items, as_text, as_unsigned, first_member, flag, float, get,
    get_in, items, items_view, items_view_is_pointwise, member, opt_json, owned_text, text,
    text_or_empty, whole, JsonModel, JsonValue,
};
use crate::text::{i64_of, parse_i64, parse_u64, u64_of};
use vstd::prelude::*;

verus! {

/// Attributes as mathematical values.
pub type Attrs = Seq<(Seq<char>, AnyModel)>;

// ── Values ──────────────────────────────────────────────────────────────────

proof fn lemma_first_member_smaller(o: Seq<(Seq<char>, JsonModel)>, key: Seq<char>, i: nat)
    ensures
        first_member(o, key, i) matches Some(m) ==> exists|k: int|
            0 <= k < o.len() && #[trigger] o[k].1 == m,
    decreases o.len() - i,
{
    if i < o.len() && o[i as int].0 != key {
        lemma_first_member_smaller(o, key, i + 1);
    }
}

/// A member is smaller than its object.
pub proof fn member_is_smaller(v: JsonModel, key: Seq<char>)
    ensures
        member(v, key) matches Some(m) ==> decreases_to!(v => m),
{
    match v {
        JsonModel::Object(o) => {
            lemma_first_member_smaller(o, key, 0);
        },
        _ => {},
    }
}

/// The whole number of an `intValue`: a number, or a text that writes one; 0 otherwise.
pub open spec fn int_value(v: JsonModel) -> i64 {
    match as_int(Some(v)) {
        Some(n) => n,
        None => match as_text(Some(v)) {
            Some(s) => match i64_of(s) {
                Some(n) => n,
                None => 0,
            },
            None => 0,
        },
    }
}

/// The member of a member.
pub open spec fn inner(v: JsonModel, first: Seq<char>, second: Seq<char>) -> Option<JsonModel> {
    match member(v, first) {
        Some(m) => member(m, second),
        None => None,
    }
}

/// The attribute value that a document writes: by the first of its kinds that is there, and
/// the empty text if none is.
pub open spec fn any_of(v: JsonModel) -> AnyModel
    decreases v, 0nat,
{
    if as_text(member(v, "stringValue"@)) is Some {
        AnyModel::String(as_text(member(v, "stringValue"@))->Some_0)
    } else if as_flag(member(v, "boolValue"@)) is Some {
        AnyModel::Bool(as_flag(member(v, "boolValue"@))->Some_0)
    } else if member(v, "intValue"@) is Some {
        AnyModel::Int(int_value(member(v, "intValue"@)->Some_0))
    } else if as_float(member(v, "doubleValue"@)) is Some {
        AnyModel::Double(as_float(member(v, "doubleValue"@))->Some_0)
    } else {
        proof {
            member_is_smaller(v, "arrayValue"@);
            match member(v, "arrayValue"@) {
                Some(m) => {
                    member_is_smaller(m, "values"@);
                },
                None => {},
            }
        }
        match inner(v, "arrayValue"@, "values"@) {
            Some(JsonModel::Array(a)) => AnyModel::Array(any_list(a, a.len())),
            _ => AnyModel::String(Seq::empty()),
        }
    }
}

/// The attribute values of the first `n` items.
pub open spec fn any_list(a: Seq<JsonModel>, n: nat) -> Seq<AnyModel>
    decreases a, n,
{
    if n == 0 || n > a.len() {
        Seq::empty()
    } else {
        any_list(a, (n - 1) as nat).push(any_of(a[n - 1]))
    }
}

/// Reads the attribute value that a document writes.
pub fn decode_any_value(v: &JsonValue) -> (out: AnyValue)
    ensures
        out@ == any_of(v@),
    decreases v,
{
    if let Some(s) = text(get(v, "stringValue")) {
        return AnyValue::String(s.to_string());
    }
    if let Some(b) = flag(get(v, "boolValue")) {
        return AnyValue::Bool(b);
    }
    if let Some(i) = get(v, "intValue") {
        let n: i64 = match whole(Some(i)) {
            Some(n) => n,
            None => match text(Some(i)) {
                Some(s) => match parse_i64(s) {
                    Some(n) => n,
                    None => 0,
                },
                None => 0,
            },
        };
        return AnyValue::Int(n);
    }
    if let Some(d) = float(get(v, "doubleValue")) {
        return AnyValue::Double(d);
    }
    if let Some(m) = get(v, "arrayValue") {
        if let Some(w) = get(m, "values") {
            match w {
                JsonValue::Array(a) => {
                    let n: usize = a.len();
                    let ghost models = items_view(*a, n as nat);
                    proof {
                        items_view_is_pointwise(*a, n as nat);
                    }
                    let mut list: Vec<AnyValue> = Vec::new();
                    for i in 0..n
                        invariant
                            n == a@.len(),
                            decreases_to!(v => m),
                            decreases_to!(m => w),
                            w matches JsonValue::Array(x) && a == &x,
                            models == items_view(*a, n as nat),
                            models.len() == n,
                            forall|k: int| 0 <= k < n ==> #[trigger] models[k] == a@[k]@,
                            values_view(list@) == any_list(models, i as nat),
                    {
                        assert(models[i as int] == a@[i as int]@);
                        let ghost before = values_view(list@);
                        assert(decreases_to!(v => w));
                        assert(decreases_to!(v => &a[i as int]));
                        let x = decode_any_value(&a[i]);
                        let ghost m = x@;
                        list.push(x);
                        assert(values_view(list@) =~= before.push(m));
                    }
                    let out = AnyValue::Array(list);
                    proof {
                        crate::common::model::any_view_parts(out);
                    }
                    return out;
                },
                _ => {},
            }
        }
    }
    let none = String::new();
    assert(none@ =~= Seq::empty());
    AnyValue::String(none)
}

/// The attribute that one item of a list gives; none without a name. A missing value is the
/// empty text.
pub open spec fn pair_of(kv: JsonModel) -> Option<(Seq<char>, AnyModel)> {
    match as_text(member(kv, "key"@)) {
        None => None,
        Some(key) => Some(
            (
                key,
                match member(kv, "value"@) {
                    Some(v) => any_of(v),
                    None => AnyModel::String(Seq::empty()),
                },
            ),
        ),
    }
}

/// The attributes that the first `n` items of a list give.
pub open spec fn pairs_of(a: Seq<JsonModel>, n: nat) -> Attrs
    decreases n,
{
    if n == 0 {
        Seq::empty()
    } else {
        match pair_of(a[n - 1]) {
            Some(p) => pairs_of(a, (n - 1) as nat).push(p),
            None => pairs_of(a, (n - 1) as nat),
        }
    }
}

/// The attributes that a list gives, the last of each name; none of anything else.
pub open spec fn attrs_of(v: Option<JsonModel>) -> Attrs {
    match as_items(v) {
        Some(a) => collect_attrs(pairs_of(a, a.len())),
        None => Seq::empty(),
    }
}

/// Reads a list of attributes.
pub fn decode_attrs(v: Option<&JsonValue>) -> (out: Vec<(String, AnyValue)>)
    ensures
        attrs_view(out@) == attrs_of(opt_json(v)),
        distinct_keys(attrs_view(out@)),
{
    let mut out: Vec<(String, AnyValue)> = Vec::new();
    assert(attrs_view(out@) =~= Seq::empty());
    if let Some(a) = items(v) {
        let n: usize = a.len();
        let ghost models = items_view(*a, n as nat);
        proof {
            items_view_is_pointwise(*a, n as nat);
        }
        for i in 0..n
            invariant
                n == a@.len(),
                models == items_view(*a, n as nat),
                models.len() == n,
                forall|k: int| 0 <= k < n ==> #[trigger] models[k] == a@[k]@,
                attrs_view(out@) == collect_attrs(pairs_of(models, i as nat)),
                distinct_keys(attrs_view(out@)),
        {
            assert(models[i as int] == a@[i as int]@);
            let kv = &a[i];
            if let Some(key) = text(get(kv, "key")) {
                let value = match get(kv, "value") {
                    Some(v) => decode_any_value(v),
                    None => {
                        let none = String::new();
                        assert(none@ =~= Seq::empty());
                        AnyValue::String(none)
                    },
                };
                let ghost front = pairs_of(models, i as nat);
                assert(front.push((key@, value@)).drop_last() =~= front);
                put_attr(&mut out, key.to_string(), value);
            }
        }
    }
    out
}

/// The scope that a document writes; the empty one if there is none.
pub open spec fn scope_of(v: Option<JsonModel>) -> ScopeModel {
    match v {
        None => empty_scope(),
        Some(s) => ScopeModel {
            name: text_or_empty(member(s, "name"@)),
            version: text_or_empty(member(s, "version"@)),
            attributes: attrs_of(member(s, "attributes"@)),
        },
    }
}

fn decode_scope(v: Option<&JsonValue>) -> (out: InstrumentationScope)
    ensures
        out@ == scope_of(opt_json(v)),
{
    match v {
        None => InstrumentationScope::default(),
        Some(s) => InstrumentationScope {
            name: owned_text(get(s, "name")),
            version: owned_text(get(s, "version")),
            attributes: decode_attrs(get(s, "attributes")),
        },
    }
}

/// A number without sign: a number, or a text that writes one; 0 otherwise.
pub open spec fn unsigned_of(v: JsonModel) -> u64 {
    match as_unsigned(v) {
        Some(n) => n,
        None => match as_text(Some(v)) {
            Some(s) => match u64_of(s) {
                Some(n) => n,
                None => 0,
            },
            None => 0,
        },
    }
}

/// A member that is a number without sign, or `missing`.
pub open spec fn time_of(v: JsonModel, key: Seq<char>, missing: u64) -> u64 {
    match member(v, key) {
        Some(m) => unsigned_of(m),
        None => missing,
    }
}

fn decode_u64(v: &JsonValue) -> (out: u64)
    ensures
        out == unsigned_of(v@),
{
    match v {
        JsonValue::Pos(n) => *n,
        JsonValue::Text(s) => match parse_u64(s.as_str()) {
            Some(n) => n,
            None => 0,
        },
        _ => 0,
    }
}

fn time(v: &JsonValue, key: &str, missing: u64) -> (out: u64)
    ensures
        out == time_of(v@, key@, missing),
{
    match get(v, key) {
        Some(m) => decode_u64(m),
        None => missing,
    }
}

/// A small whole number: the low 32 bits of a number, 0 of anything else.
pub open spec fn small_of(v: Option<JsonModel>) -> i32 {
    match as_int(v) {
        Some(n) => n as i32,
        None => 0,
    }
}

fn small(v: Option<&JsonValue>) -> (out: i32)
    ensures
        out == small_of(opt_json(v)),
{
    match whole(v) {
        Some(n) => n as i32,
        None => 0,
    }
}

/// An identifier of `n` bytes in a member.
pub open spec fn id_of(v: JsonModel, key: Seq<char>, n: nat) -> Option<Seq<u8>> {
    match as_text(member(v, key)) {
        Some(s) => hex_bytes(s, n),
        None => None,
    }
}

fn id16(v: &JsonValue, key: &str) -> (out: Option<[u8; 16]>)
    ensures
        id16_view(out) == id_of(v@, key@, 16),
{
    match text(get(v, key)) {
        Some(s) => hex_to_16(s),
        None => None,
    }
}

fn id8(v: &JsonValue, key: &str) -> (out: Option<[u8; 8]>)
    ensures
        id8_view(out) == id_of(v@, key@, 8),
{
    match text(get(v, key)) {
        Some(s) => hex_to_8(s),
        None => None,
    }
}

/// The attributes of the resource of a group of records.
pub open spec fn resource_of(v: JsonModel) -> Attrs {
    attrs_of(inner(v, "resource"@, "attributes"@))
}

fn decode_resource(v: &JsonValue) -> (out: Vec<(String, AnyValue)>)
    ensures
        attrs_view(out@) == resource_of(v@),
{
    decode_attrs(get_in(get(v, "resource"), "attributes"))
}

// ── Logs ────────────────────────────────────────────────────────────────────

/// The log record that a document writes.
pub open spec fn log_of(rec: JsonModel, resource: Attrs, scope: ScopeModel, url: Seq<char>) -> LogModel {
    let ts = time_of(rec, "timeUnixNano"@, 0);
    LogModel {
        timestamp_ns: ts,
        observed_timestamp_ns: time_of(rec, "observedTimeUnixNano"@, ts),
        trace_id: id_of(rec, "traceId"@, 16),
        span_id: id_of(rec, "spanId"@, 8),
        severity_number: small_of(member(rec, "severityNumber"@)),
        severity_text: text_or_empty(member(rec, "severityText"@)),
        body: match member(rec, "body"@) {
            Some(b) => Some(any_of(b)),
            None => None,
        },
        attributes: attrs_of(member(rec, "attributes"@)),
        resource_attributes: resource,
        scope,
        schema_url: url,
    }
}

/// The log record that an item gives.
pub open spec fn logs_of(rec: JsonModel, resource: Attrs, scope: ScopeModel, url: Seq<char>) -> Seq<LogModel> {
    seq![log_of(rec, resource, scope, url)]
}

fn add_logs(
    rec: &JsonValue,
    resource: &Vec<(String, AnyValue)>,
    scope: &InstrumentationScope,
    url: &str,
    out: &mut Vec<LogRecord>,
)
    ensures
        logs_views(final(out)@) == logs_views(old(out)@) + logs_of(
            rec@,
            attrs_view(resource@),
            scope@,
            url@,
        ),
{
    let ghost start = logs_views(out@);
    let ts: u64 = time(rec, "timeUnixNano", 0);
    let r = LogRecord {
        timestamp_ns: ts,
        observed_timestamp_ns: time(rec, "observedTimeUnixNano", ts),
        trace_id: id16(rec, "traceId"),
        span_id: id8(rec, "spanId"),
        severity_number: small(get(rec, "severityNumber")),
        severity_text: owned_text(get(rec, "severityText")),
        body: match get(rec, "body") {
            Some(b) => Some(decode_any_value(b)),
            None => None,
        },
        attributes: decode_attrs(get(rec, "attributes")),
        resource_attributes: duplicate_attrs(resource),
        scope: scope.duplicate(),
        schema_url: url.to_string(),
    };
    let ghost m = r@;
    assert(m == log_of(rec@, attrs_view(resource@), scope@, url@));
    out.push(r);
    assert(logs_views(out@) =~= start + seq![m]);
}

/// The log records of the first `n` items of a scope.
pub open spec fn logs_in(a: Seq<JsonModel>, n: nat, resource: Attrs, scope: ScopeModel, url: Seq<char>) -> Seq<LogModel>
    decreases n,
{
    if n == 0 {
        Seq::empty()
    } else {
        logs_in(a, (n - 1) as nat, resource, scope, url) + logs_of(a[n - 1], resource, scope, url)
    }
}

/// The log records of the first `n` scopes of a resource.
pub open spec fn logs_in_scopes(a: Seq<JsonModel>, n: nat, resource: Attrs) -> Seq<LogModel>
    decreases n,
{
    if n == 0 {
        Seq::empty()
    } else {
        let s = a[n - 1];
        logs_in_scopes(a, (n - 1) as nat, resource) + match as_items(member(s, "logRecords"@)) {
            Some(list) => logs_in(
                list,
                list.len(),
                resource,
                scope_of(member(s, "scope"@)),
                text_or_empty(member(s, "schemaUrl"@)),
            ),
            None => Seq::empty(),
        }
    }
}

/// The log records of the first `n` resources.
pub open spec fn logs_in_resources(a: Seq<JsonModel>, n: nat) -> Seq<LogModel>
    decreases n,
{
    if n == 0 {
        Seq::empty()
    } else {
        let r = a[n - 1];
        logs_in_resources(a, (n - 1) as nat) + match as_items(member(r, "scopeLogs"@)) {
            Some(list) => logs_in_scopes(list, list.len(), resource_of(r)),
            None => Seq::empty(),
        }
    }
}

/// The log records of a document.
pub open spec fn logs_in_document(v: JsonModel) -> Seq<LogModel> {
    match as_items(member(v, "resourceLogs"@)) {
        Some(list) => logs_in_resources(list, list.len()),
        None => Seq::empty(),
    }
}

fn decode_logs_list(
    a: &Vec<JsonValue>,
    resource: &Vec<(String, AnyValue)>,
    scope: &InstrumentationScope,
    url: &str,
    out: &mut Vec<LogRecord>,
)
    ensures
        logs_views(final(out)@) == logs_views(old(out)@) + logs_in(
            items_view(*a, a@.len()),
            a@.len(),
            attrs_view(resource@),
            scope@,
            url@,
        ),
{
    let n: usize = a.len();
    let ghost models = items_view(*a, n as nat);
    let ghost start = logs_views(out@);
    proof {
        items_view_is_pointwise(*a, n as nat);
    }
    assert(start + Seq::empty() =~= start);
    for i in 0..n
        invariant
            n == a@.len(),
            models == items_view(*a, n as nat),
            models.len() == n,
            forall|k: int| 0 <= k < n ==> #[trigger] models[k] == a@[k]@,
            logs_views(out@) == start + logs_in(
                models,
                i as nat,
                attrs_view(resource@),
                scope@,
                url@,
            ),
    {
        assert(models[i as int] == a@[i as int]@);
        let ghost front = logs_in(models, i as nat, attrs_view(resource@), scope@, url@);
        add_logs(&a[i], resource, scope, url, out);
        assert(logs_views(out@) =~= start + (front + logs_of(
            models[i as int],
            attrs_view(resource@),
            scope@,
            url@,
        )));
    }
}

/// Reads the log records of a document.
pub fn decode_logs(json: &JsonValue) -> (out: Vec<LogRecord>)
    ensures
        logs_views(out@) == logs_in_document(json@),
{
    let mut out: Vec<LogRecord> = Vec::new();
    assert(logs_views(out@) =~= Seq::empty());
    let resources = match items(get(json, "resourceLogs")) {
        Some(a) => a,
        None => {
            return out;
        },
    };
    let n: usize = resources.len();
    let ghost models = items_view(*resources, n as nat);
    proof {
        items_view_is_pointwise(*resources, n as nat);
    }
    for i in 0..n
        invariant
            n == resources@.len(),
            models == items_view(*resources, n as nat),
            models.len() == n,
            forall|k: int| 0 <= k < n ==> #[trigger] models[k] == resources@[k]@,
            logs_views(out@) == logs_in_resources(models, i as nat),
    {
        assert(models[i as int] == resources@[i as int]@);
        let r = &resources[i];
        let ghost done = logs_views(out@);
        let resource = decode_resource(r);
        assert(done + Seq::empty() =~= done);
        if let Some(scopes) = items(get(r, "scopeLogs")) {
            let m: usize = scopes.len();
            let ghost inner_models = items_view(*scopes, m as nat);
            proof {
                items_view_is_pointwise(*scopes, m as nat);
            }
            for j in 0..m
                invariant
                    m == scopes@.len(),
                    inner_models == items_view(*scopes, m as nat),
                    inner_models.len() == m,
                    forall|k: int| 0 <= k < m ==> #[trigger] inner_models[k] == scopes@[k]@,
                    logs_views(out@) == done + logs_in_scopes(
                        inner_models,
                        j as nat,
                        attrs_view(resource@),
                    ),
            {
                assert(inner_models[j as int] == scopes@[j as int]@);
                let s = &scopes[j];
                let ghost front = logs_in_scopes(inner_models, j as nat, attrs_view(resource@));
                assert(done + (front + Seq::empty()) =~= done + front);
                let ghost here = match as_items(member(s@, "logRecords"@)) {
                    Some(list) => logs_in(
                        list,
                        list.len(),
                        attrs_view(resource@),
                        scope_of(member(s@, "scope"@)),
                        text_or_empty(member(s@, "schemaUrl"@)),
                    ),
                    None => Seq::empty(),
                };
                assert(logs_in_scopes(inner_models, (j + 1) as nat, attrs_view(resource@)) == front
                    + here);
                if let Some(list) = items(get(s, "logRecords")) {
                    let scope = decode_scope(get(s, "scope"));
                    let url = owned_text(get(s, "schemaUrl"));
                    decode_logs_list(list, &resource, &scope, url.as_str(), &mut out);
                    proof {
                        items_view_is_pointwise(*list, list@.len());
                    }
                    assert(logs_views(out@) =~= done + (front + here));
                }
            }
        }
    }
    out
}

// ── Metrics ─────────────────────────────────────────────────────────────────

/// The point of a metric that a document writes.
pub open spec fn point_of(
    dp: JsonModel,
    m: JsonModel,
    metric_type: MetricType,
    resource: Attrs,
    scope: ScopeModel,
    url: Seq<char>,
) -> MetricModel {
    MetricModel {
        timestamp_ns: time_of(dp, "timeUnixNano"@, 0),
        start_timestamp_ns: time_of(dp, "startTimeUnixNano"@, 0),
        name: text_or_empty(member(m, "name"@)),
        description: text_or_empty(member(m, "description"@)),
        unit: text_or_empty(member(m, "unit"@)),
        metric_type,
        value_double: as_float(member(dp, "asDouble"@)),
        value_int: as_int(member(dp, "asInt"@)),
        histogram: None,
        attributes: attrs_of(member(dp, "attributes"@)),
        resource_attributes: resource,
        scope,
        schema_url: url,
    }
}

/// The points of the first `n` items of a list.
pub open spec fn points_in(
    a: Seq<JsonModel>,
    n: nat,
    m: JsonModel,
    metric_type: MetricType,
    resource: Attrs,
    scope: ScopeModel,
    url: Seq<char>,
) -> Seq<MetricModel>
    decreases n,
{
    if n == 0 {
        Seq::empty()
    } else {
        points_in(a, (n - 1) as nat, m, metric_type, resource, scope, url).push(
            point_of(a[n - 1], m, metric_type, resource, scope, url),
        )
    }
}

/// The points of a gauge or of a sum.
pub open spec fn points_of(
    data: JsonModel,
    m: JsonModel,
    metric_type: MetricType,
    resource: Attrs,
    scope: ScopeModel,
    url: Seq<char>,
) -> Seq<MetricModel> {
    match as_items(member(data, "dataPoints"@)) {
        Some(a) => points_in(a, a.len(), m, metric_type, resource, scope, url),
        None => Seq::empty(),
    }
}

/// What kind of sum a document writes.
pub open spec fn sum_type(sum: JsonModel) -> MetricType {
    MetricType::Sum {
        is_monotonic: match as_flag(member(sum, "isMonotonic"@)) {
            Some(b) => b,
            None => false,
        },
        temporality: small_of(member(sum, "aggregationTemporality"@)),
    }
}

/// The points of a metric: those of its gauge, then those of its sum. Other kinds have
/// none.
pub open spec fn metrics_of(m: JsonModel, resource: Attrs, scope: ScopeModel, url: Seq<char>) -> Seq<MetricModel> {
    (match member(m, "gauge"@) {
        Some(g) => points_of(g, m, MetricType::Gauge, resource, scope, url),
        None => Seq::empty(),
    }) + (match member(m, "sum"@) {
        Some(s) => points_of(s, m, sum_type(s), resource, scope, url),
        None => Seq::empty(),
    })
}

fn add_points(
    data: &JsonValue,
    m: &JsonValue,
    metric_type: MetricType,
    resource: &Vec<(String, AnyValue)>,
    scope: &InstrumentationScope,
    url: &str,
    out: &mut Vec<MetricPoint>,
)
    ensures
        metrics_views(final(out)@) == metrics_views(old(out)@) + points_of(
            data@,
            m@,
            metric_type,
            attrs_view(resource@),
            scope@,
            url@,
        ),
{
    let ghost start = metrics_views(out@);
    assert(start + Seq::empty() =~= start);
    if let Some(a) = items(get(data, "dataPoints")) {
        let n: usize = a.len();
        let ghost models = items_view(*a, n as nat);
        proof {
            items_view_is_pointwise(*a, n as nat);
        }
        for i in 0..n
            invariant
                n == a@.len(),
                models == items_view(*a, n as nat),
                models.len() == n,
                forall|k: int| 0 <= k < n ==> #[trigger] models[k] == a@[k]@,
                metrics_views(out@) == start + points_in(
                    models,
                    i as nat,
                    m@,
                    metric_type,
                    attrs_view(resource@),
                    scope@,
                    url@,
                ),
        {
            assert(models[i as int] == a@[i as int]@);
            let dp = &a[i];
            let ghost front = points_in(
                models,
                i as nat,
                m@,
                metric_type,
                attrs_view(resource@),
                scope@,
                url@,
            );
            let p = MetricPoint {
                timestamp_ns: time(dp, "timeUnixNano", 0),
                start_timestamp_ns: time(dp, "startTimeUnixNano", 0),
                name: owned_text(get(m, "name")),
                description: owned_text(get(m, "description")),
                unit: owned_text(get(m, "unit")),
                metric_type,
                value_double: float(get(dp, "asDouble")),
                value_int: whole(get(dp, "asInt")),
                histogram: None,
                attributes: decode_attrs(get(dp, "attributes")),
                resource_attributes: duplicate_attrs(resource),
                scope: scope.duplicate(),
                schema_url: url.to_string(),
            };
            let ghost pm = p@;
            let ghost before = metrics_views(out@);
            assert(pm == point_of(
                dp@,
                m@,
                metric_type,
                attrs_view(resource@),
                scope@,
                url@,
            ));
            out.push(p);
            assert(metrics_views(out@) =~= before.push(pm));
            assert(before.push(pm) =~= start + front.push(pm));
        }
    }
}

fn add_metrics(
    m: &JsonValue,
    resource: &Vec<(String, AnyValue)>,
    scope: &InstrumentationScope,
    url: &str,
    out: &mut Vec<MetricPoint>,
)
    ensures
        metrics_views(final(out)@) == metrics_views(old(out)@) + metrics_of(
            m@,
            attrs_view(resource@),
            scope@,
            url@,
        ),
{
    let ghost start = metrics_views(out@);
    if let Some(g) = get(m, "gauge") {
        add_points(g, m, MetricType::Gauge, resource, scope, url, out);
    }
    let ghost mid = metrics_views(out@);
    assert(start + Seq::empty() =~= start);
    assert(mid + Seq::empty() =~= mid);
    if let Some(s) = get(m, "sum") {
        let is_monotonic: bool = match flag(get(s, "isMonotonic")) {
            Some(b) => b,
            None => false,
        };
        let temporality: i32 = small(get(s, "aggregationTemporality"));
        add_points(
            s,
            m,
            MetricType::Sum { is_monotonic, temporality },
            resource,
            scope,
            url,
            out,
        );
    }
    assert(metrics_views(out@) =~= start + metrics_of(m@, attrs_view(resource@), scope@, url@));
}

/// The metric points of the first `n` items of a scope.
pub open spec fn metrics_in(a: Seq<JsonModel>, n: nat, resource: Attrs, scope: ScopeModel, url: Seq<char>) -> Seq<MetricModel>
    decreases n,
{
    if n == 0 {
        Seq::empty()
    } else {
        metrics_in(a, (n - 1) as nat, resource, scope, url) + metrics_of(a[n - 1], resource, scope, url)
    }
}

/// The metric points of the first `n` scopes of a resource.
pub open spec fn metrics_in_scopes(a: Seq<JsonModel>, n: nat, resource: Attrs) -> Seq<MetricModel>
    decreases n,
{
    if n == 0 {
        Seq::empty()
    } else {
        let s = a[n - 1];
        metrics_in_scopes(a, (n - 1) as nat, resource) + match as_items(member(s, "metrics"@)) {
            Some(list) => metrics_in(
                list,
                list.len(),
                resource,
                scope_of(member(s, "scope"@)),
                text_or_empty(member(s, "schemaUrl"@)),
            ),
            None => Seq::empty(),
        }
    }
}

/// The metric points of the first `n` resources.
pub open spec fn metrics_in_resources(a: Seq<JsonModel>, n: nat) -> Seq<MetricModel>
    decreases n,
{
    if n == 0 {
        Seq::empty()
    } else {
        let r = a[n - 1];
        metrics_in_resources(a, (n - 1) as nat) + match as_items(member(r, "scopeMetrics"@)) {
            Some(list) => metrics_in_scopes(list, list.len(), resource_of(r)),
            None => Seq::empty(),
        }
    }
}

/// The metric points of a document.
pub open spec fn metrics_in_document(v: JsonModel) -> Seq<MetricModel> {
    match as_items(member(v, "resourceMetrics"@)) {
        Some(list) => metrics_in_resources(list, list.len()),
        None => Seq::empty(),
    }
}

fn decode_metrics_list(
    a: &Vec<JsonValue>,
    resource: &Vec<(String, AnyValue)>,
    scope: &InstrumentationScope,
    url: &str,
    out: &mut Vec<MetricPoint>,
)
    ensures
        metrics_views(final(out)@) == metrics_views(old(out)@) + metrics_in(
            items_view(*a, a@.len()),
            a@.len(),
            attrs_view(resource@),
            scope@,
            url@,
        ),
{
    let n: usize = a.len();
    let ghost models = items_view(*a, n as nat);
    let ghost start = metrics_views(out@);
    proof {
        items_view_is_pointwise(*a, n as nat);
    }
    assert(start + Seq::empty() =~= start);
    for i in 0..n
        invariant
            n == a@.len(),
            models == items_view(*a, n as nat),
            models.len() == n,
            forall|k: int| 0 <= k < n ==> #[trigger] models[k] == a@[k]@,
            metrics_views(out@) == start + metrics_in(
                models,
                i as nat,
                attrs_view(resource@),
                scope@,
                url@,
            ),
    {
        assert(models[i as int] == a@[i as int]@);
        let ghost front = metrics_in(models, i as nat, attrs_view(resource@), scope@, url@);
        add_metrics(&a[i], resource, scope, url, out);
        assert(metrics_views(out@) =~= start + (front + metrics_of(
            models[i as int],
            attrs_view(resource@),
            scope@,
            url@,
        )));
    }
}

/// Reads the metric points of a document.
pub fn decode_metrics(json: &JsonValue) -> (out: Vec<MetricPoint>)
    ensures
        metrics_views(out@) == metrics_in_document(json@),
{
    let mut out: Vec<MetricPoint> = Vec::new();
    assert(metrics_views(out@) =~= Seq::empty());
    let resources = match items(get(json, "resourceMetrics")) {
        Some(a) => a,
        None => {
            return out;
        },
    };
    let n: usize = resources.len();
    let ghost models = items_view(*resources, n as nat);
    proof {
        items_view_is_pointwise(*resources, n as nat);
    }
    for i in 0..n
        invariant
            n == resources@.len(),
            models == items_view(*resources, n as nat),
            models.len() == n,
            forall|k: int| 0 <= k < n ==> #[trigger] models[k] == resources@[k]@,
            metrics_views(out@) == metrics_in_resources(models, i as nat),
    {
        assert(models[i as int] == resources@[i as int]@);
        let r = &resources[i];
        let ghost done = metrics_views(out@);
        let resource = decode_resource(r);
        assert(done + Seq::empty() =~= done);
        if let Some(scopes) = items(get(r, "scopeMetrics")) {
            let m: usize = scopes.len();
            let ghost inner_models = items_view(*scopes, m as nat);
            proof {
                items_view_is_pointwise(*scopes, m as nat);
            }
            for j in 0..m
                invariant
                    m == scopes@.len(),
                    inner_models == items_view(*scopes, m as nat),
                    inner_models.len() == m,
                    forall|k: int| 0 <= k < m ==> #[trigger] inner_models[k] == scopes@[k]@,
                    metrics_views(out@) == done + metrics_in_scopes(
                        inner_models,
                        j as nat,
                        attrs_view(resource@),
                    ),
            {
                assert(inner_models[j as int] == scopes@[j as int]@);
                let s = &scopes[j];
                let ghost front = metrics_in_scopes(inner_models, j as nat, attrs_view(resource@));
                assert(done + (front + Seq::empty()) =~= done + front);
                let ghost here = match as_items(member(s@, "metrics"@)) {
                    Some(list) => metrics_in(
                        list,
                        list.len(),
                        attrs_view(resource@),
                        scope_of(member(s@, "scope"@)),
                        text_or_empty(member(s@, "schemaUrl"@)),
                    ),
                    None => Seq::empty(),
                };
                assert(metrics_in_scopes(inner_models, (j + 1) as nat, attrs_view(resource@)) == front
                    + here);
                if let Some(list) = items(get(s, "metrics")) {
                    let scope = decode_scope(get(s, "scope"));
                    let url = owned_text(get(s, "schemaUrl"));
                    decode_metrics_list(list, &resource, &scope, url.as_str(), &mut out);
                    proof {
                        items_view_is_pointwise(*list, list@.len());
                    }
                    assert(metrics_views(out@) =~= done + (front + here));
                }
            }
        }
    }
    out
}

// ── Spans ───────────────────────────────────────────────────────────────────

/// The event of a span that a document writes.
pub open spec fn event_of(e: JsonModel) -> EventModel {
    EventModel {
        timestamp_ns: time_of(e, "timeUnixNano"@, 0),
        name: text_or_empty(member(e, "name"@)),
        attributes: attrs_of(member(e, "attributes"@)),
    }
}

/// The events of a span.
pub open spec fn span_events(v: Option<JsonModel>) -> Seq<EventModel> {
    match as_items(v) {
        Some(a) => Seq::new(a.len(), |i: int| event_of(a[i])),
        None => Seq::empty(),
    }
}

/// The link of a span that a document writes; none without both identifiers.
pub open spec fn link_of(l: JsonModel) -> Option<LinkModel> {
    match (id_of(l, "traceId"@, 16), id_of(l, "spanId"@, 8)) {
        (Some(trace_id), Some(span_id)) => Some(
            LinkModel {
                trace_id,
                span_id,
                trace_state: text_or_empty(member(l, "traceState"@)),
                attributes: attrs_of(member(l, "attributes"@)),
            },
        ),
        _ => None,
    }
}

/// The links of the first `n` items of a list.
pub open spec fn links_in(a: Seq<JsonModel>, n: nat) -> Seq<LinkModel>
    decreases n,
{
    if n == 0 {
        Seq::empty()
    } else {
        match link_of(a[n - 1]) {
            Some(l) => links_in(a, (n - 1) as nat).push(l),
            None => links_in(a, (n - 1) as nat),
        }
    }
}

/// The links of a span.
pub open spec fn span_links(v: Option<JsonModel>) -> Seq<LinkModel> {
    match as_items(v) {
        Some(a) => links_in(a, a.len()),
        None => Seq::empty(),
    }
}

/// The time from start to end, 0 if the end comes first.
pub open spec fn duration(start: u64, end: u64) -> u64 {
    if end < start {
        0
    } else {
        (end - start) as u64
    }
}

/// The span that an item gives; none without both identifiers.
pub open spec fn spans_of(span: JsonModel, resource: Attrs, scope: ScopeModel, url: Seq<char>) -> Seq<SpanModel> {
    let start = time_of(span, "startTimeUnixNano"@, 0);
    let end = time_of(span, "endTimeUnixNano"@, 0);
    match (id_of(span, "traceId"@, 16), id_of(span, "spanId"@, 8)) {
        (Some(trace_id), Some(span_id)) => seq![
            SpanModel {
                trace_id,
                span_id,
                parent_span_id: id_of(span, "parentSpanId"@, 8),
                name: text_or_empty(member(span, "name"@)),
                kind: small_of(member(span, "kind"@)),
                start_time_ns: start,
                end_time_ns: end,
                duration_ns: duration(start, end),
                status_code: small_of(inner(span, "status"@, "code"@)),
                status_message: text_or_empty(inner(span, "status"@, "message"@)),
                attributes: attrs_of(member(span, "attributes"@)),
                resource_attributes: resource,
                scope,
                events: span_events(member(span, "events"@)),
                links: span_links(member(span, "links"@)),
                schema_url: url,
            },
        ],
        _ => Seq::empty(),
    }
}

fn decode_events(v: Option<&JsonValue>) -> (out: Vec<SpanEvent>)
    ensures
        events_view(out@) == span_events(opt_json(v)),
{
    let mut out: Vec<SpanEvent> = Vec::new();
    assert(events_view(out@) =~= Seq::empty());
    if let Some(a) = items(v) {
        let n: usize = a.len();
        let ghost models = items_view(*a, n as nat);
        proof {
            items_view_is_pointwise(*a, n as nat);
        }
        for i in 0..n
            invariant
                n == a@.len(),
                models == items_view(*a, n as nat),
                models.len() == n,
                forall|k: int| 0 <= k < n ==> #[trigger] models[k] == a@[k]@,
                events_view(out@) =~= Seq::new(i as nat, |k: int| event_of(models[k])),
        {
            assert(models[i as int] == a@[i as int]@);
            let e = &a[i];
            let ghost before = events_view(out@);
            let event = SpanEvent {
                timestamp_ns: time(e, "timeUnixNano", 0),
                name: owned_text(get(e, "name")),
                attributes: decode_attrs(get(e, "attributes")),
            };
            let ghost m = event@;
            out.push(event);
            assert(events_view(out@) =~= before.push(m));
        }
    }
    out
}

fn decode_links(v: Option<&JsonValue>) -> (out: Vec<SpanLink>)
    ensures
        links_view(out@) == span_links(opt_json(v)),
{
    let mut out: Vec<SpanLink> = Vec::new();
    assert(links_view(out@) =~= Seq::empty());
    if let Some(a) = items(v) {
        let n: usize = a.len();
        let ghost models = items_view(*a, n as nat);
        proof {
            items_view_is_pointwise(*a, n as nat);
        }
        for i in 0..n
            invariant
                n == a@.len(),
                models == items_view(*a, n as nat),
                models.len() == n,
                forall|k: int| 0 <= k < n ==> #[trigger] models[k] == a@[k]@,
                links_view(out@) == links_in(models, i as nat),
        {
            assert(models[i as int] == a@[i as int]@);
            let l = &a[i];
            let ghost before = links_view(out@);
            match (id16(l, "traceId"), id8(l, "spanId")) {
                (Some(trace_id), Some(span_id)) => {
                    let link = SpanLink {
                        trace_id,
                        span_id,
                        trace_state: owned_text(get(l, "traceState")),
                        attributes: decode_attrs(get(l, "attributes")),
                    };
                    let ghost m = link@;
                    out.push(link);
                    assert(links_view(out@) =~= before.push(m));
                },
                _ => {},
            }
        }
    }
    out
}

fn add_spans(
    span: &JsonValue,
    resource: &Vec<(String, AnyValue)>,
    scope: &InstrumentationScope,
    url: &str,
    out: &mut Vec<SpanRecord>,
)
    ensures
        spans_views(final(out)@) == spans_views(old(out)@) + spans_of(
            span@,
            attrs_view(resource@),
            scope@,
            url@,
        ),
{
    let ghost first = spans_views(out@);
    assert(first + Seq::empty() =~= first);
    let trace_id = match id16(span, "traceId") {
        Some(id) => id,
        None => {
            return;
        },
    };
    let span_id = match id8(span, "spanId") {
        Some(id) => id,
        None => {
            return;
        },
    };
    let start: u64 = time(span, "startTimeUnixNano", 0);
    let end: u64 = time(span, "endTimeUnixNano", 0);
    let status = get(span, "status");
    let r = SpanRecord {
        trace_id,
        span_id,
        parent_span_id: id8(span, "parentSpanId"),
        name: owned_text(get(span, "name")),
        kind: small(get(span, "kind")),
        start_time_ns: start,
        end_time_ns: end,
        duration_ns: end.saturating_sub(start),
        status_code: small(get_in(status, "code")),
        status_message: owned_text(get_in(status, "message")),
        attributes: decode_attrs(get(span, "attributes")),
        resource_attributes: duplicate_attrs(resource),
        scope: scope.duplicate(),
        events: decode_events(get(span, "events")),
        links: decode_links(get(span, "links")),
        schema_url: url.to_string(),
    };
    let ghost m = r@;
    out.push(r);
    assert(spans_views(out@) =~= first + seq![m]);
    assert(spans_of(span@, attrs_view(resource@), scope@, url@) =~= seq![m]);
}

/// The spans of the first `n` items of a scope.
pub open spec fn spans_in(a: Seq<JsonModel>, n: nat, resource: Attrs, scope: ScopeModel, url: Seq<char>) -> Seq<SpanModel>
    decreases n,
{
    if n == 0 {
        Seq::empty()
    } else {
        spans_in(a, (n - 1) as nat, resource, scope, url) + spans_of(a[n - 1], resource, scope, url)
    }
}

/// The spans of the first `n` scopes of a resource.
pub open spec fn spans_in_scopes(a: Seq<JsonModel>, n: nat, resource: Attrs) -> Seq<SpanModel>
    decreases n,
{
    if n == 0 {
        Seq::empty()
    } else {
        let s = a[n - 1];
        spans_in_scopes(a, (n - 1) as nat, resource) + match as_items(member(s, "spans"@)) {
            Some(list) => spans_in(
                list,
                list.len(),
                resource,
                scope_of(member(s, "scope"@)),
                text_or_empty(member(s, "schemaUrl"@)),
            ),
            None => Seq::empty(),
        }
    }
}

/// The spans of the first `n` resources.
pub open spec fn spans_in_resources(a: Seq<JsonModel>, n: nat) -> Seq<SpanModel>
    decreases n,
{
    if n == 0 {
        Seq::empty()
    } else {
        let r = a[n - 1];
        spans_in_resources(a, (n - 1) as nat) + match as_items(member(r, "scopeSpans"@)) {
            Some(list) => spans_in_scopes(list, list.len(), resource_of(r)),
            None => Seq::empty(),
        }
    }
}

/// The spans of a document.
pub open spec fn spans_in_document(v: JsonModel) -> Seq<SpanModel> {
    match as_items(member(v, "resourceSpans"@)) {
        Some(list) => spans_in_resources(list, list.len()),
        None => Seq::empty(),
    }
}

fn decode_spans_list(
    a: &Vec<JsonValue>,
    resource: &Vec<(String, AnyValue)>,
    scope: &InstrumentationScope,
    url: &str,
    out: &mut Vec<SpanRecord>,
)
    ensures
        spans_views(final(out)@) == spans_views(old(out)@) + spans_in(
            items_view(*a, a@.len()),
            a@.len(),
            attrs_view(resource@),
            scope@,
            url@,
        ),
{
    let n: usize = a.len();
    let ghost models = items_view(*a, n as nat);
    let ghost start = spans_views(out@);
    proof {
        items_view_is_pointwise(*a, n as nat);
    }
    assert(start + Seq::empty() =~= start);
    for i in 0..n
        invariant
            n == a@.len(),
            models == items_view(*a, n as nat),
            models.len() == n,
            forall|k: int| 0 <= k < n ==> #[trigger] models[k] == a@[k]@,
            spans_views(out@) == start + spans_in(
                models,
                i as nat,
                attrs_view(resource@),
                scope@,
                url@,
            ),
    {
        assert(models[i as int] == a@[i as int]@);
        let ghost front = spans_in(models, i as nat, attrs_view(resource@), scope@, url@);
        add_spans(&a[i], resource, scope, url, out);
        assert(spans_views(out@) =~= start + (front + spans_of(
            models[i as int],
            attrs_view(resource@),
            scope@,
            url@,
        )));
    }
}

/// Reads the spans of a document.
pub fn decode_spans(json: &JsonValue) -> (out: Vec<SpanRecord>)
    ensures
        spans_views(out@) == spans_in_document(json@),
{
    let mut out: Vec<SpanRecord> = Vec::new();
    assert(spans_views(out@) =~= Seq::empty());
    let resources = match items(get(json, "resourceSpans")) {
        Some(a) => a,
        None => {
            return out;
        },
    };
    let n: usize = resources.len();
    let ghost models = items_view(*resources, n as nat);
    proof {
        items_view_is_pointwise(*resources, n as nat);
    }
    for i in 0..n
        invariant
            n == resources@.len(),
            models == items_view(*resources, n as nat),
            models.len() == n,
            forall|k: int| 0 <= k < n ==> #[trigger] models[k] == resources@[k]@,
            spans_views(out@) == spans_in_resources(models, i as nat),
    {
        assert(models[i as int] == resources@[i as int]@);
        let r = &resources[i];
        let ghost done = spans_views(out@);
        let resource = decode_resource(r);
        assert(done + Seq::empty() =~= done);
        if let Some(scopes) = items(get(r, "scopeSpans")) {
            let m: usize = scopes.len();
            let ghost inner_models = items_view(*scopes, m as nat);
            proof {
                items_view_is_pointwise(*scopes, m as nat);
            }
            for j in 0..m
                invariant
                    m == scopes@.len(),
                    inner_models == items_view(*scopes, m as nat),
                    inner_models.len() == m,
                    forall|k: int| 0 <= k < m ==> #[trigger] inner_models[k] == scopes@[k]@,
                    spans_views(out@) == done + spans_in_scopes(
                        inner_models,
                        j as nat,
                        attrs_view(resource@),
                    ),
            {
                assert(inner_models[j as int] == scopes@[j as int]@);
                let s = &scopes[j];
                let ghost front = spans_in_scopes(inner_models, j as nat, attrs_view(resource@));
                assert(done + (front + Seq::empty()) =~= done + front);
                let ghost here = match as_items(member(s@, "spans"@)) {
                    Some(list) => spans_in(
                        list,
                        list.len(),
                        attrs_view(resource@),
                        scope_of(member(s@, "scope"@)),
                        text_or_empty(member(s@, "schemaUrl"@)),
                    ),
                    None => Seq::empty(),
                };
                assert(spans_in_scopes(inner_models, (j + 1) as nat, attrs_view(resource@)) == front
                    + here);
                if let Some(list) = items(get(s, "spans")) {
                    let scope = decode_scope(get(s, "scope"));
                    let url = owned_text(get(s, "schemaUrl"));
                    decode_spans_list(list, &resource, &scope, url.as_str(), &mut out);
                    proof {
                        items_view_is_pointwise(*list, list@.len());
                    }
                    assert(spans_views(out@) =~= done + (front + here));
                }
            }
        }
    }
    out
}

} // verus!
