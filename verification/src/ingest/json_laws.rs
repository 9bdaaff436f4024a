//! What the JSON decoder keeps of the documents that it is given.

use crate::common::model::{
    collect_attrs, AnyModel, EventModel, LinkModel, LogModel, MetricModel, MetricType, ScopeModel,
    SpanModel,
};
use crate::common::lists::{adds, lists_stand_in_order, total};
use crate::float::{signed_bits, unsigned_bits};
use crate::ingest::hex::hex_bytes;
use crate::ingest::json_decoder::{
    any_list, any_of, attrs_of, links_in, logs_in, logs_in_document, logs_in_resources,
    logs_in_scopes, logs_of, metrics_in, metrics_in_document,
    metrics_in_resources, metrics_in_scopes, metrics_of, pairs_of, points_in, resource_of, scope_of,
    spans_in, spans_in_document, spans_in_resources, spans_in_scopes, spans_of, Attrs,
};
use crate::ingest::laws::{holds, nothing_given_changes_nothing, setting_gives_a_pair};
use crate::json::{first_member, member, text_or_empty, JsonModel};
use crate::text::{i64_of, u64_of};
use vstd::prelude::*;

verus! {

// ── Members ─────────────────────────────────────────────────────────────────

/// Whether the first member with a name stands at `i`.
pub open spec fn first_named(o: Seq<(Seq<char>, JsonModel)>, key: Seq<char>, i: int) -> bool {
    &&& 0 <= i < o.len()
    &&& o[i].0 == key
    &&& forall|j: int| 0 <= j < i ==> (#[trigger] o[j]).0 != key
}

proof fn lemma_first_member(o: Seq<(Seq<char>, JsonModel)>, key: Seq<char>, i: nat)
    requires
        i <= o.len(),
        forall|j: int| 0 <= j < i ==> (#[trigger] o[j]).0 != key,
    ensures
        match first_member(o, key, i) {
            Some(x) => exists|k: int| #[trigger] first_named(o, key, k) && o[k].1 == x,
            None => forall|j: int| 0 <= j < o.len() ==> (#[trigger] o[j]).0 != key,
        },
    decreases o.len() - i,
{
    if i < o.len() {
        if o[i as int].0 == key {
            assert(first_named(o, key, i as int));
        } else {
            lemma_first_member(o, key, i + 1);
        }
    }
}

/// The member of an object with a name is the first with that name; without one, and
/// outside of objects, there is none.
pub proof fn member_is_the_first(v: JsonModel, key: Seq<char>)
    ensures
        match (v, member(v, key)) {
            (JsonModel::Object(o), Some(x)) => exists|k: int| #[trigger]
                first_named(o, key, k) && o[k].1 == x,
            (JsonModel::Object(o), None) => forall|j: int|
                0 <= j < o.len() ==> (#[trigger] o[j]).0 != key,
            (_, found) => found is None,
        },
{
    match v {
        JsonModel::Object(o) => {
            lemma_first_member(o, key, 0);
        },
        _ => {},
    }
}

/// The text under a name, or the empty one.
pub open spec fn text_at(v: JsonModel, key: Seq<char>) -> Seq<char> {
    match member(v, key) {
        Some(JsonModel::Text(s)) => s,
        _ => Seq::empty(),
    }
}

/// The items under a name, or none.
pub open spec fn list_at(v: JsonModel, key: Seq<char>) -> Seq<JsonModel> {
    match member(v, key) {
        Some(JsonModel::Array(a)) => a,
        _ => Seq::empty(),
    }
}

/// The time under a name: a whole number, or a text that writes one. Anything else is 0,
/// and a time that is not there is the given one.
pub open spec fn time_at(v: JsonModel, key: Seq<char>, missing: u64) -> u64 {
    match member(v, key) {
        Some(JsonModel::Pos(n)) => n,
        Some(JsonModel::Text(s)) => match u64_of(s) {
            Some(n) => n,
            None => 0,
        },
        Some(_) => 0,
        None => missing,
    }
}

/// The whole number that a value is, if it is one.
pub open spec fn whole(v: Option<JsonModel>) -> Option<i64> {
    match v {
        Some(JsonModel::Pos(n)) => if n <= i64::MAX {
            Some(n as i64)
        } else {
            None
        },
        Some(JsonModel::Neg(n)) => Some(n),
        _ => None,
    }
}

/// The number of 32 bits under a name, or 0.
pub open spec fn small_at(v: JsonModel, key: Seq<char>) -> i32 {
    match whole(member(v, key)) {
        Some(n) => n as i32,
        None => 0,
    }
}

/// The floating-point number under a name, if there is a number.
pub open spec fn float_at(v: JsonModel, key: Seq<char>) -> Option<u64> {
    match member(v, key) {
        Some(JsonModel::Float(b)) => Some(b),
        Some(JsonModel::Pos(n)) => Some(unsigned_bits(n)),
        Some(JsonModel::Neg(n)) => Some(signed_bits(n)),
        _ => None,
    }
}

/// The bytes that the text under a name writes in hexadecimal, if it writes `n` bytes.
pub open spec fn id_at(v: JsonModel, key: Seq<char>, n: nat) -> Option<Seq<u8>> {
    match member(v, key) {
        Some(JsonModel::Text(s)) => hex_bytes(s, n),
        _ => None,
    }
}

/// The value under a name, or a null.
pub open spec fn value_at(v: JsonModel, key: Seq<char>) -> JsonModel {
    match member(v, key) {
        Some(x) => x,
        None => JsonModel::Null,
    }
}

// ── Attributes ──────────────────────────────────────────────────────────────

/// The pairs that a list of attributes gives. One without a key gives none, and one without
/// a value the empty text.
pub open spec fn given_members(a: Seq<JsonModel>) -> Seq<Option<(Seq<char>, AnyModel)>> {
    Seq::new(
        a.len(),
        |i: int|
            match member(a[i], "key"@) {
                Some(JsonModel::Text(k)) => Some(
                    (
                        k,
                        match member(a[i], "value"@) {
                            Some(v) => any_of(v),
                            None => AnyModel::String(Seq::empty()),
                        },
                    ),
                ),
                _ => None,
            },
    )
}

proof fn lemma_pairs(a: Seq<JsonModel>, n: nat)
    requires
        n <= a.len(),
    ensures
        holds(collect_attrs(pairs_of(a, n)), given_members(a).take(n as int)),
    decreases n,
{
    let given = given_members(a);
    if n == 0 {
        assert(pairs_of(a, n).len() == 0);
        assert(collect_attrs(pairs_of(a, n)).len() == 0);
    } else {
        let m = (n - 1) as nat;
        lemma_pairs(a, m);
        let before = collect_attrs(pairs_of(a, m));
        match given[m as int] {
            Some(p) => {
                setting_gives_a_pair(before, given.take(m as int), p.0, p.1);
                assert(given.take(n as int) =~= given.take(m as int).push(Some((p.0, p.1))));
                assert(pairs_of(a, n).drop_last() =~= pairs_of(a, m));
            },
            None => {
                nothing_given_changes_nothing(before, given.take(m as int));
                assert(given.take(n as int) =~= given.take(m as int).push(None));
            },
        }
    }
}

/// The attributes under a name are the pairs that stand there: each key has the last value
/// that was given for it, and there is no other key.
pub proof fn members_are_those_given(v: JsonModel, key: Seq<char>)
    ensures
        holds(attrs_of(member(v, key)), given_members(list_at(v, key))),
{
    let a = list_at(v, key);
    lemma_pairs(a, a.len());
    assert(given_members(a).take(a.len() as int) =~= given_members(a));
    if a.len() == 0 {
        assert(pairs_of(a, a.len()).len() == 0);
        assert(collect_attrs(pairs_of(a, a.len())) =~= Seq::empty());
        assert(attrs_of(member(v, key)) =~= Seq::empty());
    }
}

proof fn lemma_any_list(a: Seq<JsonModel>, n: nat)
    requires
        n <= a.len(),
    ensures
        any_list(a, n).len() == n,
        forall|i: int| 0 <= i < n ==> #[trigger] any_list(a, n)[i] == any_of(a[i]),
    decreases n,
{
    if n > 0 {
        lemma_any_list(a, (n - 1) as nat);
    }
}

/// A value is what stands under the name of its type, looked for in the order text, truth
/// value, whole number, number, list. A whole number may be written as a text. Anything else
/// is the empty text.
pub proof fn json_values_are_kept(v: JsonModel)
    ensures
        member(v, "stringValue"@) matches Some(JsonModel::Text(s)) ==> any_of(v)
            == AnyModel::String(s),
        !(member(v, "stringValue"@) matches Some(JsonModel::Text(_))) ==> match member(
            v,
            "boolValue"@,
        ) {
            Some(JsonModel::Bool(b)) => any_of(v) == AnyModel::Bool(b),
            _ => match member(v, "intValue"@) {
                Some(JsonModel::Text(s)) => any_of(v) == AnyModel::Int(
                    match i64_of(s) {
                        Some(n) => n,
                        None => 0,
                    },
                ),
                Some(x) => any_of(v) == AnyModel::Int(
                    match whole(Some(x)) {
                        Some(n) => n,
                        None => 0,
                    },
                ),
                None => match float_at(v, "doubleValue"@) {
                    Some(b) => any_of(v) == AnyModel::Double(b),
                    None => {
                        match member(value_at(v, "arrayValue"@), "values"@) {
                            Some(JsonModel::Array(a)) => any_of(v) matches AnyModel::Array(l)
                                && l.len() == a.len() && forall|i: int|
                                0 <= i < l.len() ==> #[trigger] l[i] == any_of(a[i]),
                            _ => any_of(v) matches AnyModel::String(s) && s.len() == 0,
                        }
                    },
                },
            },
        },
{
    match member(value_at(v, "arrayValue"@), "values"@) {
        Some(JsonModel::Array(a)) => {
            lemma_any_list(a, a.len());
        },
        _ => {},
    }
}

/// Whether a scope is the one of a document; without one, it is empty.
pub open spec fn is_json_scope(out: ScopeModel, v: Option<JsonModel>) -> bool {
    match v {
        Some(s) => out.name == text_at(s, "name"@) && out.version == text_at(s, "version"@) && holds(
            out.attributes,
            given_members(list_at(s, "attributes"@)),
        ),
        None => out.name.len() == 0 && out.version.len() == 0 && out.attributes.len() == 0,
    }
}

proof fn lemma_json_scope(v: Option<JsonModel>)
    ensures
        is_json_scope(scope_of(v), v),
{
    match v {
        Some(s) => {
            members_are_those_given(s, "attributes"@);
        },
        None => {},
    }
}

/// The list of the attributes of the resource of an item of a document.
pub open spec fn resource_members(r: JsonModel) -> Seq<JsonModel> {
    list_at(value_at(r, "resource"@), "attributes"@)
}

/// The resource attributes are the pairs of the resource, and without a resource there are
/// none.
pub proof fn json_resource_attributes_are_those_given(r: JsonModel)
    ensures
        holds(resource_of(r), given_members(resource_members(r))),
{
    members_are_those_given(value_at(r, "resource"@), "attributes"@);
}

// ── Logs ────────────────────────────────────────────────────────────────────

/// How many log records a record of a document makes.
pub open spec fn logs_in_record() -> spec_fn(JsonModel) -> nat {
    |p: JsonModel| 1
}

proof fn lemma_logs_count(p: JsonModel, resource: Attrs, scope: ScopeModel, url: Seq<char>)
    ensures
        logs_of(p, resource, scope, url).len() == logs_in_record()(p),
{
}

/// How many log records the records of a scope make.
pub open spec fn logs_in_scope() -> spec_fn(JsonModel) -> nat {
    |s: JsonModel| total(list_at(s, "logRecords"@), logs_in_record(), list_at(s, "logRecords"@).len())
}

/// How many log records the scopes of a resource make.
pub open spec fn logs_in_resource() -> spec_fn(JsonModel) -> nat {
    |r: JsonModel|
        total(list_at(r, "scopeLogs"@), logs_in_scope(), list_at(r, "scopeLogs"@).len())
}

proof fn lemma_logs_in(
    a: Seq<JsonModel>,
    resource: Attrs,
    scope: ScopeModel,
    url: Seq<char>,
    k: int,
    l: int,
)
    ensures
        logs_in(a, a.len(), resource, scope, url).len() == total(a, logs_in_record(), a.len()),
        0 <= k < a.len() && 0 <= l < logs_in_record()(a[k]) ==> {
            let at = total(a, logs_in_record(), k as nat) + l;
            let out = logs_in(a, a.len(), resource, scope, url);
            at < out.len() && out[at] == logs_of(a[k], resource, scope, url)[l]
        },
{
    let all = |n: nat| logs_in(a, n, resource, scope, url);
    let own = |p: JsonModel| logs_of(p, resource, scope, url);
    assert forall|m: nat| 0 < m <= a.len() implies #[trigger] adds(
        a,
        all,
        own,
        logs_in_record(),
        m,
    ) by {
        lemma_logs_count(a[m - 1], resource, scope, url);
    }
    lists_stand_in_order(a, all, own, logs_in_record(), a.len(), k, l);
}

proof fn lemma_logs_in_scopes(a: Seq<JsonModel>, resource: Attrs, j: int, k: int, l: int)
    ensures
        logs_in_scopes(a, a.len(), resource).len() == total(a, logs_in_scope(), a.len()),
        0 <= j < a.len() && 0 <= k < list_at(a[j], "logRecords"@).len() && 0 <= l < logs_in_record()(
            list_at(a[j], "logRecords"@)[k],
        ) ==> {
            let list = list_at(a[j], "logRecords"@);
            let at = total(a, logs_in_scope(), j as nat) + total(list, logs_in_record(), k as nat) + l;
            let out = logs_in_scopes(a, a.len(), resource);
            at < out.len() && out[at] == logs_of(
                list[k],
                resource,
                scope_of(member(a[j], "scope"@)),
                text_or_empty(member(a[j], "schemaUrl"@)),
            )[l]
        },
{
    let all = |n: nat| logs_in_scopes(a, n, resource);
    let own = |s: JsonModel|
        logs_in(
            list_at(s, "logRecords"@),
            list_at(s, "logRecords"@).len(),
            resource,
            scope_of(member(s, "scope"@)),
            text_or_empty(member(s, "schemaUrl"@)),
        );
    assert forall|m: nat| 0 < m <= a.len() implies #[trigger] adds(
        a,
        all,
        own,
        logs_in_scope(),
        m,
    ) by {
        let s = a[m - 1];
        lemma_logs_in(
            list_at(s, "logRecords"@),
            resource,
            scope_of(member(s, "scope"@)),
            text_or_empty(member(s, "schemaUrl"@)),
            0,
            0,
        );
        assert(all(m) =~= all((m - 1) as nat) + own(s));
    }
    if 0 <= j < a.len() && 0 <= k < list_at(a[j], "logRecords"@).len() && 0 <= l < logs_in_record()(
        list_at(a[j], "logRecords"@)[k],
    ) {
        let s = a[j];
        lemma_logs_in(
            list_at(s, "logRecords"@),
            resource,
            scope_of(member(s, "scope"@)),
            text_or_empty(member(s, "schemaUrl"@)),
            k,
            l,
        );
        let within = total(list_at(s, "logRecords"@), logs_in_record(), k as nat) + l;
        lists_stand_in_order(a, all, own, logs_in_scope(), a.len(), j, within);
    } else {
        lists_stand_in_order(a, all, own, logs_in_scope(), a.len(), 0, -1);
    }
}

/// Whether record `k` of scope `j` of resource `i` stands in a document.
pub open spec fn has_logs(v: JsonModel, i: int, j: int, k: int) -> bool {
    &&& 0 <= i < list_at(v, "resourceLogs"@).len()
    &&& 0 <= j < list_at(list_at(v, "resourceLogs"@)[i], "scopeLogs"@).len()
    &&& 0 <= k < list_at(list_at(list_at(v, "resourceLogs"@)[i], "scopeLogs"@)[j], "logRecords"@).len()
}

/// Where in the result the log records of record `k` of scope `j` of resource `i` begin.
pub open spec fn logs_place(v: JsonModel, i: int, j: int, k: int) -> nat {
    let all = list_at(v, "resourceLogs"@);
    let scopes = list_at(all[i], "scopeLogs"@);
    total(all, logs_in_resource(), i as nat) + total(scopes, logs_in_scope(), j as nat) + total(
        list_at(scopes[j], "logRecords"@),
        logs_in_record(),
        k as nat,
    )
}

proof fn lemma_logs_in_document(v: JsonModel, i: int, j: int, k: int, l: int)
    requires
        has_logs(v, i, j, k),
        0 <= l < logs_in_record()(
            list_at(list_at(list_at(v, "resourceLogs"@)[i], "scopeLogs"@)[j], "logRecords"@)[k],
        ),
    ensures
        ({
            let out = logs_in_document(v);
            let at = logs_place(v, i, j, k) + l;
            let all = list_at(v, "resourceLogs"@);
            let s = list_at(all[i], "scopeLogs"@)[j];
            &&& out.len() == total(all, logs_in_resource(), all.len())
            &&& at < out.len()
            &&& out[at] == logs_of(
                list_at(s, "logRecords"@)[k],
                resource_of(all[i]),
                scope_of(member(s, "scope"@)),
                text_or_empty(member(s, "schemaUrl"@)),
            )[l]
        }),
{
    let list = list_at(v, "resourceLogs"@);
    let all = |n: nat| logs_in_resources(list, n);
    let own = |r: JsonModel|
        logs_in_scopes(
            list_at(r, "scopeLogs"@),
            list_at(r, "scopeLogs"@).len(),
            resource_of(r),
        );
    assert forall|m: nat| 0 < m <= list.len() implies #[trigger] adds(
        list,
        all,
        own,
        logs_in_resource(),
        m,
    ) by {
        let r = list[m - 1];
        lemma_logs_in_scopes(list_at(r, "scopeLogs"@), resource_of(r), -1, 0, 0);
        assert(all(m) =~= all((m - 1) as nat) + own(r));
    }
    let r = list[i];
    let scopes = list_at(r, "scopeLogs"@);
    lemma_logs_in_scopes(scopes, resource_of(r), j, k, l);
    let within = total(scopes, logs_in_scope(), j as nat) + total(
        list_at(scopes[j], "logRecords"@),
        logs_in_record(),
        k as nat,
    ) + l;
    lists_stand_in_order(list, all, own, logs_in_resource(), list.len(), i, within);
}

/// Whether a log record is that of a document: its own fields from the record, its resource
/// attributes from the resource, and its scope and schema from the scope that it stands in.
/// A record that was not observed was observed when it happened.
pub open spec fn is_json_log(out: LogModel, p: JsonModel, s: JsonModel, r: JsonModel) -> bool {
    &&& out.timestamp_ns == time_at(p, "timeUnixNano"@, 0)
    &&& out.observed_timestamp_ns == time_at(p, "observedTimeUnixNano"@, out.timestamp_ns)
    &&& out.trace_id == id_at(p, "traceId"@, 16)
    &&& out.span_id == id_at(p, "spanId"@, 8)
    &&& out.severity_number == small_at(p, "severityNumber"@)
    &&& out.severity_text == text_at(p, "severityText"@)
    &&& match member(p, "body"@) {
        Some(b) => out.body == Some(any_of(b)),
        None => out.body is None,
    }
    &&& holds(out.attributes, given_members(list_at(p, "attributes"@)))
    &&& holds(out.resource_attributes, given_members(resource_members(r)))
    &&& is_json_scope(out.scope, member(s, "scope"@))
    &&& out.schema_url == text_at(s, "schemaUrl"@)
}

/// Every log record of a document comes out once, in the order of the document, as itself:
/// with its own fields, and with the attributes of its own resource, whatever the record
/// holds.
pub proof fn every_json_log_is_kept(v: JsonModel, i: int, j: int, k: int)
    requires
        has_logs(v, i, j, k),
    ensures
        ({
            let all = list_at(v, "resourceLogs"@);
            let s = list_at(all[i], "scopeLogs"@)[j];
            let out = logs_in_document(v);
            let at = logs_place(v, i, j, k);
            &&& out.len() == total(all, logs_in_resource(), all.len())
            &&& at < out.len()
            &&& is_json_log(out[at as int], list_at(s, "logRecords"@)[k], s, all[i])
        }),
{
    lemma_logs_in_document(v, i, j, k, 0);
    let r = list_at(v, "resourceLogs"@)[i];
    let s = list_at(r, "scopeLogs"@)[j];
    let p = list_at(s, "logRecords"@)[k];
    json_resource_attributes_are_those_given(r);
    members_are_those_given(p, "attributes"@);
    lemma_json_scope(member(s, "scope"@));
}

// ── Metrics ─────────────────────────────────────────────────────────────────

/// The points of a gauge of a metric of a document.
pub open spec fn gauge_points(m: JsonModel) -> Seq<JsonModel> {
    list_at(value_at(m, "gauge"@), "dataPoints"@)
}

/// The points of a sum of a metric of a document.
pub open spec fn sum_points(m: JsonModel) -> Seq<JsonModel> {
    list_at(value_at(m, "sum"@), "dataPoints"@)
}

/// How many points a metric of a document has. Only gauges and sums are read.
pub open spec fn points_in_metric() -> spec_fn(JsonModel) -> nat {
    |m: JsonModel| gauge_points(m).len() + sum_points(m).len()
}

proof fn lemma_points(
    a: Seq<JsonModel>,
    n: nat,
    m: JsonModel,
    t: MetricType,
    resource: Attrs,
    scope: ScopeModel,
    url: Seq<char>,
)
    requires
        n <= a.len(),
    ensures
        points_in(a, n, m, t, resource, scope, url).len() == n,
        forall|i: int|
            0 <= i < n ==> {
                let out = #[trigger] points_in(a, n, m, t, resource, scope, url)[i];
                &&& is_json_number(out, a[i])
                &&& is_named_after(out, m)
                &&& out.metric_type == t
                &&& out.resource_attributes == resource
                &&& out.scope == scope
                &&& out.schema_url == url
            },
    decreases n,
{
    if n > 0 {
        lemma_points(a, (n - 1) as nat, m, t, resource, scope, url);
        members_are_those_given(a[n - 1], "attributes"@);
    }
}

/// Whether a metric point has the name of its metric.
pub open spec fn is_named_after(out: MetricModel, m: JsonModel) -> bool {
    &&& out.name == text_at(m, "name"@)
    &&& out.description == text_at(m, "description"@)
    &&& out.unit == text_at(m, "unit"@)
}

/// Whether a metric point is that of a document.
pub open spec fn is_json_number(out: MetricModel, dp: JsonModel) -> bool {
    &&& out.timestamp_ns == time_at(dp, "timeUnixNano"@, 0)
    &&& out.start_timestamp_ns == time_at(dp, "startTimeUnixNano"@, 0)
    &&& out.value_double == float_at(dp, "asDouble"@)
    &&& out.value_int == whole(member(dp, "asInt"@))
    &&& out.histogram is None
    &&& holds(out.attributes, given_members(list_at(dp, "attributes"@)))
}

proof fn lemma_metrics_of(m: JsonModel, resource: Attrs, scope: ScopeModel, url: Seq<char>)
    ensures
        metrics_of(m, resource, scope, url).len() == points_in_metric()(m),
        forall|l: int|
            0 <= l < points_in_metric()(m) ==> {
                let out = #[trigger] metrics_of(m, resource, scope, url)[l];
                &&& is_json_point(out, m, l)
                &&& out.resource_attributes == resource
                &&& out.scope == scope
                &&& out.schema_url == url
            },
{
    let gauge = gauge_points(m);
    lemma_points(gauge, gauge.len(), m, MetricType::Gauge, resource, scope, url);
    let sum = sum_points(m);
    match member(m, "sum"@) {
        Some(x) => {
            lemma_points(
                sum,
                sum.len(),
                m,
                crate::ingest::json_decoder::sum_type(x),
                resource,
                scope,
                url,
            );
        },
        None => {},
    }
}

proof fn lemma_metrics_count(m: JsonModel, resource: Attrs, scope: ScopeModel, url: Seq<char>)
    ensures
        metrics_of(m, resource, scope, url).len() == points_in_metric()(m),
{
    lemma_metrics_of(m, resource, scope, url);
}

/// How many points the records of a scope make.
pub open spec fn metrics_in_scope() -> spec_fn(JsonModel) -> nat {
    |s: JsonModel| total(list_at(s, "metrics"@), points_in_metric(), list_at(s, "metrics"@).len())
}

/// How many points the scopes of a resource make.
pub open spec fn metrics_in_resource() -> spec_fn(JsonModel) -> nat {
    |r: JsonModel|
        total(list_at(r, "scopeMetrics"@), metrics_in_scope(), list_at(r, "scopeMetrics"@).len())
}

proof fn lemma_metrics_in(
    a: Seq<JsonModel>,
    resource: Attrs,
    scope: ScopeModel,
    url: Seq<char>,
    k: int,
    l: int,
)
    ensures
        metrics_in(a, a.len(), resource, scope, url).len() == total(a, points_in_metric(), a.len()),
        0 <= k < a.len() && 0 <= l < points_in_metric()(a[k]) ==> {
            let at = total(a, points_in_metric(), k as nat) + l;
            let out = metrics_in(a, a.len(), resource, scope, url);
            at < out.len() && out[at] == metrics_of(a[k], resource, scope, url)[l]
        },
{
    let all = |n: nat| metrics_in(a, n, resource, scope, url);
    let own = |p: JsonModel| metrics_of(p, resource, scope, url);
    assert forall|m: nat| 0 < m <= a.len() implies #[trigger] adds(
        a,
        all,
        own,
        points_in_metric(),
        m,
    ) by {
        lemma_metrics_count(a[m - 1], resource, scope, url);
    }
    lists_stand_in_order(a, all, own, points_in_metric(), a.len(), k, l);
}

proof fn lemma_metrics_in_scopes(a: Seq<JsonModel>, resource: Attrs, j: int, k: int, l: int)
    ensures
        metrics_in_scopes(a, a.len(), resource).len() == total(a, metrics_in_scope(), a.len()),
        0 <= j < a.len() && 0 <= k < list_at(a[j], "metrics"@).len() && 0 <= l < points_in_metric()(
            list_at(a[j], "metrics"@)[k],
        ) ==> {
            let list = list_at(a[j], "metrics"@);
            let at = total(a, metrics_in_scope(), j as nat) + total(list, points_in_metric(), k as nat) + l;
            let out = metrics_in_scopes(a, a.len(), resource);
            at < out.len() && out[at] == metrics_of(
                list[k],
                resource,
                scope_of(member(a[j], "scope"@)),
                text_or_empty(member(a[j], "schemaUrl"@)),
            )[l]
        },
{
    let all = |n: nat| metrics_in_scopes(a, n, resource);
    let own = |s: JsonModel|
        metrics_in(
            list_at(s, "metrics"@),
            list_at(s, "metrics"@).len(),
            resource,
            scope_of(member(s, "scope"@)),
            text_or_empty(member(s, "schemaUrl"@)),
        );
    assert forall|m: nat| 0 < m <= a.len() implies #[trigger] adds(
        a,
        all,
        own,
        metrics_in_scope(),
        m,
    ) by {
        let s = a[m - 1];
        lemma_metrics_in(
            list_at(s, "metrics"@),
            resource,
            scope_of(member(s, "scope"@)),
            text_or_empty(member(s, "schemaUrl"@)),
            0,
            0,
        );
        assert(all(m) =~= all((m - 1) as nat) + own(s));
    }
    if 0 <= j < a.len() && 0 <= k < list_at(a[j], "metrics"@).len() && 0 <= l < points_in_metric()(
        list_at(a[j], "metrics"@)[k],
    ) {
        let s = a[j];
        lemma_metrics_in(
            list_at(s, "metrics"@),
            resource,
            scope_of(member(s, "scope"@)),
            text_or_empty(member(s, "schemaUrl"@)),
            k,
            l,
        );
        let within = total(list_at(s, "metrics"@), points_in_metric(), k as nat) + l;
        lists_stand_in_order(a, all, own, metrics_in_scope(), a.len(), j, within);
    } else {
        lists_stand_in_order(a, all, own, metrics_in_scope(), a.len(), 0, -1);
    }
}

/// Whether record `k` of scope `j` of resource `i` stands in a document.
pub open spec fn has_metrics(v: JsonModel, i: int, j: int, k: int) -> bool {
    &&& 0 <= i < list_at(v, "resourceMetrics"@).len()
    &&& 0 <= j < list_at(list_at(v, "resourceMetrics"@)[i], "scopeMetrics"@).len()
    &&& 0 <= k < list_at(list_at(list_at(v, "resourceMetrics"@)[i], "scopeMetrics"@)[j], "metrics"@).len()
}

/// Where in the result the points of record `k` of scope `j` of resource `i` begin.
pub open spec fn metrics_place(v: JsonModel, i: int, j: int, k: int) -> nat {
    let all = list_at(v, "resourceMetrics"@);
    let scopes = list_at(all[i], "scopeMetrics"@);
    total(all, metrics_in_resource(), i as nat) + total(scopes, metrics_in_scope(), j as nat) + total(
        list_at(scopes[j], "metrics"@),
        points_in_metric(),
        k as nat,
    )
}

proof fn lemma_metrics_in_document(v: JsonModel, i: int, j: int, k: int, l: int)
    requires
        has_metrics(v, i, j, k),
        0 <= l < points_in_metric()(
            list_at(list_at(list_at(v, "resourceMetrics"@)[i], "scopeMetrics"@)[j], "metrics"@)[k],
        ),
    ensures
        ({
            let out = metrics_in_document(v);
            let at = metrics_place(v, i, j, k) + l;
            let all = list_at(v, "resourceMetrics"@);
            let s = list_at(all[i], "scopeMetrics"@)[j];
            &&& out.len() == total(all, metrics_in_resource(), all.len())
            &&& at < out.len()
            &&& out[at] == metrics_of(
                list_at(s, "metrics"@)[k],
                resource_of(all[i]),
                scope_of(member(s, "scope"@)),
                text_or_empty(member(s, "schemaUrl"@)),
            )[l]
        }),
{
    let list = list_at(v, "resourceMetrics"@);
    let all = |n: nat| metrics_in_resources(list, n);
    let own = |r: JsonModel|
        metrics_in_scopes(
            list_at(r, "scopeMetrics"@),
            list_at(r, "scopeMetrics"@).len(),
            resource_of(r),
        );
    assert forall|m: nat| 0 < m <= list.len() implies #[trigger] adds(
        list,
        all,
        own,
        metrics_in_resource(),
        m,
    ) by {
        let r = list[m - 1];
        lemma_metrics_in_scopes(list_at(r, "scopeMetrics"@), resource_of(r), -1, 0, 0);
        assert(all(m) =~= all((m - 1) as nat) + own(r));
    }
    let r = list[i];
    let scopes = list_at(r, "scopeMetrics"@);
    lemma_metrics_in_scopes(scopes, resource_of(r), j, k, l);
    let within = total(scopes, metrics_in_scope(), j as nat) + total(
        list_at(scopes[j], "metrics"@),
        points_in_metric(),
        k as nat,
    ) + l;
    lists_stand_in_order(list, all, own, metrics_in_resource(), list.len(), i, within);
}

/// Whether a metric point is point `l` of a metric: the points of its gauge, then those of
/// its sum.
pub open spec fn is_json_point(out: MetricModel, m: JsonModel, l: int) -> bool {
    &&& is_named_after(out, m)
    &&& if l < gauge_points(m).len() {
        is_json_number(out, gauge_points(m)[l]) && out.metric_type == MetricType::Gauge
    } else {
        let sum = value_at(m, "sum"@);
        is_json_number(out, sum_points(m)[l - gauge_points(m).len()]) && out.metric_type == (
        MetricType::Sum {
            is_monotonic: member(sum, "isMonotonic"@) == Some(JsonModel::Bool(true)),
            temporality: small_at(sum, "aggregationTemporality"@),
        })
    }
}

/// Every point of every gauge and sum of a document comes out once, in the order of the
/// document, as itself, with the attributes of its own resource.
pub proof fn every_json_point_is_kept(v: JsonModel, i: int, j: int, k: int, l: int)
    requires
        has_metrics(v, i, j, k),
        0 <= l < points_in_metric()(
            list_at(
                list_at(list_at(v, "resourceMetrics"@)[i], "scopeMetrics"@)[j],
                "metrics"@,
            )[k],
        ),
    ensures
        ({
            let all = list_at(v, "resourceMetrics"@);
            let s = list_at(all[i], "scopeMetrics"@)[j];
            let m = list_at(s, "metrics"@)[k];
            let out = metrics_in_document(v);
            let at = metrics_place(v, i, j, k) + l;
            &&& out.len() == total(all, metrics_in_resource(), all.len())
            &&& at < out.len()
            &&& is_json_point(out[at], m, l)
            &&& holds(out[at].resource_attributes, given_members(resource_members(all[i])))
            &&& is_json_scope(out[at].scope, member(s, "scope"@))
            &&& out[at].schema_url == text_at(s, "schemaUrl"@)
        }),
{
    lemma_metrics_in_document(v, i, j, k, l);
    let r = list_at(v, "resourceMetrics"@)[i];
    let s = list_at(r, "scopeMetrics"@)[j];
    lemma_metrics_of(
        list_at(s, "metrics"@)[k],
        resource_of(r),
        scope_of(member(s, "scope"@)),
        text_or_empty(member(s, "schemaUrl"@)),
    );
    json_resource_attributes_are_those_given(r);
    lemma_json_scope(member(s, "scope"@));
}

// ── Spans ───────────────────────────────────────────────────────────────────

/// Whether a span or a link has both identifiers.
pub open spec fn has_ids(p: JsonModel) -> bool {
    id_at(p, "traceId"@, 16) is Some && id_at(p, "spanId"@, 8) is Some
}

/// How many spans or links one of a document makes: none where an identifier is missing or
/// has the wrong length.
pub open spec fn spans_in_span() -> spec_fn(JsonModel) -> nat {
    |p: JsonModel|
        if has_ids(p) {
            1
        } else {
            0
        }
}

proof fn lemma_spans_count(p: JsonModel, resource: Attrs, scope: ScopeModel, url: Seq<char>)
    ensures
        spans_of(p, resource, scope, url).len() == spans_in_span()(p),
{
}

/// How many spans the records of a scope make.
pub open spec fn spans_in_scope() -> spec_fn(JsonModel) -> nat {
    |s: JsonModel| total(list_at(s, "spans"@), spans_in_span(), list_at(s, "spans"@).len())
}

/// How many spans the scopes of a resource make.
pub open spec fn spans_in_resource() -> spec_fn(JsonModel) -> nat {
    |r: JsonModel|
        total(list_at(r, "scopeSpans"@), spans_in_scope(), list_at(r, "scopeSpans"@).len())
}

proof fn lemma_spans_in(
    a: Seq<JsonModel>,
    resource: Attrs,
    scope: ScopeModel,
    url: Seq<char>,
    k: int,
    l: int,
)
    ensures
        spans_in(a, a.len(), resource, scope, url).len() == total(a, spans_in_span(), a.len()),
        0 <= k < a.len() && 0 <= l < spans_in_span()(a[k]) ==> {
            let at = total(a, spans_in_span(), k as nat) + l;
            let out = spans_in(a, a.len(), resource, scope, url);
            at < out.len() && out[at] == spans_of(a[k], resource, scope, url)[l]
        },
{
    let all = |n: nat| spans_in(a, n, resource, scope, url);
    let own = |p: JsonModel| spans_of(p, resource, scope, url);
    assert forall|m: nat| 0 < m <= a.len() implies #[trigger] adds(
        a,
        all,
        own,
        spans_in_span(),
        m,
    ) by {
        lemma_spans_count(a[m - 1], resource, scope, url);
    }
    lists_stand_in_order(a, all, own, spans_in_span(), a.len(), k, l);
}

proof fn lemma_spans_in_scopes(a: Seq<JsonModel>, resource: Attrs, j: int, k: int, l: int)
    ensures
        spans_in_scopes(a, a.len(), resource).len() == total(a, spans_in_scope(), a.len()),
        0 <= j < a.len() && 0 <= k < list_at(a[j], "spans"@).len() && 0 <= l < spans_in_span()(
            list_at(a[j], "spans"@)[k],
        ) ==> {
            let list = list_at(a[j], "spans"@);
            let at = total(a, spans_in_scope(), j as nat) + total(list, spans_in_span(), k as nat) + l;
            let out = spans_in_scopes(a, a.len(), resource);
            at < out.len() && out[at] == spans_of(
                list[k],
                resource,
                scope_of(member(a[j], "scope"@)),
                text_or_empty(member(a[j], "schemaUrl"@)),
            )[l]
        },
{
    let all = |n: nat| spans_in_scopes(a, n, resource);
    let own = |s: JsonModel|
        spans_in(
            list_at(s, "spans"@),
            list_at(s, "spans"@).len(),
            resource,
            scope_of(member(s, "scope"@)),
            text_or_empty(member(s, "schemaUrl"@)),
        );
    assert forall|m: nat| 0 < m <= a.len() implies #[trigger] adds(
        a,
        all,
        own,
        spans_in_scope(),
        m,
    ) by {
        let s = a[m - 1];
        lemma_spans_in(
            list_at(s, "spans"@),
            resource,
            scope_of(member(s, "scope"@)),
            text_or_empty(member(s, "schemaUrl"@)),
            0,
            0,
        );
        assert(all(m) =~= all((m - 1) as nat) + own(s));
    }
    if 0 <= j < a.len() && 0 <= k < list_at(a[j], "spans"@).len() && 0 <= l < spans_in_span()(
        list_at(a[j], "spans"@)[k],
    ) {
        let s = a[j];
        lemma_spans_in(
            list_at(s, "spans"@),
            resource,
            scope_of(member(s, "scope"@)),
            text_or_empty(member(s, "schemaUrl"@)),
            k,
            l,
        );
        let within = total(list_at(s, "spans"@), spans_in_span(), k as nat) + l;
        lists_stand_in_order(a, all, own, spans_in_scope(), a.len(), j, within);
    } else {
        lists_stand_in_order(a, all, own, spans_in_scope(), a.len(), 0, -1);
    }
}

/// Whether record `k` of scope `j` of resource `i` stands in a document.
pub open spec fn has_spans(v: JsonModel, i: int, j: int, k: int) -> bool {
    &&& 0 <= i < list_at(v, "resourceSpans"@).len()
    &&& 0 <= j < list_at(list_at(v, "resourceSpans"@)[i], "scopeSpans"@).len()
    &&& 0 <= k < list_at(list_at(list_at(v, "resourceSpans"@)[i], "scopeSpans"@)[j], "spans"@).len()
}

/// Where in the result the spans of record `k` of scope `j` of resource `i` begin.
pub open spec fn spans_place(v: JsonModel, i: int, j: int, k: int) -> nat {
    let all = list_at(v, "resourceSpans"@);
    let scopes = list_at(all[i], "scopeSpans"@);
    total(all, spans_in_resource(), i as nat) + total(scopes, spans_in_scope(), j as nat) + total(
        list_at(scopes[j], "spans"@),
        spans_in_span(),
        k as nat,
    )
}

proof fn lemma_spans_in_document(v: JsonModel, i: int, j: int, k: int, l: int)
    requires
        has_spans(v, i, j, k),
        0 <= l < spans_in_span()(
            list_at(list_at(list_at(v, "resourceSpans"@)[i], "scopeSpans"@)[j], "spans"@)[k],
        ),
    ensures
        ({
            let out = spans_in_document(v);
            let at = spans_place(v, i, j, k) + l;
            let all = list_at(v, "resourceSpans"@);
            let s = list_at(all[i], "scopeSpans"@)[j];
            &&& out.len() == total(all, spans_in_resource(), all.len())
            &&& at < out.len()
            &&& out[at] == spans_of(
                list_at(s, "spans"@)[k],
                resource_of(all[i]),
                scope_of(member(s, "scope"@)),
                text_or_empty(member(s, "schemaUrl"@)),
            )[l]
        }),
{
    let list = list_at(v, "resourceSpans"@);
    let all = |n: nat| spans_in_resources(list, n);
    let own = |r: JsonModel|
        spans_in_scopes(
            list_at(r, "scopeSpans"@),
            list_at(r, "scopeSpans"@).len(),
            resource_of(r),
        );
    assert forall|m: nat| 0 < m <= list.len() implies #[trigger] adds(
        list,
        all,
        own,
        spans_in_resource(),
        m,
    ) by {
        let r = list[m - 1];
        lemma_spans_in_scopes(list_at(r, "scopeSpans"@), resource_of(r), -1, 0, 0);
        assert(all(m) =~= all((m - 1) as nat) + own(r));
    }
    let r = list[i];
    let scopes = list_at(r, "scopeSpans"@);
    lemma_spans_in_scopes(scopes, resource_of(r), j, k, l);
    let within = total(scopes, spans_in_scope(), j as nat) + total(
        list_at(scopes[j], "spans"@),
        spans_in_span(),
        k as nat,
    ) + l;
    lists_stand_in_order(list, all, own, spans_in_resource(), list.len(), i, within);
}

/// Whether an event is that of a document.
pub open spec fn is_json_event(out: EventModel, e: JsonModel) -> bool {
    &&& out.timestamp_ns == time_at(e, "timeUnixNano"@, 0)
    &&& out.name == text_at(e, "name"@)
    &&& holds(out.attributes, given_members(list_at(e, "attributes"@)))
}

/// Whether a link is that of a document.
pub open spec fn is_json_link(out: LinkModel, l: JsonModel) -> bool {
    &&& id_at(l, "traceId"@, 16) == Some(out.trace_id)
    &&& id_at(l, "spanId"@, 8) == Some(out.span_id)
    &&& out.trace_state == text_at(l, "traceState"@)
    &&& holds(out.attributes, given_members(list_at(l, "attributes"@)))
}

/// Whether links are those of a document, in order, without the ones that lack an
/// identifier.
pub open spec fn are_json_links(out: Seq<LinkModel>, a: Seq<JsonModel>) -> bool {
    &&& out.len() == total(a, spans_in_span(), a.len())
    &&& forall|i: int|
        0 <= i < a.len() && has_ids(#[trigger] a[i]) ==> total(a, spans_in_span(), i as nat)
            < out.len() && is_json_link(out[total(a, spans_in_span(), i as nat) as int], a[i])
}

proof fn lemma_json_links(a: Seq<JsonModel>, n: nat, i: int)
    requires
        n <= a.len(),
    ensures
        links_in(a, n).len() == total(a, spans_in_span(), n),
        0 <= i < n && has_ids(a[i]) ==> total(a, spans_in_span(), i as nat) < links_in(a, n).len()
            && is_json_link(links_in(a, n)[total(a, spans_in_span(), i as nat) as int], a[i]),
    decreases n,
{
    if n > 0 {
        lemma_json_links(a, (n - 1) as nat, i);
        members_are_those_given(a[n - 1], "attributes"@);
    }
}

/// Whether a span is that of a document.
pub open spec fn is_json_span(out: SpanModel, p: JsonModel, s: JsonModel, r: JsonModel) -> bool {
    &&& id_at(p, "traceId"@, 16) == Some(out.trace_id)
    &&& id_at(p, "spanId"@, 8) == Some(out.span_id)
    &&& out.parent_span_id == id_at(p, "parentSpanId"@, 8)
    &&& out.name == text_at(p, "name"@)
    &&& out.kind == small_at(p, "kind"@)
    &&& out.start_time_ns == time_at(p, "startTimeUnixNano"@, 0)
    &&& out.end_time_ns == time_at(p, "endTimeUnixNano"@, 0)
    &&& (out.start_time_ns <= out.end_time_ns ==> out.start_time_ns + out.duration_ns
        == out.end_time_ns)
    &&& (out.end_time_ns < out.start_time_ns ==> out.duration_ns == 0)
    &&& out.status_code == small_at(value_at(p, "status"@), "code"@)
    &&& out.status_message == text_at(value_at(p, "status"@), "message"@)
    &&& holds(out.attributes, given_members(list_at(p, "attributes"@)))
    &&& holds(out.resource_attributes, given_members(resource_members(r)))
    &&& is_json_scope(out.scope, member(s, "scope"@))
    &&& out.events.len() == list_at(p, "events"@).len()
    &&& forall|e: int|
        0 <= e < out.events.len() ==> is_json_event(
            #[trigger] out.events[e],
            list_at(p, "events"@)[e],
        )
    &&& are_json_links(out.links, list_at(p, "links"@))
    &&& out.schema_url == text_at(s, "schemaUrl"@)
}

/// Every span of a document with both identifiers comes out once, in the order of the
/// document, as itself, with the attributes of its own resource. No other comes out.
pub proof fn every_json_span_is_kept(v: JsonModel, i: int, j: int, k: int)
    requires
        has_spans(v, i, j, k),
        has_ids(
            list_at(list_at(list_at(v, "resourceSpans"@)[i], "scopeSpans"@)[j], "spans"@)[k],
        ),
    ensures
        ({
            let all = list_at(v, "resourceSpans"@);
            let s = list_at(all[i], "scopeSpans"@)[j];
            let out = spans_in_document(v);
            let at = spans_place(v, i, j, k);
            &&& out.len() == total(all, spans_in_resource(), all.len())
            &&& at < out.len()
            &&& is_json_span(out[at as int], list_at(s, "spans"@)[k], s, all[i])
        }),
{
    lemma_spans_in_document(v, i, j, k, 0);
    let r = list_at(v, "resourceSpans"@)[i];
    let s = list_at(r, "scopeSpans"@)[j];
    let p = list_at(s, "spans"@)[k];
    json_resource_attributes_are_those_given(r);
    members_are_those_given(p, "attributes"@);
    lemma_json_scope(member(s, "scope"@));
    let out = spans_in_document(v)[spans_place(v, i, j, k) as int];
    let events = list_at(p, "events"@);
    assert forall|e: int| 0 <= e < out.events.len() implies is_json_event(
        #[trigger] out.events[e],
        events[e],
    ) by {
        members_are_those_given(events[e], "attributes"@);
    }
    let links = list_at(p, "links"@);
    assert(are_json_links(out.links, links)) by {
        assert(out.links =~= links_in(links, links.len()));
        assert forall|x: int| 0 <= x < links.len() && has_ids(#[trigger] links[x]) implies total(
            links,
            spans_in_span(),
            x as nat,
        ) < out.links.len() && is_json_link(
            out.links[total(links, spans_in_span(), x as nat) as int],
            links[x],
        ) by {
            lemma_json_links(links, links.len(), x);
        }
        lemma_json_links(links, links.len(), -1);
    }
}

} // verus!
