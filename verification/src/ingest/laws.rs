//! What ingestion keeps of the messages that it is given.

use crate::common::model::{
    collect_attrs, distinct_keys, has_key, set_attr, set_attr_is_insert, AnyModel, EventModel,
    LinkModel, LogModel, MetricModel, MetricType, ScopeModel, SpanModel,
};
use crate::common::lists::{adds, lists_stand_in_order, total};
use crate::ingest::json_decoder::Attrs;
use crate::ingest::normalizer::{
    attr_pairs, attributes_of, kv_list, links_in, logs_in, logs_in_resources, logs_in_scopes,
    logs_of, message_resource, message_scope, metrics_in, metrics_in_resources,
    metrics_in_scopes, metrics_of, spans_in, spans_in_resources, spans_in_scopes, spans_of,
    value_list, value_of,
};
use crate::ingest::otlp::{
    HistogramPoint, MetricData, NumberPoint, NumberValue, OtlpAnyValue, OtlpEvent, OtlpKeyValue,
    OtlpLink, OtlpLog, OtlpMetric, OtlpResource, OtlpScope, OtlpSpan, OtlpValue, ResourceLogs,
    ResourceMetrics, ResourceSpans, ScopeLogs, ScopeMetrics, ScopeSpans,
};
use vstd::prelude::*;

verus! {

// ── Attributes ──────────────────────────────────────────────────────────────

/// Whether no later pair gives the key of pair `i` another value.
pub open spec fn last_given(given: Seq<Option<(Seq<char>, AnyModel)>>, i: int) -> bool {
    &&& 0 <= i < given.len()
    &&& given[i] is Some
    &&& forall|j: int|
        i < j < given.len() ==> (#[trigger] given[j] matches Some(p) ==> p.0 != given[i]->Some_0.0)
}

/// Whether a pair stands among the attributes.
pub open spec fn stands_in(attrs: Attrs, pair: (Seq<char>, AnyModel)) -> bool {
    exists|a: int| 0 <= a < attrs.len() && #[trigger] attrs[a] == pair
}

/// Whether a pair is the last that was given for its key.
pub open spec fn was_given(given: Seq<Option<(Seq<char>, AnyModel)>>, pair: (Seq<char>, AnyModel)) -> bool {
    exists|i: int| #[trigger] last_given(given, i) && given[i] == Some(pair)
}

/// Whether attributes hold, for each key that was given, the last value that was given for
/// it, and nothing else.
pub open spec fn holds(attrs: Attrs, given: Seq<Option<(Seq<char>, AnyModel)>>) -> bool {
    &&& distinct_keys(attrs)
    &&& forall|i: int| #[trigger] last_given(given, i) ==> stands_in(attrs, given[i]->Some_0)
    &&& forall|a: int| 0 <= a < attrs.len() ==> was_given(given, #[trigger] attrs[a])
}

/// Where nothing more is given, attributes hold what they held.
pub proof fn nothing_given_changes_nothing(attrs: Attrs, given: Seq<Option<(Seq<char>, AnyModel)>>)
    requires
        holds(attrs, given),
    ensures
        holds(attrs, given.push(None)),
{
    let after = given.push(None);
    assert forall|i: int| #[trigger] last_given(after, i) implies stands_in(
        attrs,
        after[i]->Some_0,
    ) by {
        assert forall|j: int| i < j < given.len() implies (#[trigger] given[j] matches Some(p)
            ==> p.0 != given[i]->Some_0.0) by {
            assert(after[j] == given[j]);
        }
        assert(last_given(given, i));
    }
    assert forall|a: int| 0 <= a < attrs.len() implies was_given(after, #[trigger] attrs[a]) by {
        let i = choose|i: int| #[trigger] last_given(given, i) && given[i] == Some(attrs[a]);
        assert(last_given(after, i));
    }
}

/// Setting a pair makes attributes hold it as well.
pub proof fn setting_gives_a_pair(
    attrs: Attrs,
    given: Seq<Option<(Seq<char>, AnyModel)>>,
    k: Seq<char>,
    v: AnyModel,
)
    requires
        holds(attrs, given),
    ensures
        holds(set_attr(attrs, k, v), given.push(Some((k, v)))),
{
    let out = set_attr(attrs, k, v);
    let after = given.push(Some((k, v)));
    set_attr_is_insert(attrs, k, v);
    assert(stands_in(out, (k, v))) by {
        if has_key(attrs, k) {
            let a = choose|a: int| 0 <= a < attrs.len() && (#[trigger] attrs[a]).0 == k;
            assert(out[a] == (k, v));
        } else {
            assert(out[attrs.len() as int] == (k, v));
        }
    }
    assert forall|i: int| #[trigger] last_given(after, i) implies stands_in(
        out,
        after[i]->Some_0,
    ) by {
        if i < given.len() {
            assert(after[given.len() as int] == Some((k, v)));
            assert forall|j: int| i < j < given.len() implies (#[trigger] given[j] matches Some(p)
                ==> p.0 != given[i]->Some_0.0) by {
                assert(after[j] == given[j]);
            }
            assert(last_given(given, i));
            let a = choose|a: int|
                0 <= a < attrs.len() && #[trigger] attrs[a] == given[i]->Some_0;
            assert(out[a] == attrs[a]);
        }
    }
    assert forall|a: int| 0 <= a < out.len() implies was_given(after, #[trigger] out[a]) by {
        if out[a].0 == k {
            if a < attrs.len() && has_key(attrs, k) {
                assert(out[a] == (k, v));
            }
            assert(out[a] == (k, v));
            assert(last_given(after, given.len() as int));
        } else {
            assert(out[a] == attrs[a]);
            let i = choose|i: int| #[trigger] last_given(given, i) && given[i] == Some(attrs[a]);
            assert(last_given(after, i));
        }
    }
}

// ── Messages ────────────────────────────────────────────────────────────────

/// The pairs that a list of attributes gives. One without a value gives none.
pub open spec fn given_pairs(kv: Seq<OtlpKeyValue>) -> Seq<Option<(Seq<char>, AnyModel)>> {
    Seq::new(
        kv.len(),
        |i: int|
            match kv[i].value {
                Some(v) => Some((kv[i].key@, value_of(v))),
                None => None,
            },
    )
}

/// The attributes of a resource, if there is one.
pub open spec fn resource_pairs(r: Option<OtlpResource>) -> Seq<OtlpKeyValue> {
    match r {
        Some(x) => x.attributes@,
        None => Seq::empty(),
    }
}

proof fn lemma_attributes(kv: Seq<OtlpKeyValue>, n: nat)
    requires
        n <= kv.len(),
    ensures
        holds(collect_attrs(attr_pairs(kv, n)), given_pairs(kv).take(n as int)),
    decreases n,
{
    let given = given_pairs(kv);
    if n == 0 {
        assert(attr_pairs(kv, n).len() == 0);
        assert(collect_attrs(attr_pairs(kv, n)).len() == 0);
    } else {
        let m = (n - 1) as nat;
        lemma_attributes(kv, m);
        let before = collect_attrs(attr_pairs(kv, m));
        match kv[m as int].value {
            Some(v) => {
                setting_gives_a_pair(before, given.take(m as int), kv[m as int].key@, value_of(v));
                assert(given.take(n as int) =~= given.take(m as int).push(
                    Some((kv[m as int].key@, value_of(v))),
                ));
                assert(attr_pairs(kv, n).drop_last() =~= attr_pairs(kv, m));
            },
            None => {
                nothing_given_changes_nothing(before, given.take(m as int));
                assert(given.take(n as int) =~= given.take(m as int).push(None));
            },
        }
    }
}

/// The attributes of a message are the pairs that it gives with a value: each key has the
/// last value that was given for it, and there is no other key.
pub proof fn attributes_are_those_given(kv: Seq<OtlpKeyValue>)
    ensures
        holds(attributes_of(kv), given_pairs(kv)),
{
    lemma_attributes(kv, kv.len());
    assert(given_pairs(kv).take(kv.len() as int) =~= given_pairs(kv));
}

/// The resource attributes are the pairs of the resource, and without a resource there are
/// none.
pub proof fn resource_attributes_are_those_given(r: Option<OtlpResource>)
    ensures
        holds(message_resource(r), given_pairs(resource_pairs(r))),
{
    attributes_are_those_given(resource_pairs(r));
    if r is None {
        assert(attr_pairs(resource_pairs(r), 0).len() == 0);
        assert(attributes_of(resource_pairs(r)) =~= Seq::empty());
    }
}

proof fn lemma_value_list(a: Vec<OtlpAnyValue>, n: nat)
    requires
        n <= a@.len(),
    ensures
        value_list(a, n).len() == n,
        forall|i: int| 0 <= i < n ==> #[trigger] value_list(a, n)[i] == value_of(a@[i]),
    decreases n,
{
    if n > 0 {
        lemma_value_list(a, (n - 1) as nat);
    }
}

/// The pairs of a list inside a value. One without a value has the empty text.
pub open spec fn inner_pairs(kv: Seq<OtlpKeyValue>) -> Seq<Option<(Seq<char>, AnyModel)>> {
    Seq::new(
        kv.len(),
        |i: int|
            Some(
                (
                    kv[i].key@,
                    match kv[i].value {
                        Some(v) => value_of(v),
                        None => AnyModel::String(Seq::empty()),
                    },
                ),
            ),
    )
}

proof fn lemma_kv_list(kv: Vec<OtlpKeyValue>, n: nat)
    requires
        n <= kv@.len(),
    ensures
        holds(collect_attrs(kv_list(kv, n)), inner_pairs(kv@).take(n as int)),
    decreases n,
{
    let given = inner_pairs(kv@);
    if n == 0 {
        assert(kv_list(kv, n).len() == 0);
        assert(collect_attrs(kv_list(kv, n)).len() == 0);
    } else {
        let m = (n - 1) as nat;
        lemma_kv_list(kv, m);
        let pair = given[m as int]->Some_0;
        setting_gives_a_pair(collect_attrs(kv_list(kv, m)), given.take(m as int), pair.0, pair.1);
        assert(given.take(n as int) =~= given.take(m as int).push(Some((pair.0, pair.1))));
        assert(kv_list(kv, n).drop_last() =~= kv_list(kv, m));
    }
}

/// A value keeps its type and what it holds: lists item by item, maps key by key. A value
/// that is none is the empty text.
pub proof fn values_are_kept(v: OtlpAnyValue)
    ensures
        match v.value {
            Some(OtlpValue::StringValue(s)) => value_of(v) == AnyModel::String(s@),
            Some(OtlpValue::BoolValue(b)) => value_of(v) == AnyModel::Bool(b),
            Some(OtlpValue::IntValue(n)) => value_of(v) == AnyModel::Int(n),
            Some(OtlpValue::DoubleValue(d)) => value_of(v) == AnyModel::Double(d),
            Some(OtlpValue::BytesValue(b)) => value_of(v) == AnyModel::Bytes(b@),
            Some(OtlpValue::ArrayValue(a)) => value_of(v) matches AnyModel::Array(l)
                && l.len() == a@.len() && forall|i: int|
                0 <= i < l.len() ==> #[trigger] l[i] == value_of(a@[i]),
            Some(OtlpValue::KvlistValue(kv)) => value_of(v) matches AnyModel::KeyValues(l)
                && holds(l, inner_pairs(kv@)),
            None => value_of(v) matches AnyModel::String(s) && s.len() == 0,
        },
{
    match v.value {
        Some(OtlpValue::ArrayValue(a)) => {
            lemma_value_list(a, a@.len());
        },
        Some(OtlpValue::KvlistValue(kv)) => {
            lemma_kv_list(kv, kv@.len());
            assert(inner_pairs(kv@).take(kv@.len() as int) =~= inner_pairs(kv@));
        },
        _ => {},
    }
}

/// Whether a scope is the one of a message; without one, it is empty.
pub open spec fn is_scope(out: ScopeModel, s: Option<OtlpScope>) -> bool {
    match s {
        Some(x) => out.name == x.name@ && out.version == x.version@ && holds(
            out.attributes,
            given_pairs(x.attributes@),
        ),
        None => out.name.len() == 0 && out.version.len() == 0 && out.attributes.len() == 0,
    }
}

proof fn lemma_scope(s: Option<OtlpScope>)
    ensures
        is_scope(message_scope(s), s),
{
    match s {
        Some(x) => {
            attributes_are_those_given(x.attributes@);
        },
        None => {},
    }
}

/// Whether an identifier is kept: only one of the right length is.
pub open spec fn is_id(out: Option<Seq<u8>>, b: Seq<u8>, n: nat) -> bool {
    match out {
        Some(id) => b.len() == n && id == b,
        None => b.len() != n,
    }
}

/// Whether an optional value is kept.
pub open spec fn is_value(out: Option<AnyModel>, v: Option<OtlpAnyValue>) -> bool {
    match v {
        Some(x) => out == Some(value_of(x)),
        None => out is None,
    }
}

// ── Logs ────────────────────────────────────────────────────────────────────

/// How many records a scope has.
pub open spec fn logs_in_scope() -> spec_fn(ScopeLogs) -> nat {
    |s: ScopeLogs| s.log_records@.len()
}

/// How many records the scopes of a resource have.
pub open spec fn logs_in_resource() -> spec_fn(ResourceLogs) -> nat {
    |r: ResourceLogs| total(r.scope_logs@, logs_in_scope(), r.scope_logs@.len())
}

/// Whether a log record is that of a message: its own fields from the message, its resource
/// attributes from the resource, and its scope and schema from the scope that it stands in.
pub open spec fn is_log(out: LogModel, p: OtlpLog, s: ScopeLogs, r: ResourceLogs) -> bool {
    &&& out.timestamp_ns == p.time_unix_nano
    &&& out.observed_timestamp_ns == p.observed_time_unix_nano
    &&& is_id(out.trace_id, p.trace_id@, 16)
    &&& is_id(out.span_id, p.span_id@, 8)
    &&& out.severity_number == p.severity_number
    &&& out.severity_text == p.severity_text@
    &&& is_value(out.body, p.body)
    &&& holds(out.attributes, given_pairs(p.attributes@))
    &&& holds(out.resource_attributes, given_pairs(resource_pairs(r.resource)))
    &&& is_scope(out.scope, s.scope)
    &&& out.schema_url == s.schema_url@
}

proof fn lemma_logs_in(a: Seq<OtlpLog>, n: nat, resource: Attrs, scope: ScopeModel, url: Seq<char>)
    requires
        n <= a.len(),
    ensures
        logs_in(a, n, resource, scope, url).len() == n,
        forall|k: int|
            0 <= k < n ==> #[trigger] logs_in(a, n, resource, scope, url)[k] == logs_of(
                a[k],
                resource,
                scope,
                url,
            )[0],
    decreases n,
{
    if n > 0 {
        lemma_logs_in(a, (n - 1) as nat, resource, scope, url);
    }
}

proof fn lemma_logs_in_scopes(a: Seq<ScopeLogs>, resource: Attrs, j: int, k: int)
    ensures
        logs_in_scopes(a, a.len(), resource).len() == total(a, logs_in_scope(), a.len()),
        0 <= j < a.len() && 0 <= k < a[j].log_records@.len() ==> {
            let at = total(a, logs_in_scope(), j as nat) + k;
            let out = logs_in_scopes(a, a.len(), resource);
            at < out.len() && out[at] == logs_of(
                a[j].log_records@[k],
                resource,
                message_scope(a[j].scope),
                a[j].schema_url@,
            )[0]
        },
{
    let all = |n: nat| logs_in_scopes(a, n, resource);
    let own = |s: ScopeLogs|
        logs_in(
            s.log_records@,
            s.log_records@.len(),
            resource,
            message_scope(s.scope),
            s.schema_url@,
        );
    assert forall|m: nat| 0 < m <= a.len() implies #[trigger] adds(
        a,
        all,
        own,
        logs_in_scope(),
        m,
    ) by {
        let s = a[m - 1];
        lemma_logs_in(
            s.log_records@,
            s.log_records@.len(),
            resource,
            message_scope(s.scope),
            s.schema_url@,
        );
    }
    lists_stand_in_order(a, all, own, logs_in_scope(), a.len(), j, k);
    if 0 <= j < a.len() && 0 <= k < a[j].log_records@.len() {
        let s = a[j];
        lemma_logs_in(
            s.log_records@,
            s.log_records@.len(),
            resource,
            message_scope(s.scope),
            s.schema_url@,
        );
    }
}

/// Every log record of a message comes out once, in the order of the message, as itself:
/// with its own fields, and with the attributes of its own resource, whatever the record
/// holds.
pub proof fn every_log_is_kept(message: Seq<ResourceLogs>, i: int, j: int, k: int)
    requires
        0 <= i < message.len(),
        0 <= j < message[i].scope_logs@.len(),
        0 <= k < message[i].scope_logs@[j].log_records@.len(),
    ensures
        ({
            let out = logs_in_resources(message, message.len());
            let at = total(message, logs_in_resource(), i as nat) + total(
                message[i].scope_logs@,
                logs_in_scope(),
                j as nat,
            ) + k;
            &&& out.len() == total(message, logs_in_resource(), message.len())
            &&& at < out.len()
            &&& is_log(
                out[at],
                message[i].scope_logs@[j].log_records@[k],
                message[i].scope_logs@[j],
                message[i],
            )
        }),
{
    let all = |n: nat| logs_in_resources(message, n);
    let own = |r: ResourceLogs|
        logs_in_scopes(r.scope_logs@, r.scope_logs@.len(), message_resource(r.resource));
    assert forall|m: nat| 0 < m <= message.len() implies #[trigger] adds(
        message,
        all,
        own,
        logs_in_resource(),
        m,
    ) by {
        let r = message[m - 1];
        lemma_logs_in_scopes(r.scope_logs@, message_resource(r.resource), 0, 0);
    }
    let r = message[i];
    let s = r.scope_logs@[j];
    let p = s.log_records@[k];
    lemma_logs_in_scopes(r.scope_logs@, message_resource(r.resource), j, k);
    let within = total(r.scope_logs@, logs_in_scope(), j as nat) + k;
    lists_stand_in_order(message, all, own, logs_in_resource(), message.len(), i, within);
    resource_attributes_are_those_given(r.resource);
    attributes_are_those_given(p.attributes@);
    lemma_scope(s.scope);
}

/// Two records of one resource have the same resource attributes.
pub proof fn logs_of_a_resource_share_its_attributes(
    a: Seq<ScopeLogs>,
    resource: Attrs,
    x: int,
    y: int,
)
    requires
        0 <= x < logs_in_scopes(a, a.len(), resource).len(),
        0 <= y < logs_in_scopes(a, a.len(), resource).len(),
    ensures
        logs_in_scopes(a, a.len(), resource)[x].resource_attributes == logs_in_scopes(
            a,
            a.len(),
            resource,
        )[y].resource_attributes,
{
    lemma_logs_share(a, a.len(), resource);
}

proof fn lemma_logs_share(a: Seq<ScopeLogs>, n: nat, resource: Attrs)
    requires
        n <= a.len(),
    ensures
        forall|x: int|
            0 <= x < logs_in_scopes(a, n, resource).len() ==> (#[trigger] logs_in_scopes(
                a,
                n,
                resource,
            )[x]).resource_attributes == resource,
    decreases n,
{
    if n > 0 {
        lemma_logs_share(a, (n - 1) as nat, resource);
        let s = a[n - 1];
        lemma_logs_in(
            s.log_records@,
            s.log_records@.len(),
            resource,
            message_scope(s.scope),
            s.schema_url@,
        );
    }
}

// ── Metrics ─────────────────────────────────────────────────────────────────

/// How many points a metric has. Only gauges, sums and histograms are read.
pub open spec fn points_in_metric() -> spec_fn(OtlpMetric) -> nat {
    |m: OtlpMetric|
        match m.data {
            Some(MetricData::Gauge(g)) => g@.len(),
            Some(MetricData::Sum(s)) => s.data_points@.len(),
            Some(MetricData::Histogram(h)) => h.data_points@.len(),
            _ => 0,
        }
}

/// How many points the records of a scope make.
pub open spec fn metrics_in_scope() -> spec_fn(ScopeMetrics) -> nat {
    |s: ScopeMetrics| total(s.metrics@, points_in_metric(), s.metrics@.len())
}

/// How many points the scopes of a resource make.
pub open spec fn metrics_in_resource() -> spec_fn(ResourceMetrics) -> nat {
    |r: ResourceMetrics| total(r.scope_metrics@, metrics_in_scope(), r.scope_metrics@.len())
}

proof fn lemma_metrics_in(
    a: Seq<OtlpMetric>,
    resource: Attrs,
    scope: ScopeModel,
    url: Seq<char>,
    k: int,
    l: int,
)
    ensures
        metrics_in(a, a.len(), resource, scope, url).len() == total(a, points_in_metric(), a.len()),
        0 <= k < a.len() && 0 <= l < points_in_metric()(a[k]) ==> {
            let at = total(a, points_in_metric(), k as nat) + l;
            let out = metrics_in(a, a.len(), resource, scope, url);
            at < out.len() && out[at] == metrics_of(a[k], resource, scope, url)[l]
        },
{
    let all = |n: nat| metrics_in(a, n, resource, scope, url);
    let own = |p: OtlpMetric| metrics_of(p, resource, scope, url);
    assert forall|m: nat| 0 < m <= a.len() implies #[trigger] adds(
        a,
        all,
        own,
        points_in_metric(),
        m,
    ) by {}
    lists_stand_in_order(a, all, own, points_in_metric(), a.len(), k, l);
}

proof fn lemma_metrics_in_scopes(a: Seq<ScopeMetrics>, resource: Attrs, j: int, k: int, l: int)
    ensures
        metrics_in_scopes(a, a.len(), resource).len() == total(a, metrics_in_scope(), a.len()),
        0 <= j < a.len() && 0 <= k < a[j].metrics@.len() && 0 <= l < points_in_metric()(
            a[j].metrics@[k],
        ) ==> {
            let at = total(a, metrics_in_scope(), j as nat) + total(
                a[j].metrics@,
                points_in_metric(),
                k as nat,
            ) + l;
            let out = metrics_in_scopes(a, a.len(), resource);
            at < out.len() && out[at] == metrics_of(
                a[j].metrics@[k],
                resource,
                message_scope(a[j].scope),
                a[j].schema_url@,
            )[l]
        },
{
    let all = |n: nat| metrics_in_scopes(a, n, resource);
    let own = |s: ScopeMetrics|
        metrics_in(s.metrics@, s.metrics@.len(), resource, message_scope(s.scope), s.schema_url@);
    assert forall|m: nat| 0 < m <= a.len() implies #[trigger] adds(
        a,
        all,
        own,
        metrics_in_scope(),
        m,
    ) by {
        let s = a[m - 1];
        lemma_metrics_in(s.metrics@, resource, message_scope(s.scope), s.schema_url@, 0, 0);
    }
    if 0 <= j < a.len() && 0 <= k < a[j].metrics@.len() && 0 <= l < points_in_metric()(
        a[j].metrics@[k],
    ) {
        let s = a[j];
        lemma_metrics_in(s.metrics@, resource, message_scope(s.scope), s.schema_url@, k, l);
        let within = total(s.metrics@, points_in_metric(), k as nat) + l;
        lists_stand_in_order(a, all, own, metrics_in_scope(), a.len(), j, within);
    } else {
        lists_stand_in_order(a, all, own, metrics_in_scope(), a.len(), 0, -1);
    }
}

/// Where in the result the points of record `k` of scope `j` of resource `i` begin.
pub open spec fn metrics_place(message: Seq<ResourceMetrics>, i: int, j: int, k: int) -> nat {
    total(message, metrics_in_resource(), i as nat) + total(
        message[i].scope_metrics@,
        metrics_in_scope(),
        j as nat,
    ) + total(message[i].scope_metrics@[j].metrics@, points_in_metric(), k as nat)
}

proof fn lemma_metrics_in_resources(message: Seq<ResourceMetrics>, i: int, j: int, k: int, l: int)
    requires
        0 <= i < message.len(),
        0 <= j < message[i].scope_metrics@.len(),
        0 <= k < message[i].scope_metrics@[j].metrics@.len(),
        0 <= l < points_in_metric()(message[i].scope_metrics@[j].metrics@[k]),
    ensures
        ({
            let out = metrics_in_resources(message, message.len());
            let at = metrics_place(message, i, j, k) + l;
            let s = message[i].scope_metrics@[j];
            &&& out.len() == total(message, metrics_in_resource(), message.len())
            &&& at < out.len()
            &&& out[at] == metrics_of(
                s.metrics@[k],
                message_resource(message[i].resource),
                message_scope(s.scope),
                s.schema_url@,
            )[l]
        }),
{
    let all = |n: nat| metrics_in_resources(message, n);
    let own = |r: ResourceMetrics|
        metrics_in_scopes(r.scope_metrics@, r.scope_metrics@.len(), message_resource(r.resource));
    assert forall|m: nat| 0 < m <= message.len() implies #[trigger] adds(
        message,
        all,
        own,
        metrics_in_resource(),
        m,
    ) by {
        let r = message[m - 1];
        lemma_metrics_in_scopes(r.scope_metrics@, message_resource(r.resource), -1, 0, 0);
    }
    let r = message[i];
    let s = r.scope_metrics@[j];
    lemma_metrics_in_scopes(r.scope_metrics@, message_resource(r.resource), j, k, l);
    let within = total(r.scope_metrics@, metrics_in_scope(), j as nat) + total(
        s.metrics@,
        points_in_metric(),
        k as nat,
    ) + l;
    lists_stand_in_order(message, all, own, metrics_in_resource(), message.len(), i, within);
}

/// Whether a metric point has the name and the surroundings of its metric.
pub open spec fn is_point_of(out: MetricModel, m: OtlpMetric, s: ScopeMetrics, r: ResourceMetrics) -> bool {
    &&& out.name == m.name@
    &&& out.description == m.description@
    &&& out.unit == m.unit@
    &&& holds(out.resource_attributes, given_pairs(resource_pairs(r.resource)))
    &&& is_scope(out.scope, s.scope)
    &&& out.schema_url == s.schema_url@
}

/// Whether a metric point is a numeric one of a message.
pub open spec fn is_number(out: MetricModel, dp: NumberPoint) -> bool {
    &&& out.timestamp_ns == dp.time_unix_nano
    &&& out.start_timestamp_ns == dp.start_time_unix_nano
    &&& match dp.value {
        Some(NumberValue::AsDouble(d)) => out.value_double == Some(d) && out.value_int is None,
        Some(NumberValue::AsInt(n)) => out.value_int == Some(n) && out.value_double is None,
        None => out.value_double is None && out.value_int is None,
    }
    &&& out.histogram is None
    &&& holds(out.attributes, given_pairs(dp.attributes@))
}

/// Whether a metric point is a histogram of a message.
pub open spec fn is_histogram(out: MetricModel, dp: HistogramPoint) -> bool {
    &&& out.timestamp_ns == dp.time_unix_nano
    &&& out.start_timestamp_ns == dp.start_time_unix_nano
    &&& out.value_double is None
    &&& out.value_int is None
    &&& out.histogram matches Some(h) && h.count == dp.count && h.sum == dp.sum && h.min == dp.min
        && h.max == dp.max && h.explicit_bounds == dp.explicit_bounds@ && h.bucket_counts
        == dp.bucket_counts@
    &&& holds(out.attributes, given_pairs(dp.attributes@))
}

/// Every point of every gauge, sum and histogram of a message comes out once, in the order
/// of the message, as itself, with the attributes of its own resource.
pub proof fn every_point_is_kept(message: Seq<ResourceMetrics>, i: int, j: int, k: int, l: int)
    requires
        0 <= i < message.len(),
        0 <= j < message[i].scope_metrics@.len(),
        0 <= k < message[i].scope_metrics@[j].metrics@.len(),
        0 <= l < points_in_metric()(message[i].scope_metrics@[j].metrics@[k]),
    ensures
        ({
            let out = metrics_in_resources(message, message.len());
            let at = metrics_place(message, i, j, k) + l;
            let s = message[i].scope_metrics@[j];
            let m = s.metrics@[k];
            &&& out.len() == total(message, metrics_in_resource(), message.len())
            &&& at < out.len()
            &&& is_point_of(out[at], m, s, message[i])
            &&& match m.data {
                Some(MetricData::Gauge(g)) => out[at].metric_type == MetricType::Gauge && is_number(
                    out[at],
                    g@[l],
                ),
                Some(MetricData::Sum(x)) => out[at].metric_type == (MetricType::Sum {
                    is_monotonic: x.is_monotonic,
                    temporality: x.aggregation_temporality,
                }) && is_number(out[at], x.data_points@[l]),
                Some(MetricData::Histogram(h)) => out[at].metric_type == (MetricType::Histogram {
                    temporality: h.aggregation_temporality,
                }) && is_histogram(out[at], h.data_points@[l]),
                _ => false,
            }
        }),
{
    lemma_metrics_in_resources(message, i, j, k, l);
    let s = message[i].scope_metrics@[j];
    let m = s.metrics@[k];
    resource_attributes_are_those_given(message[i].resource);
    lemma_scope(s.scope);
    match m.data {
        Some(MetricData::Gauge(g)) => {
            attributes_are_those_given(g@[l].attributes@);
        },
        Some(MetricData::Sum(x)) => {
            attributes_are_those_given(x.data_points@[l].attributes@);
        },
        Some(MetricData::Histogram(h)) => {
            attributes_are_those_given(h.data_points@[l].attributes@);
        },
        _ => {},
    }
}

// ── Spans ───────────────────────────────────────────────────────────────────

/// How many spans a span of a message makes: none where an identifier has the wrong length.
pub open spec fn spans_in_span() -> spec_fn(OtlpSpan) -> nat {
    |p: OtlpSpan|
        if p.trace_id@.len() == 16 && p.span_id@.len() == 8 {
            1
        } else {
            0
        }
}

/// How many links a link of a message makes: none where an identifier has the wrong length.
pub open spec fn links_in_link() -> spec_fn(OtlpLink) -> nat {
    |l: OtlpLink|
        if l.trace_id@.len() == 16 && l.span_id@.len() == 8 {
            1
        } else {
            0
        }
}

/// How many spans the records of a scope make.
pub open spec fn spans_in_scope() -> spec_fn(ScopeSpans) -> nat {
    |s: ScopeSpans| total(s.spans@, spans_in_span(), s.spans@.len())
}

/// How many spans the scopes of a resource make.
pub open spec fn spans_in_resource() -> spec_fn(ResourceSpans) -> nat {
    |r: ResourceSpans| total(r.scope_spans@, spans_in_scope(), r.scope_spans@.len())
}

proof fn lemma_spans_in(
    a: Seq<OtlpSpan>,
    resource: Attrs,
    scope: ScopeModel,
    url: Seq<char>,
    k: int,
    l: int,
)
    ensures
        spans_in(a, a.len(), resource, scope, url).len() == total(a, spans_in_span(), a.len()),
        0 <= k < a.len() && 0 <= l < spans_in_span()(a[k]) ==> {
            let at = total(a, spans_in_span(), k as nat) + l;
            let out = spans_in(a, a.len(), resource, scope, url);
            at < out.len() && out[at] == spans_of(a[k], resource, scope, url)[l]
        },
{
    let all = |n: nat| spans_in(a, n, resource, scope, url);
    let own = |p: OtlpSpan| spans_of(p, resource, scope, url);
    assert forall|m: nat| 0 < m <= a.len() implies #[trigger] adds(
        a,
        all,
        own,
        spans_in_span(),
        m,
    ) by {}
    lists_stand_in_order(a, all, own, spans_in_span(), a.len(), k, l);
}

proof fn lemma_spans_in_scopes(a: Seq<ScopeSpans>, resource: Attrs, j: int, k: int, l: int)
    ensures
        spans_in_scopes(a, a.len(), resource).len() == total(a, spans_in_scope(), a.len()),
        0 <= j < a.len() && 0 <= k < a[j].spans@.len() && 0 <= l < spans_in_span()(
            a[j].spans@[k],
        ) ==> {
            let at = total(a, spans_in_scope(), j as nat) + total(
                a[j].spans@,
                spans_in_span(),
                k as nat,
            ) + l;
            let out = spans_in_scopes(a, a.len(), resource);
            at < out.len() && out[at] == spans_of(
                a[j].spans@[k],
                resource,
                message_scope(a[j].scope),
                a[j].schema_url@,
            )[l]
        },
{
    let all = |n: nat| spans_in_scopes(a, n, resource);
    let own = |s: ScopeSpans|
        spans_in(s.spans@, s.spans@.len(), resource, message_scope(s.scope), s.schema_url@);
    assert forall|m: nat| 0 < m <= a.len() implies #[trigger] adds(
        a,
        all,
        own,
        spans_in_scope(),
        m,
    ) by {
        let s = a[m - 1];
        lemma_spans_in(s.spans@, resource, message_scope(s.scope), s.schema_url@, 0, 0);
    }
    if 0 <= j < a.len() && 0 <= k < a[j].spans@.len() && 0 <= l < spans_in_span()(
        a[j].spans@[k],
    ) {
        let s = a[j];
        lemma_spans_in(s.spans@, resource, message_scope(s.scope), s.schema_url@, k, l);
        let within = total(s.spans@, spans_in_span(), k as nat) + l;
        lists_stand_in_order(a, all, own, spans_in_scope(), a.len(), j, within);
    } else {
        lists_stand_in_order(a, all, own, spans_in_scope(), a.len(), 0, -1);
    }
}

/// Where in the result the spans of record `k` of scope `j` of resource `i` begin.
pub open spec fn spans_place(message: Seq<ResourceSpans>, i: int, j: int, k: int) -> nat {
    total(message, spans_in_resource(), i as nat) + total(
        message[i].scope_spans@,
        spans_in_scope(),
        j as nat,
    ) + total(message[i].scope_spans@[j].spans@, spans_in_span(), k as nat)
}

proof fn lemma_spans_in_resources(message: Seq<ResourceSpans>, i: int, j: int, k: int, l: int)
    requires
        0 <= i < message.len(),
        0 <= j < message[i].scope_spans@.len(),
        0 <= k < message[i].scope_spans@[j].spans@.len(),
        0 <= l < spans_in_span()(message[i].scope_spans@[j].spans@[k]),
    ensures
        ({
            let out = spans_in_resources(message, message.len());
            let at = spans_place(message, i, j, k) + l;
            let s = message[i].scope_spans@[j];
            &&& out.len() == total(message, spans_in_resource(), message.len())
            &&& at < out.len()
            &&& out[at] == spans_of(
                s.spans@[k],
                message_resource(message[i].resource),
                message_scope(s.scope),
                s.schema_url@,
            )[l]
        }),
{
    let all = |n: nat| spans_in_resources(message, n);
    let own = |r: ResourceSpans|
        spans_in_scopes(r.scope_spans@, r.scope_spans@.len(), message_resource(r.resource));
    assert forall|m: nat| 0 < m <= message.len() implies #[trigger] adds(
        message,
        all,
        own,
        spans_in_resource(),
        m,
    ) by {
        let r = message[m - 1];
        lemma_spans_in_scopes(r.scope_spans@, message_resource(r.resource), -1, 0, 0);
    }
    let r = message[i];
    let s = r.scope_spans@[j];
    lemma_spans_in_scopes(r.scope_spans@, message_resource(r.resource), j, k, l);
    let within = total(r.scope_spans@, spans_in_scope(), j as nat) + total(
        s.spans@,
        spans_in_span(),
        k as nat,
    ) + l;
    lists_stand_in_order(message, all, own, spans_in_resource(), message.len(), i, within);
}

/// Whether an event is that of a message.
pub open spec fn is_event(out: EventModel, e: OtlpEvent) -> bool {
    &&& out.timestamp_ns == e.time_unix_nano
    &&& out.name == e.name@
    &&& holds(out.attributes, given_pairs(e.attributes@))
}

/// Whether a link is that of a message.
pub open spec fn is_link(out: LinkModel, l: OtlpLink) -> bool {
    &&& out.trace_id == l.trace_id@
    &&& out.span_id == l.span_id@
    &&& out.trace_state == l.trace_state@
    &&& holds(out.attributes, given_pairs(l.attributes@))
}

/// Whether links are those of a message, in order, without the ones that lack an identifier
/// of the right length.
pub open spec fn are_links(out: Seq<LinkModel>, a: Seq<OtlpLink>) -> bool {
    &&& out.len() == total(a, links_in_link(), a.len())
    &&& forall|i: int|
        0 <= i < a.len() && (#[trigger] a[i]).trace_id@.len() == 16 && a[i].span_id@.len() == 8
            ==> total(a, links_in_link(), i as nat) < out.len() && is_link(
            out[total(a, links_in_link(), i as nat) as int],
            a[i],
        )
}

proof fn lemma_links(a: Seq<OtlpLink>, n: nat, i: int)
    requires
        n <= a.len(),
    ensures
        links_in(a, n).len() == total(a, links_in_link(), n),
        0 <= i < n && a[i].trace_id@.len() == 16 && a[i].span_id@.len() == 8 ==> total(
            a,
            links_in_link(),
            i as nat,
        ) < links_in(a, n).len() && is_link(
            links_in(a, n)[total(a, links_in_link(), i as nat) as int],
            a[i],
        ),
    decreases n,
{
    if n > 0 {
        lemma_links(a, (n - 1) as nat, i);
        attributes_are_those_given(a[n - 1].attributes@);
    }
}

/// Whether a span is that of a message.
pub open spec fn is_span(out: SpanModel, p: OtlpSpan, s: ScopeSpans, r: ResourceSpans) -> bool {
    &&& out.trace_id == p.trace_id@
    &&& out.span_id == p.span_id@
    &&& is_id(out.parent_span_id, p.parent_span_id@, 8)
    &&& out.name == p.name@
    &&& out.kind == p.kind
    &&& out.start_time_ns == p.start_time_unix_nano
    &&& out.end_time_ns == p.end_time_unix_nano
    &&& (p.start_time_unix_nano <= p.end_time_unix_nano ==> out.start_time_ns + out.duration_ns
        == out.end_time_ns)
    &&& (p.end_time_unix_nano < p.start_time_unix_nano ==> out.duration_ns == 0)
    &&& match p.status {
        Some(t) => out.status_code == t.code && out.status_message == t.message@,
        None => out.status_code == 0 && out.status_message.len() == 0,
    }
    &&& holds(out.attributes, given_pairs(p.attributes@))
    &&& holds(out.resource_attributes, given_pairs(resource_pairs(r.resource)))
    &&& is_scope(out.scope, s.scope)
    &&& out.events.len() == p.events@.len()
    &&& forall|e: int| 0 <= e < out.events.len() ==> is_event(#[trigger] out.events[e], p.events@[e])
    &&& are_links(out.links, p.links@)
    &&& out.schema_url == s.schema_url@
}

/// Every span of a message whose identifiers have the right length comes out once, in the
/// order of the message, as itself, with the attributes of its own resource. No other comes
/// out.
pub proof fn every_span_is_kept(message: Seq<ResourceSpans>, i: int, j: int, k: int)
    requires
        0 <= i < message.len(),
        0 <= j < message[i].scope_spans@.len(),
        0 <= k < message[i].scope_spans@[j].spans@.len(),
        message[i].scope_spans@[j].spans@[k].trace_id@.len() == 16,
        message[i].scope_spans@[j].spans@[k].span_id@.len() == 8,
    ensures
        ({
            let out = spans_in_resources(message, message.len());
            let at = spans_place(message, i, j, k);
            let s = message[i].scope_spans@[j];
            &&& out.len() == total(message, spans_in_resource(), message.len())
            &&& at < out.len()
            &&& is_span(out[at as int], s.spans@[k], s, message[i])
        }),
{
    lemma_spans_in_resources(message, i, j, k, 0);
    let s = message[i].scope_spans@[j];
    let p = s.spans@[k];
    resource_attributes_are_those_given(message[i].resource);
    attributes_are_those_given(p.attributes@);
    lemma_scope(s.scope);
    let at = spans_place(message, i, j, k);
    let out = spans_in_resources(message, message.len())[at as int];
    assert forall|e: int| 0 <= e < out.events.len() implies is_event(
        #[trigger] out.events[e],
        p.events@[e],
    ) by {
        attributes_are_those_given(p.events@[e].attributes@);
    }
    assert(are_links(out.links, p.links@)) by {
        assert forall|x: int|
            0 <= x < p.links@.len() && (#[trigger] p.links@[x]).trace_id@.len() == 16
                && p.links@[x].span_id@.len() == 8 implies total(
            p.links@,
            links_in_link(),
            x as nat,
        ) < out.links.len() && is_link(
            out.links[total(p.links@, links_in_link(), x as nat) as int],
            p.links@[x],
        ) by {
            lemma_links(p.links@, p.links@.len(), x);
        }
        lemma_links(p.links@, p.links@.len(), -1);
    }
}

} // verus!
