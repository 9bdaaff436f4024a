//! Record fields in the form in which columns hold them: JSON texts and byte strings.

use crate::bytes::le_bytes;
use crate::common::model::{
    any_view_parts, attrs_view, events_view, links_view, opt_value_view, values_view, AnyModel,
    AnyValue, EventModel, LinkModel, SpanEvent, SpanLink,
};
use crate::json::{
    items_view, json_text, members_view, text_of_json, JsonModel, JsonValue,
};
use crate::storage::zone_map::opt_text;
use vstd::prelude::*;

verus! {

// ── JSON ────────────────────────────────────────────────────────────────────

/// Bytes as an array of numbers.
pub open spec fn bytes_json(b: Seq<u8>) -> JsonModel {
    JsonModel::Array(b.map_values(|x: u8| JsonModel::Pos(x as u64)))
}

/// A whole number.
pub open spec fn int_json(i: i64) -> JsonModel {
    if i < 0 {
        JsonModel::Neg(i)
    } else {
        JsonModel::Pos(i as u64)
    }
}

/// An attribute value as a JSON value.
pub open spec fn any_json(a: AnyModel) -> JsonModel
    decreases a, 0nat,
{
    match a {
        AnyModel::String(s) => JsonModel::Text(s),
        AnyModel::Bool(b) => JsonModel::Bool(b),
        AnyModel::Int(i) => int_json(i),
        AnyModel::Double(d) => JsonModel::Float(d),
        AnyModel::Bytes(b) => bytes_json(b),
        AnyModel::Array(v) => JsonModel::Array(list_json(v, v.len())),
        AnyModel::KeyValues(v) => JsonModel::Object(pairs_json(v, v.len())),
    }
}

/// The first `n` values of a list as JSON values.
pub open spec fn list_json(v: Seq<AnyModel>, n: nat) -> Seq<JsonModel>
    decreases v, n,
{
    if n == 0 || n > v.len() {
        Seq::empty()
    } else {
        list_json(v, (n - 1) as nat).push(any_json(v[n - 1]))
    }
}

/// The first `n` attributes of a list as members of an object.
pub open spec fn pairs_json(v: Seq<(Seq<char>, AnyModel)>, n: nat) -> Seq<(Seq<char>, JsonModel)>
    decreases v, n,
{
    if n == 0 || n > v.len() {
        Seq::empty()
    } else {
        pairs_json(v, (n - 1) as nat).push((v[n - 1].0, any_json(v[n - 1].1)))
    }
}

/// Attributes as an object.
pub open spec fn attrs_json(v: Seq<(Seq<char>, AnyModel)>) -> JsonModel {
    JsonModel::Object(pairs_json(v, v.len()))
}

proof fn lemma_items_push(a: Vec<JsonValue>, b: Vec<JsonValue>, x: JsonValue, n: nat)
    requires
        b@ == a@.push(x),
        n <= a@.len(),
    ensures
        items_view(b, n) == items_view(a, n),
    decreases n,
{
    if n > 0 {
        lemma_items_push(a, b, x, (n - 1) as nat);
    }
}

proof fn lemma_members_push(
    a: Vec<(String, JsonValue)>,
    b: Vec<(String, JsonValue)>,
    x: (String, JsonValue),
    n: nat,
)
    requires
        b@ == a@.push(x),
        n <= a@.len(),
    ensures
        members_view(b, n) == members_view(a, n),
    decreases n,
{
    if n > 0 {
        lemma_members_push(a, b, x, (n - 1) as nat);
    }
}

fn push_item(list: &mut Vec<JsonValue>, x: JsonValue)
    ensures
        items_view(*final(list), final(list)@.len()) == items_view(
            *old(list),
            old(list)@.len(),
        ).push(x@),
        final(list)@.len() == old(list)@.len() + 1,
{
    let ghost before = *list;
    list.push(x);
    proof {
        lemma_items_push(before, *list, x, before@.len());
    }
}

fn push_member(list: &mut Vec<(String, JsonValue)>, key: String, x: JsonValue)
    ensures
        members_view(*final(list), final(list)@.len()) == members_view(
            *old(list),
            old(list)@.len(),
        ).push((key@, x@)),
        final(list)@.len() == old(list)@.len() + 1,
{
    let ghost before = *list;
    let ghost pair = (key, x);
    list.push((key, x));
    proof {
        lemma_members_push(before, *list, pair, before@.len());
    }
}

fn json_of_bytes(b: &[u8]) -> (out: JsonValue)
    ensures
        out@ == bytes_json(b@),
{
    let mut list: Vec<JsonValue> = Vec::new();
    for i in 0..b.len()
        invariant
            list@.len() == i,
            items_view(list, list@.len()) =~= b@.take(i as int).map_values(
                |x: u8| JsonModel::Pos(x as u64),
            ),
    {
        push_item(&mut list, JsonValue::Pos(b[i] as u64));
    }
    assert(b@.take(b@.len() as int) =~= b@);
    JsonValue::Array(list)
}

fn json_of_any(a: &AnyValue) -> (out: JsonValue)
    ensures
        out@ == any_json(a@),
    decreases a, 1nat,
{
    proof {
        any_view_parts(*a);
    }
    match a {
        AnyValue::String(s) => JsonValue::Text(s.clone()),
        AnyValue::Bool(b) => JsonValue::Bool(*b),
        AnyValue::Int(i) => if *i < 0 {
            JsonValue::Neg(*i)
        } else {
            JsonValue::Pos(*i as u64)
        },
        AnyValue::Double(d) => JsonValue::Float(*d),
        AnyValue::Bytes(b) => json_of_bytes(b.as_slice()),
        AnyValue::Array(v) => {
            let ghost models = values_view(v@);
            let mut list: Vec<JsonValue> = Vec::new();
            for i in 0..v.len()
                invariant
                    a matches AnyValue::Array(x) && v == &x,
                    models == values_view(v@),
                    list@.len() == i,
                    items_view(list, list@.len()) == list_json(models, i as nat),
            {
                let x = json_of_any(&v[i]);
                push_item(&mut list, x);
            }
            JsonValue::Array(list)
        },
        AnyValue::KeyValues(v) => json_of_attrs(v),
    }
}

/// Attributes as an object.
fn json_of_attrs(v: &Vec<(String, AnyValue)>) -> (out: JsonValue)
    ensures
        out@ == attrs_json(attrs_view(v@)),
    decreases v, 0nat,
{
    let ghost models = attrs_view(v@);
    let mut list: Vec<(String, JsonValue)> = Vec::new();
    for i in 0..v.len()
        invariant
            models == attrs_view(v@),
            list@.len() == i,
            members_view(list, list@.len()) == pairs_json(models, i as nat),
    {
        let x = json_of_any(&v[i].1);
        push_member(&mut list, v[i].0.clone(), x);
    }
    JsonValue::Object(list)
}

/// The JSON text of an attribute value, if there is one.
pub open spec fn value_text(v: Option<AnyModel>) -> Option<Seq<char>> {
    match v {
        Some(a) => Some(text_of_json(any_json(a))),
        None => None,
    }
}

/// The JSON text of attributes, if there are any.
pub open spec fn attrs_text(v: Seq<(Seq<char>, AnyModel)>) -> Option<Seq<char>> {
    if v.len() == 0 {
        None
    } else {
        Some(text_of_json(attrs_json(v)))
    }
}

/// The JSON text of an attribute value, if there is one.
pub fn json_opt(v: &Option<AnyValue>) -> (out: Option<String>)
    ensures
        opt_text(out) == value_text(opt_value_view(*v)),
{
    match v {
        Some(a) => json_text(&json_of_any(a)),
        None => None,
    }
}

/// The JSON text of attributes, if there are any.
pub fn json_map(v: &Vec<(String, AnyValue)>) -> (out: Option<String>)
    ensures
        opt_text(out) == attrs_text(attrs_view(v@)),
{
    if v.len() == 0 {
        None
    } else {
        json_text(&json_of_attrs(v))
    }
}

/// An event of a span as an object.
pub open spec fn event_json(e: EventModel) -> JsonModel {
    JsonModel::Object(
        seq![
            ("timestamp_ns"@, JsonModel::Pos(e.timestamp_ns)),
            ("name"@, JsonModel::Text(e.name)),
            ("attributes"@, attrs_json(e.attributes)),
        ],
    )
}

/// A link of a span as an object.
pub open spec fn link_json(l: LinkModel) -> JsonModel {
    JsonModel::Object(
        seq![
            ("trace_id"@, bytes_json(l.trace_id)),
            ("span_id"@, bytes_json(l.span_id)),
            ("trace_state"@, JsonModel::Text(l.trace_state)),
            ("attributes"@, attrs_json(l.attributes)),
        ],
    )
}

fn json_of_event(e: &SpanEvent) -> (out: JsonValue)
    ensures
        out@ == event_json(e@),
{
    let mut list: Vec<(String, JsonValue)> = Vec::new();
    push_member(&mut list, "timestamp_ns".to_string(), JsonValue::Pos(e.timestamp_ns));
    push_member(&mut list, "name".to_string(), JsonValue::Text(e.name.clone()));
    push_member(&mut list, "attributes".to_string(), json_of_attrs(&e.attributes));
    let out = JsonValue::Object(list);
    assert(out@->Object_0 =~= event_json(e@)->Object_0);
    out
}

fn json_of_link(l: &SpanLink) -> (out: JsonValue)
    ensures
        out@ == link_json(l@),
{
    let mut list: Vec<(String, JsonValue)> = Vec::new();
    push_member(&mut list, "trace_id".to_string(), json_of_bytes(l.trace_id.as_slice()));
    push_member(&mut list, "span_id".to_string(), json_of_bytes(l.span_id.as_slice()));
    push_member(&mut list, "trace_state".to_string(), JsonValue::Text(l.trace_state.clone()));
    push_member(&mut list, "attributes".to_string(), json_of_attrs(&l.attributes));
    let out = JsonValue::Object(list);
    assert(out@->Object_0 =~= link_json(l@)->Object_0);
    out
}

/// The JSON text of the events of a span.
pub open spec fn events_text(v: Seq<EventModel>) -> Seq<char> {
    text_of_json(JsonModel::Array(v.map_values(|e: EventModel| event_json(e))))
}

/// The JSON text of the links of a span.
pub open spec fn links_text(v: Seq<LinkModel>) -> Seq<char> {
    text_of_json(JsonModel::Array(v.map_values(|l: LinkModel| link_json(l))))
}

/// The JSON text of the events of a span.
pub fn json_events(v: &Vec<SpanEvent>) -> (out: Option<String>)
    ensures
        opt_text(out) == Some(events_text(events_view(v@))),
{
    let ghost models = events_view(v@);
    let mut list: Vec<JsonValue> = Vec::new();
    for i in 0..v.len()
        invariant
            models == events_view(v@),
            list@.len() == i,
            items_view(list, list@.len()) =~= models.take(i as int).map_values(
                |e: EventModel| event_json(e),
            ),
    {
        push_item(&mut list, json_of_event(&v[i]));
    }
    assert(models.take(models.len() as int) =~= models);
    json_text(&JsonValue::Array(list))
}

/// The JSON text of the links of a span.
pub fn json_links(v: &Vec<SpanLink>) -> (out: Option<String>)
    ensures
        opt_text(out) == Some(links_text(links_view(v@))),
{
    let ghost models = links_view(v@);
    let mut list: Vec<JsonValue> = Vec::new();
    for i in 0..v.len()
        invariant
            models == links_view(v@),
            list@.len() == i,
            items_view(list, list@.len()) =~= models.take(i as int).map_values(
                |l: LinkModel| link_json(l),
            ),
    {
        push_item(&mut list, json_of_link(&v[i]));
    }
    assert(models.take(models.len() as int) =~= models);
    json_text(&JsonValue::Array(list))
}

// ── Byte strings ────────────────────────────────────────────────────────────

/// Numbers of 64 bits, each as eight little-endian bytes.
pub open spec fn numbers_bytes(v: Seq<u64>) -> Seq<u8>
    decreases v.len(),
{
    if v.len() == 0 {
        Seq::empty()
    } else {
        numbers_bytes(v.drop_last()) + le_bytes(v.last() as nat, 8)
    }
}

/// A list of numbers of 64 bits: their number, and each of them, as eight little-endian
/// bytes.
pub open spec fn list_bytes(v: Seq<u64>) -> Seq<u8> {
    le_bytes(v.len(), 8) + numbers_bytes(v)
}

/// `bincode::serialize` of a list of 64-bit numbers: the number of items and the items, each
/// in eight little-endian bytes. A list of floating-point numbers given by their bits has
/// the same form. It does not fail on such lists.
#[verifier::external_body]
pub(crate) fn bincode_list(v: &Vec<u64>) -> (out: Vec<u8>)
    ensures
        out@ == list_bytes(v@),
{
    bincode::serialize(v).unwrap_or_default()
}

// ── What is kept ────────────────────────────────────────────────────────────

proof fn lemma_list_json(v: Seq<AnyModel>, n: nat)
    requires
        n <= v.len(),
    ensures
        list_json(v, n).len() == n,
        forall|i: int| 0 <= i < n ==> #[trigger] list_json(v, n)[i] == any_json(v[i]),
    decreases n,
{
    if n > 0 {
        lemma_list_json(v, (n - 1) as nat);
    }
}

proof fn lemma_pairs_json(v: Seq<(Seq<char>, AnyModel)>, n: nat)
    requires
        n <= v.len(),
    ensures
        pairs_json(v, n).len() == n,
        forall|i: int|
            0 <= i < n ==> #[trigger] pairs_json(v, n)[i] == (v[i].0, any_json(v[i].1)),
    decreases n,
{
    if n > 0 {
        lemma_pairs_json(v, (n - 1) as nat);
    }
}

/// A value is written as the JSON value of its type: texts, truth values and numbers as
/// themselves, bytes as an array of their numbers, a list item by item, and a map with its
/// keys in order.
pub proof fn values_are_written_as_themselves(a: AnyModel)
    ensures
        match a {
            AnyModel::String(s) => any_json(a) == JsonModel::Text(s),
            AnyModel::Bool(b) => any_json(a) == JsonModel::Bool(b),
            AnyModel::Int(n) => if n < 0 {
                any_json(a) == JsonModel::Neg(n)
            } else {
                any_json(a) == JsonModel::Pos(n as u64)
            },
            AnyModel::Double(d) => any_json(a) == JsonModel::Float(d),
            AnyModel::Bytes(b) => any_json(a) matches JsonModel::Array(l) && l.len() == b.len()
                && forall|i: int|
                0 <= i < l.len() ==> #[trigger] l[i] == JsonModel::Pos(b[i] as u64),
            AnyModel::Array(v) => any_json(a) matches JsonModel::Array(l) && l.len() == v.len()
                && forall|i: int| 0 <= i < l.len() ==> #[trigger] l[i] == any_json(v[i]),
            AnyModel::KeyValues(v) => any_json(a) matches JsonModel::Object(o) && o.len() == v.len()
                && forall|i: int|
                0 <= i < o.len() ==> #[trigger] o[i] == (v[i].0, any_json(v[i].1)),
        },
{
    match a {
        AnyModel::Array(v) => {
            lemma_list_json(v, v.len());
        },
        AnyModel::KeyValues(v) => {
            lemma_pairs_json(v, v.len());
        },
        _ => {},
    }
}

/// Attributes are written as an object with their keys in order; where there are none, and
/// where there is no value, nothing is written.
pub proof fn attributes_are_written_as_an_object(v: Seq<(Seq<char>, AnyModel)>, a: AnyModel)
    ensures
        attrs_json(v) matches JsonModel::Object(o) && o.len() == v.len() && forall|i: int|
            0 <= i < o.len() ==> #[trigger] o[i] == (v[i].0, any_json(v[i].1)),
        v.len() > 0 ==> attrs_text(v) == Some(text_of_json(attrs_json(v))),
        v.len() == 0 ==> attrs_text(v) is None,
        value_text(Some(a)) == Some(text_of_json(any_json(a))),
        value_text(None) is None,
{
    lemma_pairs_json(v, v.len());
}

/// An event and a link are written with each field under its name.
pub proof fn events_and_links_are_written_by_name(e: EventModel, l: LinkModel)
    ensures
        crate::json::member(event_json(e), "timestamp_ns"@) == Some(JsonModel::Pos(e.timestamp_ns)),
        crate::json::member(event_json(e), "name"@) == Some(JsonModel::Text(e.name)),
        crate::json::member(event_json(e), "attributes"@) == Some(attrs_json(e.attributes)),
        crate::json::member(link_json(l), "trace_id"@) == Some(bytes_json(l.trace_id)),
        crate::json::member(link_json(l), "span_id"@) == Some(bytes_json(l.span_id)),
        crate::json::member(link_json(l), "trace_state"@) == Some(JsonModel::Text(l.trace_state)),
        crate::json::member(link_json(l), "attributes"@) == Some(attrs_json(l.attributes)),
{
    reveal_strlit("timestamp_ns");
    reveal_strlit("name");
    reveal_strlit("attributes");
    reveal_strlit("trace_id");
    reveal_strlit("span_id");
    reveal_strlit("trace_state");
    assert("timestamp_ns"@.len() == 12 && "name"@.len() == 4 && "attributes"@.len() == 10);
    assert("trace_id"@.len() == 8 && "span_id"@.len() == 7 && "trace_state"@.len() == 11);
    reveal_with_fuel(crate::json::first_member, 5);
}

/// Every event and every link of a span is written, in order.
pub proof fn events_and_links_are_written_in_order(
    e: Seq<EventModel>,
    l: Seq<LinkModel>,
    i: int,
)
    ensures
        exists|a: Seq<JsonModel>|
            events_text(e) == #[trigger] text_of_json(JsonModel::Array(a)) && a.len() == e.len() && (0
                <= i < e.len() ==> a[i] == event_json(e[i])),
        exists|a: Seq<JsonModel>|
            links_text(l) == #[trigger] text_of_json(JsonModel::Array(a)) && a.len() == l.len() && (0
                <= i < l.len() ==> a[i] == link_json(l[i])),
{
    let a = e.map_values(|x: EventModel| event_json(x));
    let b = l.map_values(|x: LinkModel| link_json(x));
    assert(events_text(e) == text_of_json(JsonModel::Array(a)));
    assert(links_text(l) == text_of_json(JsonModel::Array(b)));
}

} // verus!
