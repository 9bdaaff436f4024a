//! JSON documents.
//!
//! Texts are read and written by `serde_json`; what stands in a document is read here.

use crate::float::{float_of_signed, float_of_unsigned, signed_bits, unsigned_bits};
use crate::storage::zone_map::opt_text;
use crate::text::str_eq;
use arrow::buffer::Buffer;
use serde_json::{Number, Value};
use vstd::prelude::*;

verus! {

/// A JSON value. A number is held as a whole number where it is one that fits, and as the
/// bits of a floating-point number otherwise. `Neg` holds negative numbers only.
#[derive(Debug)]
pub enum JsonValue {
    Null,
    Bool(bool),
    Pos(u64),
    Neg(i64),
    Float(u64),
    Text(String),
    Array(Vec<JsonValue>),
    Object(Vec<(String, JsonValue)>),
}

/// A JSON value as a mathematical value. The members of an object keep their order.
pub enum JsonModel {
    Null,
    Bool(bool),
    Pos(u64),
    Neg(i64),
    Float(u64),
    Text(Seq<char>),
    Array(Seq<JsonModel>),
    Object(Seq<(Seq<char>, JsonModel)>),
}

/// What a JSON value stands for.
pub open spec fn json_view(v: JsonValue) -> JsonModel
    decreases v, 0nat,
{
    match v {
        JsonValue::Null => JsonModel::Null,
        JsonValue::Bool(b) => JsonModel::Bool(b),
        JsonValue::Pos(n) => JsonModel::Pos(n),
        JsonValue::Neg(n) => JsonModel::Neg(n),
        JsonValue::Float(b) => JsonModel::Float(b),
        JsonValue::Text(s) => JsonModel::Text(s@),
        JsonValue::Array(a) => JsonModel::Array(items_view(a, a@.len())),
        JsonValue::Object(o) => JsonModel::Object(members_view(o, o@.len())),
    }
}

/// The first `n` items of an array.
pub open spec fn items_view(a: Vec<JsonValue>, n: nat) -> Seq<JsonModel>
    decreases a, n,
{
    if n == 0 || n > a@.len() {
        Seq::empty()
    } else {
        items_view(a, (n - 1) as nat).push(json_view(a@[n - 1]))
    }
}

/// The first `n` members of an object.
pub open spec fn members_view(o: Vec<(String, JsonValue)>, n: nat) -> Seq<(Seq<char>, JsonModel)>
    decreases o, n,
{
    if n == 0 || n > o@.len() {
        Seq::empty()
    } else {
        members_view(o, (n - 1) as nat).push((o@[n - 1].0@, json_view(o@[n - 1].1)))
    }
}

impl View for JsonValue {
    type V = JsonModel;

    open spec fn view(&self) -> JsonModel {
        json_view(*self)
    }
}

/// The items of an array stand one for one for those of the list.
pub proof fn items_view_is_pointwise(a: Vec<JsonValue>, n: nat)
    requires
        n <= a@.len(),
    ensures
        items_view(a, n).len() == n,
        forall|i: int| 0 <= i < n ==> #[trigger] items_view(a, n)[i] == a@[i]@,
    decreases n,
{
    if n > 0 {
        items_view_is_pointwise(a, (n - 1) as nat);
    }
}

/// The members of an object stand one for one for those of the list.
pub proof fn members_view_is_pointwise(o: Vec<(String, JsonValue)>, n: nat)
    requires
        n <= o@.len(),
    ensures
        members_view(o, n).len() == n,
        forall|i: int| 0 <= i < n ==> #[trigger] members_view(o, n)[i] == (o@[i].0@, o@[i].1@),
    decreases n,
{
    if n > 0 {
        members_view_is_pointwise(o, (n - 1) as nat);
    }
}

// ── Texts ───────────────────────────────────────────────────────────────────

/// A value of `serde_json`.
#[verifier::external_type_specification]
#[verifier::external_body]
pub struct ExJsonValue(serde_json::Value);

/// The value that a JSON text writes, as `serde_json` reads it, or its message.
pub uninterp spec fn json_of_text(text: Seq<u8>) -> Result<JsonModel, Seq<char>>;

/// The JSON text of a value, as `serde_json` writes it.
pub uninterp spec fn text_of_json(v: JsonModel) -> Seq<char>;

/// The outcome of reading a JSON text as a mathematical value.
pub open spec fn parsed_view(r: Result<JsonValue, String>) -> Result<JsonModel, Seq<char>> {
    match r {
        Ok(v) => Ok(v@),
        Err(m) => Err(m@),
    }
}

/// Turns a value of `serde_json` into one of this library, one for one.
#[verifier::external_body]
fn from_serde(v: Value) -> JsonValue {
    match v {
        Value::Null => JsonValue::Null,
        Value::Bool(b) => JsonValue::Bool(b),
        Value::Number(n) => match (n.as_u64(), n.as_i64(), n.as_f64()) {
            (Some(u), _, _) => JsonValue::Pos(u),
            (_, Some(i), _) => JsonValue::Neg(i),
            (_, _, x) => JsonValue::Float(x.unwrap_or_default().to_bits()),
        },
        Value::String(s) => JsonValue::Text(s),
        Value::Array(a) => JsonValue::Array(a.into_iter().map(from_serde).collect()),
        Value::Object(o) => JsonValue::Object(
            o.into_iter().map(|(k, v)| (k, from_serde(v))).collect(),
        ),
    }
}

/// Turns a value of this library into one of `serde_json`, one for one. A number that is
/// neither finite nor a number becomes null there.
#[verifier::external_body]
fn to_serde(v: &JsonValue) -> Value {
    match v {
        JsonValue::Null => Value::Null,
        JsonValue::Bool(b) => Value::Bool(*b),
        JsonValue::Pos(n) => Value::from(*n),
        JsonValue::Neg(n) => Value::from(*n),
        JsonValue::Float(b) => Number::from_f64(Buffer::from_vec(vec![*b]).typed_data()[0])
            .map_or(Value::Null, Value::Number),
        JsonValue::Text(s) => Value::String(s.clone()),
        JsonValue::Array(a) => Value::Array(a.iter().map(to_serde).collect()),
        JsonValue::Object(o) => Value::Object(
            o.iter().map(|m| (m.0.clone(), to_serde(&m.1))).collect(),
        ),
    }
}

/// `serde_json::from_slice`: the value that a JSON text writes, or the message of the
/// error. Both depend on the bytes alone.
#[verifier::external_body]
pub(crate) fn parse_json(text: &[u8]) -> (out: Result<JsonValue, String>)
    ensures
        parsed_view(out) == json_of_text(text@),
{
    serde_json::from_slice::<serde_json::Value>(text).map(from_serde).map_err(|e| e.to_string())
}

/// `serde_json::to_string` of a value. It does not fail on values, and the text depends on
/// the value alone.
#[verifier::external_body]
pub(crate) fn json_text(v: &JsonValue) -> (out: Option<String>)
    ensures
        opt_text(out) == Some(text_of_json(v@)),
{
    serde_json::to_string(&to_serde(v)).ok()
}

// ── Reading documents ───────────────────────────────────────────────────────

/// The member of an object with a name; none of anything else.
pub open spec fn member(v: JsonModel, key: Seq<char>) -> Option<JsonModel> {
    match v {
        JsonModel::Object(o) => first_member(o, key, 0),
        _ => None,
    }
}

/// The first member from `i` on with a name.
pub open spec fn first_member(o: Seq<(Seq<char>, JsonModel)>, key: Seq<char>, i: nat) -> Option<
    JsonModel,
>
    decreases o.len() - i,
{
    if i >= o.len() {
        None
    } else if o[i as int].0 == key {
        Some(o[i as int].1)
    } else {
        first_member(o, key, i + 1)
    }
}

/// A text, if the value is one.
pub open spec fn as_text(v: Option<JsonModel>) -> Option<Seq<char>> {
    match v {
        Some(JsonModel::Text(s)) => Some(s),
        _ => None,
    }
}

/// A truth value, if the value is one.
pub open spec fn as_flag(v: Option<JsonModel>) -> Option<bool> {
    match v {
        Some(JsonModel::Bool(b)) => Some(b),
        _ => None,
    }
}

/// A whole number of 64 bits, if the value is one.
pub open spec fn as_int(v: Option<JsonModel>) -> Option<i64> {
    match v {
        Some(JsonModel::Pos(n)) => if n <= i64::MAX {
            Some(n as i64)
        } else {
            None
        },
        Some(JsonModel::Neg(n)) => Some(n),
        _ => None,
    }
}

/// A whole number of 64 bits without sign, if the value is one.
pub open spec fn as_unsigned(v: JsonModel) -> Option<u64> {
    match v {
        JsonModel::Pos(n) => Some(n),
        _ => None,
    }
}

/// The bits of the floating-point number nearest to the value, if it is a number.
pub open spec fn as_float(v: Option<JsonModel>) -> Option<u64> {
    match v {
        Some(JsonModel::Pos(n)) => Some(unsigned_bits(n)),
        Some(JsonModel::Neg(n)) => Some(signed_bits(n)),
        Some(JsonModel::Float(b)) => Some(b),
        _ => None,
    }
}

/// The items, if the value is an array.
pub open spec fn as_items(v: Option<JsonModel>) -> Option<Seq<JsonModel>> {
    match v {
        Some(JsonModel::Array(a)) => Some(a),
        _ => None,
    }
}

/// An optional reference to a value as a mathematical value.
pub open spec fn opt_json(v: Option<&JsonValue>) -> Option<JsonModel> {
    match v {
        Some(x) => Some(x@),
        None => None,
    }
}

/// The member of an object with a name.
pub fn get<'a>(v: &'a JsonValue, key: &str) -> (out: Option<&'a JsonValue>)
    ensures
        opt_json(out) == member(v@, key@),
        out matches Some(m) ==> decreases_to!(v => m),
{
    match v {
        JsonValue::Object(o) => {
            let n: usize = o.len();
            let ghost all = members_view(*o, n as nat);
            proof {
                members_view_is_pointwise(*o, n as nat);
            }
            for i in 0..n
                invariant
                    v matches JsonValue::Object(x) && o == &x,
                    n == o@.len(),
                    all == members_view(*o, n as nat),
                    all.len() == n,
                    forall|k: int| 0 <= k < n ==> #[trigger] all[k] == (o@[k].0@, o@[k].1@),
                    first_member(all, key@, 0) == first_member(all, key@, i as nat),
            {
                assert(all[i as int] == (o@[i as int].0@, o@[i as int].1@));
                if str_eq(o[i].0.as_str(), key) {
                    return Some(&o[i].1);
                }
            }
            None
        },
        _ => None,
    }
}

/// The member of an object, if there is one.
pub fn get_in<'a>(v: Option<&'a JsonValue>, key: &str) -> (out: Option<&'a JsonValue>)
    ensures
        opt_json(out) == match opt_json(v) {
            Some(x) => member(x, key@),
            None => None,
        },
{
    match v {
        Some(x) => get(x, key),
        None => None,
    }
}

/// A text, if the value is one.
pub fn text<'a>(v: Option<&'a JsonValue>) -> (out: Option<&'a str>)
    ensures
        match out {
            Some(s) => as_text(opt_json(v)) == Some(s@),
            None => as_text(opt_json(v)) is None,
        },
{
    match v {
        Some(JsonValue::Text(s)) => Some(s.as_str()),
        _ => None,
    }
}

/// A text, or the empty one if the value is none.
pub open spec fn text_or_empty(v: Option<JsonModel>) -> Seq<char> {
    match as_text(v) {
        Some(s) => s,
        None => Seq::empty(),
    }
}

/// A text, or the empty one if the value is none.
pub fn owned_text(v: Option<&JsonValue>) -> (out: String)
    ensures
        out@ == text_or_empty(opt_json(v)),
{
    match text(v) {
        Some(s) => s.to_string(),
        None => {
            let s = String::new();
            assert(s@ =~= Seq::empty());
            s
        },
    }
}

/// A truth value, if the value is one.
pub fn flag(v: Option<&JsonValue>) -> (out: Option<bool>)
    ensures
        out == as_flag(opt_json(v)),
{
    match v {
        Some(JsonValue::Bool(b)) => Some(*b),
        _ => None,
    }
}

/// A whole number of 64 bits, if the value is one.
pub fn whole(v: Option<&JsonValue>) -> (out: Option<i64>)
    ensures
        out == as_int(opt_json(v)),
{
    match v {
        Some(JsonValue::Pos(n)) => if *n <= 0x7FFF_FFFF_FFFF_FFFF {
            Some(*n as i64)
        } else {
            None
        },
        Some(JsonValue::Neg(n)) => Some(*n),
        _ => None,
    }
}

/// The bits of the floating-point number nearest to the value, if it is a number.
pub fn float(v: Option<&JsonValue>) -> (out: Option<u64>)
    ensures
        out == as_float(opt_json(v)),
{
    match v {
        Some(JsonValue::Pos(n)) => Some(float_of_unsigned(*n)),
        Some(JsonValue::Neg(n)) => Some(float_of_signed(*n)),
        Some(JsonValue::Float(b)) => Some(*b),
        _ => None,
    }
}

/// The items, if the value is an array.
pub fn items<'a>(v: Option<&'a JsonValue>) -> (out: Option<&'a Vec<JsonValue>>)
    ensures
        match out {
            Some(a) => as_items(opt_json(v)) == Some(items_view(*a, a@.len())),
            None => as_items(opt_json(v)) is None,
        },
{
    match v {
        Some(JsonValue::Array(a)) => Some(a),
        _ => None,
    }
}

} // verus!
