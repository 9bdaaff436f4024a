//! The normalised data model for logs, metrics and spans.
//!
//! These types stand between the ingest and the storage layer. A floating-point
//! value is held as the 64 bits of its IEEE 754 representation, and a map of
//! attributes as a list of pairs in which no key occurs twice.

use crate::common::error::CommonError;
use crate::text::str_eq;
use vstd::prelude::*;
use vstd::std_specs::convert::{FromSpecImpl, TryFromSpecImpl};

verus! {

// ── Signal type ─────────────────────────────────────────────────────────────

#[derive(Debug, Clone, Copy, PartialEq, Eq, Structural)]
pub enum SignalType {
    Log,
    Metric,
    Span,
}

impl SignalType {
    /// The byte that stands for a signal type on disk.
    pub open spec fn code(self) -> u8 {
        match self {
            SignalType::Log => 0,
            SignalType::Metric => 1,
            SignalType::Span => 2,
        }
    }

    /// The byte that stands for this signal type on disk.
    pub fn as_u8(self) -> (b: u8)
        ensures
            b == self.code(),
    {
        match self {
            SignalType::Log => 0,
            SignalType::Metric => 1,
            SignalType::Span => 2,
        }
    }
}

impl TryFrom<u8> for SignalType {
    type Error = CommonError;

    fn try_from(v: u8) -> (out: Result<SignalType, CommonError>) {
        if v == 0 {
            Ok(SignalType::Log)
        } else if v == 1 {
            Ok(SignalType::Metric)
        } else if v == 2 {
            Ok(SignalType::Span)
        } else {
            Err(CommonError::InvalidSignalType(v))
        }
    }
}

impl TryFromSpecImpl<u8> for SignalType {
    open spec fn obeys_try_from_spec() -> bool {
        true
    }

    open spec fn try_from_spec(v: u8) -> Result<SignalType, CommonError> {
        match v {
            0 => Ok(SignalType::Log),
            1 => Ok(SignalType::Metric),
            2 => Ok(SignalType::Span),
            other => Err(CommonError::InvalidSignalType(other)),
        }
    }
}

/// The byte of a signal type names it.
pub proof fn signal_code_round_trip(s: SignalType)
    ensures
        <SignalType as vstd::std_specs::convert::TryFromSpec<u8>>::try_from_spec(s.code()) == Ok::<SignalType, CommonError>(s),
{
}

// ── Attribute values ────────────────────────────────────────────────────────

/// An attribute value. `Double` holds the bits of the number.
#[derive(Debug)]
pub enum AnyValue {
    String(String),
    Bool(bool),
    Int(i64),
    Double(u64),
    Bytes(Vec<u8>),
    Array(Vec<AnyValue>),
    KeyValues(Vec<(String, AnyValue)>),
}

/// An attribute value as mathematical values.
pub enum AnyModel {
    String(Seq<char>),
    Bool(bool),
    Int(i64),
    Double(u64),
    Bytes(Seq<u8>),
    Array(Seq<AnyModel>),
    KeyValues(Seq<(Seq<char>, AnyModel)>),
}

/// What an attribute value stands for.
pub open spec fn any_view(a: AnyValue) -> AnyModel
    decreases a,
{
    match a {
        AnyValue::String(s) => AnyModel::String(s@),
        AnyValue::Bool(b) => AnyModel::Bool(b),
        AnyValue::Int(i) => AnyModel::Int(i),
        AnyValue::Double(d) => AnyModel::Double(d),
        AnyValue::Bytes(b) => AnyModel::Bytes(b@),
        AnyValue::Array(v) => AnyModel::Array(
            Seq::new(
                v@.len(),
                |i: int|
                    if 0 <= i < v@.len() {
                        any_view(v@[i])
                    } else {
                        arbitrary()
                    },
            ),
        ),
        AnyValue::KeyValues(v) => AnyModel::KeyValues(
            Seq::new(
                v@.len(),
                |i: int|
                    if 0 <= i < v@.len() {
                        (v@[i].0@, any_view(v@[i].1))
                    } else {
                        arbitrary()
                    },
            ),
        ),
    }
}

impl View for AnyValue {
    type V = AnyModel;

    open spec fn view(&self) -> AnyModel {
        any_view(*self)
    }
}

/// A list of attributes as mathematical values.
pub open spec fn attrs_view(v: Seq<(String, AnyValue)>) -> Seq<(Seq<char>, AnyModel)> {
    Seq::new(v.len(), |i: int| (v[i].0@, v[i].1@))
}

/// A list of attribute values as mathematical values.
pub open spec fn values_view(v: Seq<AnyValue>) -> Seq<AnyModel> {
    Seq::new(v.len(), |i: int| v[i]@)
}

/// What a list or a map holds, in the form of `values_view` and `attrs_view`.
pub proof fn any_view_parts(a: AnyValue)
    ensures
        a matches AnyValue::Array(v) ==> a@ == AnyModel::Array(values_view(v@)),
        a matches AnyValue::KeyValues(v) ==> a@ == AnyModel::KeyValues(attrs_view(v@)),
{
    match a {
        AnyValue::Array(v) => {
            assert(a@->Array_0 =~= values_view(v@));
        },
        AnyValue::KeyValues(v) => {
            assert(a@->KeyValues_0 =~= attrs_view(v@));
        },
        _ => {},
    }
}

impl AnyValue {
    /// A copy of this value.
    pub fn duplicate(&self) -> (out: AnyValue)
        ensures
            out@ == self@,
        decreases self,
    {
        let out = match self {
            AnyValue::String(s) => AnyValue::String(s.clone()),
            AnyValue::Bool(b) => AnyValue::Bool(*b),
            AnyValue::Int(i) => AnyValue::Int(*i),
            AnyValue::Double(d) => AnyValue::Double(*d),
            AnyValue::Bytes(b) => AnyValue::Bytes(crate::bytes::copy_range(b.as_slice(), 0, b.len())),
            AnyValue::Array(v) => {
                let mut w: Vec<AnyValue> = Vec::new();
                for i in 0..v.len()
                    invariant
                        self matches AnyValue::Array(u) && v == &u,
                        w@.len() == i,
                        forall|j: int| 0 <= j < i ==> (#[trigger] w@[j])@ == v@[j]@,
                {
                    w.push(v[i].duplicate());
                }
                AnyValue::Array(w)
            },
            AnyValue::KeyValues(v) => {
                let mut w: Vec<(String, AnyValue)> = Vec::new();
                for i in 0..v.len()
                    invariant
                        self matches AnyValue::KeyValues(u) && v == &u,
                        w@.len() == i,
                        forall|j: int|
                            0 <= j < i ==> (#[trigger] w@[j]).0@ == v@[j].0@ && w@[j].1@
                                == v@[j].1@,
                {
                    w.push((v[i].0.clone(), v[i].1.duplicate()));
                }
                AnyValue::KeyValues(w)
            },
        };
        proof {
            any_view_parts(*self);
            any_view_parts(out);
            match (self, &out) {
                (AnyValue::Array(v), AnyValue::Array(w)) => {
                    assert(values_view(w@) =~= values_view(v@));
                },
                (AnyValue::KeyValues(v), AnyValue::KeyValues(w)) => {
                    assert(attrs_view(w@) =~= attrs_view(v@));
                },
                (AnyValue::Bytes(v), AnyValue::Bytes(w)) => {
                    assert(w@ =~= v@);
                },
                _ => {},
            }
        }
        out
    }
}

/// A copy of a list of attributes.
pub fn duplicate_attrs(v: &Vec<(String, AnyValue)>) -> (out: Vec<(String, AnyValue)>)
    ensures
        attrs_view(out@) == attrs_view(v@),
{
    let mut out: Vec<(String, AnyValue)> = Vec::new();
    for i in 0..v.len()
        invariant
            out@.len() == i,
            attrs_view(out@) == attrs_view(v@).take(i as int),
    {
        out.push((v[i].0.clone(), v[i].1.duplicate()));
        assert(attrs_view(out@) =~= attrs_view(v@).take(i + 1));
    }
    assert(attrs_view(v@).take(v@.len() as int) =~= attrs_view(v@));
    out
}

impl From<String> for AnyValue {
    fn from(s: String) -> (out: AnyValue) {
        AnyValue::String(s)
    }
}

impl FromSpecImpl<String> for AnyValue {
    open spec fn obeys_from_spec() -> bool {
        true
    }

    open spec fn from_spec(s: String) -> AnyValue {
        AnyValue::String(s)
    }
}

impl From<&str> for AnyValue {
    fn from(s: &str) -> (out: AnyValue)
        ensures
            out@ == AnyModel::String(s@),
    {
        AnyValue::String(s.to_string())
    }
}

impl FromSpecImpl<&str> for AnyValue {
    open spec fn obeys_from_spec() -> bool {
        false
    }

    open spec fn from_spec(s: &str) -> AnyValue {
        arbitrary()
    }
}

impl From<i64> for AnyValue {
    fn from(i: i64) -> (out: AnyValue) {
        AnyValue::Int(i)
    }
}

impl FromSpecImpl<i64> for AnyValue {
    open spec fn obeys_from_spec() -> bool {
        true
    }

    open spec fn from_spec(i: i64) -> AnyValue {
        AnyValue::Int(i)
    }
}

impl From<bool> for AnyValue {
    fn from(b: bool) -> (out: AnyValue) {
        AnyValue::Bool(b)
    }
}

impl FromSpecImpl<bool> for AnyValue {
    open spec fn obeys_from_spec() -> bool {
        true
    }

    open spec fn from_spec(b: bool) -> AnyValue {
        AnyValue::Bool(b)
    }
}

// ── Attribute maps ──────────────────────────────────────────────────────────

/// Whether no key occurs twice.
pub open spec fn distinct_keys(a: Seq<(Seq<char>, AnyModel)>) -> bool {
    forall|i: int, j: int| 0 <= i < j < a.len() ==> (#[trigger] a[i]).0 != (#[trigger] a[j]).0
}

/// Whether a key occurs.
pub open spec fn has_key(a: Seq<(Seq<char>, AnyModel)>, k: Seq<char>) -> bool {
    exists|i: int| 0 <= i < a.len() && (#[trigger] a[i]).0 == k
}

/// The map that a list of attributes stands for.
pub open spec fn attr_map(a: Seq<(Seq<char>, AnyModel)>) -> Map<Seq<char>, AnyModel>
    decreases a.len(),
{
    if a.len() == 0 {
        Map::empty()
    } else {
        attr_map(a.drop_last()).insert(a.last().0, a.last().1)
    }
}

/// The attributes after setting `k` to `v`: in the place of the key's earlier value,
/// or at the end.
pub open spec fn set_attr(a: Seq<(Seq<char>, AnyModel)>, k: Seq<char>, v: AnyModel) -> Seq<
    (Seq<char>, AnyModel),
> {
    if has_key(a, k) {
        a.map_values(
            |p: (Seq<char>, AnyModel)|
                if p.0 == k {
                    (k, v)
                } else {
                    p
                },
        )
    } else {
        a.push((k, v))
    }
}

/// The attributes that setting each pair in turn gives: a later value of a key
/// replaces an earlier one.
pub open spec fn collect_attrs(pairs: Seq<(Seq<char>, AnyModel)>) -> Seq<(Seq<char>, AnyModel)>
    decreases pairs.len(),
{
    if pairs.len() == 0 {
        Seq::empty()
    } else {
        set_attr(collect_attrs(pairs.drop_last()), pairs.last().0, pairs.last().1)
    }
}

/// The value of a key is what its position in the list holds.
proof fn lemma_attr_map(a: Seq<(Seq<char>, AnyModel)>)
    requires
        distinct_keys(a),
    ensures
        forall|q: Seq<char>|
            #![trigger attr_map(a).dom().contains(q)]
            #![trigger has_key(a, q)]
            attr_map(a).dom().contains(q) <==> has_key(a, q),
        forall|i: int| 0 <= i < a.len() ==> attr_map(a)[(#[trigger] a[i]).0] == a[i].1,
    decreases a.len(),
{
    if a.len() > 0 {
        let front = a.drop_last();
        let last = a.last();
        assert forall|i: int, j: int| 0 <= i < j < front.len() implies (#[trigger] front[i]).0 != (
        #[trigger] front[j]).0 by {
            assert(front[i] == a[i] && front[j] == a[j]);
        }
        lemma_attr_map(front);
        assert forall|q: Seq<char>|
            #![trigger attr_map(a).dom().contains(q)]
            #![trigger has_key(a, q)]
            attr_map(a).dom().contains(q) <==> has_key(a, q) by {
            if has_key(a, q) {
                let i = choose|i: int| 0 <= i < a.len() && (#[trigger] a[i]).0 == q;
                if i < front.len() {
                    assert(front[i].0 == q);
                }
            }
            if has_key(front, q) {
                let i = choose|i: int| 0 <= i < front.len() && (#[trigger] front[i]).0 == q;
                assert(a[i].0 == q);
            }
            if q == last.0 {
                assert(a[a.len() - 1].0 == q);
            }
        }
        assert forall|i: int| 0 <= i < a.len() implies attr_map(a)[(#[trigger] a[i]).0]
            == a[i].1 by {
            if i < front.len() {
                assert(front[i] == a[i]);
                assert(a[i].0 != a[a.len() - 1].0);
            }
        }
    }
}

/// Setting a key keeps the keys distinct, gives the key its value, and leaves every
/// other key alone.
pub proof fn set_attr_is_insert(a: Seq<(Seq<char>, AnyModel)>, k: Seq<char>, v: AnyModel)
    requires
        distinct_keys(a),
    ensures
        distinct_keys(set_attr(a, k, v)),
        attr_map(set_attr(a, k, v)) == attr_map(a).insert(k, v),
{
    let b = set_attr(a, k, v);
    if has_key(a, k) {
        assert forall|i: int, j: int| 0 <= i < j < b.len() implies (#[trigger] b[i]).0 != (
        #[trigger] b[j]).0 by {
            assert(a[i].0 != a[j].0);
        }
        lemma_attr_map(a);
        lemma_attr_map(b);
        assert forall|q: Seq<char>| has_key(b, q) <==> has_key(a, q) by {
            if has_key(a, q) {
                let i = choose|i: int| 0 <= i < a.len() && (#[trigger] a[i]).0 == q;
                assert(b[i].0 == q);
            }
            if has_key(b, q) {
                let i = choose|i: int| 0 <= i < b.len() && (#[trigger] b[i]).0 == q;
                assert(a[i].0 == q);
            }
        }
        assert forall|q: Seq<char>| has_key(a, q) implies attr_map(b)[q] == attr_map(a).insert(
            k,
            v,
        )[q] by {
            let i = choose|i: int| 0 <= i < a.len() && (#[trigger] a[i]).0 == q;
            assert(b[i].0 == q);
        }
        assert(attr_map(b).dom() =~= attr_map(a).insert(k, v).dom());
        assert(attr_map(b) =~= attr_map(a).insert(k, v));
    } else {
        assert(b.drop_last() =~= a);
        assert forall|i: int, j: int| 0 <= i < j < b.len() implies (#[trigger] b[i]).0 != (
        #[trigger] b[j]).0 by {
            if j < a.len() {
                assert(a[i].0 != a[j].0);
            } else {
                assert(a[i].0 != k);
            }
        }
    }
}

/// Collecting pairs keeps the keys distinct, and each key has the last value that was
/// given for it.
pub proof fn collect_attrs_is_map(pairs: Seq<(Seq<char>, AnyModel)>)
    ensures
        distinct_keys(collect_attrs(pairs)),
        attr_map(collect_attrs(pairs)) == attr_map(pairs),
    decreases pairs.len(),
{
    if pairs.len() > 0 {
        collect_attrs_is_map(pairs.drop_last());
        set_attr_is_insert(collect_attrs(pairs.drop_last()), pairs.last().0, pairs.last().1);
    }
}

/// Sets an attribute.
pub fn put_attr(attrs: &mut Vec<(String, AnyValue)>, key: String, value: AnyValue)
    requires
        distinct_keys(attrs_view(old(attrs)@)),
    ensures
        attrs_view(final(attrs)@) == set_attr(attrs_view(old(attrs)@), key@, value@),
        distinct_keys(attrs_view(final(attrs)@)),
{
    let ghost a = attrs_view(attrs@);
    proof {
        set_attr_is_insert(a, key@, value@);
    }
    let n = attrs.len();
    for i in 0..n
        invariant
            n == attrs@.len(),
            attrs@ == old(attrs)@,
            a == attrs_view(attrs@),
            distinct_keys(a),
            distinct_keys(set_attr(a, key@, value@)),
            forall|j: int| 0 <= j < i ==> (#[trigger] a[j]).0 != key@,
    {
        if str_eq(attrs[i].0.as_str(), key.as_str()) {
            assert(a[i as int].0 == key@);
            attrs.set(i, (key, value));
            assert(attrs_view(attrs@) =~= set_attr(a, key@, value@)) by {
                assert forall|j: int| 0 <= j < a.len() && j != i implies (#[trigger] a[j]).0
                    != key@ by {
                    if j > i {
                        assert(a[i as int].0 != a[j].0);
                    }
                }
            }
            return;
        }
        assert(a[i as int].0 != key@);
    }
    attrs.push((key, value));
    assert(attrs_view(attrs@) =~= set_attr(a, key@, value@));
}

/// The value of an attribute.
pub fn get_attr<'a>(attrs: &'a Vec<(String, AnyValue)>, key: &str) -> (out: Option<&'a AnyValue>)
    requires
        distinct_keys(attrs_view(attrs@)),
    ensures
        match out {
            Some(v) => attr_map(attrs_view(attrs@)).contains_key(key@) && attr_map(
                attrs_view(attrs@),
            )[key@] == v@,
            None => !attr_map(attrs_view(attrs@)).contains_key(key@),
        },
{
    let ghost a = attrs_view(attrs@);
    proof {
        lemma_attr_map(a);
    }
    for i in 0..attrs.len()
        invariant
            a == attrs_view(attrs@),
            forall|j: int| 0 <= j < i ==> (#[trigger] a[j]).0 != key@,
            forall|q: Seq<char>|
            #![trigger attr_map(a).dom().contains(q)]
            #![trigger has_key(a, q)]
            attr_map(a).dom().contains(q) <==> has_key(a, q),
            forall|i: int| 0 <= i < a.len() ==> attr_map(a)[(#[trigger] a[i]).0] == a[i].1,
    {
        if str_eq(attrs[i].0.as_str(), key) {
            assert(a[i as int].0 == key@);
            assert(has_key(a, key@));
            return Some(&attrs[i].1);
        }
        assert(a[i as int].0 != key@);
    }
    assert(!has_key(a, key@));
    None
}

// ── Records ─────────────────────────────────────────────────────────────────

/// The library that produced a record.
#[derive(Debug)]
pub struct InstrumentationScope {
    pub name: String,
    pub version: String,
    pub attributes: Vec<(String, AnyValue)>,
}

/// A scope as mathematical values.
pub struct ScopeModel {
    pub name: Seq<char>,
    pub version: Seq<char>,
    pub attributes: Seq<(Seq<char>, AnyModel)>,
}

impl View for InstrumentationScope {
    type V = ScopeModel;

    open spec fn view(&self) -> ScopeModel {
        ScopeModel {
            name: self.name@,
            version: self.version@,
            attributes: attrs_view(self.attributes@),
        }
    }
}

impl InstrumentationScope {
    /// A copy of this scope.
    pub fn duplicate(&self) -> (out: InstrumentationScope)
        ensures
            out@ == self@,
    {
        InstrumentationScope {
            name: self.name.clone(),
            version: self.version.clone(),
            attributes: duplicate_attrs(&self.attributes),
        }
    }
}

/// The scope of a record that names none.
pub open spec fn empty_scope() -> ScopeModel {
    ScopeModel { name: Seq::empty(), version: Seq::empty(), attributes: Seq::empty() }
}

impl Default for InstrumentationScope {
    fn default() -> (out: Self)
        ensures
            out@ == empty_scope(),
    {
        let out = InstrumentationScope {
            name: String::new(),
            version: String::new(),
            attributes: Vec::new(),
        };
        assert(out@.name =~= Seq::empty());
        assert(out@.version =~= Seq::empty());
        assert(out@.attributes =~= Seq::empty());
        out
    }
}

#[derive(Debug)]
pub struct LogRecord {
    pub timestamp_ns: u64,
    pub observed_timestamp_ns: u64,
    pub trace_id: Option<[u8; 16]>,
    pub span_id: Option<[u8; 8]>,
    pub severity_number: i32,
    pub severity_text: String,
    pub body: Option<AnyValue>,
    pub attributes: Vec<(String, AnyValue)>,
    pub resource_attributes: Vec<(String, AnyValue)>,
    pub scope: InstrumentationScope,
    pub schema_url: String,
}

/// A log record as mathematical values.
pub struct LogModel {
    pub timestamp_ns: u64,
    pub observed_timestamp_ns: u64,
    pub trace_id: Option<Seq<u8>>,
    pub span_id: Option<Seq<u8>>,
    pub severity_number: i32,
    pub severity_text: Seq<char>,
    pub body: Option<AnyModel>,
    pub attributes: Seq<(Seq<char>, AnyModel)>,
    pub resource_attributes: Seq<(Seq<char>, AnyModel)>,
    pub scope: ScopeModel,
    pub schema_url: Seq<char>,
}

/// The bytes of an optional trace identifier.
pub open spec fn id16_view(id: Option<[u8; 16]>) -> Option<Seq<u8>> {
    match id {
        Some(b) => Some(b@),
        None => None,
    }
}

/// The bytes of an optional span identifier.
pub open spec fn id8_view(id: Option<[u8; 8]>) -> Option<Seq<u8>> {
    match id {
        Some(b) => Some(b@),
        None => None,
    }
}

/// An optional attribute value as a mathematical value.
pub open spec fn opt_value_view(v: Option<AnyValue>) -> Option<AnyModel> {
    match v {
        Some(a) => Some(a@),
        None => None,
    }
}

impl View for LogRecord {
    type V = LogModel;

    open spec fn view(&self) -> LogModel {
        LogModel {
            timestamp_ns: self.timestamp_ns,
            observed_timestamp_ns: self.observed_timestamp_ns,
            trace_id: id16_view(self.trace_id),
            span_id: id8_view(self.span_id),
            severity_number: self.severity_number,
            severity_text: self.severity_text@,
            body: opt_value_view(self.body),
            attributes: attrs_view(self.attributes@),
            resource_attributes: attrs_view(self.resource_attributes@),
            scope: self.scope@,
            schema_url: self.schema_url@,
        }
    }
}

/// The kind of a metric.
#[derive(Debug, Clone, Copy, PartialEq, Eq, Structural)]
pub enum MetricType {
    Gauge,
    Sum { is_monotonic: bool, temporality: i32 },
    Histogram { temporality: i32 },
    ExponentialHistogram { temporality: i32 },
    Summary,
}

/// A histogram. `sum`, `min`, `max` and `explicit_bounds` hold the bits of numbers.
#[derive(Debug)]
pub struct HistogramData {
    pub count: u64,
    pub sum: Option<u64>,
    pub min: Option<u64>,
    pub max: Option<u64>,
    pub explicit_bounds: Vec<u64>,
    pub bucket_counts: Vec<u64>,
}

/// A histogram as mathematical values.
pub struct HistogramModel {
    pub count: u64,
    pub sum: Option<u64>,
    pub min: Option<u64>,
    pub max: Option<u64>,
    pub explicit_bounds: Seq<u64>,
    pub bucket_counts: Seq<u64>,
}

impl View for HistogramData {
    type V = HistogramModel;

    open spec fn view(&self) -> HistogramModel {
        HistogramModel {
            count: self.count,
            sum: self.sum,
            min: self.min,
            max: self.max,
            explicit_bounds: self.explicit_bounds@,
            bucket_counts: self.bucket_counts@,
        }
    }
}

/// One point of a metric. `value_double` holds the bits of a number.
#[derive(Debug)]
pub struct MetricPoint {
    pub timestamp_ns: u64,
    pub start_timestamp_ns: u64,
    pub name: String,
    pub description: String,
    pub unit: String,
    pub metric_type: MetricType,
    pub value_double: Option<u64>,
    pub value_int: Option<i64>,
    pub histogram: Option<HistogramData>,
    pub attributes: Vec<(String, AnyValue)>,
    pub resource_attributes: Vec<(String, AnyValue)>,
    pub scope: InstrumentationScope,
    pub schema_url: String,
}

/// A metric point as mathematical values.
pub struct MetricModel {
    pub timestamp_ns: u64,
    pub start_timestamp_ns: u64,
    pub name: Seq<char>,
    pub description: Seq<char>,
    pub unit: Seq<char>,
    pub metric_type: MetricType,
    pub value_double: Option<u64>,
    pub value_int: Option<i64>,
    pub histogram: Option<HistogramModel>,
    pub attributes: Seq<(Seq<char>, AnyModel)>,
    pub resource_attributes: Seq<(Seq<char>, AnyModel)>,
    pub scope: ScopeModel,
    pub schema_url: Seq<char>,
}

/// An optional histogram as a mathematical value.
pub open spec fn opt_histogram_view(h: Option<HistogramData>) -> Option<HistogramModel> {
    match h {
        Some(d) => Some(d@),
        None => None,
    }
}

impl View for MetricPoint {
    type V = MetricModel;

    open spec fn view(&self) -> MetricModel {
        MetricModel {
            timestamp_ns: self.timestamp_ns,
            start_timestamp_ns: self.start_timestamp_ns,
            name: self.name@,
            description: self.description@,
            unit: self.unit@,
            metric_type: self.metric_type,
            value_double: self.value_double,
            value_int: self.value_int,
            histogram: opt_histogram_view(self.histogram),
            attributes: attrs_view(self.attributes@),
            resource_attributes: attrs_view(self.resource_attributes@),
            scope: self.scope@,
            schema_url: self.schema_url@,
        }
    }
}

#[derive(Debug)]
pub struct SpanEvent {
    pub timestamp_ns: u64,
    pub name: String,
    pub attributes: Vec<(String, AnyValue)>,
}

/// A span event as mathematical values.
pub struct EventModel {
    pub timestamp_ns: u64,
    pub name: Seq<char>,
    pub attributes: Seq<(Seq<char>, AnyModel)>,
}

impl View for SpanEvent {
    type V = EventModel;

    open spec fn view(&self) -> EventModel {
        EventModel {
            timestamp_ns: self.timestamp_ns,
            name: self.name@,
            attributes: attrs_view(self.attributes@),
        }
    }
}

#[derive(Debug)]
pub struct SpanLink {
    pub trace_id: [u8; 16],
    pub span_id: [u8; 8],
    pub trace_state: String,
    pub attributes: Vec<(String, AnyValue)>,
}

/// A span link as mathematical values.
pub struct LinkModel {
    pub trace_id: Seq<u8>,
    pub span_id: Seq<u8>,
    pub trace_state: Seq<char>,
    pub attributes: Seq<(Seq<char>, AnyModel)>,
}

impl View for SpanLink {
    type V = LinkModel;

    open spec fn view(&self) -> LinkModel {
        LinkModel {
            trace_id: self.trace_id@,
            span_id: self.span_id@,
            trace_state: self.trace_state@,
            attributes: attrs_view(self.attributes@),
        }
    }
}

#[derive(Debug)]
pub struct SpanRecord {
    pub trace_id: [u8; 16],
    pub span_id: [u8; 8],
    pub parent_span_id: Option<[u8; 8]>,
    pub name: String,
    pub kind: i32,
    pub start_time_ns: u64,
    pub end_time_ns: u64,
    pub duration_ns: u64,
    pub status_code: i32,
    pub status_message: String,
    pub attributes: Vec<(String, AnyValue)>,
    pub resource_attributes: Vec<(String, AnyValue)>,
    pub scope: InstrumentationScope,
    pub events: Vec<SpanEvent>,
    pub links: Vec<SpanLink>,
    pub schema_url: String,
}

/// A span as mathematical values.
pub struct SpanModel {
    pub trace_id: Seq<u8>,
    pub span_id: Seq<u8>,
    pub parent_span_id: Option<Seq<u8>>,
    pub name: Seq<char>,
    pub kind: i32,
    pub start_time_ns: u64,
    pub end_time_ns: u64,
    pub duration_ns: u64,
    pub status_code: i32,
    pub status_message: Seq<char>,
    pub attributes: Seq<(Seq<char>, AnyModel)>,
    pub resource_attributes: Seq<(Seq<char>, AnyModel)>,
    pub scope: ScopeModel,
    pub events: Seq<EventModel>,
    pub links: Seq<LinkModel>,
    pub schema_url: Seq<char>,
}

/// A list of span events as mathematical values.
pub open spec fn events_view(v: Seq<SpanEvent>) -> Seq<EventModel> {
    v.map_values(|e: SpanEvent| e@)
}

/// A list of span links as mathematical values.
pub open spec fn links_view(v: Seq<SpanLink>) -> Seq<LinkModel> {
    v.map_values(|e: SpanLink| e@)
}

impl View for SpanRecord {
    type V = SpanModel;

    open spec fn view(&self) -> SpanModel {
        SpanModel {
            trace_id: self.trace_id@,
            span_id: self.span_id@,
            parent_span_id: id8_view(self.parent_span_id),
            name: self.name@,
            kind: self.kind,
            start_time_ns: self.start_time_ns,
            end_time_ns: self.end_time_ns,
            duration_ns: self.duration_ns,
            status_code: self.status_code,
            status_message: self.status_message@,
            attributes: attrs_view(self.attributes@),
            resource_attributes: attrs_view(self.resource_attributes@),
            scope: self.scope@,
            events: events_view(self.events@),
            links: links_view(self.links@),
            schema_url: self.schema_url@,
        }
    }
}

/// The views of a list of log records.
pub open spec fn logs_views(v: Seq<LogRecord>) -> Seq<LogModel> {
    v.map_values(|r: LogRecord| r@)
}

/// The views of a list of metric points.
pub open spec fn metrics_views(v: Seq<MetricPoint>) -> Seq<MetricModel> {
    v.map_values(|r: MetricPoint| r@)
}

/// The views of a list of spans.
pub open spec fn spans_views(v: Seq<SpanRecord>) -> Seq<SpanModel> {
    v.map_values(|r: SpanRecord| r@)
}

// ── Batches ─────────────────────────────────────────────────────────────────

/// The unit of work between the ingest layer and the storage writer.
#[derive(Debug)]
pub enum IngestBatch {
    Logs(Vec<LogRecord>),
    Metrics(Vec<MetricPoint>),
    Spans(Vec<SpanRecord>),
}

impl IngestBatch {
    /// The number of records.
    pub open spec fn spec_len(&self) -> nat {
        match self {
            IngestBatch::Logs(v) => v@.len(),
            IngestBatch::Metrics(v) => v@.len(),
            IngestBatch::Spans(v) => v@.len(),
        }
    }

    /// The signal that the records belong to.
    pub fn signal_type(&self) -> (out: SignalType)
        ensures
            out == match self {
                IngestBatch::Logs(_) => SignalType::Log,
                IngestBatch::Metrics(_) => SignalType::Metric,
                IngestBatch::Spans(_) => SignalType::Span,
            },
    {
        match self {
            IngestBatch::Logs(_) => SignalType::Log,
            IngestBatch::Metrics(_) => SignalType::Metric,
            IngestBatch::Spans(_) => SignalType::Span,
        }
    }

    /// The number of records.
    pub fn len(&self) -> (out: usize)
        ensures
            out == self.spec_len(),
    {
        match self {
            IngestBatch::Logs(v) => v.len(),
            IngestBatch::Metrics(v) => v.len(),
            IngestBatch::Spans(v) => v.len(),
        }
    }

    /// Whether there is no record.
    pub fn is_empty(&self) -> (out: bool)
        ensures
            out == (self.spec_len() == 0),
    {
        self.len() == 0
    }
}

} // verus!
