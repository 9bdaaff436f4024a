//! Table schemas for each signal.
//!
//! Attribute maps are stored as JSON texts.

use vstd::prelude::*;

verus! {

/// The type of a column.
#[derive(Debug, Clone, Copy, PartialEq, Eq, Structural)]
pub enum DataType {
    Int8,
    Int32,
    Int64,
    UInt64,
    Float64,
    Utf8,
    Binary,
    Boolean,
}

/// The name of a type.
pub open spec fn type_text(t: DataType) -> Seq<char> {
    match t {
        DataType::Int8 => "Int8"@,
        DataType::Int32 => "Int32"@,
        DataType::Int64 => "Int64"@,
        DataType::UInt64 => "UInt64"@,
        DataType::Float64 => "Float64"@,
        DataType::Utf8 => "Utf8"@,
        DataType::Binary => "Binary"@,
        DataType::Boolean => "Boolean"@,
    }
}

impl DataType {
    /// The name of the type.
    pub fn text(&self) -> (out: &'static str)
        ensures
            out@ == type_text(*self),
    {
        match self {
            DataType::Int8 => "Int8",
            DataType::Int32 => "Int32",
            DataType::Int64 => "Int64",
            DataType::UInt64 => "UInt64",
            DataType::Float64 => "Float64",
            DataType::Utf8 => "Utf8",
            DataType::Binary => "Binary",
            DataType::Boolean => "Boolean",
        }
    }
}

/// A column of a table.
#[derive(Debug)]
pub struct Field {
    pub name: String,
    pub data_type: DataType,
    pub nullable: bool,
}

/// A column of a table as mathematical values.
pub struct FieldModel {
    pub name: Seq<char>,
    pub data_type: DataType,
    pub nullable: bool,
}

impl View for Field {
    type V = FieldModel;

    open spec fn view(&self) -> FieldModel {
        FieldModel { name: self.name@, data_type: self.data_type, nullable: self.nullable }
    }
}

impl Field {
    /// A column with a name, a type, and whether it can hold nulls.
    pub fn new(name: &str, data_type: DataType, nullable: bool) -> (f: Field)
        ensures
            f@ == field(name@, data_type, nullable),
    {
        Field { name: name.to_string(), data_type, nullable }
    }

    /// A copy of this column.
    pub fn duplicate(&self) -> (out: Field)
        ensures
            out@ == self@,
    {
        Field {
            name: self.name.clone(),
            data_type: self.data_type,
            nullable: self.nullable,
        }
    }
}

/// A column with a name, a type, and whether it can hold nulls.
pub open spec fn field(name: Seq<char>, data_type: DataType, nullable: bool) -> FieldModel {
    FieldModel { name, data_type, nullable }
}

/// The columns of a list.
pub open spec fn field_views(v: Seq<Field>) -> Seq<FieldModel> {
    v.map_values(|f: Field| f@)
}

/// The columns of a table, in order.
#[derive(Debug)]
pub struct Schema {
    pub fields: Vec<Field>,
}

impl View for Schema {
    type V = Seq<FieldModel>;

    open spec fn view(&self) -> Seq<FieldModel> {
        field_views(self.fields@)
    }
}

/// The position of the first column with a name.
pub open spec fn index_of(fields: Seq<FieldModel>, name: Seq<char>) -> Option<int>
    decreases fields.len(),
{
    if fields.len() == 0 {
        None
    } else {
        match index_of(fields.drop_last(), name) {
            Some(i) => Some(i),
            None => if fields.last().name == name {
                Some(fields.len() - 1)
            } else {
                None
            },
        }
    }
}

/// A column that is found lies inside the schema and has the name.
pub proof fn found_column_has_the_name(fields: Seq<FieldModel>, name: Seq<char>)
    ensures
        index_of(fields, name) matches Some(i) ==> 0 <= i < fields.len() && fields[i].name == name,
        index_of(fields, name) is None ==> forall|i: int|
            0 <= i < fields.len() ==> (#[trigger] fields[i]).name != name,
    decreases fields.len(),
{
    if fields.len() > 0 {
        found_column_has_the_name(fields.drop_last(), name);
        assert(fields.last() == fields[fields.len() - 1]);
        assert forall|i: int| 0 <= i < fields.len() - 1 implies (#[trigger] fields[i])
            == fields.drop_last()[i] by {}
    }
}

impl Schema {
    /// A copy of this schema.
    pub fn duplicate(&self) -> (out: Schema)
        ensures
            out@ == self@,
    {
        let mut fields: Vec<Field> = Vec::new();
        for i in 0..self.fields.len()
            invariant
                fields@.len() == i,
                field_views(fields@) == self@.take(i as int),
        {
            fields.push(self.fields[i].duplicate());
            assert(field_views(fields@) =~= self@.take(i + 1));
        }
        assert(self@.take(self@.len() as int) =~= self@);
        Schema { fields }
    }

    /// The position of the first column with a name.
    pub fn index_of(&self, name: &str) -> (out: Option<usize>)
        ensures
            match out {
                Some(i) => index_of(self@, name@) == Some(i as int) && i < self@.len(),
                None => index_of(self@, name@) is None,
            },
    {
        let ghost all = self@;
        assert(all.take(0) =~= Seq::empty());
        for i in 0..self.fields.len()
            invariant
                all == self@,
                index_of(all.take(i as int), name@) is None,
        {
            assert(all.take(i + 1).drop_last() =~= all.take(i as int));
            assert(all.take(i + 1).last() == all[i as int]);
            if crate::text::str_eq(self.fields[i].name.as_str(), name) {
                proof {
                    lemma_index_stays(all, name@, i + 1);
                }
                return Some(i);
            }
        }
        assert(all.take(all.len() as int) =~= all);
        None
    }
}

proof fn lemma_index_stays(fields: Seq<FieldModel>, name: Seq<char>, n: int)
    requires
        0 <= n <= fields.len(),
        index_of(fields.take(n), name) is Some,
    ensures
        index_of(fields, name) == index_of(fields.take(n), name),
    decreases fields.len() - n,
{
    if n < fields.len() {
        assert(fields.take(n + 1).drop_last() =~= fields.take(n));
        lemma_index_stays(fields, name, n + 1);
    } else {
        assert(fields.take(n) =~= fields);
    }
}

/// The columns of the table of logs.
pub open spec fn log_fields() -> Seq<FieldModel> {
    seq![
        field("timestamp_ns"@, DataType::UInt64, false),
        field("observed_timestamp_ns"@, DataType::UInt64, false),
        field("trace_id"@, DataType::Binary, true),
        field("span_id"@, DataType::Binary, true),
        field("severity_number"@, DataType::Int32, false),
        field("severity_text"@, DataType::Utf8, true),
        field("body"@, DataType::Utf8, true),
        field("attributes"@, DataType::Utf8, true),
        field("resource_attributes"@, DataType::Utf8, true),
        field("scope_name"@, DataType::Utf8, true),
        field("scope_version"@, DataType::Utf8, true),
        field("schema_url"@, DataType::Utf8, true),
    ]
}

/// The columns of the table of metrics.
pub open spec fn metric_fields() -> Seq<FieldModel> {
    seq![
        field("timestamp_ns"@, DataType::UInt64, false),
        field("start_timestamp_ns"@, DataType::UInt64, true),
        field("name"@, DataType::Utf8, false),
        field("description"@, DataType::Utf8, true),
        field("unit"@, DataType::Utf8, true),
        field("metric_type"@, DataType::Int8, false),
        field("value_double"@, DataType::Float64, true),
        field("value_int"@, DataType::Int64, true),
        field("histogram_count"@, DataType::UInt64, true),
        field("histogram_sum"@, DataType::Float64, true),
        field("histogram_bounds"@, DataType::Binary, true),
        field("histogram_counts"@, DataType::Binary, true),
        field("attributes"@, DataType::Utf8, true),
        field("resource_attributes"@, DataType::Utf8, true),
        field("scope_name"@, DataType::Utf8, true),
        field("scope_version"@, DataType::Utf8, true),
        field("schema_url"@, DataType::Utf8, true),
    ]
}

/// The columns of the table of traces.
pub open spec fn span_fields() -> Seq<FieldModel> {
    seq![
        field("trace_id"@, DataType::Binary, false),
        field("span_id"@, DataType::Binary, false),
        field("parent_span_id"@, DataType::Binary, true),
        field("name"@, DataType::Utf8, false),
        field("kind"@, DataType::Int32, false),
        field("start_time_ns"@, DataType::UInt64, false),
        field("end_time_ns"@, DataType::UInt64, false),
        field("duration_ns"@, DataType::UInt64, false),
        field("status_code"@, DataType::Int32, false),
        field("status_message"@, DataType::Utf8, true),
        field("attributes"@, DataType::Utf8, true),
        field("resource_attributes"@, DataType::Utf8, true),
        field("scope_name"@, DataType::Utf8, true),
        field("scope_version"@, DataType::Utf8, true),
        field("events"@, DataType::Utf8, true),
        field("links"@, DataType::Utf8, true),
        field("schema_url"@, DataType::Utf8, true),
    ]
}

/// The table of logs.
pub fn log_schema() -> (s: Schema)
    ensures
        s@ == log_fields(),
{
    let mut fields: Vec<Field> = Vec::new();
    fields.push(Field::new("timestamp_ns", DataType::UInt64, false));
    fields.push(Field::new("observed_timestamp_ns", DataType::UInt64, false));
    fields.push(Field::new("trace_id", DataType::Binary, true));
    fields.push(Field::new("span_id", DataType::Binary, true));
    fields.push(Field::new("severity_number", DataType::Int32, false));
    fields.push(Field::new("severity_text", DataType::Utf8, true));
    fields.push(Field::new("body", DataType::Utf8, true));
    fields.push(Field::new("attributes", DataType::Utf8, true));
    fields.push(Field::new("resource_attributes", DataType::Utf8, true));
    fields.push(Field::new("scope_name", DataType::Utf8, true));
    fields.push(Field::new("scope_version", DataType::Utf8, true));
    fields.push(Field::new("schema_url", DataType::Utf8, true));
    let s = Schema { fields };
    assert(s@ =~= log_fields());
    s
}

/// The table of metrics.
pub fn metric_schema() -> (s: Schema)
    ensures
        s@ == metric_fields(),
{
    let mut fields: Vec<Field> = Vec::new();
    fields.push(Field::new("timestamp_ns", DataType::UInt64, false));
    fields.push(Field::new("start_timestamp_ns", DataType::UInt64, true));
    fields.push(Field::new("name", DataType::Utf8, false));
    fields.push(Field::new("description", DataType::Utf8, true));
    fields.push(Field::new("unit", DataType::Utf8, true));
    fields.push(Field::new("metric_type", DataType::Int8, false));
    fields.push(Field::new("value_double", DataType::Float64, true));
    fields.push(Field::new("value_int", DataType::Int64, true));
    fields.push(Field::new("histogram_count", DataType::UInt64, true));
    fields.push(Field::new("histogram_sum", DataType::Float64, true));
    fields.push(Field::new("histogram_bounds", DataType::Binary, true));
    fields.push(Field::new("histogram_counts", DataType::Binary, true));
    fields.push(Field::new("attributes", DataType::Utf8, true));
    fields.push(Field::new("resource_attributes", DataType::Utf8, true));
    fields.push(Field::new("scope_name", DataType::Utf8, true));
    fields.push(Field::new("scope_version", DataType::Utf8, true));
    fields.push(Field::new("schema_url", DataType::Utf8, true));
    let s = Schema { fields };
    assert(s@ =~= metric_fields());
    s
}

/// The table of traces.
pub fn span_schema() -> (s: Schema)
    ensures
        s@ == span_fields(),
{
    let mut fields: Vec<Field> = Vec::new();
    fields.push(Field::new("trace_id", DataType::Binary, false));
    fields.push(Field::new("span_id", DataType::Binary, false));
    fields.push(Field::new("parent_span_id", DataType::Binary, true));
    fields.push(Field::new("name", DataType::Utf8, false));
    fields.push(Field::new("kind", DataType::Int32, false));
    fields.push(Field::new("start_time_ns", DataType::UInt64, false));
    fields.push(Field::new("end_time_ns", DataType::UInt64, false));
    fields.push(Field::new("duration_ns", DataType::UInt64, false));
    fields.push(Field::new("status_code", DataType::Int32, false));
    fields.push(Field::new("status_message", DataType::Utf8, true));
    fields.push(Field::new("attributes", DataType::Utf8, true));
    fields.push(Field::new("resource_attributes", DataType::Utf8, true));
    fields.push(Field::new("scope_name", DataType::Utf8, true));
    fields.push(Field::new("scope_version", DataType::Utf8, true));
    fields.push(Field::new("events", DataType::Utf8, true));
    fields.push(Field::new("links", DataType::Utf8, true));
    fields.push(Field::new("schema_url", DataType::Utf8, true));
    let s = Schema { fields };
    assert(s@ =~= span_fields());
    s
}

} // verus!
