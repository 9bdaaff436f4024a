//! What the columns of stored batches hold, found by their names.

use crate::columnar::batch::BatchModel;
use crate::columnar::rows::{columns_fit, columns_of, rows_fit, with_cell, CellModel};
use crate::common::model::{LogModel, MetricModel, MetricType, SignalType, SpanModel};
use crate::common::schema::{
    found_column_has_the_name, index_of, log_fields, metric_fields, span_fields, FieldModel,
};
use crate::query::executor::rows::cell_at;
use crate::storage::encode::{attrs_text, events_text, links_text, list_bytes, value_text};
use crate::storage::sstable::{
    log_batch, log_keys, log_row, log_rows, log_rows_fit, log_times, metric_batch, metric_keys,
    metric_row, metric_rows, metric_rows_fit, metric_times, span_batch, span_keys, span_row,
    span_rows, span_rows_fit, span_times, table_meta,
};
use crate::storage::zone_map::{zone_is_tight, zone_of};
use vstd::prelude::*;
use vstd::utf8::encode_utf8;

verus! {

/// The cell of a row in the column that a schema finds under a name.
pub open spec fn named_cell(b: BatchModel, name: Seq<char>, i: int) -> Option<CellModel> {
    match index_of(b.schema, name) {
        Some(j) => Some(cell_at(b.columns[j], i)),
        None => None,
    }
}

/// A text as it is kept: an empty one is a null.
pub open spec fn kept_text(s: Seq<char>) -> Option<Seq<char>> {
    if s.len() == 0 {
        None
    } else {
        Some(s)
    }
}

/// Columns hold the cells of the rows they were made from, each in its place.
pub proof fn columns_hold_the_cells(
    schema: Seq<FieldModel>,
    rows: Seq<Seq<CellModel>>,
    i: int,
    j: int,
)
    requires
        rows_fit(schema, rows),
        0 <= i < rows.len(),
        0 <= j < schema.len(),
    ensures
        cell_at(columns_of(schema, rows)[j], i) == rows[i][j],
    decreases rows.len(),
{
    let front = rows.drop_last();
    assert(forall|k: int| 0 <= k < front.len() ==> front[k] == rows[k]);
    columns_fit(schema, front);
    columns_fit(schema, rows);
    let before = columns_of(schema, front)[j];
    assert(columns_of(schema, rows)[j] == with_cell(before, rows.last()[j]));
    assert(crate::columnar::rows::row_fits(schema, rows[rows.len() - 1]));
    assert(crate::columnar::rows::cell_type(rows.last()[j]) == schema[j].data_type);
    if i < rows.len() - 1 {
        columns_hold_the_cells(schema, front, i, j);
    }
}


proof fn lemma_log_names()
    ensures
        index_of(log_fields(), "timestamp_ns"@) == Some(0int),
        index_of(log_fields(), "observed_timestamp_ns"@) == Some(1int),
        index_of(log_fields(), "trace_id"@) == Some(2int),
        index_of(log_fields(), "span_id"@) == Some(3int),
        index_of(log_fields(), "severity_number"@) == Some(4int),
        index_of(log_fields(), "severity_text"@) == Some(5int),
        index_of(log_fields(), "body"@) == Some(6int),
        index_of(log_fields(), "attributes"@) == Some(7int),
        index_of(log_fields(), "resource_attributes"@) == Some(8int),
        index_of(log_fields(), "scope_name"@) == Some(9int),
        index_of(log_fields(), "scope_version"@) == Some(10int),
        index_of(log_fields(), "schema_url"@) == Some(11int),
{
    let f = log_fields();
    reveal_strlit("timestamp_ns");
    reveal_strlit("observed_timestamp_ns");
    reveal_strlit("trace_id");
    reveal_strlit("span_id");
    reveal_strlit("severity_number");
    reveal_strlit("severity_text");
    reveal_strlit("body");
    reveal_strlit("attributes");
    reveal_strlit("resource_attributes");
    reveal_strlit("scope_name");
    reveal_strlit("scope_version");
    reveal_strlit("schema_url");
    assert(f[0].name == "timestamp_ns"@ && f[0].name.len() == 12);
    assert(f[1].name == "observed_timestamp_ns"@ && f[1].name.len() == 21);
    assert(f[2].name == "trace_id"@ && f[2].name.len() == 8);
    assert(f[3].name == "span_id"@ && f[3].name.len() == 7);
    assert(f[4].name == "severity_number"@ && f[4].name.len() == 15);
    assert(f[5].name == "severity_text"@ && f[5].name.len() == 13);
    assert(f[6].name == "body"@ && f[6].name.len() == 4);
    assert(f[7].name == "attributes"@ && f[7].name.len() == 10);
    assert(f[8].name == "resource_attributes"@ && f[8].name.len() == 19);
    assert(f[9].name == "scope_name"@ && f[9].name.len() == 10);
    assert(f[10].name == "scope_version"@ && f[10].name.len() == 13);
    assert(f[11].name == "schema_url"@ && f[11].name.len() == 10);
    assert(f[7].name[0] != f[9].name[0]);
    assert(f[5].name[1] != f[10].name[1]);
    assert(f[7].name[0] != f[11].name[0]);
    assert(f[9].name[2] != f[11].name[2]);
    found_column_has_the_name(f, "timestamp_ns"@);
    found_column_has_the_name(f, "observed_timestamp_ns"@);
    found_column_has_the_name(f, "trace_id"@);
    found_column_has_the_name(f, "span_id"@);
    found_column_has_the_name(f, "severity_number"@);
    found_column_has_the_name(f, "severity_text"@);
    found_column_has_the_name(f, "body"@);
    found_column_has_the_name(f, "attributes"@);
    found_column_has_the_name(f, "resource_attributes"@);
    found_column_has_the_name(f, "scope_name"@);
    found_column_has_the_name(f, "scope_version"@);
    found_column_has_the_name(f, "schema_url"@);
}

/// Each column of a batch of log records holds in row `i` the field of record `i` that it is
/// named after.
pub proof fn log_columns_hold_the_fields(v: Seq<LogModel>, i: int)
    requires
        0 <= i < v.len(),
    ensures
        log_batch(v).rows == v.len(),
        named_cell(log_batch(v), "timestamp_ns"@, i) == Some(CellModel::UInt64(Some(v[i].timestamp_ns))),
        named_cell(log_batch(v), "observed_timestamp_ns"@, i) == Some(CellModel::UInt64(Some(v[i].observed_timestamp_ns))),
        named_cell(log_batch(v), "trace_id"@, i) == Some(CellModel::Binary(v[i].trace_id)),
        named_cell(log_batch(v), "span_id"@, i) == Some(CellModel::Binary(v[i].span_id)),
        named_cell(log_batch(v), "severity_number"@, i) == Some(CellModel::Int32(Some(v[i].severity_number))),
        named_cell(log_batch(v), "severity_text"@, i) == Some(CellModel::Utf8(kept_text(v[i].severity_text))),
        named_cell(log_batch(v), "body"@, i) == Some(CellModel::Utf8(value_text(v[i].body))),
        named_cell(log_batch(v), "attributes"@, i) == Some(CellModel::Utf8(attrs_text(v[i].attributes))),
        named_cell(log_batch(v), "resource_attributes"@, i) == Some(CellModel::Utf8(attrs_text(v[i].resource_attributes))),
        named_cell(log_batch(v), "scope_name"@, i) == Some(CellModel::Utf8(kept_text(v[i].scope.name))),
        named_cell(log_batch(v), "scope_version"@, i) == Some(CellModel::Utf8(kept_text(v[i].scope.version))),
        named_cell(log_batch(v), "schema_url"@, i) == Some(CellModel::Utf8(kept_text(v[i].schema_url))),
{
    lemma_log_names();
    log_rows_fit(v);
    let fields = log_fields();
    let rows = log_rows(v);
    assert(rows[i] == log_row(v[i]));
    columns_hold_the_cells(fields, rows, i, 0);
    columns_hold_the_cells(fields, rows, i, 1);
    columns_hold_the_cells(fields, rows, i, 2);
    columns_hold_the_cells(fields, rows, i, 3);
    columns_hold_the_cells(fields, rows, i, 4);
    columns_hold_the_cells(fields, rows, i, 5);
    columns_hold_the_cells(fields, rows, i, 6);
    columns_hold_the_cells(fields, rows, i, 7);
    columns_hold_the_cells(fields, rows, i, 8);
    columns_hold_the_cells(fields, rows, i, 9);
    columns_hold_the_cells(fields, rows, i, 10);
    columns_hold_the_cells(fields, rows, i, 11);
}


proof fn lemma_metric_names()
    ensures
        index_of(metric_fields(), "timestamp_ns"@) == Some(0int),
        index_of(metric_fields(), "start_timestamp_ns"@) == Some(1int),
        index_of(metric_fields(), "name"@) == Some(2int),
        index_of(metric_fields(), "description"@) == Some(3int),
        index_of(metric_fields(), "unit"@) == Some(4int),
        index_of(metric_fields(), "metric_type"@) == Some(5int),
        index_of(metric_fields(), "value_double"@) == Some(6int),
        index_of(metric_fields(), "value_int"@) == Some(7int),
        index_of(metric_fields(), "histogram_count"@) == Some(8int),
        index_of(metric_fields(), "histogram_sum"@) == Some(9int),
        index_of(metric_fields(), "histogram_bounds"@) == Some(10int),
        index_of(metric_fields(), "histogram_counts"@) == Some(11int),
        index_of(metric_fields(), "attributes"@) == Some(12int),
        index_of(metric_fields(), "resource_attributes"@) == Some(13int),
        index_of(metric_fields(), "scope_name"@) == Some(14int),
        index_of(metric_fields(), "scope_version"@) == Some(15int),
        index_of(metric_fields(), "schema_url"@) == Some(16int),
{
    let f = metric_fields();
    reveal_strlit("timestamp_ns");
    reveal_strlit("start_timestamp_ns");
    reveal_strlit("name");
    reveal_strlit("description");
    reveal_strlit("unit");
    reveal_strlit("metric_type");
    reveal_strlit("value_double");
    reveal_strlit("value_int");
    reveal_strlit("histogram_count");
    reveal_strlit("histogram_sum");
    reveal_strlit("histogram_bounds");
    reveal_strlit("histogram_counts");
    reveal_strlit("attributes");
    reveal_strlit("resource_attributes");
    reveal_strlit("scope_name");
    reveal_strlit("scope_version");
    reveal_strlit("schema_url");
    assert(f[0].name == "timestamp_ns"@ && f[0].name.len() == 12);
    assert(f[1].name == "start_timestamp_ns"@ && f[1].name.len() == 18);
    assert(f[2].name == "name"@ && f[2].name.len() == 4);
    assert(f[3].name == "description"@ && f[3].name.len() == 11);
    assert(f[4].name == "unit"@ && f[4].name.len() == 4);
    assert(f[5].name == "metric_type"@ && f[5].name.len() == 11);
    assert(f[6].name == "value_double"@ && f[6].name.len() == 12);
    assert(f[7].name == "value_int"@ && f[7].name.len() == 9);
    assert(f[8].name == "histogram_count"@ && f[8].name.len() == 15);
    assert(f[9].name == "histogram_sum"@ && f[9].name.len() == 13);
    assert(f[10].name == "histogram_bounds"@ && f[10].name.len() == 16);
    assert(f[11].name == "histogram_counts"@ && f[11].name.len() == 16);
    assert(f[12].name == "attributes"@ && f[12].name.len() == 10);
    assert(f[13].name == "resource_attributes"@ && f[13].name.len() == 19);
    assert(f[14].name == "scope_name"@ && f[14].name.len() == 10);
    assert(f[15].name == "scope_version"@ && f[15].name.len() == 13);
    assert(f[16].name == "schema_url"@ && f[16].name.len() == 10);
    assert(f[2].name[0] != f[4].name[0]);
    assert(f[3].name[0] != f[5].name[0]);
    assert(f[0].name[0] != f[6].name[0]);
    assert(f[10].name[10] != f[11].name[10]);
    assert(f[12].name[0] != f[14].name[0]);
    assert(f[9].name[0] != f[15].name[0]);
    assert(f[12].name[0] != f[16].name[0]);
    assert(f[14].name[2] != f[16].name[2]);
    found_column_has_the_name(f, "timestamp_ns"@);
    found_column_has_the_name(f, "start_timestamp_ns"@);
    found_column_has_the_name(f, "name"@);
    found_column_has_the_name(f, "description"@);
    found_column_has_the_name(f, "unit"@);
    found_column_has_the_name(f, "metric_type"@);
    found_column_has_the_name(f, "value_double"@);
    found_column_has_the_name(f, "value_int"@);
    found_column_has_the_name(f, "histogram_count"@);
    found_column_has_the_name(f, "histogram_sum"@);
    found_column_has_the_name(f, "histogram_bounds"@);
    found_column_has_the_name(f, "histogram_counts"@);
    found_column_has_the_name(f, "attributes"@);
    found_column_has_the_name(f, "resource_attributes"@);
    found_column_has_the_name(f, "scope_name"@);
    found_column_has_the_name(f, "scope_version"@);
    found_column_has_the_name(f, "schema_url"@);
}

/// Each column of a batch of metric points holds in row `i` the field of record `i` that it is
/// named after.
pub proof fn metric_columns_hold_the_fields(v: Seq<MetricModel>, i: int)
    requires
        0 <= i < v.len(),
    ensures
        metric_batch(v).rows == v.len(),
        named_cell(metric_batch(v), "timestamp_ns"@, i) == Some(CellModel::UInt64(Some(v[i].timestamp_ns))),
        named_cell(metric_batch(v), "start_timestamp_ns"@, i) == Some(CellModel::UInt64(Some(v[i].start_timestamp_ns))),
        named_cell(metric_batch(v), "name"@, i) == Some(CellModel::Utf8(Some(v[i].name))),
        named_cell(metric_batch(v), "description"@, i) == Some(CellModel::Utf8(kept_text(v[i].description))),
        named_cell(metric_batch(v), "unit"@, i) == Some(CellModel::Utf8(kept_text(v[i].unit))),
        named_cell(metric_batch(v), "metric_type"@, i) == Some(CellModel::Int8(
                Some(
                    match v[i].metric_type {
                        MetricType::Gauge => 0i8,
                        MetricType::Sum { .. } => 1i8,
                        MetricType::Histogram { .. } => 2i8,
                        MetricType::ExponentialHistogram { .. } => 3i8,
                        MetricType::Summary => 4i8,
                    },
                ),
            )),
        named_cell(metric_batch(v), "value_double"@, i) == Some(CellModel::Float64(v[i].value_double)),
        named_cell(metric_batch(v), "value_int"@, i) == Some(CellModel::Int64(v[i].value_int)),
        named_cell(metric_batch(v), "histogram_count"@, i) == Some(CellModel::UInt64(
                match v[i].histogram {
                    Some(h) => Some(h.count),
                    None => None,
                },
            )),
        named_cell(metric_batch(v), "histogram_sum"@, i) == Some(CellModel::Float64(
                match v[i].histogram {
                    Some(h) => h.sum,
                    None => None,
                },
            )),
        named_cell(metric_batch(v), "histogram_bounds"@, i) == Some(CellModel::Binary(
                match v[i].histogram {
                    Some(h) => Some(list_bytes(h.explicit_bounds)),
                    None => None,
                },
            )),
        named_cell(metric_batch(v), "histogram_counts"@, i) == Some(CellModel::Binary(
                match v[i].histogram {
                    Some(h) => Some(list_bytes(h.bucket_counts)),
                    None => None,
                },
            )),
        named_cell(metric_batch(v), "attributes"@, i) == Some(CellModel::Utf8(attrs_text(v[i].attributes))),
        named_cell(metric_batch(v), "resource_attributes"@, i) == Some(CellModel::Utf8(attrs_text(v[i].resource_attributes))),
        named_cell(metric_batch(v), "scope_name"@, i) == Some(CellModel::Utf8(kept_text(v[i].scope.name))),
        named_cell(metric_batch(v), "scope_version"@, i) == Some(CellModel::Utf8(kept_text(v[i].scope.version))),
        named_cell(metric_batch(v), "schema_url"@, i) == Some(CellModel::Utf8(kept_text(v[i].schema_url))),
{
    lemma_metric_names();
    metric_rows_fit(v);
    let fields = metric_fields();
    let rows = metric_rows(v);
    assert(rows[i] == metric_row(v[i]));
    columns_hold_the_cells(fields, rows, i, 0);
    columns_hold_the_cells(fields, rows, i, 1);
    columns_hold_the_cells(fields, rows, i, 2);
    columns_hold_the_cells(fields, rows, i, 3);
    columns_hold_the_cells(fields, rows, i, 4);
    columns_hold_the_cells(fields, rows, i, 5);
    columns_hold_the_cells(fields, rows, i, 6);
    columns_hold_the_cells(fields, rows, i, 7);
    columns_hold_the_cells(fields, rows, i, 8);
    columns_hold_the_cells(fields, rows, i, 9);
    columns_hold_the_cells(fields, rows, i, 10);
    columns_hold_the_cells(fields, rows, i, 11);
    columns_hold_the_cells(fields, rows, i, 12);
    columns_hold_the_cells(fields, rows, i, 13);
    columns_hold_the_cells(fields, rows, i, 14);
    columns_hold_the_cells(fields, rows, i, 15);
    columns_hold_the_cells(fields, rows, i, 16);
}


proof fn lemma_span_names()
    ensures
        index_of(span_fields(), "trace_id"@) == Some(0int),
        index_of(span_fields(), "span_id"@) == Some(1int),
        index_of(span_fields(), "parent_span_id"@) == Some(2int),
        index_of(span_fields(), "name"@) == Some(3int),
        index_of(span_fields(), "kind"@) == Some(4int),
        index_of(span_fields(), "start_time_ns"@) == Some(5int),
        index_of(span_fields(), "end_time_ns"@) == Some(6int),
        index_of(span_fields(), "duration_ns"@) == Some(7int),
        index_of(span_fields(), "status_code"@) == Some(8int),
        index_of(span_fields(), "status_message"@) == Some(9int),
        index_of(span_fields(), "attributes"@) == Some(10int),
        index_of(span_fields(), "resource_attributes"@) == Some(11int),
        index_of(span_fields(), "scope_name"@) == Some(12int),
        index_of(span_fields(), "scope_version"@) == Some(13int),
        index_of(span_fields(), "events"@) == Some(14int),
        index_of(span_fields(), "links"@) == Some(15int),
        index_of(span_fields(), "schema_url"@) == Some(16int),
{
    let f = span_fields();
    reveal_strlit("trace_id");
    reveal_strlit("span_id");
    reveal_strlit("parent_span_id");
    reveal_strlit("name");
    reveal_strlit("kind");
    reveal_strlit("start_time_ns");
    reveal_strlit("end_time_ns");
    reveal_strlit("duration_ns");
    reveal_strlit("status_code");
    reveal_strlit("status_message");
    reveal_strlit("attributes");
    reveal_strlit("resource_attributes");
    reveal_strlit("scope_name");
    reveal_strlit("scope_version");
    reveal_strlit("events");
    reveal_strlit("links");
    reveal_strlit("schema_url");
    assert(f[0].name == "trace_id"@ && f[0].name.len() == 8);
    assert(f[1].name == "span_id"@ && f[1].name.len() == 7);
    assert(f[2].name == "parent_span_id"@ && f[2].name.len() == 14);
    assert(f[3].name == "name"@ && f[3].name.len() == 4);
    assert(f[4].name == "kind"@ && f[4].name.len() == 4);
    assert(f[5].name == "start_time_ns"@ && f[5].name.len() == 13);
    assert(f[6].name == "end_time_ns"@ && f[6].name.len() == 11);
    assert(f[7].name == "duration_ns"@ && f[7].name.len() == 11);
    assert(f[8].name == "status_code"@ && f[8].name.len() == 11);
    assert(f[9].name == "status_message"@ && f[9].name.len() == 14);
    assert(f[10].name == "attributes"@ && f[10].name.len() == 10);
    assert(f[11].name == "resource_attributes"@ && f[11].name.len() == 19);
    assert(f[12].name == "scope_name"@ && f[12].name.len() == 10);
    assert(f[13].name == "scope_version"@ && f[13].name.len() == 13);
    assert(f[14].name == "events"@ && f[14].name.len() == 6);
    assert(f[15].name == "links"@ && f[15].name.len() == 5);
    assert(f[16].name == "schema_url"@ && f[16].name.len() == 10);
    assert(f[3].name[0] != f[4].name[0]);
    assert(f[6].name[0] != f[7].name[0]);
    assert(f[6].name[0] != f[8].name[0]);
    assert(f[7].name[0] != f[8].name[0]);
    assert(f[2].name[0] != f[9].name[0]);
    assert(f[10].name[0] != f[12].name[0]);
    assert(f[5].name[1] != f[13].name[1]);
    assert(f[10].name[0] != f[16].name[0]);
    assert(f[12].name[2] != f[16].name[2]);
    found_column_has_the_name(f, "trace_id"@);
    found_column_has_the_name(f, "span_id"@);
    found_column_has_the_name(f, "parent_span_id"@);
    found_column_has_the_name(f, "name"@);
    found_column_has_the_name(f, "kind"@);
    found_column_has_the_name(f, "start_time_ns"@);
    found_column_has_the_name(f, "end_time_ns"@);
    found_column_has_the_name(f, "duration_ns"@);
    found_column_has_the_name(f, "status_code"@);
    found_column_has_the_name(f, "status_message"@);
    found_column_has_the_name(f, "attributes"@);
    found_column_has_the_name(f, "resource_attributes"@);
    found_column_has_the_name(f, "scope_name"@);
    found_column_has_the_name(f, "scope_version"@);
    found_column_has_the_name(f, "events"@);
    found_column_has_the_name(f, "links"@);
    found_column_has_the_name(f, "schema_url"@);
}

/// Each column of a batch of spans holds in row `i` the field of record `i` that it is
/// named after.
pub proof fn span_columns_hold_the_fields(v: Seq<SpanModel>, i: int)
    requires
        0 <= i < v.len(),
    ensures
        span_batch(v).rows == v.len(),
        named_cell(span_batch(v), "trace_id"@, i) == Some(CellModel::Binary(Some(v[i].trace_id))),
        named_cell(span_batch(v), "span_id"@, i) == Some(CellModel::Binary(Some(v[i].span_id))),
        named_cell(span_batch(v), "parent_span_id"@, i) == Some(CellModel::Binary(v[i].parent_span_id)),
        named_cell(span_batch(v), "name"@, i) == Some(CellModel::Utf8(Some(v[i].name))),
        named_cell(span_batch(v), "kind"@, i) == Some(CellModel::Int32(Some(v[i].kind))),
        named_cell(span_batch(v), "start_time_ns"@, i) == Some(CellModel::UInt64(Some(v[i].start_time_ns))),
        named_cell(span_batch(v), "end_time_ns"@, i) == Some(CellModel::UInt64(Some(v[i].end_time_ns))),
        named_cell(span_batch(v), "duration_ns"@, i) == Some(CellModel::UInt64(Some(v[i].duration_ns))),
        named_cell(span_batch(v), "status_code"@, i) == Some(CellModel::Int32(Some(v[i].status_code))),
        named_cell(span_batch(v), "status_message"@, i) == Some(CellModel::Utf8(kept_text(v[i].status_message))),
        named_cell(span_batch(v), "attributes"@, i) == Some(CellModel::Utf8(attrs_text(v[i].attributes))),
        named_cell(span_batch(v), "resource_attributes"@, i) == Some(CellModel::Utf8(attrs_text(v[i].resource_attributes))),
        named_cell(span_batch(v), "scope_name"@, i) == Some(CellModel::Utf8(kept_text(v[i].scope.name))),
        named_cell(span_batch(v), "scope_version"@, i) == Some(CellModel::Utf8(kept_text(v[i].scope.version))),
        named_cell(span_batch(v), "events"@, i) == Some(CellModel::Utf8(Some(events_text(v[i].events)))),
        named_cell(span_batch(v), "links"@, i) == Some(CellModel::Utf8(Some(links_text(v[i].links)))),
        named_cell(span_batch(v), "schema_url"@, i) == Some(CellModel::Utf8(kept_text(v[i].schema_url))),
{
    lemma_span_names();
    span_rows_fit(v);
    let fields = span_fields();
    let rows = span_rows(v);
    assert(rows[i] == span_row(v[i]));
    columns_hold_the_cells(fields, rows, i, 0);
    columns_hold_the_cells(fields, rows, i, 1);
    columns_hold_the_cells(fields, rows, i, 2);
    columns_hold_the_cells(fields, rows, i, 3);
    columns_hold_the_cells(fields, rows, i, 4);
    columns_hold_the_cells(fields, rows, i, 5);
    columns_hold_the_cells(fields, rows, i, 6);
    columns_hold_the_cells(fields, rows, i, 7);
    columns_hold_the_cells(fields, rows, i, 8);
    columns_hold_the_cells(fields, rows, i, 9);
    columns_hold_the_cells(fields, rows, i, 10);
    columns_hold_the_cells(fields, rows, i, 11);
    columns_hold_the_cells(fields, rows, i, 12);
    columns_hold_the_cells(fields, rows, i, 13);
    columns_hold_the_cells(fields, rows, i, 14);
    columns_hold_the_cells(fields, rows, i, 15);
    columns_hold_the_cells(fields, rows, i, 16);
}

/// Log records with the same row have the same fields, as far as a cell can tell them apart.
pub proof fn log_rows_tell_records_apart(a: LogModel, b: LogModel)
    requires
        log_row(a) == log_row(b),
    ensures
        a.timestamp_ns == b.timestamp_ns,
        a.observed_timestamp_ns == b.observed_timestamp_ns,
        a.trace_id == b.trace_id,
        a.span_id == b.span_id,
        a.severity_number == b.severity_number,
        a.severity_text == b.severity_text,
        value_text(a.body) == value_text(b.body),
        attrs_text(a.attributes) == attrs_text(b.attributes),
        attrs_text(a.resource_attributes) == attrs_text(b.resource_attributes),
        a.scope.name == b.scope.name,
        a.scope.version == b.scope.version,
        a.schema_url == b.schema_url,
{
    log_columns_hold_the_fields(seq![a], 0);
    log_columns_hold_the_fields(seq![b], 0);
    assert(log_rows(seq![a]) =~= log_rows(seq![b]));
    lemma_kept_text(a.severity_text, b.severity_text);
    lemma_kept_text(a.scope.name, b.scope.name);
    lemma_kept_text(a.scope.version, b.scope.version);
    lemma_kept_text(a.schema_url, b.schema_url);
}

/// Metric points with the same row have the same fields, as far as a cell can tell them
/// apart.
pub proof fn metric_rows_tell_points_apart(a: MetricModel, b: MetricModel)
    requires
        metric_row(a) == metric_row(b),
    ensures
        a.timestamp_ns == b.timestamp_ns,
        a.start_timestamp_ns == b.start_timestamp_ns,
        a.name == b.name,
        a.description == b.description,
        a.unit == b.unit,
        a.value_double == b.value_double,
        a.value_int == b.value_int,
        attrs_text(a.attributes) == attrs_text(b.attributes),
        attrs_text(a.resource_attributes) == attrs_text(b.resource_attributes),
        a.scope.name == b.scope.name,
        a.scope.version == b.scope.version,
        a.schema_url == b.schema_url,
{
    metric_columns_hold_the_fields(seq![a], 0);
    metric_columns_hold_the_fields(seq![b], 0);
    assert(metric_rows(seq![a]) =~= metric_rows(seq![b]));
    lemma_kept_text(a.description, b.description);
    lemma_kept_text(a.unit, b.unit);
    lemma_kept_text(a.scope.name, b.scope.name);
    lemma_kept_text(a.scope.version, b.scope.version);
    lemma_kept_text(a.schema_url, b.schema_url);
}

/// Spans with the same row have the same fields, as far as a cell can tell them apart; so two
/// spans that differ in their end have different rows.
pub proof fn span_rows_tell_spans_apart(a: SpanModel, b: SpanModel)
    requires
        span_row(a) == span_row(b),
    ensures
        a.trace_id == b.trace_id,
        a.span_id == b.span_id,
        a.parent_span_id == b.parent_span_id,
        a.name == b.name,
        a.kind == b.kind,
        a.start_time_ns == b.start_time_ns,
        a.end_time_ns == b.end_time_ns,
        a.duration_ns == b.duration_ns,
        a.status_code == b.status_code,
        a.status_message == b.status_message,
        attrs_text(a.attributes) == attrs_text(b.attributes),
        attrs_text(a.resource_attributes) == attrs_text(b.resource_attributes),
        a.scope.name == b.scope.name,
        a.scope.version == b.scope.version,
        events_text(a.events) == events_text(b.events),
        links_text(a.links) == links_text(b.links),
        a.schema_url == b.schema_url,
{
    span_columns_hold_the_fields(seq![a], 0);
    span_columns_hold_the_fields(seq![b], 0);
    assert(span_rows(seq![a]) =~= span_rows(seq![b]));
    lemma_kept_text(a.status_message, b.status_message);
    lemma_kept_text(a.scope.name, b.scope.name);
    lemma_kept_text(a.scope.version, b.scope.version);
    lemma_kept_text(a.schema_url, b.schema_url);
}

proof fn lemma_kept_text(a: Seq<char>, b: Seq<char>)
    ensures
        kept_text(a) == kept_text(b) ==> a == b,
{
    if a.len() == 0 && b.len() == 0 {
        assert(a =~= b);
    }
}

/// What is known of a table of log records covers each of them: the range of time holds its
/// timestamp and starts and ends with one, the rows are counted, and its severity is a key.
pub proof fn tables_of_logs_cover_their_records(
    v: Seq<LogModel>,
    dir: Seq<char>,
    seq: u64,
    i: int,
)
    requires
        0 <= i < v.len() <= u64::MAX,
    ensures
        ({
            let m = table_meta(SignalType::Log, dir, seq, log_times(v));
            &&& m.seq == seq && m.dir == dir && m.signal_type == SignalType::Log
            &&& m.zone_map.row_count == v.len()
            &&& m.zone_map.min_timestamp_ns <= v[i].timestamp_ns <= m.zone_map.max_timestamp_ns
            &&& exists|j: int|
                0 <= j < v.len() && (#[trigger] v[j]).timestamp_ns == m.zone_map.min_timestamp_ns
            &&& exists|j: int|
                0 <= j < v.len() && (#[trigger] v[j]).timestamp_ns == m.zone_map.max_timestamp_ns
            &&& log_keys(v).len() == v.len()
            &&& log_keys(v)[i] == encode_utf8(v[i].severity_text)
        }),
{
    let times = log_times(v);
    zone_is_tight(times);
    assert(times[i] == v[i].timestamp_ns);
    let z = zone_of(times);
    let lo = choose|j: int| 0 <= j < times.len() && times[j] == z.min_timestamp_ns;
    let hi = choose|j: int| 0 <= j < times.len() && times[j] == z.max_timestamp_ns;
    assert(v[lo].timestamp_ns == times[lo]);
    assert(v[hi].timestamp_ns == times[hi]);
}

/// What is known of a table of metric points covers each of them: the range of time holds its
/// timestamp and starts and ends with one, the rows are counted, and its name is a key.
pub proof fn tables_of_metrics_cover_their_points(
    v: Seq<MetricModel>,
    dir: Seq<char>,
    seq: u64,
    i: int,
)
    requires
        0 <= i < v.len() <= u64::MAX,
    ensures
        ({
            let m = table_meta(SignalType::Metric, dir, seq, metric_times(v));
            &&& m.seq == seq && m.dir == dir && m.signal_type == SignalType::Metric
            &&& m.zone_map.row_count == v.len()
            &&& m.zone_map.min_timestamp_ns <= v[i].timestamp_ns <= m.zone_map.max_timestamp_ns
            &&& exists|j: int|
                0 <= j < v.len() && (#[trigger] v[j]).timestamp_ns == m.zone_map.min_timestamp_ns
            &&& exists|j: int|
                0 <= j < v.len() && (#[trigger] v[j]).timestamp_ns == m.zone_map.max_timestamp_ns
            &&& metric_keys(v).len() == v.len()
            &&& metric_keys(v)[i] == encode_utf8(v[i].name)
        }),
{
    let times = metric_times(v);
    zone_is_tight(times);
    assert(times[i] == v[i].timestamp_ns);
    let z = zone_of(times);
    let lo = choose|j: int| 0 <= j < times.len() && times[j] == z.min_timestamp_ns;
    let hi = choose|j: int| 0 <= j < times.len() && times[j] == z.max_timestamp_ns;
    assert(v[lo].timestamp_ns == times[lo]);
    assert(v[hi].timestamp_ns == times[hi]);
}

/// What is known of a table of spans covers each of them: the range of time holds its start
/// and starts and ends with one, the rows are counted, and its trace is a key.
pub proof fn tables_of_spans_cover_their_spans(
    v: Seq<SpanModel>,
    dir: Seq<char>,
    seq: u64,
    i: int,
)
    requires
        0 <= i < v.len() <= u64::MAX,
    ensures
        ({
            let m = table_meta(SignalType::Span, dir, seq, span_times(v));
            &&& m.seq == seq && m.dir == dir && m.signal_type == SignalType::Span
            &&& m.zone_map.row_count == v.len()
            &&& m.zone_map.min_timestamp_ns <= v[i].start_time_ns <= m.zone_map.max_timestamp_ns
            &&& exists|j: int|
                0 <= j < v.len() && (#[trigger] v[j]).start_time_ns == m.zone_map.min_timestamp_ns
            &&& exists|j: int|
                0 <= j < v.len() && (#[trigger] v[j]).start_time_ns == m.zone_map.max_timestamp_ns
            &&& span_keys(v).len() == v.len()
            &&& span_keys(v)[i] == v[i].trace_id
        }),
{
    let times = span_times(v);
    zone_is_tight(times);
    assert(times[i] == v[i].start_time_ns);
    let z = zone_of(times);
    let lo = choose|j: int| 0 <= j < times.len() && times[j] == z.min_timestamp_ns;
    let hi = choose|j: int| 0 <= j < times.len() && times[j] == z.max_timestamp_ns;
    assert(v[lo].start_time_ns == times[lo]);
    assert(v[hi].start_time_ns == times[hi]);
}

} // verus!
