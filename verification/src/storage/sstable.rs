//! SSTables: records as columns, with a Bloom filter and a zone map.

use crate::columnar::batch::{batch_wf, Batch, BatchModel};
use crate::columnar::rows::{
    cell_type, columns_of, is_null, row_fits, row_view, rows_fit, rows_to_batch, rows_view, Cell,
    CellModel,
};
use crate::common::model::{
    id16_view, id8_view, LogModel, LogRecord, MetricModel, MetricPoint, MetricType, SignalType,
    SpanModel, SpanRecord,
};
use crate::common::schema::{
    log_fields, log_schema, metric_fields, metric_schema, span_fields, span_schema,
};
use crate::common::model::{logs_views, metrics_views, spans_views};
use crate::storage::bloom::{
    bloom_wf, byte_len, cell, is_inserted, is_key_cell, may_contain, BloomFilter, BloomModel,
    MAX_HASHES, MIN_BITS,
};
use crate::storage::encode::{
    attrs_text, bincode_list, events_text, json_events, json_links, json_map, json_opt,
    links_text, list_bytes, value_text,
};
use crate::storage::meta::{MetaModel, SSTableMeta};
use crate::storage::zone_map::{zone_is_tight, zone_of, ZoneMap};
use vstd::prelude::*;
use vstd::utf8::encode_utf8;

verus! {

/// A text, or a null if it is empty.
pub open spec fn text_or_null(s: Seq<char>) -> CellModel {
    CellModel::Utf8(
        if s.len() == 0 {
            None
        } else {
            Some(s)
        },
    )
}

fn text_cell(s: &String) -> (out: Cell)
    ensures
        out@ == text_or_null(s@),
{
    if s.as_str().unicode_len() == 0 {
        Cell::Utf8(None)
    } else {
        Cell::Utf8(Some(s.clone()))
    }
}

fn id16_cell(id: &Option<[u8; 16]>) -> (out: Cell)
    ensures
        out@ == CellModel::Binary(id16_view(*id)),
{
    match id {
        Some(b) => {
            let v = crate::bytes::copy_range(b.as_slice(), 0, 16);
            assert(v@ =~= b@);
            Cell::Binary(Some(v))
        },
        None => Cell::Binary(None),
    }
}

fn id8_cell(id: &Option<[u8; 8]>) -> (out: Cell)
    ensures
        out@ == CellModel::Binary(id8_view(*id)),
{
    match id {
        Some(b) => {
            let v = crate::bytes::copy_range(b.as_slice(), 0, 8);
            assert(v@ =~= b@);
            Cell::Binary(Some(v))
        },
        None => Cell::Binary(None),
    }
}

// ── Rows ────────────────────────────────────────────────────────────────────

/// The row of a log record.
pub open spec fn log_row(r: LogModel) -> Seq<CellModel> {
    seq![
        CellModel::UInt64(Some(r.timestamp_ns)),
        CellModel::UInt64(Some(r.observed_timestamp_ns)),
        CellModel::Binary(r.trace_id),
        CellModel::Binary(r.span_id),
        CellModel::Int32(Some(r.severity_number)),
        text_or_null(r.severity_text),
        CellModel::Utf8(value_text(r.body)),
        CellModel::Utf8(attrs_text(r.attributes)),
        CellModel::Utf8(attrs_text(r.resource_attributes)),
        text_or_null(r.scope.name),
        text_or_null(r.scope.version),
        text_or_null(r.schema_url),
    ]
}

/// The number of a kind of metric.
pub open spec fn metric_type_code(t: MetricType) -> i8 {
    match t {
        MetricType::Gauge => 0,
        MetricType::Sum { .. } => 1,
        MetricType::Histogram { .. } => 2,
        MetricType::ExponentialHistogram { .. } => 3,
        MetricType::Summary => 4,
    }
}

/// The row of a metric point.
pub open spec fn metric_row(r: MetricModel) -> Seq<CellModel> {
    seq![
        CellModel::UInt64(Some(r.timestamp_ns)),
        CellModel::UInt64(Some(r.start_timestamp_ns)),
        CellModel::Utf8(Some(r.name)),
        text_or_null(r.description),
        text_or_null(r.unit),
        CellModel::Int8(Some(metric_type_code(r.metric_type))),
        CellModel::Float64(r.value_double),
        CellModel::Int64(r.value_int),
        CellModel::UInt64(
            match r.histogram {
                Some(h) => Some(h.count),
                None => None,
            },
        ),
        CellModel::Float64(
            match r.histogram {
                Some(h) => h.sum,
                None => None,
            },
        ),
        CellModel::Binary(
            match r.histogram {
                Some(h) => Some(list_bytes(h.explicit_bounds)),
                None => None,
            },
        ),
        CellModel::Binary(
            match r.histogram {
                Some(h) => Some(list_bytes(h.bucket_counts)),
                None => None,
            },
        ),
        CellModel::Utf8(attrs_text(r.attributes)),
        CellModel::Utf8(attrs_text(r.resource_attributes)),
        text_or_null(r.scope.name),
        text_or_null(r.scope.version),
        text_or_null(r.schema_url),
    ]
}

/// The row of a span.
pub open spec fn span_row(r: SpanModel) -> Seq<CellModel> {
    seq![
        CellModel::Binary(Some(r.trace_id)),
        CellModel::Binary(Some(r.span_id)),
        CellModel::Binary(r.parent_span_id),
        CellModel::Utf8(Some(r.name)),
        CellModel::Int32(Some(r.kind)),
        CellModel::UInt64(Some(r.start_time_ns)),
        CellModel::UInt64(Some(r.end_time_ns)),
        CellModel::UInt64(Some(r.duration_ns)),
        CellModel::Int32(Some(r.status_code)),
        text_or_null(r.status_message),
        CellModel::Utf8(attrs_text(r.attributes)),
        CellModel::Utf8(attrs_text(r.resource_attributes)),
        text_or_null(r.scope.name),
        text_or_null(r.scope.version),
        CellModel::Utf8(Some(events_text(r.events))),
        CellModel::Utf8(Some(links_text(r.links))),
        text_or_null(r.schema_url),
    ]
}

/// The number of a kind of metric.
pub fn metric_type_id(mt: &MetricType) -> (out: i8)
    ensures
        out == metric_type_code(*mt),
{
    match mt {
        MetricType::Gauge => 0,
        MetricType::Sum { .. } => 1,
        MetricType::Histogram { .. } => 2,
        MetricType::ExponentialHistogram { .. } => 3,
        MetricType::Summary => 4,
    }
}

fn log_cells(r: &LogRecord) -> (out: Vec<Cell>)
    ensures
        row_view(out@) == log_row(r@),
{
    let mut out: Vec<Cell> = Vec::new();
    out.push(Cell::UInt64(Some(r.timestamp_ns)));
    out.push(Cell::UInt64(Some(r.observed_timestamp_ns)));
    out.push(id16_cell(&r.trace_id));
    out.push(id8_cell(&r.span_id));
    out.push(Cell::Int32(Some(r.severity_number)));
    out.push(text_cell(&r.severity_text));
    out.push(Cell::Utf8(json_opt(&r.body)));
    out.push(Cell::Utf8(json_map(&r.attributes)));
    out.push(Cell::Utf8(json_map(&r.resource_attributes)));
    out.push(text_cell(&r.scope.name));
    out.push(text_cell(&r.scope.version));
    out.push(text_cell(&r.schema_url));
    assert(row_view(out@) =~= log_row(r@));
    out
}

fn metric_cells(r: &MetricPoint) -> (out: Vec<Cell>)
    ensures
        row_view(out@) == metric_row(r@),
{
    let mut out: Vec<Cell> = Vec::new();
    out.push(Cell::UInt64(Some(r.timestamp_ns)));
    out.push(Cell::UInt64(Some(r.start_timestamp_ns)));
    out.push(Cell::Utf8(Some(r.name.clone())));
    out.push(text_cell(&r.description));
    out.push(text_cell(&r.unit));
    out.push(Cell::Int8(Some(metric_type_id(&r.metric_type))));
    out.push(Cell::Float64(r.value_double));
    out.push(Cell::Int64(r.value_int));
    match &r.histogram {
        Some(h) => {
            out.push(Cell::UInt64(Some(h.count)));
            out.push(Cell::Float64(h.sum));
            out.push(Cell::Binary(Some(bincode_list(&h.explicit_bounds))));
            out.push(Cell::Binary(Some(bincode_list(&h.bucket_counts))));
        },
        None => {
            out.push(Cell::UInt64(None));
            out.push(Cell::Float64(None));
            out.push(Cell::Binary(None));
            out.push(Cell::Binary(None));
        },
    }
    out.push(Cell::Utf8(json_map(&r.attributes)));
    out.push(Cell::Utf8(json_map(&r.resource_attributes)));
    out.push(text_cell(&r.scope.name));
    out.push(text_cell(&r.scope.version));
    out.push(text_cell(&r.schema_url));
    assert(row_view(out@) =~= metric_row(r@));
    out
}

fn span_cells(r: &SpanRecord) -> (out: Vec<Cell>)
    ensures
        row_view(out@) == span_row(r@),
{
    let mut out: Vec<Cell> = Vec::new();
    out.push(id16_cell(&Some(r.trace_id)));
    out.push(id8_cell(&Some(r.span_id)));
    out.push(id8_cell(&r.parent_span_id));
    out.push(Cell::Utf8(Some(r.name.clone())));
    out.push(Cell::Int32(Some(r.kind)));
    out.push(Cell::UInt64(Some(r.start_time_ns)));
    out.push(Cell::UInt64(Some(r.end_time_ns)));
    out.push(Cell::UInt64(Some(r.duration_ns)));
    out.push(Cell::Int32(Some(r.status_code)));
    out.push(text_cell(&r.status_message));
    out.push(Cell::Utf8(json_map(&r.attributes)));
    out.push(Cell::Utf8(json_map(&r.resource_attributes)));
    out.push(text_cell(&r.scope.name));
    out.push(text_cell(&r.scope.version));
    out.push(Cell::Utf8(json_events(&r.events)));
    out.push(Cell::Utf8(json_links(&r.links)));
    out.push(text_cell(&r.schema_url));
    assert(row_view(out@) =~= span_row(r@));
    out
}

/// The rows of log records fit their table.
pub proof fn log_rows_fit(v: Seq<LogModel>)
    ensures
        rows_fit(log_fields(), log_rows(v)),
{
    assert forall|i: int| 0 <= i < v.len() implies row_fits(
        log_fields(),
        #[trigger] log_rows(v)[i],
    ) by {
        let row = log_row(v[i]);
        let fields = log_fields();
        assert(row.len() == fields.len());
        assert forall|j: int| 0 <= j < row.len() implies cell_type(#[trigger] row[j])
            == fields[j].data_type && (fields[j].nullable || !is_null(row[j])) by {}
    }
}

/// The rows of log records.
pub open spec fn log_rows(v: Seq<LogModel>) -> Seq<Seq<CellModel>> {
    v.map_values(|r: LogModel| log_row(r))
}

/// The batch of log records: one row for each, in order.
pub open spec fn log_batch(v: Seq<LogModel>) -> BatchModel {
    BatchModel {
        schema: log_fields(),
        columns: columns_of(log_fields(), log_rows(v)),
        rows: v.len(),
    }
}

/// Puts log records into columns.
pub fn build_log_batch(records: &Vec<LogRecord>) -> (out: Batch)
    ensures
        out@ == log_batch(logs_views(records@)),
        batch_wf(out@),
{
    let ghost models = logs_views(records@);
    let mut rows: Vec<Vec<Cell>> = Vec::new();
    for i in 0..records.len()
        invariant
            models == logs_views(records@),
            rows@.len() == i,
            rows_view(rows@) =~= log_rows(models).take(i as int),
    {
        let ghost before = rows_view(rows@);
        let row = log_cells(&records[i]);
        let ghost m = row_view(row@);
        rows.push(row);
        assert(rows_view(rows@) =~= before.push(m));
        assert(log_rows(models)[i as int] == m);
    }
    assert(rows_view(rows@) =~= log_rows(models));
    proof {
        log_rows_fit(models);
    }
    rows_to_batch(log_schema(), rows)
}

/// The rows of metric points fit their table.
pub proof fn metric_rows_fit(v: Seq<MetricModel>)
    ensures
        rows_fit(metric_fields(), metric_rows(v)),
{
    assert forall|i: int| 0 <= i < v.len() implies row_fits(
        metric_fields(),
        #[trigger] metric_rows(v)[i],
    ) by {
        let row = metric_row(v[i]);
        let fields = metric_fields();
        assert(row.len() == fields.len());
        assert forall|j: int| 0 <= j < row.len() implies cell_type(#[trigger] row[j])
            == fields[j].data_type && (fields[j].nullable || !is_null(row[j])) by {}
    }
}

/// The rows of metric points.
pub open spec fn metric_rows(v: Seq<MetricModel>) -> Seq<Seq<CellModel>> {
    v.map_values(|r: MetricModel| metric_row(r))
}

/// The batch of metric points: one row for each, in order.
pub open spec fn metric_batch(v: Seq<MetricModel>) -> BatchModel {
    BatchModel {
        schema: metric_fields(),
        columns: columns_of(metric_fields(), metric_rows(v)),
        rows: v.len(),
    }
}

/// Puts metric points into columns.
pub fn build_metric_batch(records: &Vec<MetricPoint>) -> (out: Batch)
    ensures
        out@ == metric_batch(metrics_views(records@)),
        batch_wf(out@),
{
    let ghost models = metrics_views(records@);
    let mut rows: Vec<Vec<Cell>> = Vec::new();
    for i in 0..records.len()
        invariant
            models == metrics_views(records@),
            rows@.len() == i,
            rows_view(rows@) =~= metric_rows(models).take(i as int),
    {
        let ghost before = rows_view(rows@);
        let row = metric_cells(&records[i]);
        let ghost m = row_view(row@);
        rows.push(row);
        assert(rows_view(rows@) =~= before.push(m));
        assert(metric_rows(models)[i as int] == m);
    }
    assert(rows_view(rows@) =~= metric_rows(models));
    proof {
        metric_rows_fit(models);
    }
    rows_to_batch(metric_schema(), rows)
}

/// The rows of spans fit their table.
pub proof fn span_rows_fit(v: Seq<SpanModel>)
    ensures
        rows_fit(span_fields(), span_rows(v)),
{
    assert forall|i: int| 0 <= i < v.len() implies row_fits(
        span_fields(),
        #[trigger] span_rows(v)[i],
    ) by {
        let row = span_row(v[i]);
        let fields = span_fields();
        assert(row.len() == fields.len());
        assert forall|j: int| 0 <= j < row.len() implies cell_type(#[trigger] row[j])
            == fields[j].data_type && (fields[j].nullable || !is_null(row[j])) by {}
    }
}

/// The rows of spans.
pub open spec fn span_rows(v: Seq<SpanModel>) -> Seq<Seq<CellModel>> {
    v.map_values(|r: SpanModel| span_row(r))
}

/// The batch of spans: one row for each, in order.
pub open spec fn span_batch(v: Seq<SpanModel>) -> BatchModel {
    BatchModel {
        schema: span_fields(),
        columns: columns_of(span_fields(), span_rows(v)),
        rows: v.len(),
    }
}

/// Puts spans into columns.
pub fn build_span_batch(records: &Vec<SpanRecord>) -> (out: Batch)
    ensures
        out@ == span_batch(spans_views(records@)),
        batch_wf(out@),
{
    let ghost models = spans_views(records@);
    let mut rows: Vec<Vec<Cell>> = Vec::new();
    for i in 0..records.len()
        invariant
            models == spans_views(records@),
            rows@.len() == i,
            rows_view(rows@) =~= span_rows(models).take(i as int),
    {
        let ghost before = rows_view(rows@);
        let row = span_cells(&records[i]);
        let ghost m = row_view(row@);
        rows.push(row);
        assert(rows_view(rows@) =~= before.push(m));
        assert(span_rows(models)[i as int] == m);
    }
    assert(rows_view(rows@) =~= span_rows(models));
    proof {
        span_rows_fit(models);
    }
    rows_to_batch(span_schema(), rows)
}

// ── Tables ──────────────────────────────────────────────────────────────────

/// A new SSTable: what is known of it, its columns, and its Bloom filter.
pub struct SSTable {
    pub meta: SSTableMeta,
    pub batch: Batch,
    pub bloom: BloomFilter,
}

/// Whether one of the keys has the cell `b` in a filter of the given size.
pub open spec fn some_key_cell(keys: Seq<Seq<u8>>, m: BloomModel, b: int) -> bool {
    exists|k: int|
        0 <= k < keys.len() && is_key_cell(#[trigger] keys[k], m.num_hashes, m.num_bits, b)
}

/// Whether a filter was made for the given size and holds exactly the given keys: a cell is
/// set exactly if it belongs to one of them.
pub open spec fn holds_keys(m: BloomModel, bits: u64, hashes: u32, keys: Seq<Seq<u8>>) -> bool {
    &&& bloom_wf(m)
    &&& m.num_bits == if bits < MIN_BITS {
        MIN_BITS
    } else {
        bits
    }
    &&& m.num_hashes == if hashes < 1 {
        1
    } else if hashes > MAX_HASHES {
        MAX_HASHES
    } else {
        hashes
    }
    &&& forall|b: int|
        0 <= b < 8 * m.bits.len() ==> (#[trigger] cell(m.bits, b) <==> some_key_cell(keys, m, b))
}

pub(crate) proof fn lemma_new_holds_nothing(m: BloomModel)
    requires
        m.bits == Seq::new(byte_len(m.num_bits), |i: int| 0u8),
    ensures
        forall|b: int| 0 <= b < 8 * m.bits.len() ==> !#[trigger] cell(m.bits, b),
{
    assert forall|b: int| 0 <= b < 8 * m.bits.len() implies !#[trigger] cell(m.bits, b) by {
        let k = (b % 8) as u8;
        assert(m.bits[b / 8] == 0);
        assert((0u8 >> k) & 1 == 0) by (bit_vector)
            requires
                k < 8,
        ;
    }
}

pub(crate) proof fn lemma_one_key_more(
    before: BloomModel,
    after: BloomModel,
    bits: u64,
    hashes: u32,
    keys: Seq<Seq<u8>>,
    key: Seq<u8>,
)
    requires
        holds_keys(before, bits, hashes, keys),
        is_inserted(before, key, after),
        bloom_wf(after),
    ensures
        holds_keys(after, bits, hashes, keys.push(key)),
{
    let more = keys.push(key);
    assert forall|b: int| 0 <= b < 8 * after.bits.len() implies (#[trigger] cell(after.bits, b)
        <==> some_key_cell(more, after, b)) by {
        assert(cell(after.bits, b) <==> cell(before.bits, b) || is_key_cell(
            key,
            before.num_hashes,
            before.num_bits,
            b,
        ));
        if some_key_cell(keys, before, b) {
            let k = choose|k: int|
                0 <= k < keys.len() && is_key_cell(
                    #[trigger] keys[k],
                    before.num_hashes,
                    before.num_bits,
                    b,
                );
            assert(more[k] == keys[k]);
        }
        if is_key_cell(key, before.num_hashes, before.num_bits, b) {
            assert(more[keys.len() as int] == key);
        }
        if some_key_cell(more, after, b) {
            let k = choose|k: int|
                0 <= k < more.len() && is_key_cell(
                    #[trigger] more[k],
                    after.num_hashes,
                    after.num_bits,
                    b,
                );
            if k < keys.len() {
                assert(keys[k] == more[k]);
                assert(some_key_cell(keys, before, b));
            }
        }
    }
}

/// Every key that a table's filter holds is found.
pub proof fn table_keys_are_found(
    m: BloomModel,
    bits: u64,
    hashes: u32,
    keys: Seq<Seq<u8>>,
    i: int,
)
    requires
        holds_keys(m, bits, hashes, keys),
        0 <= i < keys.len(),
    ensures
        may_contain(m, keys[i]),
{
    assert forall|h: u32| h < m.num_hashes implies cell(
        m.bits,
        #[trigger] crate::storage::bloom::key_cell(keys[i], h, m.num_bits),
    ) by {
        let b = crate::storage::bloom::key_cell(keys[i], h, m.num_bits);
        assert(0 <= b < m.num_bits);
        assert(is_key_cell(keys[i], m.num_hashes, m.num_bits, b));
        assert(some_key_cell(keys, m, b));
    }
}

/// What is known of a table of one signal, with the given timestamps.
pub open spec fn table_meta(signal_type: SignalType, dir: Seq<char>, seq: u64, timestamps: Seq<u64>) -> MetaModel {
    MetaModel { seq, signal_type, dir, zone_map: zone_of(timestamps) }
}

/// The timestamps of log records.
pub open spec fn log_times(v: Seq<LogModel>) -> Seq<u64> {
    v.map_values(|r: LogModel| r.timestamp_ns)
}

/// The keys of log records in a Bloom filter: their severities.
pub open spec fn log_keys(v: Seq<LogModel>) -> Seq<Seq<u8>> {
    v.map_values(|r: LogModel| encode_utf8(r.severity_text))
}

/// Makes table `seq` of log records in `dir`, with a Bloom filter of `bits` cells and `hashes`
/// hash functions.
pub fn write_logs(records: &Vec<LogRecord>, dir: &str, seq: u64, bits: u64, hashes: u32) -> (out: SSTable)
    requires
        bits <= u64::MAX - 7,
    ensures
        out.meta@ == table_meta(SignalType::Log, dir@, seq, log_times(logs_views(records@))),
        out.batch@ == log_batch(logs_views(records@)),
        batch_wf(out.batch@),
        holds_keys(out.bloom.model(), bits, hashes, log_keys(logs_views(records@))),
{
    let ghost models = logs_views(records@);
    let ghost times = log_times(models);
    let ghost keys = log_keys(models);
    let batch = build_log_batch(records);
    let mut zone_map = ZoneMap::new();
    let mut bloom = BloomFilter::new(bits, hashes);
    proof {
        lemma_new_holds_nothing(bloom.model());
        assert(times.take(0) =~= Seq::empty());
        assert(keys.take(0) =~= Seq::empty());
    }
    for i in 0..records.len()
        invariant
            models == logs_views(records@),
            times == log_times(models),
            keys == log_keys(models),
            zone_map@ == zone_of(times.take(i as int)),
            holds_keys(bloom.model(), bits, hashes, keys.take(i as int)),
    {
        proof {
            zone_is_tight(times.take(i as int));
            assert(times.take(i + 1).drop_last() =~= times.take(i as int));
            assert(times.take(i + 1).last() == records@[i as int]@.timestamp_ns);
            assert(keys.take(i + 1) =~= keys.take(i as int).push(keys[i as int]));
            assert(models[i as int] == records@[i as int]@);
        }
        zone_map.observe_timestamp(records[i].timestamp_ns);
        let ghost before = bloom.model();
        bloom.insert(records[i].severity_text.as_str().as_bytes());
        proof {
            lemma_one_key_more(
                before,
                bloom.model(),
                bits,
                hashes,
                keys.take(i as int),
                keys[i as int],
            );
        }
    }
    assert(times.take(times.len() as int) =~= times);
    assert(keys.take(keys.len() as int) =~= keys);
    SSTable {
        meta: SSTableMeta {
            seq,
            signal_type: SignalType::Log,
            dir: dir.to_string(),
            zone_map,
        },
        batch,
        bloom,
    }
}

/// The timestamps of metric points.
pub open spec fn metric_times(v: Seq<MetricModel>) -> Seq<u64> {
    v.map_values(|r: MetricModel| r.timestamp_ns)
}

/// The keys of metric points in a Bloom filter: their names.
pub open spec fn metric_keys(v: Seq<MetricModel>) -> Seq<Seq<u8>> {
    v.map_values(|r: MetricModel| encode_utf8(r.name))
}

/// Makes table `seq` of metric points in `dir`, with a Bloom filter of `bits` cells and `hashes`
/// hash functions.
pub fn write_metrics(records: &Vec<MetricPoint>, dir: &str, seq: u64, bits: u64, hashes: u32) -> (out: SSTable)
    requires
        bits <= u64::MAX - 7,
    ensures
        out.meta@ == table_meta(SignalType::Metric, dir@, seq, metric_times(metrics_views(records@))),
        out.batch@ == metric_batch(metrics_views(records@)),
        batch_wf(out.batch@),
        holds_keys(out.bloom.model(), bits, hashes, metric_keys(metrics_views(records@))),
{
    let ghost models = metrics_views(records@);
    let ghost times = metric_times(models);
    let ghost keys = metric_keys(models);
    let batch = build_metric_batch(records);
    let mut zone_map = ZoneMap::new();
    let mut bloom = BloomFilter::new(bits, hashes);
    proof {
        lemma_new_holds_nothing(bloom.model());
        assert(times.take(0) =~= Seq::empty());
        assert(keys.take(0) =~= Seq::empty());
    }
    for i in 0..records.len()
        invariant
            models == metrics_views(records@),
            times == metric_times(models),
            keys == metric_keys(models),
            zone_map@ == zone_of(times.take(i as int)),
            holds_keys(bloom.model(), bits, hashes, keys.take(i as int)),
    {
        proof {
            zone_is_tight(times.take(i as int));
            assert(times.take(i + 1).drop_last() =~= times.take(i as int));
            assert(times.take(i + 1).last() == records@[i as int]@.timestamp_ns);
            assert(keys.take(i + 1) =~= keys.take(i as int).push(keys[i as int]));
            assert(models[i as int] == records@[i as int]@);
        }
        zone_map.observe_timestamp(records[i].timestamp_ns);
        let ghost before = bloom.model();
        bloom.insert(records[i].name.as_str().as_bytes());
        proof {
            lemma_one_key_more(
                before,
                bloom.model(),
                bits,
                hashes,
                keys.take(i as int),
                keys[i as int],
            );
        }
    }
    assert(times.take(times.len() as int) =~= times);
    assert(keys.take(keys.len() as int) =~= keys);
    SSTable {
        meta: SSTableMeta {
            seq,
            signal_type: SignalType::Metric,
            dir: dir.to_string(),
            zone_map,
        },
        batch,
        bloom,
    }
}

/// The timestamps of spans.
pub open spec fn span_times(v: Seq<SpanModel>) -> Seq<u64> {
    v.map_values(|r: SpanModel| r.start_time_ns)
}

/// The keys of spans in a Bloom filter: their trace identifiers.
pub open spec fn span_keys(v: Seq<SpanModel>) -> Seq<Seq<u8>> {
    v.map_values(|r: SpanModel| r.trace_id)
}

/// Makes table `seq` of spans in `dir`, with a Bloom filter of `bits` cells and `hashes`
/// hash functions.
pub fn write_spans(records: &Vec<SpanRecord>, dir: &str, seq: u64, bits: u64, hashes: u32) -> (out: SSTable)
    requires
        bits <= u64::MAX - 7,
    ensures
        out.meta@ == table_meta(SignalType::Span, dir@, seq, span_times(spans_views(records@))),
        out.batch@ == span_batch(spans_views(records@)),
        batch_wf(out.batch@),
        holds_keys(out.bloom.model(), bits, hashes, span_keys(spans_views(records@))),
{
    let ghost models = spans_views(records@);
    let ghost times = span_times(models);
    let ghost keys = span_keys(models);
    let batch = build_span_batch(records);
    let mut zone_map = ZoneMap::new();
    let mut bloom = BloomFilter::new(bits, hashes);
    proof {
        lemma_new_holds_nothing(bloom.model());
        assert(times.take(0) =~= Seq::empty());
        assert(keys.take(0) =~= Seq::empty());
    }
    for i in 0..records.len()
        invariant
            models == spans_views(records@),
            times == span_times(models),
            keys == span_keys(models),
            zone_map@ == zone_of(times.take(i as int)),
            holds_keys(bloom.model(), bits, hashes, keys.take(i as int)),
    {
        proof {
            zone_is_tight(times.take(i as int));
            assert(times.take(i + 1).drop_last() =~= times.take(i as int));
            assert(times.take(i + 1).last() == records@[i as int]@.start_time_ns);
            assert(keys.take(i + 1) =~= keys.take(i as int).push(keys[i as int]));
            assert(models[i as int] == records@[i as int]@);
        }
        zone_map.observe_timestamp(records[i].start_time_ns);
        let ghost before = bloom.model();
        bloom.insert(records[i].trace_id.as_slice());
        proof {
            lemma_one_key_more(
                before,
                bloom.model(),
                bits,
                hashes,
                keys.take(i as int),
                keys[i as int],
            );
        }
    }
    assert(times.take(times.len() as int) =~= times);
    assert(keys.take(keys.len() as int) =~= keys);
    SSTable {
        meta: SSTableMeta {
            seq,
            signal_type: SignalType::Span,
            dir: dir.to_string(),
            zone_map,
        },
        batch,
        bloom,
    }
}

} // verus!
