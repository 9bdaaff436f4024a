//! Compaction: all SSTables of a signal are merged into one.
//!
//! A pass over a signal goes in steps. Its tables are taken out; their batches are read; the
//! merged table is worked out and written; then it is registered and the old files are
//! deleted.

use crate::bytes::copy_range;
use crate::columnar::batch::{batch_views, batch_wf, empty_col, rows_total, Batch, BatchModel};
use crate::columnar::column::{bytes_views, Column, ColumnModel};
use crate::columnar::rows::{columns_fit, columns_of, with_cell, CellModel};
use crate::common::model::{LogModel, MetricModel, SignalType, SpanModel};
use crate::common::schema::{
    found_column_has_the_name, index_of, log_fields, metric_fields, span_fields,
};
use crate::storage::bloom::{may_contain, BloomFilter, BloomModel};
use crate::storage::meta::{
    bloom_path_of, meta_views, parquet_path_of, zonemap_path_of, MetaModel, SSTableMeta,
};
use crate::storage::partition::{Partition, SignalPartition};
use crate::storage::sstable::{
    holds_keys, lemma_new_holds_nothing, lemma_one_key_more, log_batch, log_keys, log_rows,
    log_rows_fit, metric_batch, metric_keys, metric_rows, metric_rows_fit, span_batch, span_keys,
    span_rows, span_rows_fit, table_keys_are_found, text_or_null,
};
use crate::storage::zone_map::{zone_is_tight, zone_of, ZoneMap};
use crate::text::views;
use vstd::prelude::*;
use vstd::utf8::encode_utf8;

verus! {

/// The signals of a partition that a pass looks at, in order: those that have as many tables
/// as trigger it.
pub open spec fn due_signals(p: Partition, l0_trigger: nat) -> Seq<SignalType> {
    seq![SignalType::Log, SignalType::Metric, SignalType::Span].filter(
        |s: SignalType| p.signal(s).sstables@.len() >= l0_trigger,
    )
}

/// The signals of a partition that a pass looks at.
pub fn signals_to_compact(p: &Partition, l0_trigger: usize) -> (out: Vec<SignalType>)
    ensures
        out@ == due_signals(*p, l0_trigger as nat),
{
    let ghost keep = |s: SignalType| p.signal(s).sstables@.len() >= l0_trigger as nat;
    let mut out: Vec<SignalType> = Vec::new();
    if p.logs.sstable_count() >= l0_trigger {
        out.push(SignalType::Log);
    }
    if p.metrics.sstable_count() >= l0_trigger {
        out.push(SignalType::Metric);
    }
    if p.spans.sstable_count() >= l0_trigger {
        out.push(SignalType::Span);
    }
    proof {
        let all = seq![SignalType::Log, SignalType::Metric, SignalType::Span];
        reveal_with_fuel(Seq::filter, 4);
        assert(all.drop_last() =~= seq![SignalType::Log, SignalType::Metric]);
        assert(all.drop_last().drop_last() =~= seq![SignalType::Log]);
        assert(all.drop_last().drop_last().drop_last() =~= Seq::empty());
        assert(out@ =~= all.filter(keep));
    }
    out
}

/// Tables that are being merged, and the sequence number of the result.
pub struct CompactionJob {
    pub inputs: Vec<SSTableMeta>,
    pub output_seq: u64,
}

/// Takes the tables of a signal out for merging; nothing happens with fewer than two.
pub fn begin_compaction(sp: &mut SignalPartition) -> (out: Option<CompactionJob>)
    ensures
        final(sp).dir == old(sp).dir,
        match out {
            None => old(sp).sstables@.len() < 2 && *final(sp) == *old(sp),
            Some(job) => old(sp).sstables@.len() >= 2 && job.inputs@ == old(sp).sstables@
                && final(sp).sstables@.len() == 0 && job.output_seq == old(sp).next_seq
                && final(sp).next_seq == (if old(sp).next_seq == u64::MAX {
                0
            } else {
                (old(sp).next_seq + 1) as u64
            }),
        },
{
    if sp.sstables.len() < 2 {
        return None;
    }
    let mut inputs: Vec<SSTableMeta> = Vec::new();
    inputs.append(&mut sp.sstables);
    assert(inputs@ =~= old(sp).sstables@);
    let output_seq = sp.next_seq();
    Some(CompactionJob { inputs, output_seq })
}

/// The timestamps in one batch: those of its column of times, if it has one.
pub open spec fn batch_times(b: BatchModel) -> Seq<u64> {
    let at = match index_of(b.schema, "timestamp_ns"@) {
        Some(i) => Some(i),
        None => index_of(b.schema, "start_time_ns"@),
    };
    match at {
        Some(i) => match b.columns[i] {
            ColumnModel::UInt64(c) => c.values,
            _ => Seq::empty(),
        },
        None => Seq::empty(),
    }
}

/// The timestamps in all batches, in order.
pub open spec fn merged_times(v: Seq<BatchModel>) -> Seq<u64>
    decreases v.len(),
{
    if v.len() == 0 {
        Seq::empty()
    } else {
        merged_times(v.drop_last()) + batch_times(v.last())
    }
}

/// The column whose values are the keys of a signal's Bloom filters.
pub open spec fn key_column(signal: SignalType) -> Seq<char> {
    match signal {
        SignalType::Log => "severity_text"@,
        SignalType::Metric => "name"@,
        SignalType::Span => "trace_id"@,
    }
}

/// The keys of the rows of a batch. A null text is kept as the empty one.
pub open spec fn batch_keys(b: BatchModel, signal: SignalType) -> Seq<Seq<u8>> {
    match index_of(b.schema, key_column(signal)) {
        None => Seq::empty(),
        Some(i) => match b.columns[i] {
            ColumnModel::Utf8(c) => c.values.map_values(|s: Seq<char>| encode_utf8(s)),
            ColumnModel::Binary(c) => c.values,
            _ => Seq::empty(),
        },
    }
}

/// The keys of the rows of all batches, in order.
pub open spec fn merged_keys(v: Seq<BatchModel>, signal: SignalType) -> Seq<Seq<u8>>
    decreases v.len(),
{
    if v.len() == 0 {
        Seq::empty()
    } else {
        merged_keys(v.drop_last(), signal) + batch_keys(v.last(), signal)
    }
}

/// What is known of the merged table.
pub open spec fn merged_meta(
    dir: Seq<char>,
    output_seq: u64,
    signal_type: SignalType,
    batches: Seq<BatchModel>,
) -> MetaModel {
    MetaModel { seq: output_seq, signal_type, dir, zone_map: zone_of(merged_times(batches)) }
}

/// The three files of a table.
pub open spec fn table_files(m: MetaModel) -> Seq<Seq<char>> {
    seq![
        parquet_path_of(m.dir, m.seq),
        bloom_path_of(m.dir, m.seq),
        zonemap_path_of(m.dir, m.seq),
    ]
}

/// The files of tables, in order.
pub open spec fn all_files(v: Seq<MetaModel>) -> Seq<Seq<char>>
    decreases v.len(),
{
    if v.len() == 0 {
        Seq::empty()
    } else {
        all_files(v.drop_last()) + table_files(v.last())
    }
}

/// The files of tables that are no longer needed.
pub fn files_to_delete(metas: &Vec<SSTableMeta>) -> (out: Vec<String>)
    ensures
        views(out@) == all_files(meta_views(metas@)),
{
    let ghost all = meta_views(metas@);
    let mut out: Vec<String> = Vec::new();
    assert(views(out@) =~= Seq::empty());
    assert(all.take(0) =~= Seq::empty());
    for i in 0..metas.len()
        invariant
            all == meta_views(metas@),
            views(out@) == all_files(all.take(i as int)),
    {
        assert(all.take(i + 1).drop_last() =~= all.take(i as int));
        assert(all.take(i + 1).last() == metas@[i as int]@);
        let ghost before = views(out@);
        out.push(metas[i].parquet_path());
        out.push(metas[i].bloom_path());
        out.push(metas[i].zonemap_path());
        assert(views(out@) =~= before + table_files(metas@[i as int]@));
    }
    assert(all.take(all.len() as int) =~= all);
    out
}

proof fn lemma_times_bounded(v: Seq<BatchModel>, n: int)
    requires
        0 <= n <= v.len(),
        forall|i: int| 0 <= i < v.len() ==> batch_wf(#[trigger] v[i]),
    ensures
        merged_times(v.take(n)).len() <= rows_total(v.take(n)),
        rows_total(v.take(n)) <= rows_total(v),
    decreases n,
{
    crate::query::executor::aggregate::lemma_total_grows(v, n);
    if n > 0 {
        lemma_times_bounded(v, n - 1);
        assert(v.take(n).drop_last() =~= v.take(n - 1));
        let b = v.take(n).last();
        assert(b == v[n - 1]);
        crate::common::schema::found_column_has_the_name(b.schema, "timestamp_ns"@);
        crate::common::schema::found_column_has_the_name(b.schema, "start_time_ns"@);
        assert(forall|i: int|
            0 <= i < b.columns.len() ==> crate::columnar::batch::column_fits(
                #[trigger] b.columns[i],
                b.schema[i],
                b.rows,
            ));
    }
}

fn times_of(b: &Batch) -> (out: Vec<u64>)
    requires
        batch_wf(b@),
    ensures
        out@ == batch_times(b@),
{
    let at = match b.schema.index_of("timestamp_ns") {
        Some(i) => Some(i),
        None => b.schema.index_of("start_time_ns"),
    };
    let mut out: Vec<u64> = Vec::new();
    assert(out@ =~= Seq::empty());
    if let Some(i) = at {
        assert(b@.columns[i as int] == b.columns@[i as int]@);
        match &b.columns[i] {
            Column::UInt64(c) => {
                for k in 0..c.values.len()
                    invariant
                        out@ == c.values@.take(k as int),
                {
                    out.push(c.values[k]);
                    assert(out@ =~= c.values@.take(k + 1));
                }
                assert(c.values@.take(c.values@.len() as int) =~= c.values@);
            },
            _ => {},
        }
    }
    out
}

fn keys_of(b: &Batch, signal: SignalType) -> (out: Vec<Vec<u8>>)
    requires
        batch_wf(b@),
    ensures
        bytes_views(out@) == batch_keys(b@, signal),
{
    let at = match signal {
        SignalType::Log => b.schema.index_of("severity_text"),
        SignalType::Metric => b.schema.index_of("name"),
        SignalType::Span => b.schema.index_of("trace_id"),
    };
    let ghost want = batch_keys(b@, signal);
    let mut out: Vec<Vec<u8>> = Vec::new();
    assert(bytes_views(out@) =~= Seq::empty());
    if let Some(i) = at {
        assert(b@.columns[i as int] == b.columns@[i as int]@);
        match &b.columns[i] {
            Column::Utf8(c) => {
                assert(want.len() == c.values@.len());
                for k in 0..c.values.len()
                    invariant
                        want == views(c.values@).map_values(|s: Seq<char>| encode_utf8(s)),
                        bytes_views(out@) == want.take(k as int),
                {
                    let bytes = c.values[k].as_str().as_bytes();
                    let ghost before = bytes_views(out@);
                    out.push(copy_range(bytes, 0, bytes.len()));
                    assert(out@.last()@ =~= encode_utf8(c.values@[k as int]@));
                    assert(bytes_views(out@) =~= before.push(encode_utf8(c.values@[k as int]@)));
                    assert(bytes_views(out@) =~= want.take(k + 1));
                }
                assert(want.take(want.len() as int) =~= want);
            },
            Column::Binary(c) => {
                assert(want.len() == c.values@.len());
                for k in 0..c.values.len()
                    invariant
                        want == bytes_views(c.values@),
                        bytes_views(out@) == want.take(k as int),
                {
                    let ghost before = bytes_views(out@);
                    out.push(copy_range(&c.values[k], 0, c.values[k].len()));
                    assert(out@.last()@ =~= c.values@[k as int]@);
                    assert(bytes_views(out@) =~= before.push(c.values@[k as int]@));
                    assert(bytes_views(out@) =~= want.take(k + 1));
                }
                assert(want.take(want.len() as int) =~= want);
            },
            _ => {},
        }
    }
    out
}

/// A merged table: what is known of it, and its Bloom filter. Its columns are the batches
/// that were read, one behind the other.
pub struct MergedTable {
    pub meta: SSTableMeta,
    pub bloom: BloomFilter,
}

/// Works out the merged table of the batches that were read; none if there are none. The
/// Bloom filter has `bits` cells and `hashes` hash functions, and holds the keys of all rows.
pub fn merge(
    job: &CompactionJob,
    batches: &Vec<Batch>,
    signal: SignalType,
    bits: u64,
    hashes: u32,
) -> (out: Option<MergedTable>)
    requires
        job.inputs@.len() > 0,
        forall|i: int| 0 <= i < batches@.len() ==> batch_wf((#[trigger] batches@[i])@),
        rows_total(batch_views(batches@)) <= u64::MAX,
        bits <= u64::MAX - 7,
    ensures
        match out {
            None => batches@.len() == 0,
            Some(t) => batches@.len() > 0 && t.meta@ == merged_meta(
                job.inputs@[0].dir@,
                job.output_seq,
                signal,
                batch_views(batches@),
            ) && holds_keys(
                t.bloom.model(),
                bits,
                hashes,
                merged_keys(batch_views(batches@), signal),
            ),
        },
{
    if batches.len() == 0 {
        return None;
    }
    let ghost all = batch_views(batches@);
    assert forall|i: int| 0 <= i < all.len() implies batch_wf(#[trigger] all[i]) by {
        assert(all[i] == batches@[i]@);
    }
    let mut zone_map = ZoneMap::new();
    let mut bloom = BloomFilter::new(bits, hashes);
    assert(all.take(0) =~= Seq::empty());
    proof {
        lemma_new_holds_nothing(bloom.model());
    }
    for i in 0..batches.len()
        invariant
            all == batch_views(batches@),
            forall|k: int| 0 <= k < all.len() ==> batch_wf(#[trigger] all[k]),
            rows_total(all) <= u64::MAX,
            zone_map@ == zone_of(merged_times(all.take(i as int))),
            holds_keys(bloom.model(), bits, hashes, merged_keys(all.take(i as int), signal)),
    {
        assert(all[i as int] == batches@[i as int]@);
        assert(all.take(i + 1).drop_last() =~= all.take(i as int));
        assert(all.take(i + 1).last() == batches@[i as int]@);
        let times = times_of(&batches[i]);
        let ghost before = merged_times(all.take(i as int));
        proof {
            lemma_times_bounded(all, i + 1);
        }
        assert(before + times@.take(0) =~= before);
        for j in 0..times.len()
            invariant
                before.len() + times@.len() <= u64::MAX,
                zone_map@ == zone_of(before + times@.take(j as int)),
        {
            let ghost front = before + times@.take(j as int);
            let ghost next = before + times@.take(j + 1);
            proof {
                zone_is_tight(front);
                assert(next.drop_last() =~= front);
                assert(next.last() == times@[j as int]);
            }
            zone_map.observe_timestamp(times[j]);
        }
        assert(times@.take(times@.len() as int) =~= times@);
        let keys = keys_of(&batches[i], signal);
        let ghost known = merged_keys(all.take(i as int), signal);
        let ghost added = bytes_views(keys@);
        assert(known + added.take(0) =~= known);
        for j in 0..keys.len()
            invariant
                added == bytes_views(keys@),
                holds_keys(bloom.model(), bits, hashes, known + added.take(j as int)),
        {
            let ghost m = bloom.model();
            bloom.insert(&keys[j]);
            proof {
                let front = known + added.take(j as int);
                lemma_one_key_more(m, bloom.model(), bits, hashes, front, keys@[j as int]@);
                assert(front.push(keys@[j as int]@) =~= known + added.take(j + 1));
            }
        }
        assert(added.take(added.len() as int) =~= added);
    }
    assert(all.take(all.len() as int) =~= all);
    Some(
        MergedTable {
            meta: SSTableMeta {
                seq: job.output_seq,
                signal_type: signal,
                dir: job.inputs[0].dir.clone(),
                zone_map,
            },
            bloom,
        },
    )
}

// ── Laws ────────────────────────────────────────────────────────────────────

proof fn lemma_times_of_part(v: Seq<BatchModel>, i: int, x: u64)
    requires
        0 <= i < v.len(),
        batch_times(v[i]).contains(x),
    ensures
        merged_times(v).contains(x),
    decreases v.len(),
{
    let front = merged_times(v.drop_last());
    let last = batch_times(v.last());
    if i == v.len() - 1 {
        let k = choose|k: int| 0 <= k < last.len() && last[k] == x;
        assert(merged_times(v)[front.len() + k] == x);
    } else {
        assert(v.drop_last()[i] == v[i]);
        lemma_times_of_part(v.drop_last(), i, x);
        let k = choose|k: int| 0 <= k < front.len() && front[k] == x;
        assert(merged_times(v)[k] == x);
    }
}

/// A merged table is asked wherever one of its parts was: its zone map meets every range of
/// time that holds one of its rows.
pub proof fn merging_keeps_rows_findable(
    v: Seq<BatchModel>,
    i: int,
    ts: u64,
    start: u64,
    end: u64,
)
    requires
        0 <= i < v.len(),
        merged_times(v).len() <= u64::MAX,
        batch_times(v[i]).contains(ts),
        start <= ts <= end,
    ensures
        crate::storage::zone_map::zone_overlaps(zone_of(merged_times(v)), start, end),
{
    lemma_times_of_part(v, i, ts);
    let all = merged_times(v);
    let k = choose|k: int| 0 <= k < all.len() && all[k] == ts;
    crate::storage::zone_map::pruning_keeps_matching_rows(all, k, start, end);
}

proof fn lemma_keys_of_part(v: Seq<BatchModel>, signal: SignalType, i: int, key: Seq<u8>)
    requires
        0 <= i < v.len(),
        batch_keys(v[i], signal).contains(key),
    ensures
        merged_keys(v, signal).contains(key),
    decreases v.len(),
{
    let front = merged_keys(v.drop_last(), signal);
    let last = batch_keys(v.last(), signal);
    if i == v.len() - 1 {
        let k = choose|k: int| 0 <= k < last.len() && last[k] == key;
        assert(merged_keys(v, signal)[front.len() + k] == key);
    } else {
        assert(v.drop_last()[i] == v[i]);
        lemma_keys_of_part(v.drop_last(), signal, i, key);
        let k = choose|k: int| 0 <= k < front.len() && front[k] == key;
        assert(merged_keys(v, signal)[k] == key);
    }
}

/// Merging keeps keys findable: what was found in one of the parts is found in the filter of
/// the merged table.
pub proof fn merging_keeps_keys_findable(
    m: BloomModel,
    bits: u64,
    hashes: u32,
    v: Seq<BatchModel>,
    signal: SignalType,
    i: int,
    key: Seq<u8>,
)
    requires
        holds_keys(m, bits, hashes, merged_keys(v, signal)),
        0 <= i < v.len(),
        batch_keys(v[i], signal).contains(key),
    ensures
        may_contain(m, key),
{
    lemma_keys_of_part(v, signal, i, key);
    let all = merged_keys(v, signal);
    let k = choose|k: int| 0 <= k < all.len() && all[k] == key;
    table_keys_are_found(m, bits, hashes, all, k);
}

proof fn lemma_log_key_column()
    ensures
        index_of(log_fields(), "severity_text"@) == Some(5int),
{
    found_column_has_the_name(log_fields(), "severity_text"@);
    assert(log_fields()[5].name == "severity_text"@);
    reveal_strlit("timestamp_ns");
    reveal_strlit("observed_timestamp_ns");
    reveal_strlit("trace_id");
    reveal_strlit("span_id");
    reveal_strlit("severity_number");
    reveal_strlit("severity_text");
    reveal_strlit("body");
    reveal_strlit("attributes");
    reveal_strlit("resource_attributes");
    reveal_strlit("scope_name");
    reveal_strlit("scope_version");
    reveal_strlit("schema_url");
    assert(log_fields()[0].name.len() != "severity_text"@.len());
    assert(log_fields()[1].name.len() != "severity_text"@.len());
    assert(log_fields()[2].name.len() != "severity_text"@.len());
    assert(log_fields()[3].name.len() != "severity_text"@.len());
    assert(log_fields()[4].name.len() != "severity_text"@.len());
    assert(log_fields()[6].name.len() != "severity_text"@.len());
    assert(log_fields()[7].name.len() != "severity_text"@.len());
    assert(log_fields()[8].name.len() != "severity_text"@.len());
    assert(log_fields()[9].name.len() != "severity_text"@.len());
    assert(log_fields()[10].name[1] != "severity_text"@[1]);
    assert(log_fields()[11].name.len() != "severity_text"@.len());
}

/// The keys of a batch of log records are those of the records.
pub proof fn log_batch_has_the_keys(v: Seq<LogModel>)
    ensures
        batch_keys(log_batch(v), SignalType::Log) == log_keys(v),
    decreases v.len(),
{
    lemma_log_key_column();
    let fields = log_fields();
    let columns = columns_of(fields, log_rows(v));
    if v.len() == 0 {
        assert(columns[5] == empty_col(fields[5].data_type));
        assert(batch_keys(log_batch(v), SignalType::Log) =~= log_keys(v));
    } else {
        let front = v.drop_last();
        log_batch_has_the_keys(front);
        assert(log_rows(v).drop_last() =~= log_rows(front));
        let before = columns_of(fields, log_rows(front));
        log_rows_fit(front);
        columns_fit(fields, log_rows(front));
        assert(before[5] is Utf8);
        assert(log_rows(v).last()[5] == text_or_null(v.last().severity_text));
        assert(columns[5] == with_cell(before[5], log_rows(v).last()[5]));
        if v.last().severity_text.len() == 0 {
            assert(v.last().severity_text =~= Seq::empty());
        }
        assert(batch_keys(log_batch(v), SignalType::Log) =~= batch_keys(
            log_batch(front),
            SignalType::Log,
        ).push(encode_utf8(v.last().severity_text)));
        assert(log_keys(v) =~= log_keys(front).push(encode_utf8(v.last().severity_text)));
    }
}

proof fn lemma_metric_key_column()
    ensures
        index_of(metric_fields(), "name"@) == Some(2int),
{
    found_column_has_the_name(metric_fields(), "name"@);
    assert(metric_fields()[2].name == "name"@);
    reveal_strlit("timestamp_ns");
    reveal_strlit("start_timestamp_ns");
    reveal_strlit("name");
    reveal_strlit("description");
    reveal_strlit("unit");
    reveal_strlit("metric_type");
    reveal_strlit("value_double");
    reveal_strlit("value_int");
    reveal_strlit("histogram_count");
    reveal_strlit("histogram_sum");
    reveal_strlit("histogram_bounds");
    reveal_strlit("histogram_counts");
    reveal_strlit("attributes");
    reveal_strlit("resource_attributes");
    reveal_strlit("scope_name");
    reveal_strlit("scope_version");
    reveal_strlit("schema_url");
    assert(metric_fields()[0].name.len() != "name"@.len());
    assert(metric_fields()[1].name.len() != "name"@.len());
    assert(metric_fields()[3].name.len() != "name"@.len());
    assert(metric_fields()[4].name[0] != "name"@[0]);
    assert(metric_fields()[5].name.len() != "name"@.len());
    assert(metric_fields()[6].name.len() != "name"@.len());
    assert(metric_fields()[7].name.len() != "name"@.len());
    assert(metric_fields()[8].name.len() != "name"@.len());
    assert(metric_fields()[9].name.len() != "name"@.len());
    assert(metric_fields()[10].name.len() != "name"@.len());
    assert(metric_fields()[11].name.len() != "name"@.len());
    assert(metric_fields()[12].name.len() != "name"@.len());
    assert(metric_fields()[13].name.len() != "name"@.len());
    assert(metric_fields()[14].name.len() != "name"@.len());
    assert(metric_fields()[15].name.len() != "name"@.len());
    assert(metric_fields()[16].name.len() != "name"@.len());
}

/// The keys of a batch of metric points are those of the records.
pub proof fn metric_batch_has_the_keys(v: Seq<MetricModel>)
    ensures
        batch_keys(metric_batch(v), SignalType::Metric) == metric_keys(v),
    decreases v.len(),
{
    lemma_metric_key_column();
    let fields = metric_fields();
    let columns = columns_of(fields, metric_rows(v));
    if v.len() == 0 {
        assert(columns[2] == empty_col(fields[2].data_type));
        assert(batch_keys(metric_batch(v), SignalType::Metric) =~= metric_keys(v));
    } else {
        let front = v.drop_last();
        metric_batch_has_the_keys(front);
        assert(metric_rows(v).drop_last() =~= metric_rows(front));
        let before = columns_of(fields, metric_rows(front));
        metric_rows_fit(front);
        columns_fit(fields, metric_rows(front));
        assert(before[2] is Utf8);
        assert(metric_rows(v).last()[2] == CellModel::Utf8(Some(v.last().name)));
        assert(columns[2] == with_cell(before[2], metric_rows(v).last()[2]));
        assert(batch_keys(metric_batch(v), SignalType::Metric) =~= batch_keys(
            metric_batch(front),
            SignalType::Metric,
        ).push(encode_utf8(v.last().name)));
        assert(metric_keys(v) =~= metric_keys(front).push(encode_utf8(v.last().name)));
    }
}

proof fn lemma_span_key_column()
    ensures
        index_of(span_fields(), "trace_id"@) == Some(0int),
{
    found_column_has_the_name(span_fields(), "trace_id"@);
    assert(span_fields()[0].name == "trace_id"@);
    reveal_strlit("trace_id");
    reveal_strlit("span_id");
    reveal_strlit("parent_span_id");
    reveal_strlit("name");
    reveal_strlit("kind");
    reveal_strlit("start_time_ns");
    reveal_strlit("end_time_ns");
    reveal_strlit("duration_ns");
    reveal_strlit("status_code");
    reveal_strlit("status_message");
    reveal_strlit("attributes");
    reveal_strlit("resource_attributes");
    reveal_strlit("scope_name");
    reveal_strlit("scope_version");
    reveal_strlit("events");
    reveal_strlit("links");
    reveal_strlit("schema_url");
    assert(span_fields()[1].name.len() != "trace_id"@.len());
    assert(span_fields()[2].name.len() != "trace_id"@.len());
    assert(span_fields()[3].name.len() != "trace_id"@.len());
    assert(span_fields()[4].name.len() != "trace_id"@.len());
    assert(span_fields()[5].name.len() != "trace_id"@.len());
    assert(span_fields()[6].name.len() != "trace_id"@.len());
    assert(span_fields()[7].name.len() != "trace_id"@.len());
    assert(span_fields()[8].name.len() != "trace_id"@.len());
    assert(span_fields()[9].name.len() != "trace_id"@.len());
    assert(span_fields()[10].name.len() != "trace_id"@.len());
    assert(span_fields()[11].name.len() != "trace_id"@.len());
    assert(span_fields()[12].name.len() != "trace_id"@.len());
    assert(span_fields()[13].name.len() != "trace_id"@.len());
    assert(span_fields()[14].name.len() != "trace_id"@.len());
    assert(span_fields()[15].name.len() != "trace_id"@.len());
    assert(span_fields()[16].name.len() != "trace_id"@.len());
}

/// The keys of a batch of spans are those of the records.
pub proof fn span_batch_has_the_keys(v: Seq<SpanModel>)
    ensures
        batch_keys(span_batch(v), SignalType::Span) == span_keys(v),
    decreases v.len(),
{
    lemma_span_key_column();
    let fields = span_fields();
    let columns = columns_of(fields, span_rows(v));
    if v.len() == 0 {
        assert(columns[0] == empty_col(fields[0].data_type));
        assert(batch_keys(span_batch(v), SignalType::Span) =~= span_keys(v));
    } else {
        let front = v.drop_last();
        span_batch_has_the_keys(front);
        assert(span_rows(v).drop_last() =~= span_rows(front));
        let before = columns_of(fields, span_rows(front));
        span_rows_fit(front);
        columns_fit(fields, span_rows(front));
        assert(before[0] is Binary);
        assert(span_rows(v).last()[0] == CellModel::Binary(Some(v.last().trace_id)));
        assert(columns[0] == with_cell(before[0], span_rows(v).last()[0]));
        assert(batch_keys(span_batch(v), SignalType::Span) =~= batch_keys(
            span_batch(front),
            SignalType::Span,
        ).push(v.last().trace_id));
        assert(span_keys(v) =~= span_keys(front).push(v.last().trace_id));
    }
}

/// The files of tables are the three of each table, and no other.
pub proof fn each_table_has_three_files(v: Seq<MetaModel>, path: Seq<char>)
    ensures
        all_files(v).len() == 3 * v.len(),
        all_files(v).contains(path) <==> exists|i: int|
            0 <= i < v.len() && is_file_of(#[trigger] v[i], path),
    decreases v.len(),
{
    if v.len() > 0 {
        let front = v.drop_last();
        let n = v.len();
        each_table_has_three_files(front, path);
        let before = all_files(front);
        let own = table_files(v.last());
        let all = all_files(v);
        assert(own.len() == 3);
        assert(v.last() == v[n - 1]);
        if before.contains(path) {
            let i = choose|i: int| 0 <= i < front.len() && is_file_of(#[trigger] front[i], path);
            assert(v[i] == front[i]);
        }
        if all.contains(path) {
            let k = choose|k: int| 0 <= k < all.len() && all[k] == path;
            if k < before.len() {
                assert(before[k] == path);
            } else {
                assert(own[k - before.len()] == path);
                assert(is_file_of(v[n - 1], path));
            }
        }
        if exists|i: int| 0 <= i < n && is_file_of(#[trigger] v[i], path) {
            let i = choose|i: int| 0 <= i < n && is_file_of(#[trigger] v[i], path);
            if i < n - 1 {
                assert(front[i] == v[i]);
                let k = choose|k: int| 0 <= k < before.len() && before[k] == path;
                assert(all[k] == path);
            } else {
                assert(own[0] == all[before.len() as int]);
                assert(own[1] == all[(before.len() + 1) as int]);
                assert(own[2] == all[(before.len() + 2) as int]);
            }
        }
    }
}

/// Whether a path is one of the files of a table.
pub open spec fn is_file_of(m: MetaModel, path: Seq<char>) -> bool {
    path == parquet_path_of(m.dir, m.seq) || path == bloom_path_of(m.dir, m.seq) || path
        == zonemap_path_of(m.dir, m.seq)
}

/// A signal is merged if and only if it has as many tables as are asked for.
pub proof fn due_signals_have_enough_tables(p: Partition, l0_trigger: nat, s: SignalType)
    ensures
        due_signals(p, l0_trigger).contains(s) <==> p.signal(s).sstables@.len() >= l0_trigger,
{
    let all = seq![SignalType::Log, SignalType::Metric, SignalType::Span];
    let due = |x: SignalType| p.signal(x).sstables@.len() >= l0_trigger;
    assert(due_signals(p, l0_trigger) == all.filter(due));
    assert(all[0] == SignalType::Log && all[1] == SignalType::Metric && all[2] == SignalType::Span);
    let k = match s {
        SignalType::Log => 0int,
        SignalType::Metric => 1,
        SignalType::Span => 2,
    };
    if due(s) {
        all.lemma_filter_contains(due, k);
    }
    if all.filter(due).contains(s) {
        let i = choose|i: int| 0 <= i < all.filter(due).len() && all.filter(due)[i] == s;
        all.lemma_filter_pred(due, i);
    }
}

} // verus!
