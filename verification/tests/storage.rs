use infralens::columnar::column::Column;
use infralens::common::config::InfraLensConfig;
use infralens::common::model::{
    AnyValue, HistogramData, InstrumentationScope, LogRecord, MetricPoint, MetricType, SignalType,
    SpanEvent, SpanLink, SpanRecord,
};
use infralens::common::schema::{log_schema, metric_schema, span_schema};
use infralens::storage::bloom::BloomFilter;
use infralens::storage::compaction::{
    begin_compaction, files_to_delete, merge, signals_to_compact,
};
use infralens::storage::encode::{json_events, json_links, json_map, json_opt};
use infralens::storage::engine::StorageEngine;
use infralens::storage::error::StorageError;
use infralens::storage::memtable::{MemTable, RowKey};
use infralens::storage::meta::{zonemap_seq, SSTableMeta};
use infralens::storage::partition::{ListedFile, Partition, PartitionKey, SignalPartition};
use infralens::storage::sstable::{
    build_log_batch, build_metric_batch, build_span_batch, write_logs, write_metrics, write_spans,
};
use infralens::storage::wal::{
    encode_entry, recover, Wal, ENTRY_CHECKPOINT, ENTRY_LOG, ENTRY_METRIC, ENTRY_SPAN,
};
use infralens::storage::zone_map::ZoneMap;

fn make_log(ts: u64) -> LogRecord {
    LogRecord {
        timestamp_ns: ts,
        observed_timestamp_ns: ts,
        trace_id: Some([0u8; 16]),
        span_id: Some([0u8; 8]),
        severity_number: 9,
        severity_text: "INFO".to_string(),
        body: Some(AnyValue::String("hello".to_string())),
        attributes: vec![("key".to_string(), AnyValue::Int(42))],
        resource_attributes: Vec::new(),
        scope: InstrumentationScope::default(),
        schema_url: String::new(),
    }
}

fn make_metric(ts: u64, name: &str, value: f64) -> MetricPoint {
    MetricPoint {
        timestamp_ns: ts,
        start_timestamp_ns: ts,
        name: name.to_string(),
        description: String::new(),
        unit: "1".to_string(),
        metric_type: MetricType::Gauge,
        value_double: Some(value.to_bits()),
        value_int: None,
        histogram: None,
        attributes: Vec::new(),
        resource_attributes: Vec::new(),
        scope: InstrumentationScope::default(),
        schema_url: String::new(),
    }
}

fn make_span(trace_id: [u8; 16], span_id: [u8; 8], start_ns: u64) -> SpanRecord {
    SpanRecord {
        trace_id,
        span_id,
        parent_span_id: None,
        name: "test-span".to_string(),
        kind: 2,
        start_time_ns: start_ns,
        end_time_ns: start_ns + 100_000_000,
        duration_ns: 100_000_000,
        status_code: 1,
        status_message: String::new(),
        attributes: vec![("http.method".to_string(), AnyValue::String("GET".to_string()))],
        resource_attributes: Vec::new(),
        scope: InstrumentationScope::default(),
        events: Vec::new(),
        links: Vec::new(),
        schema_url: String::new(),
    }
}

// ── MemTable ────────────────────────────────────────────────────────────────

#[test]
fn size_accounting() {
    let mut mem = MemTable::new(64 * 1024 * 1024);
    assert_eq!(mem.size_bytes(), 0);
    mem.write_log(&make_log(1000), b"test message".to_vec());
    assert!(mem.size_bytes() > 0);
    assert_eq!(mem.size_bytes(), 24 + 12);
}

#[test]
fn is_full_threshold() {
    let mut mem = MemTable::new(1);
    mem.write_log(&make_log(1000), b"test message".to_vec());
    assert!(mem.is_full());
}

#[test]
fn drain_signal_isolation() {
    let mut mem = MemTable::new(64 * 1024 * 1024);

    let log = make_log(1000);
    mem.write_log(&log, b"test message".to_vec());

    let logs = mem.drain_signal(SignalType::Log.as_u8());
    assert_eq!(logs.len(), 1);

    let metrics = mem.drain_signal(SignalType::Metric.as_u8());
    assert!(metrics.is_empty());
}

#[test]
fn keys_are_time_ordered() {
    let mut mem = MemTable::new(64 * 1024 * 1024);
    mem.write_log(&make_log(3000), Vec::new());
    mem.write_log(&make_log(1000), Vec::new());
    mem.write_log(&make_log(2000), Vec::new());

    let rows = mem.drain_signal(SignalType::Log.as_u8());
    let timestamps: Vec<u64> = rows.iter().map(|(k, _)| k.timestamp_ns).collect();
    assert_eq!(timestamps, vec![1000, 2000, 3000]);
}

#[test]
fn rows_of_one_time_keep_their_order() {
    let mut mem = MemTable::new(1 << 20);
    mem.write_log(&make_log(5), b"a".to_vec());
    mem.write_metric(&make_metric(5, "m", 1.0), b"b".to_vec());
    mem.write_span(&make_span([1; 16], [2; 8], 4), b"c".to_vec());
    mem.write_log(&make_log(5), b"d".to_vec());
    assert_eq!(mem.len(), 4);
    assert!(!mem.is_empty());
    let logs = mem.drain_signal(0);
    assert_eq!(logs[0].1, b"a");
    assert_eq!(logs[1].1, b"d");
    let all: Vec<Vec<u8>> = mem.iter_all().into_iter().map(|r| r.1).collect();
    assert_eq!(all, vec![b"c".to_vec(), b"a".to_vec(), b"d".to_vec(), b"b".to_vec()]);
}

#[test]
fn row_keys_compare_by_time_first() {
    let key = |t, s, n| RowKey { timestamp_ns: t, signal_type: s, sequence: n };
    assert!(key(1, 2, 9).is_before(&key(2, 0, 0)));
    assert!(key(1, 0, 9).is_before(&key(1, 1, 0)));
    assert!(key(1, 1, 0).is_before(&key(1, 1, 1)));
    assert!(!key(1, 1, 1).is_before(&key(1, 1, 1)));
}

// ── Log file ────────────────────────────────────────────────────────────────

#[test]
fn roundtrip_single_entry() {
    let mut wal = Wal::open("wal.log".to_string(), 0);
    let (offset, file) = wal.append(ENTRY_LOG, b"hello world");
    assert_eq!(offset, 0);

    let entries = recover(&file).entries;
    assert_eq!(entries.len(), 1);
    assert_eq!(entries[0].entry_type, ENTRY_LOG);
    assert_eq!(entries[0].data, b"hello world");
}

#[test]
fn checkpoint_clears_entries() {
    let mut wal = Wal::open("wal.log".to_string(), 0);
    let mut file = Vec::new();
    file.extend(wal.append(ENTRY_LOG, b"entry1").1);
    file.extend(wal.append(ENTRY_METRIC, b"entry2").1);
    file.extend(wal.checkpoint().1);
    file.extend(wal.append(ENTRY_SPAN, b"entry3").1);

    let entries = recover(&file).entries;
    assert_eq!(entries.len(), 1);
    assert_eq!(entries[0].entry_type, ENTRY_SPAN);
    assert_eq!(entries[0].data, b"entry3");
}

#[test]
fn recovery_survives_empty_file() {
    let found = recover(&[]);
    assert!(found.entries.is_empty());
    assert!(found.corruption.is_none());
}

#[test]
fn entry_layout() {
    let bytes = encode_entry(ENTRY_METRIC, b"abc");
    assert_eq!(bytes.len(), 9 + 3);
    let crc = u32::from_le_bytes(bytes[0..4].try_into().unwrap());
    let len = u32::from_le_bytes(bytes[4..8].try_into().unwrap());
    assert_eq!(len, 3);
    assert_eq!(bytes[8], ENTRY_METRIC);
    assert_eq!(&bytes[9..], b"abc");
    assert_eq!(crc, crc32fast::hash(&bytes[8..]));
}

/// The checksum bit by bit.
fn crc32(data: &[u8]) -> u32 {
    let mut c = 0xFFFF_FFFFu32;
    for b in data {
        c ^= *b as u32;
        for _ in 0..8 {
            c = if c % 2 == 1 { (c >> 1) ^ 0xEDB8_8320 } else { c >> 1 };
        }
    }
    c ^ 0xFFFF_FFFF
}

#[test]
fn checksums_are_crc32() {
    assert_eq!(crc32(b"123456789"), 0xCBF4_3926);
    for n in [0, 1, 7, 64, 300] {
        let data: Vec<u8> = (0..n).map(|i| (i * 37 % 251) as u8).collect();
        let entry = encode_entry(ENTRY_SPAN, &data);
        let stored = u32::from_le_bytes(entry[0..4].try_into().unwrap());
        assert_eq!(stored, crc32(&entry[8..]));
    }
}

#[test]
fn offsets_count_bytes() {
    let mut wal = Wal::open("x/wal.log".to_string(), 100);
    assert_eq!(wal.path(), "x/wal.log");
    assert_eq!(wal.position(), 100);
    assert_eq!(wal.append(ENTRY_LOG, b"12345").0, 100);
    assert_eq!(wal.checkpoint().0, 114);
    assert_eq!(wal.position(), 123);
    wal.advance(1);
    assert_eq!(wal.position(), 133);
}

#[test]
fn torn_entry_is_dropped() {
    let mut file = encode_entry(ENTRY_LOG, b"whole");
    let second = encode_entry(ENTRY_LOG, b"torn");
    for cut in 0..second.len() {
        let mut f = file.clone();
        f.extend(&second[..cut]);
        let found = recover(&f);
        assert_eq!(found.entries.len(), 1);
        assert!(found.corruption.is_none());
    }
    file.extend(&second);
    assert_eq!(recover(&file).entries.len(), 2);
}

#[test]
fn corruption_ends_recovery() {
    let mut file = encode_entry(ENTRY_LOG, b"one");
    let at = file.len();
    file.extend(encode_entry(ENTRY_LOG, b"two"));
    file.extend(encode_entry(ENTRY_LOG, b"three"));
    let good = crc32fast::hash(&[ENTRY_LOG, b't', b'w', b'o']);
    let bad = crc32fast::hash(&[ENTRY_LOG, b't', b'w', b'x']);
    file[at + 11] = b'x';
    let found = recover(&file);
    assert_eq!(found.entries.len(), 1);
    match found.corruption {
        Some(StorageError::WalCrcMismatch { offset, expected, actual }) => {
            assert_eq!(offset, at as u64);
            assert_eq!(expected, good);
            assert_eq!(actual, bad);
        }
        _ => panic!("expected a mismatch"),
    }
}

#[test]
fn checkpoint_entry_has_no_data() {
    let mut wal = Wal::open("w".to_string(), 0);
    let (_, bytes) = wal.checkpoint();
    assert_eq!(bytes, encode_entry(ENTRY_CHECKPOINT, &[]));
}

#[test]
fn storage_error_messages() {
    let e = StorageError::WalCrcMismatch { offset: 12, expected: 0xAB, actual: 0xDEADBEEF };
    assert_eq!(
        e.message(),
        "wal crc mismatch at offset 12: expected 0x000000ab, got 0xdeadbeef"
    );
    assert_eq!(StorageError::WalTruncated(5).message(), "wal entry truncated at offset 5");
    assert_eq!(StorageError::Closed.message(), "engine is closed");
    assert_eq!(StorageError::Io("x".to_string()).message(), "io error: x");
    assert_eq!(
        StorageError::Serialisation("x".to_string()).message(),
        "serialisation error: x"
    );
    assert_eq!(StorageError::Arrow("x".to_string()).message(), "arrow error: x");
    assert_eq!(StorageError::Parquet("x".to_string()).message(), "parquet error: x");
    assert_eq!(
        StorageError::PartitionNotFound("x".to_string()).message(),
        "partition not found: x"
    );
    assert_eq!(StorageError::Compaction("x".to_string()).message(), "compaction error: x");
}

// ── Zone maps ───────────────────────────────────────────────────────────────

#[test]
fn time_range_overlap() {
    let mut zm = ZoneMap::new();
    zm.observe_timestamp(1_000_000);
    zm.observe_timestamp(5_000_000);

    assert!(zm.overlaps_time_range(0, 2_000_000));
    assert!(zm.overlaps_time_range(4_000_000, 6_000_000));
    assert!(!zm.overlaps_time_range(6_000_000, 9_000_000));
    assert!(!zm.overlaps_time_range(0, 500_000));
}

#[test]
fn zone_maps_are_tight() {
    let mut zm = ZoneMap::new();
    for t in [30, 10, 20] {
        zm.observe_timestamp(t);
    }
    assert_eq!((zm.min_timestamp_ns, zm.max_timestamp_ns, zm.row_count), (10, 30, 3));
    assert!(zm.overlaps_time_range(30, 40));
    assert!(zm.overlaps_time_range(0, 10));
    assert!(!ZoneMap::new().overlaps_time_range(0, u64::MAX - 1));
}

// ── Tables ──────────────────────────────────────────────────────────────────

#[test]
fn write_then_read_logs() {
    let dir = tempfile::TempDir::new().unwrap();
    let dir = dir.path().to_str().unwrap().to_string();
    let records: Vec<_> = (0..100).map(|i| make_log(i * 1_000_000)).collect();
    let table = write_logs(&records, &dir, 1, 64, 1);

    assert_eq!(table.meta.parquet_path(), format!("{dir}/000001.parquet"));
    assert_eq!(table.meta.bloom_path(), format!("{dir}/000001.bloom"));
    assert_eq!(table.meta.zonemap_path(), format!("{dir}/000001.zonemap"));
    assert_eq!(table.batch.rows, 100);
}

#[test]
fn zone_map_time_range() {
    let records: Vec<_> = (1..=10).map(|i| make_log(i * 1_000_000_000)).collect();
    let meta = write_logs(&records, "d", 2, 64, 1).meta;

    assert_eq!(meta.zone_map.min_timestamp_ns, 1_000_000_000);
    assert_eq!(meta.zone_map.max_timestamp_ns, 10_000_000_000);
    assert!(meta.zone_map.overlaps_time_range(5_000_000_000, 15_000_000_000));
    assert!(!meta.zone_map.overlaps_time_range(0, 500_000_000));
}

fn texts(c: &Column) -> Vec<Option<String>> {
    match c {
        Column::Utf8(cells) => (0..cells.values.len())
            .map(|i| if cells.valid[i] { Some(cells.values[i].clone()) } else { None })
            .collect(),
        _ => panic!("not a text column"),
    }
}

#[test]
fn log_columns() {
    let mut bare = make_log(7);
    bare.trace_id = None;
    bare.body = None;
    bare.attributes = Vec::new();
    let batch = build_log_batch(&vec![make_log(5), bare]);
    assert_eq!(batch.rows, 2);
    assert_eq!(batch.columns.len(), log_schema().fields.len());
    let col = |name: &str| &batch.columns[batch.schema.index_of(name).unwrap()];
    match col("timestamp_ns") {
        Column::UInt64(c) => assert_eq!(c.values, vec![5, 7]),
        _ => panic!("timestamps"),
    }
    match col("trace_id") {
        Column::Binary(c) => {
            assert_eq!(c.valid, vec![true, false]);
            assert_eq!(c.values[0], vec![0u8; 16]);
        }
        _ => panic!("trace ids"),
    }
    match col("severity_number") {
        Column::Int32(c) => assert_eq!(c.values, vec![9, 9]),
        _ => panic!("severities"),
    }
    assert_eq!(texts(col("severity_text"))[0], Some("INFO".to_string()));
    assert_eq!(texts(col("body")), vec![Some("\"hello\"".to_string()), None]);
    assert_eq!(texts(col("attributes")), vec![Some("{\"key\":42}".to_string()), None]);
}

#[test]
fn metric_columns() {
    let mut h = make_metric(9, "latency", 0.5);
    h.metric_type = MetricType::Histogram { temporality: 2 };
    h.value_double = None;
    h.value_int = Some(-3);
    h.histogram = Some(HistogramData {
        count: 3,
        sum: Some(6.0f64.to_bits()),
        min: None,
        max: None,
        bucket_counts: vec![1, 2],
        explicit_bounds: vec![1.5f64.to_bits()],
    });
    let batch = build_metric_batch(&vec![make_metric(8, "cpu", 0.72), h]);
    assert_eq!(batch.columns.len(), metric_schema().fields.len());
    let col = |name: &str| &batch.columns[batch.schema.index_of(name).unwrap()];
    match col("value_double") {
        Column::Float64(c) => {
            assert_eq!(c.valid, vec![true, false]);
            assert_eq!(f64::from_bits(c.values[0]), 0.72);
        }
        _ => panic!("values"),
    }
    match col("value_int") {
        Column::Int64(c) => {
            assert_eq!(c.valid, vec![false, true]);
            assert_eq!(c.values[1], -3);
        }
        _ => panic!("values"),
    }
    match col("histogram_bounds") {
        Column::Binary(c) => {
            assert_eq!(c.valid, vec![false, true]);
            assert_eq!(c.values[1], bincode::serialize(&vec![1.5f64]).unwrap());
        }
        _ => panic!("bounds"),
    }
    match col("histogram_counts") {
        Column::Binary(c) => {
            assert_eq!(c.values[1], bincode::serialize(&vec![1u64, 2u64]).unwrap())
        }
        _ => panic!("counts"),
    }
}

#[test]
fn span_columns() {
    let mut s = make_span([1; 16], [2; 8], 1_000);
    s.parent_span_id = Some([3; 8]);
    s.events = vec![SpanEvent { timestamp_ns: 5, name: "e".to_string(), attributes: Vec::new() }];
    let batch = build_span_batch(&vec![s]);
    assert_eq!(batch.columns.len(), span_schema().fields.len());
    let col = |name: &str| &batch.columns[batch.schema.index_of(name).unwrap()];
    match col("parent_span_id") {
        Column::Binary(c) => assert_eq!(c.values[0], vec![3u8; 8]),
        _ => panic!("parents"),
    }
    match col("duration_ns") {
        Column::UInt64(c) => assert_eq!(c.values, vec![100_000_000]),
        _ => panic!("durations"),
    }
    assert_eq!(
        texts(col("events")),
        vec![Some("[{\"timestamp_ns\":5,\"name\":\"e\",\"attributes\":{}}]".to_string())]
    );
    assert_eq!(texts(col("links")), vec![Some("[]".to_string())]);
}

#[test]
fn tables_remember_their_keys() {
    let logs = write_logs(&vec![make_log(1)], "d", 3, 1000, 4);
    assert!(logs.bloom.contains(b"INFO"));
    assert!(!logs.bloom.contains(b"WARN"));
    assert_eq!(logs.meta.signal_type, SignalType::Log);
    let metrics = write_metrics(&vec![make_metric(1, "cpu", 1.0)], "d", 3, 1000, 4);
    assert!(metrics.bloom.contains(b"cpu"));
    assert_eq!(metrics.meta.signal_type, SignalType::Metric);
    let spans = write_spans(&vec![make_span([7; 16], [2; 8], 1)], "d", 3, 1000, 4);
    assert!(spans.bloom.contains(&[7u8; 16]));
    assert_eq!(spans.meta.signal_type, SignalType::Span);
}

#[test]
fn values_as_json() {
    assert_eq!(json_opt(&None), None);
    let v = AnyValue::Array(vec![
        AnyValue::Bool(true),
        AnyValue::Double(1.5f64.to_bits()),
        AnyValue::Bytes(vec![1, 255]),
        AnyValue::KeyValues(vec![("k".to_string(), AnyValue::String("q\"".to_string()))]),
    ]);
    assert_eq!(
        json_opt(&Some(v)).unwrap(),
        "[true,1.5,[1,255],{\"k\":\"q\\\"\"}]"
    );
    assert_eq!(json_map(&Vec::new()), None);
    assert_eq!(json_events(&Vec::new()).unwrap(), "[]");
    let link = SpanLink {
        trace_id: [1; 16],
        span_id: [2; 8],
        trace_state: "s".to_string(),
        attributes: Vec::new(),
    };
    assert_eq!(
        json_links(&vec![link]).unwrap(),
        "[{\"trace_id\":[1,1,1,1,1,1,1,1,1,1,1,1,1,1,1,1],\"span_id\":[2,2,2,2,2,2,2,2],\"trace_state\":\"s\",\"attributes\":{}}]"
    );
}

// ── Partitions ──────────────────────────────────────────────────────────────

const HOUR: u64 = 3_600_000_000_000;

#[test]
fn partition_keys() {
    let ts = 1_700_000_000_000_000_000u64;
    let key = PartitionKey::for_timestamp(ts, HOUR);
    assert_eq!(key.0, ts - ts % HOUR);
    assert_eq!(key.dir_name(), "2023111422");
    assert_eq!(PartitionKey(0).dir_name(), "1970010100");
    assert_eq!(PartitionKey(u64::MAX).dir_name(), "2554072123");
}

#[test]
fn directories_follow_the_calendar() {
    let day = 24 * HOUR;
    let leap = |y: u64| y % 4 == 0 && (y % 100 != 0 || y % 400 == 0);
    let months = |y: u64| {
        [31, if leap(y) { 29 } else { 28 }, 31, 30, 31, 30, 31, 31, 30, 31, 30, 31]
    };
    let (mut year, mut month, mut date) = (1970u64, 0usize, 1u64);
    for d in 0..200_000u64 {
        if d % 97 == 0 || (month == 1 && date >= 28) {
            let h = d % 24;
            let name = PartitionKey(d * day + h * HOUR).dir_name();
            assert_eq!(name, format!("{year:04}{:02}{date:02}{h:02}", month + 1));
        }
        date += 1;
        if date > months(year)[month] {
            date = 1;
            month += 1;
        }
        if month == 12 {
            month = 0;
            year += 1;
        }
    }
}

fn zone(min: u64, max: u64) -> ZoneMap {
    let mut z = ZoneMap::new();
    z.observe_timestamp(min);
    z.observe_timestamp(max);
    z
}

fn listed(name: &str, zone_map: Option<ZoneMap>) -> ListedFile {
    ListedFile { name: name.to_string(), zone_map }
}

#[test]
fn partitions_read_their_directory() {
    let sp = SignalPartition::open(
        "d/logs".to_string(),
        vec![
            listed("000007.zonemap", Some(zone(10, 20))),
            listed("000002.zonemap", Some(zone(1, 5))),
            listed("000002.parquet", None),
            listed("000009.zonemap", None),
            listed("odd.zonemap", Some(zone(1, 1))),
            listed("wal.log", None),
        ],
    );
    assert_eq!(sp.sstables.iter().map(|m| m.seq).collect::<Vec<_>>(), vec![0, 2, 7]);
    assert_eq!(sp.next_seq, 10);
    assert_eq!(sp.wal_path(), "d/logs/wal.log");
    assert_eq!(sp.sstable_count(), 3);
    let hits = sp.candidates(4, 12);
    assert_eq!(hits.iter().map(|m| m.seq).collect::<Vec<_>>(), vec![2, 7]);
}

#[test]
fn zonemap_names() {
    assert_eq!(zonemap_seq("000042.zonemap"), Some(42));
    assert_eq!(zonemap_seq("1000000.zonemap"), Some(1_000_000));
    assert_eq!(zonemap_seq("x.zonemap"), Some(0));
    assert_eq!(zonemap_seq("000042.bloom"), None);
    assert_eq!(zonemap_seq(".zonemap"), None);
}

#[test]
fn sequence_numbers_are_per_signal() {
    let mut p = Partition::open("base", PartitionKey(0), Vec::new(), Vec::new(), Vec::new());
    assert_eq!(p.dir, "base/partitions/1970010100");
    assert_eq!(p.logs.dir, "base/partitions/1970010100/logs");
    assert_eq!(p.spans.dir, "base/partitions/1970010100/traces");
    assert_eq!(p.next_seq(SignalType::Log), 1);
    assert_eq!(p.next_seq(SignalType::Log), 2);
    assert_eq!(p.next_seq(SignalType::Metric), 1);
    p.add_sstable(write_spans(&vec![make_span([7; 16], [2; 8], 1)], "d", 3, 64, 1).meta);
    assert_eq!(p.signal_partition(SignalType::Span).sstable_count(), 1);
    assert_eq!(p.signal_partition(SignalType::Log).sstable_count(), 0);
}

// ── Compaction ──────────────────────────────────────────────────────────────

fn table(seq: u64) -> SSTableMeta {
    SSTableMeta {
        seq,
        signal_type: SignalType::Log,
        dir: "d".to_string(),
        zone_map: zone(seq, seq + 10),
    }
}

#[test]
fn compaction_merges_tables() {
    let mut p = Partition::open("base", PartitionKey(0), Vec::new(), Vec::new(), Vec::new());
    for s in 1..=3 {
        p.next_seq(SignalType::Log);
        p.logs.add_sstable(table(s));
    }
    assert!(signals_to_compact(&p, 4).is_empty());
    assert_eq!(signals_to_compact(&p, 3), vec![SignalType::Log]);
    let job = begin_compaction(&mut p.logs).unwrap();
    assert_eq!(job.inputs.len(), 3);
    assert_eq!(job.output_seq, 4);
    assert_eq!(p.logs.sstable_count(), 0);

    let batches = vec![
        build_log_batch(&vec![make_log(30), make_log(10)]),
        build_log_batch(&vec![make_log(20)]),
    ];
    let merged = merge(&job, &batches, SignalType::Log, 64, 1).unwrap();
    assert_eq!(merged.meta.seq, 4);
    assert_eq!(merged.meta.dir, "d");
    assert_eq!(merged.meta.zone_map.min_timestamp_ns, 10);
    assert_eq!(merged.meta.zone_map.max_timestamp_ns, 30);
    assert_eq!(merged.meta.zone_map.row_count, 3);
    assert!(merged.bloom.contains(b"INFO"));
    assert!(!merged.bloom.contains(b"WARN"));
    assert!(merge(&job, &Vec::new(), SignalType::Log, 64, 1).is_none());

    let files = files_to_delete(&job.inputs);
    assert_eq!(files.len(), 9);
    assert_eq!(files[0], "d/000001.parquet");
    assert_eq!(files[1], "d/000001.bloom");
    assert_eq!(files[2], "d/000001.zonemap");
}

#[test]
fn one_table_is_not_compacted() {
    let mut p = Partition::open("base", PartitionKey(0), Vec::new(), Vec::new(), Vec::new());
    p.logs.add_sstable(table(1));
    assert!(begin_compaction(&mut p.logs).is_none());
    assert_eq!(p.logs.sstable_count(), 1);
    assert_eq!(p.logs.next_seq, 1);
}

// ── Engine ──────────────────────────────────────────────────────────────────

fn engine(memtable_size_bytes: usize) -> StorageEngine {
    let mut config = InfraLensConfig::default().storage;
    config.memtable_size_bytes = memtable_size_bytes;
    StorageEngine::open(&config)
}

fn write(e: &mut StorageEngine, ts: u64) -> Option<infralens::storage::engine::FlushRequest> {
    let record = make_log(ts);
    let key = e.partition_key(ts);
    if !e.knows(key) {
        e.add_partition(Partition::open("base", key, Vec::new(), Vec::new(), Vec::new()), 0);
    }
    let data = b"record".to_vec();
    assert!(e.can_take(ts, data.len()));
    let entry = e.begin_log(&record, &data);
    assert_eq!(recover(&entry.frame).entries[0].data, data);
    assert!(entry.path.ends_with("/logs/wal.log"));
    e.commit_log(&record, data)
}

#[test]
fn engine_keeps_rows_until_closed() {
    let mut e = engine(1 << 20);
    for i in 0..50 {
        assert!(write(&mut e, i * 1_000_000_000).is_none());
    }
    assert!(write(&mut e, 2 * HOUR).is_none());
    let mut keys = e.keys();
    keys.sort();
    assert_eq!(keys, vec![0, 2 * HOUR]);
    assert!(e.check_open().is_ok());
    let requests = e.close();
    assert!(matches!(e.check_open(), Err(StorageError::Closed)));
    let mut rows: Vec<(u64, usize)> =
        requests.iter().map(|r| (r.key.0, r.imm.0.drain_signal(0).len())).collect();
    rows.sort();
    assert_eq!(rows, vec![(0, 50), (2 * HOUR, 1)]);
    assert!(e.flush_all().is_empty());
}

#[test]
fn engine_hands_out_full_memtables() {
    let mut e = engine(1);
    for i in 0..10 {
        let r = write(&mut e, i * 1_000_000_000).unwrap();
        assert_eq!(r.imm.0.len(), 1);
    }
    assert!(e.flush_all().is_empty());
}

#[test]
fn engine_log_positions_advance() {
    let mut e = engine(1 << 20);
    write(&mut e, 5);
    let second = e.begin_log(&make_log(6), b"xyz");
    assert_eq!(second.offset, 9 + 6);
}

#[test]
fn engine_tables_are_listed() {
    let mut e = engine(1 << 20);
    write(&mut e, 5);
    let key = e.partition_key(5);
    let first = e.flush_logs(key, &vec![make_log(5)], 64, 1);
    assert_eq!(first.meta.seq, 1);
    e.add_sstable(key, first.meta);
    let m = e.flush_metrics(key, &vec![make_metric(5, "m", 1.0)], 64, 1);
    e.add_sstable(key, m.meta);
    let s = e.flush_spans(key, &vec![make_span([1; 16], [1; 8], 5)], 64, 1);
    e.add_sstable(key, s.meta);
    let none = Vec::new();
    assert_eq!(
        e.sstable_paths_for_signal(0, &none),
        vec!["base/partitions/1970010100/logs/000001.parquet".to_string()]
    );
    assert_eq!(
        e.sstable_paths_for_signal(1, &none),
        vec!["base/partitions/1970010100/metrics/000001.parquet".to_string()]
    );
    assert_eq!(e.sstable_paths_for_signal(2, &vec![key.0]).len(), 1);
    assert!(e.sstable_paths_for_signal(2, &vec![77]).is_empty());
    assert!(e.sstable_paths_for_signal(9, &none).is_empty());
    assert_eq!(e.partition(key).unwrap().logs.sstable_count(), 1);
    assert!(e.partition(PartitionKey(HOUR)).is_none());
    assert!(e.begin_compaction(key, SignalType::Log).is_none());
    assert_eq!(e.next_seq(key, SignalType::Log), 2);
}

#[test]
fn merged_filter_is_of_the_given_size() {
    let mut p = Partition::open("base", PartitionKey(0), Vec::new(), Vec::new(), Vec::new());
    p.logs.add_sstable(table(1));
    p.logs.add_sstable(table(2));
    let job = begin_compaction(&mut p.logs).unwrap();
    let merged =
        merge(&job, &vec![build_log_batch(&vec![make_log(1)])], SignalType::Log, 200, 5).unwrap();
    let mut want = BloomFilter::new(200, 5);
    want.insert(b"INFO");
    assert_eq!(merged.bloom.to_bytes(), want.to_bytes());
}

#[test]
fn merged_tables_find_their_keys() {
    let mut p = Partition::open("base", PartitionKey(0), Vec::new(), Vec::new(), Vec::new());
    p.logs.add_sstable(table(1));
    p.logs.add_sstable(table(2));
    let job = begin_compaction(&mut p.logs).unwrap();
    let metrics = vec![build_metric_batch(&vec![make_metric(1, "cpu", 1.0)])];
    let merged = merge(&job, &metrics, SignalType::Metric, 2000, 4).unwrap();
    assert!(merged.bloom.contains(b"cpu"));
    let spans = vec![build_span_batch(&vec![make_span([9; 16], [1; 8], 5)])];
    let merged = merge(&job, &spans, SignalType::Span, 2000, 4).unwrap();
    assert!(merged.bloom.contains(&[9u8; 16]));
    assert_eq!(merged.meta.zone_map.min_timestamp_ns, 5);
}

#[test]
fn all_records_are_handed_out() {
    // MemTables of two records: some are handed out on the way, the rest at the end.
    let mut e = engine(2 * (24 + 6));
    let mut rows = 0;
    for i in 0..25 {
        if let Some(r) = write(&mut e, i * HOUR / 4) {
            rows += r.imm.0.drain_signal(0).len();
        }
    }
    for r in e.close() {
        rows += r.imm.0.drain_signal(0).len();
    }
    assert_eq!(rows, 25);
}
