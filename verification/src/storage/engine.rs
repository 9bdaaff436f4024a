//! Storage engine: where records go, and when they leave memory.
//!
//! Each record belongs to the partition of its time. It is appended to the partition's log,
//! then put into the partition's MemTable. A MemTable that is full is frozen and handed out
//! to be flushed, and an empty one takes its place. The engine keeps the state and says what
//! has to be written; files are written by its user.

use crate::common::config::StorageConfig;
use crate::common::model::{LogRecord, MetricPoint, SignalType, SpanRecord};
use crate::storage::error::StorageError;
use crate::storage::memtable::{
    insert_row, insert_row_adds_one, ImmutableMemTable, MemTable, Row, RowKey, ROW_KEY_SIZE,
};
use crate::common::model::{logs_views, metrics_views, spans_views};
use crate::storage::compaction::{begin_compaction, CompactionJob};
use crate::storage::meta::{meta_views, parquet_path_of, MetaModel, SSTableMeta};
use crate::storage::partition::{Partition, PartitionKey, SignalPartition};
use crate::storage::path::path_join;
use crate::storage::slots::{new_slots, set_slot, slot_keys, slot_of, slots};
use crate::storage::sstable::{
    holds_keys, log_batch, log_keys, log_times, metric_batch, metric_keys, metric_times,
    span_batch, span_keys, span_times, table_meta, write_logs, write_metrics, write_spans, SSTable,
};
use crate::storage::wal::{
    encode_entry, entry_bytes, EntryModel, Wal, ENTRY_LOG, ENTRY_METRIC, ENTRY_SPAN, HEADER_SIZE,
};
use crate::text::views;
use dashmap::DashMap;
use vstd::multiset::Multiset;
use vstd::prelude::*;

verus! {

/// Nanoseconds per hour.
pub const HOUR_NS: u64 = 3_600_000_000_000;

/// The state of one partition.
pub struct PartitionState {
    pub partition: Partition,
    pub wal: Wal,
    /// The active MemTable; there is none before the first record and after a flush.
    pub mem: Option<MemTable>,
}

/// A frozen MemTable that has to be written to a partition.
pub struct FlushRequest {
    pub key: PartitionKey,
    pub imm: ImmutableMemTable,
}

/// An entry that has to be appended to a log: its file, where it goes, and its bytes.
pub struct PendingEntry {
    pub path: String,
    pub offset: u64,
    pub frame: Vec<u8>,
}

pub struct StorageEngine {
    bucket_ns: u64,
    memtable_size_bytes: usize,
    places: DashMap<u64, usize>,
    states: Vec<PartitionState>,
    closed: bool,
}

/// Whether a MemTable, if there is one, keeps its invariant and its size limit.
pub open spec fn mem_wf(mem: Option<MemTable>, limit: usize) -> bool {
    mem matches Some(m) ==> m.wf() && m.limit() == limit
}

impl StorageEngine {
    /// The width of a partition.
    pub closed spec fn width(&self) -> u64 {
        self.bucket_ns
    }

    /// The size at which a MemTable is frozen.
    pub closed spec fn mem_limit(&self) -> usize {
        self.memtable_size_bytes
    }

    /// Whether no more records are taken.
    pub closed spec fn is_closed(&self) -> bool {
        self.closed
    }

    /// The partitions that are known, by key.
    pub closed spec fn known(&self) -> Map<u64, PartitionState> {
        Map::new(
            |k: u64| slots(self.places).dom().contains(k),
            |k: u64| self.states@[slots(self.places)[k] as int],
        )
    }

    /// Every key has a place of its own, and every MemTable keeps its invariant.
    pub closed spec fn wf(&self) -> bool {
        &&& self.bucket_ns > 0
        &&& forall|k: u64|
            slots(self.places).dom().contains(k) ==> #[trigger] slots(self.places)[k]
                < self.states@.len() && self.states@[slots(self.places)[k] as int].partition.key.0
                == k
        &&& forall|i: int|
            0 <= i < self.states@.len() ==> slots(self.places).dom().contains(
                (#[trigger] self.states@[i]).partition.key.0,
            ) && slots(self.places)[self.states@[i].partition.key.0] == i
        &&& forall|i: int|
            0 <= i < self.states@.len() ==> mem_wf(
                (#[trigger] self.states@[i]).mem,
                self.memtable_size_bytes,
            )
    }

    /// A partition is kept under its own key, and its MemTable keeps its invariant.
    pub proof fn known_partition_is_well_formed(&self, k: u64)
        requires
            self.wf(),
            self.known().contains_key(k),
        ensures
            self.known()[k].partition.key.0 == k,
            mem_wf(self.known()[k].mem, self.mem_limit()),
            self.width() > 0,
    {
        assert(slots(self.places)[k] < self.states@.len());
        assert(mem_wf(
            self.states@[slots(self.places)[k] as int].mem,
            self.memtable_size_bytes,
        ));
    }

    /// An engine without partitions.
    pub fn open(config: &StorageConfig) -> (e: StorageEngine)
        requires
            0 < config.partition_hours,
            config.partition_hours * HOUR_NS <= u64::MAX,
        ensures
            e.wf(),
            e.known() == Map::<u64, PartitionState>::empty(),
            e.width() == config.partition_hours * HOUR_NS,
            e.mem_limit() == config.memtable_size_bytes,
            !e.is_closed(),
    {
        let e = StorageEngine {
            bucket_ns: config.partition_hours * HOUR_NS,
            memtable_size_bytes: config.memtable_size_bytes,
            places: new_slots(),
            states: Vec::new(),
            closed: false,
        };
        assert(e.known() =~= Map::<u64, PartitionState>::empty());
        e
    }

    /// An error if no more records are taken.
    pub fn check_open(&self) -> (out: Result<(), StorageError>)
        ensures
            match out {
                Ok(_) => !self.is_closed(),
                Err(e) => self.is_closed() && e is Closed,
            },
    {
        if self.closed {
            Err(StorageError::Closed)
        } else {
            Ok(())
        }
    }

    /// The partition that a record with the given timestamp belongs to.
    pub fn partition_key(&self, timestamp_ns: u64) -> (key: PartitionKey)
        requires
            self.wf(),
        ensures
            key.0 == timestamp_ns - timestamp_ns % self.width(),
    {
        PartitionKey::for_timestamp(timestamp_ns, self.bucket_ns)
    }

    /// Whether a partition is known.
    pub fn knows(&self, key: PartitionKey) -> (yes: bool)
        ensures
            yes == self.known().contains_key(key.0),
    {
        slot_of(&self.places, key.0).is_some()
    }

    /// Takes up a partition that is not known yet; its log already holds `wal_len` bytes.
    pub fn add_partition(&mut self, partition: Partition, wal_len: u64)
        requires
            old(self).wf(),
            !old(self).known().contains_key(partition.key.0),
        ensures
            final(self).wf(),
            final(self).width() == old(self).width(),
            final(self).mem_limit() == old(self).mem_limit(),
            final(self).is_closed() == old(self).is_closed(),
            final(self).known().dom() == old(self).known().dom().insert(partition.key.0),
            forall|k: u64|
                k != partition.key.0 && old(self).known().contains_key(k) ==> #[trigger] final(self).known()[k]
                    == old(self).known()[k],
            ({
                let s = final(self).known()[partition.key.0];
                s.partition == partition && s.mem is None && s.wal.next_offset() == wal_len
                    && s.wal.path_view() == path_join(partition.logs.dir@, "wal.log"@)
            }),
    {
        let key: u64 = partition.key.0;
        let place: usize = self.states.len();
        let path = partition.logs.wal_path();
        let wal = Wal::open(path, wal_len);
        self.states.push(PartitionState { partition, wal, mem: None });
        set_slot(&mut self.places, key, place);
        proof {
            assert(self.known().dom() =~= old(self).known().dom().insert(key));
            let before = old(self).states@;
            assert forall|k: u64| k != key && old(self).known().contains_key(k) implies #[trigger] self.known()[k]
                == old(self).known()[k] by {
                assert(slots(old(self).places)[k] < before.len());
            }
            assert forall|k: u64| slots(self.places).dom().contains(k) implies #[trigger] slots(
                self.places,
            )[k] < self.states@.len() && self.states@[slots(
                self.places,
            )[k] as int].partition.key.0 == k by {
                if k != key {
                    assert(slots(old(self).places)[k] < before.len());
                }
            }
            assert forall|i: int| 0 <= i < self.states@.len() implies slots(
                self.places,
            ).dom().contains((#[trigger] self.states@[i]).partition.key.0) && slots(
                self.places,
            )[self.states@[i].partition.key.0] == i by {
                if i < before.len() {
                    assert(self.states@[i] == before[i]);
                    assert(before[i].partition.key.0 != key);
                }
            }
            assert forall|i: int| 0 <= i < self.states@.len() implies mem_wf(
                (#[trigger] self.states@[i]).mem,
                self.memtable_size_bytes,
            ) by {
                if i < before.len() {
                    assert(self.states@[i] == before[i]);
                }
            }
        }
    }

    /// The log entry of a record, which has to be written before the record is put into
    /// memory.
    pub fn begin_write(&self, key: PartitionKey, entry_type: u8, data: &[u8]) -> (out: PendingEntry)
        requires
            self.wf(),
            self.known().contains_key(key.0),
        ensures
            out.path@ == self.known()[key.0].wal.path_view(),
            out.offset == self.known()[key.0].wal.next_offset(),
            out.frame@ == entry_bytes(EntryModel { entry_type, data: data@ }),
    {
        let place: usize = match slot_of(&self.places, key.0) {
            Some(i) => i,
            None => 0,
        };
        assert(slots(self.places)[key.0] < self.states@.len());
        let state = &self.states[place];
        PendingEntry {
            path: state.wal.path().to_string(),
            offset: state.wal.position(),
            frame: encode_entry(entry_type, data),
        }
    }

    /// The log entry of a log record in its serialised form.
    pub fn begin_log(&self, record: &LogRecord, data: &[u8]) -> (out: PendingEntry)
        requires
            self.wf(),
            self.known().contains_key(self.key_of(record.timestamp_ns)),
        ensures
            self.pending(out, record.timestamp_ns, ENTRY_LOG, data@),
    {
        self.begin_write(self.partition_key(record.timestamp_ns), ENTRY_LOG, data)
    }

    /// The log entry of a metric point in its serialised form.
    pub fn begin_metric(&self, record: &MetricPoint, data: &[u8]) -> (out: PendingEntry)
        requires
            self.wf(),
            self.known().contains_key(self.key_of(record.timestamp_ns)),
        ensures
            self.pending(out, record.timestamp_ns, ENTRY_METRIC, data@),
    {
        self.begin_write(self.partition_key(record.timestamp_ns), ENTRY_METRIC, data)
    }

    /// The log entry of a span in its serialised form.
    pub fn begin_span(&self, record: &SpanRecord, data: &[u8]) -> (out: PendingEntry)
        requires
            self.wf(),
            self.known().contains_key(self.key_of(record.start_time_ns)),
        ensures
            self.pending(out, record.start_time_ns, ENTRY_SPAN, data@),
    {
        self.begin_write(self.partition_key(record.start_time_ns), ENTRY_SPAN, data)
    }

    /// The key of the partition that a timestamp falls in.
    pub open spec fn key_of(&self, timestamp_ns: u64) -> u64 {
        (timestamp_ns - timestamp_ns % self.width()) as u64
    }

    /// Whether an entry is the one for a record with the given timestamp, at the end of the
    /// log of its partition.
    pub open spec fn pending(
        &self,
        out: PendingEntry,
        timestamp_ns: u64,
        entry_type: u8,
        data: Seq<u8>,
    ) -> bool {
        let wal = self.known()[self.key_of(timestamp_ns)].wal;
        out.path@ == wal.path_view() && out.offset == wal.next_offset() && out.frame@ == entry_bytes(
            EntryModel { entry_type, data },
        )
    }

    /// Whether there is room for a record: its partition is known, and neither the log nor
    /// the sequence numbers of the MemTable come to an end with it.
    pub open spec fn has_room(&self, timestamp_ns: u64, len: nat) -> bool {
        let k = self.key_of(timestamp_ns);
        &&& self.known().contains_key(k)
        &&& self.known()[k].wal.next_offset() + HEADER_SIZE + len <= u64::MAX
        &&& self.known()[k].mem matches Some(m) ==> m.next_sequence() < u64::MAX
    }

    /// Whether `after` is this engine with a record more, and `out` what has to be flushed
    /// then: the record is behind the others in the log and among them in the MemTable; a
    /// MemTable that is full with it is handed out, and an empty one takes its place.
    pub open spec fn committed(
        &self,
        after: &StorageEngine,
        timestamp_ns: u64,
        signal: SignalType,
        data: Seq<u8>,
        out: Option<FlushRequest>,
    ) -> bool {
        let k = self.key_of(timestamp_ns);
        let s0 = self.known()[k];
        let s1 = after.known()[k];
        &&& after.wf()
        &&& after.same_settings(self)
        &&& after.known().dom() == self.known().dom()
        &&& forall|j: u64|
            j != k && self.known().contains_key(j) ==> #[trigger] after.known()[j]
                == self.known()[j]
        &&& s1.partition == s0.partition
        &&& s1.wal.path_view() == s0.wal.path_view()
        &&& s1.wal.next_offset() == s0.wal.next_offset() + HEADER_SIZE + data.len()
        &&& match out {
            None => s1.mem matches Some(m) && took_row(s0.mem, m, timestamp_ns, signal, data)
                && m.size() < self.mem_limit(),
            Some(r) => r.key.0 == k && took_row(s0.mem, r.imm.0, timestamp_ns, signal, data)
                && r.imm.0.size() >= self.mem_limit() && (s1.mem matches Some(m) && m@.len() == 0
                && m.size() == 0),
        }
    }

    /// Whether the settings are those of another engine.
    pub open spec fn same_settings(&self, other: &StorageEngine) -> bool {
        self.width() == other.width() && self.mem_limit() == other.mem_limit()
            && self.is_closed() == other.is_closed()
    }

    fn commit(&mut self, timestamp_ns: u64, signal: SignalType, data: Vec<u8>) -> (out: Option<
        FlushRequest,
    >)
        requires
            old(self).wf(),
            old(self).has_room(timestamp_ns, data@.len()),
        ensures
            old(self).committed(final(self), timestamp_ns, signal, data@, out),
    {
        let key = self.partition_key(timestamp_ns);
        let place: usize = match slot_of(&self.places, key.0) {
            Some(i) => i,
            None => 0,
        };
        let ghost before = self.states@;
        let ghost bytes = data@;
        assert(slots(self.places)[key.0] < self.states@.len());
        assert(before[place as int].partition.key.0 == key.0);
        assert(mem_wf(before[place as int].mem, self.memtable_size_bytes));
        let limit: usize = self.memtable_size_bytes;
        let len: usize = data.len();
        let mut mem = match self.states[place].mem.take() {
            Some(m) => m,
            None => MemTable::new(limit),
        };
        let ghost start = mem;
        mem.insert(timestamp_ns, signal.as_u8(), data);
        proof {
            let row = RowKey {
                timestamp_ns,
                signal_type: signal.code(),
                sequence: start.next_sequence(),
            };
            if before[place as int].mem is None {
                assert(start@ =~= Seq::<Row>::empty());
                assert(insert_row(Seq::<Row>::empty(), row, bytes) =~= seq![(row, bytes)]);
            }
            assert(took_row(before[place as int].mem, mem, timestamp_ns, signal, bytes));
        }
        self.states[place].wal.advance(len);
        let mut out: Option<FlushRequest> = None;
        if mem.is_full() {
            out = Some(FlushRequest { key, imm: ImmutableMemTable::from_active(mem) });
            mem = MemTable::new(limit);
        }
        self.states[place].mem = Some(mem);
        proof {
            let after = self.states@;
            assert(forall|i: int| 0 <= i < before.len() && i != place ==> after[i] == before[i]);
            assert(after[place as int].partition == before[place as int].partition);
            assert(self.known().dom() =~= old(self).known().dom());
            assert forall|j: u64| j != key.0 && old(self).known().contains_key(j) implies #[trigger] self.known()[j]
                == old(self).known()[j] by {
                assert(slots(self.places)[j] < before.len());
                assert(before[slots(self.places)[j] as int].partition.key.0 == j);
            }
            assert forall|i: int| 0 <= i < after.len() implies mem_wf(
                (#[trigger] after[i]).mem,
                limit,
            ) by {
                if i != place {
                    assert(after[i] == before[i]);
                }
            }
            assert forall|i: int| 0 <= i < after.len() implies slots(self.places).dom().contains(
                (#[trigger] after[i]).partition.key.0,
            ) && slots(self.places)[after[i].partition.key.0] == i by {
                assert(after[i].partition == before[i].partition);
            }
            assert(self.wf());
            assert(self.known()[key.0] == after[place as int]);
            assert(old(self).known()[key.0] == before[place as int]);
        }
        out
    }

    /// Puts a log record, whose log entry was written, into memory.
    pub fn commit_log(&mut self, record: &LogRecord, data: Vec<u8>) -> (out: Option<FlushRequest>)
        requires
            old(self).wf(),
            old(self).has_room(record.timestamp_ns, data@.len()),
        ensures
            old(self).committed(
                final(self),
                record.timestamp_ns,
                SignalType::Log,
                data@,
                out,
            ),
    {
        self.commit(record.timestamp_ns, SignalType::Log, data)
    }

    /// Puts a metric point, whose log entry was written, into memory.
    pub fn commit_metric(&mut self, record: &MetricPoint, data: Vec<u8>) -> (out: Option<
        FlushRequest,
    >)
        requires
            old(self).wf(),
            old(self).has_room(record.timestamp_ns, data@.len()),
        ensures
            old(self).committed(
                final(self),
                record.timestamp_ns,
                SignalType::Metric,
                data@,
                out,
            ),
    {
        self.commit(record.timestamp_ns, SignalType::Metric, data)
    }

    /// Puts a span, whose log entry was written, into memory.
    pub fn commit_span(&mut self, record: &SpanRecord, data: Vec<u8>) -> (out: Option<FlushRequest>)
        requires
            old(self).wf(),
            old(self).has_room(record.start_time_ns, data@.len()),
        ensures
            old(self).committed(
                final(self),
                record.start_time_ns,
                SignalType::Span,
                data@,
                out,
            ),
    {
        self.commit(record.start_time_ns, SignalType::Span, data)
    }

    /// Whether there is room for a record.
    pub fn can_take(&self, timestamp_ns: u64, len: usize) -> (yes: bool)
        requires
            self.wf(),
        ensures
            yes == self.has_room(timestamp_ns, len as nat),
    {
        let key = self.partition_key(timestamp_ns);
        match slot_of(&self.places, key.0) {
            None => false,
            Some(place) => {
                assert(slots(self.places)[key.0] < self.states@.len());
                let state = &self.states[place];
                let free: u64 = u64::MAX - state.wal.position();
                if free < 9 || ((free - 9) as u64) < len as u64 {
                    return false;
                }
                match &state.mem {
                    Some(m) => m.sequence() < u64::MAX,
                    None => true,
                }
            },
        }
    }

    // ── Flushing ────────────────────────────────────────────────────────────

    /// Whether `requests` are the MemTables that have rows, each once and with its key.
    pub open spec fn all_requests(&self, requests: Seq<FlushRequest>) -> bool {
        &&& forall|i: int, j: int|
            0 <= i < j < requests.len() ==> (#[trigger] requests[i]).key != (#[trigger] requests[j]).key
        &&& forall|i: int|
            0 <= i < requests.len() ==> self.has_rows((#[trigger] requests[i]).key.0)
                && self.known()[requests[i].key.0].mem == Some(requests[i].imm.0)
        &&& forall|k: u64|
            #[trigger] self.has_rows(k) ==> is_requested(requests, k)
    }

    /// Whether a partition is known and has rows in memory.
    pub open spec fn has_rows(&self, k: u64) -> bool {
        self.known().contains_key(k) && (self.known()[k].mem matches Some(m) && m@.len() > 0)
    }

    /// Hands out all MemTables that have rows. No partition has a MemTable then.
    pub fn flush_all(&mut self) -> (out: Vec<FlushRequest>)
        requires
            old(self).wf(),
        ensures
            final(self).wf(),
            final(self).same_settings(old(self)),
            final(self).known().dom() == old(self).known().dom(),
            forall|k: u64|
                old(self).known().contains_key(k) ==> (#[trigger] final(self).known()[k])
                    == (PartitionState { mem: None, ..old(self).known()[k] }),
            old(self).all_requests(out@),
    {
        let keys = slot_keys(&self.places);
        let ghost before = self.states@;
        let ghost places = slots(self.places);
        let n: usize = keys.len();
        let mut out: Vec<FlushRequest> = Vec::new();
        for i in 0..n
            invariant
                old(self).wf(),
                before == old(self).states@,
                places == slots(old(self).places),
                self.places == old(self).places,
                self.bucket_ns == old(self).bucket_ns,
                self.memtable_size_bytes == old(self).memtable_size_bytes,
                self.closed == old(self).closed,
                n == keys@.len(),
                keys@.no_duplicates(),
                forall|k: u64| #[trigger] keys@.contains(k) <==> places.dom().contains(k),
                self.states@.len() == before.len(),
                forall|j: int|
                    0 <= j < i ==> self.states@[places[#[trigger] keys@[j]] as int]
                        == (PartitionState { mem: None, ..before[places[keys@[j]] as int] }),
                forall|j: int|
                    i <= j < n ==> self.states@[places[#[trigger] keys@[j]] as int]
                        == before[places[keys@[j]] as int],
                forall|a: int|
                    0 <= a < out@.len() ==> old(self).has_rows((#[trigger] out@[a]).key.0)
                        && old(self).known()[out@[a].key.0].mem == Some(out@[a].imm.0),
                forall|a: int|
                    0 <= a < out@.len() ==> is_among(keys@, i as int, (#[trigger] out@[a]).key.0),
                forall|a: int, b: int|
                    0 <= a < b < out@.len() ==> (#[trigger] out@[a]).key != (#[trigger] out@[b]).key,
                forall|j: int|
                    0 <= j < i && old(self).has_rows(#[trigger] keys@[j]) ==> is_requested(
                        out@,
                        keys@[j],
                    ),
        {
            let raw: u64 = keys[i];
            assert(keys@.contains(raw));
            let place: usize = match slot_of(&self.places, raw) {
                Some(p) => p,
                None => 0,
            };
            assert(places[raw] < before.len());
            assert(before[places[raw] as int].partition.key.0 == raw);
            assert(old(self).known()[raw] == before[place as int]);
            let ghost prior = out@;
            let ghost states0 = self.states@;
            assert forall|j: int| 0 <= j < n && j != i implies places[#[trigger] keys@[j]]
                != places[raw] by {
                assert(keys@.contains(keys@[j]));
                assert(before[places[keys@[j]] as int].partition.key.0 == keys@[j]);
                assert(keys@[j] != keys@[i as int]);
            }
            match self.states[place].mem.take() {
                Some(m) => {
                    if !m.is_empty() {
                        assert(old(self).has_rows(raw));
                        out.push(
                            FlushRequest {
                                key: PartitionKey(raw),
                                imm: ImmutableMemTable::from_active(m),
                            },
                        );
                        assert(out@[prior.len() as int].key.0 == raw);
                    }
                },
                None => {},
            }
            proof {
                assert(forall|a: int| 0 <= a < prior.len() ==> out@[a] == prior[a]);
                assert forall|a: int, b: int| 0 <= a < b < out@.len() implies (
                #[trigger] out@[a]).key != (#[trigger] out@[b]).key by {
                    if b == prior.len() {
                        assert(out@[a] == prior[a]);
                        assert(is_among(keys@, i as int, prior[a].key.0));
                        let j = choose|j: int|
                            0 <= j < i && #[trigger] keys@[j] == prior[a].key.0;
                        assert(keys@[j] != keys@[i as int]);
                    }
                }
                assert(self.states@ =~= states0.update(
                    place as int,
                    PartitionState { mem: None, ..states0[place as int] },
                ));
                assert forall|j: int| 0 <= j < n && j != i implies self.states@[places[#[trigger] keys@[j]] as int]
                    == states0[places[keys@[j]] as int] by {
                    assert(keys@.contains(keys@[j]));
                    assert(places[keys@[j]] < before.len());
                    assert(places[keys@[j]] != places[raw]);
                }
                assert(self.states@[places[keys@[i as int]] as int] == (PartitionState {
                    mem: None,
                    ..before[places[keys@[i as int]] as int]
                }));
                assert forall|a: int| 0 <= a < out@.len() implies is_among(
                    keys@,
                    i + 1,
                    (#[trigger] out@[a]).key.0,
                ) by {
                    if a < prior.len() {
                        assert(out@[a] == prior[a]);
                        assert(is_among(keys@, i as int, prior[a].key.0));
                        let j = choose|j: int|
                            0 <= j < i && #[trigger] keys@[j] == prior[a].key.0;
                        assert(keys@[j] == out@[a].key.0);
                    } else {
                        assert(keys@[i as int] == out@[a].key.0);
                    }
                }
                assert forall|j: int|
                    0 <= j < i + 1 && old(self).has_rows(#[trigger] keys@[j]) implies is_requested(
                    out@,
                    keys@[j],
                ) by {
                    if j < i {
                        assert(is_requested(prior, keys@[j]));
                        let a = choose|a: int|
                            0 <= a < prior.len() && (#[trigger] prior[a]).key.0 == keys@[j];
                        assert(out@[a] == prior[a]);
                    } else {
                        assert(out@[prior.len() as int].key.0 == raw);
                    }
                }
            }
        }
        proof {
            assert(self.known().dom() =~= old(self).known().dom());
            assert forall|k: u64| old(self).known().contains_key(k) implies (
            #[trigger] self.known()[k]) == (PartitionState {
                mem: None,
                ..old(self).known()[k]
            }) by {
                assert(keys@.contains(k));
                let j = choose|j: int| 0 <= j < n && keys@[j] == k;
                assert(self.states@[places[keys@[j]] as int] == (PartitionState {
                    mem: None,
                    ..before[places[keys@[j]] as int]
                }));
            }
            assert forall|i: int| 0 <= i < self.states@.len() implies (#[trigger] self.states@[i])
                == (PartitionState { mem: None, ..before[i] }) by {
                let k = before[i].partition.key.0;
                assert(places.dom().contains(k) && places[k] == i);
                assert(keys@.contains(k));
                let j = choose|j: int| 0 <= j < n && keys@[j] == k;
                assert(self.states@[places[keys@[j]] as int] == (PartitionState {
                    mem: None,
                    ..before[places[keys@[j]] as int]
                }));
            }
            assert forall|k: u64| slots(self.places).dom().contains(k) implies #[trigger] slots(
                self.places,
            )[k] < self.states@.len() && self.states@[slots(
                self.places,
            )[k] as int].partition.key.0 == k by {
                assert(places[k] < before.len());
                assert(before[places[k] as int].partition.key.0 == k);
                assert(self.states@[places[k] as int] == (PartitionState {
                    mem: None,
                    ..before[places[k] as int]
                }));
            }
            assert forall|k: u64| #[trigger] old(self).has_rows(k) implies is_requested(out@, k) by {
                assert(keys@.contains(k));
                let j = choose|j: int| 0 <= j < n && keys@[j] == k;
                assert(old(self).has_rows(keys@[j]));
            }
        }
        out
    }

    /// Takes no more records, and hands out what is in memory.
    pub fn close(&mut self) -> (out: Vec<FlushRequest>)
        requires
            old(self).wf(),
        ensures
            final(self).wf(),
            final(self).is_closed(),
            final(self).known().dom() == old(self).known().dom(),
            forall|k: u64|
                old(self).known().contains_key(k) ==> (#[trigger] final(self).known()[k])
                    == (PartitionState { mem: None, ..old(self).known()[k] }),
            old(self).all_requests(out@),
    {
        let out = self.flush_all();
        let ghost middle = *self;
        self.closed = true;
        assert(self.known() =~= middle.known());
        out
    }

    // ── Tables ──────────────────────────────────────────────────────────────

    fn place(&self, key: PartitionKey) -> (place: usize)
        requires
            self.wf(),
            self.known().contains_key(key.0),
        ensures
            place == slots(self.places)[key.0],
            place < self.states@.len(),
            self.known()[key.0] == self.states@[place as int],
            self.states@[place as int].partition.key == key,
    {
        assert(slots(self.places)[key.0] < self.states@.len());
        match slot_of(&self.places, key.0) {
            Some(i) => i,
            None => 0,
        }
    }

    /// A partition, if it is known.
    pub fn partition(&self, key: PartitionKey) -> (out: Option<&Partition>)
        requires
            self.wf(),
        ensures
            match out {
                Some(p) => self.known().contains_key(key.0) && *p == self.known()[key.0].partition,
                None => !self.known().contains_key(key.0),
            },
    {
        match slot_of(&self.places, key.0) {
            Some(i) => {
                assert(slots(self.places)[key.0] < self.states@.len());
                Some(&self.states[i].partition)
            },
            None => None,
        }
    }

    /// The keys of the known partitions, each once; their order is left open.
    pub fn keys(&self) -> (out: Vec<u64>)
        ensures
            out@.no_duplicates(),
            forall|k: u64| #[trigger] out@.contains(k) <==> self.known().contains_key(k),
    {
        slot_keys(&self.places)
    }

    /// Whether this engine is `before` with another state of one partition, which keeps its
    /// key, its log and its MemTable.
    pub open spec fn partition_changed(&self, before: &StorageEngine, k: u64) -> bool {
        &&& self.wf()
        &&& self.same_settings(before)
        &&& self.known().dom() == before.known().dom()
        &&& forall|j: u64|
            j != k && before.known().contains_key(j) ==> #[trigger] self.known()[j]
                == before.known()[j]
        &&& self.known()[k].wal == before.known()[k].wal
        &&& self.known()[k].mem == before.known()[k].mem
    }

    proof fn lemma_partition_changed(&self, before: &StorageEngine, place: int)
        requires
            before.wf(),
            0 <= place < before.states@.len(),
            self.places == before.places,
            self.bucket_ns == before.bucket_ns,
            self.memtable_size_bytes == before.memtable_size_bytes,
            self.closed == before.closed,
            self.states@.len() == before.states@.len(),
            forall|i: int|
                0 <= i < before.states@.len() && i != place ==> #[trigger] self.states@[i]
                    == before.states@[i],
            self.states@[place].partition.key == before.states@[place].partition.key,
            self.states@[place].wal == before.states@[place].wal,
            self.states@[place].mem == before.states@[place].mem,
        ensures
            self.partition_changed(before, before.states@[place].partition.key.0),
            self.known()[before.states@[place].partition.key.0] == self.states@[place],
    {
        let key = before.states@[place].partition.key.0;
        assert(slots(before.places)[key] == place);
        assert(self.known().dom() =~= before.known().dom());
        assert forall|j: u64| j != key && before.known().contains_key(j) implies #[trigger] self.known()[j]
            == before.known()[j] by {
            assert(slots(before.places)[j] < before.states@.len());
            assert(before.states@[slots(before.places)[j] as int].partition.key.0 == j);
        }
        assert forall|k: u64| slots(self.places).dom().contains(k) implies #[trigger] slots(
            self.places,
        )[k] < self.states@.len() && self.states@[slots(self.places)[k] as int].partition.key.0
            == k by {
            assert(slots(before.places)[k] < before.states@.len());
        }
        assert forall|i: int| 0 <= i < self.states@.len() implies slots(
            self.places,
        ).dom().contains((#[trigger] self.states@[i]).partition.key.0) && slots(
            self.places,
        )[self.states@[i].partition.key.0] == i by {
            assert(self.states@[i].partition.key == before.states@[i].partition.key);
        }
        assert forall|i: int| 0 <= i < self.states@.len() implies mem_wf(
            (#[trigger] self.states@[i]).mem,
            self.memtable_size_bytes,
        ) by {
            assert(self.states@[i].mem == before.states@[i].mem);
        }
    }

    /// Whether this engine is `before` with one sequence number of a signal given out.
    pub open spec fn took_seq(&self, before: &StorageEngine, k: u64, sig: SignalType) -> bool {
        let s = before.known()[k].partition.signal(sig);
        self.partition_changed(before, k) && self.known()[k].partition.changed(
            &before.known()[k].partition,
            sig,
            SignalPartition {
                next_seq: if s.next_seq == u64::MAX {
                    0
                } else {
                    (s.next_seq + 1) as u64
                },
                ..s
            },
        )
    }

    /// Gives out the next sequence number of a signal in a partition.
    pub fn next_seq(&mut self, key: PartitionKey, sig: SignalType) -> (seq: u64)
        requires
            old(self).wf(),
            old(self).known().contains_key(key.0),
        ensures
            seq == old(self).known()[key.0].partition.signal(sig).next_seq,
            final(self).took_seq(old(self), key.0, sig),
    {
        let place: usize = self.place(key);
        let seq = self.states[place].partition.next_seq(sig);
        proof {
            self.lemma_partition_changed(old(self), place as int);
        }
        seq
    }

    /// Makes a table of logs of a partition, under the signal's next sequence number.
    pub fn flush_logs(
        &mut self,
        key: PartitionKey,
        records: &Vec<LogRecord>,
        bits: u64,
        hashes: u32,
    ) -> (out: SSTable)
        requires
            old(self).wf(),
            old(self).known().contains_key(key.0),
            bits <= u64::MAX - 7,
        ensures
            final(self).took_seq(old(self), key.0, SignalType::Log),
            ({
                let sp = old(self).known()[key.0].partition.logs;
                let models = logs_views(records@);
                out.meta@ == table_meta(
                    SignalType::Log,
                    sp.dir@,
                    sp.next_seq,
                    log_times(models),
                ) && out.batch@ == log_batch(models) && holds_keys(
                    out.bloom.model(),
                    bits,
                    hashes,
                    log_keys(models),
                )
            }),
    {
        let place: usize = self.place(key);
        let dir = self.states[place].partition.logs.dir.clone();
        let seq: u64 = self.next_seq(key, SignalType::Log);
        write_logs(records, dir.as_str(), seq, bits, hashes)
    }

    /// Makes a table of metrics of a partition, under the signal's next sequence number.
    pub fn flush_metrics(
        &mut self,
        key: PartitionKey,
        records: &Vec<MetricPoint>,
        bits: u64,
        hashes: u32,
    ) -> (out: SSTable)
        requires
            old(self).wf(),
            old(self).known().contains_key(key.0),
            bits <= u64::MAX - 7,
        ensures
            final(self).took_seq(old(self), key.0, SignalType::Metric),
            ({
                let sp = old(self).known()[key.0].partition.metrics;
                let models = metrics_views(records@);
                out.meta@ == table_meta(
                    SignalType::Metric,
                    sp.dir@,
                    sp.next_seq,
                    metric_times(models),
                ) && out.batch@ == metric_batch(models) && holds_keys(
                    out.bloom.model(),
                    bits,
                    hashes,
                    metric_keys(models),
                )
            }),
    {
        let place: usize = self.place(key);
        let dir = self.states[place].partition.metrics.dir.clone();
        let seq: u64 = self.next_seq(key, SignalType::Metric);
        write_metrics(records, dir.as_str(), seq, bits, hashes)
    }

    /// Makes a table of spans of a partition, under the signal's next sequence number.
    pub fn flush_spans(
        &mut self,
        key: PartitionKey,
        records: &Vec<SpanRecord>,
        bits: u64,
        hashes: u32,
    ) -> (out: SSTable)
        requires
            old(self).wf(),
            old(self).known().contains_key(key.0),
            bits <= u64::MAX - 7,
        ensures
            final(self).took_seq(old(self), key.0, SignalType::Span),
            ({
                let sp = old(self).known()[key.0].partition.spans;
                let models = spans_views(records@);
                out.meta@ == table_meta(
                    SignalType::Span,
                    sp.dir@,
                    sp.next_seq,
                    span_times(models),
                ) && out.batch@ == span_batch(models) && holds_keys(
                    out.bloom.model(),
                    bits,
                    hashes,
                    span_keys(models),
                )
            }),
    {
        let place: usize = self.place(key);
        let dir = self.states[place].partition.spans.dir.clone();
        let seq: u64 = self.next_seq(key, SignalType::Span);
        write_spans(records, dir.as_str(), seq, bits, hashes)
    }

    /// Takes in a table, whose files were written, for its signal in a partition.
    pub fn add_sstable(&mut self, key: PartitionKey, meta: SSTableMeta)
        requires
            old(self).wf(),
            old(self).known().contains_key(key.0),
        ensures
            final(self).partition_changed(old(self), key.0),
            ({
                let p0 = old(self).known()[key.0].partition;
                let p1 = final(self).known()[key.0].partition;
                let sig = meta.signal_type;
                p1.dir == p0.dir && p1.signal(sig).sstables@ == p0.signal(sig).sstables@.push(meta)
                    && p1.signal(sig).dir == p0.signal(sig).dir && p1.signal(sig).next_seq
                    == p0.signal(sig).next_seq && forall|t: SignalType|
                    t != sig ==> #[trigger] p1.signal(t) == p0.signal(t)
            }),
    {
        let place: usize = self.place(key);
        self.states[place].partition.add_sstable(meta);
        proof {
            self.lemma_partition_changed(old(self), place as int);
        }
    }

    /// Takes the tables of a signal in a partition out for merging; nothing happens with
    /// fewer than two.
    pub fn begin_compaction(&mut self, key: PartitionKey, sig: SignalType) -> (out: Option<
        CompactionJob,
    >)
        requires
            old(self).wf(),
            old(self).known().contains_key(key.0),
        ensures
            final(self).partition_changed(old(self), key.0),
            ({
                let p0 = old(self).known()[key.0].partition;
                let p1 = final(self).known()[key.0].partition;
                let s0 = p0.signal(sig);
                let s1 = p1.signal(sig);
                p1.dir == p0.dir && s1.dir == s0.dir && (forall|t: SignalType|
                    t != sig ==> #[trigger] p1.signal(t) == p0.signal(t)) && match out {
                    None => s0.sstables@.len() < 2 && s1 == s0,
                    Some(job) => s0.sstables@.len() >= 2 && job.inputs@ == s0.sstables@
                        && s1.sstables@.len() == 0 && job.output_seq == s0.next_seq && s1.next_seq
                        == (if s0.next_seq == u64::MAX {
                        0
                    } else {
                        (s0.next_seq + 1) as u64
                    }),
                }
            }),
    {
        let place: usize = self.place(key);
        let out = match sig {
            SignalType::Log => begin_compaction(&mut self.states[place].partition.logs),
            SignalType::Metric => begin_compaction(&mut self.states[place].partition.metrics),
            SignalType::Span => begin_compaction(&mut self.states[place].partition.spans),
        };
        proof {
            self.lemma_partition_changed(old(self), place as int);
        }
        out
    }

    // ── Queries ─────────────────────────────────────────────────────────────

    /// The paths of the column files of a signal in the given partitions; partitions that
    /// are not known have none.
    pub fn paths_in(&self, keys: &Vec<u64>, sig: SignalType) -> (out: Vec<String>)
        requires
            self.wf(),
        ensures
            views(out@) == paths_of(self.known(), keys@, sig),
    {
        let mut out: Vec<String> = Vec::new();
        assert(views(out@) =~= Seq::empty());
        assert(keys@.take(0) =~= Seq::empty());
        for i in 0..keys.len()
            invariant
                self.wf(),
                views(out@) == paths_of(self.known(), keys@.take(i as int), sig),
        {
            assert(keys@.take(i + 1).drop_last() =~= keys@.take(i as int));
            assert(keys@.take(i + 1).last() == keys@[i as int]);
            let ghost done = views(out@);
            match self.partition(PartitionKey(keys[i])) {
                Some(p) => {
                    let sp = p.signal_partition(sig);
                    let ghost metas = meta_views(sp.sstables@);
                    assert(done + table_paths(metas.take(0)) =~= done);
                    for j in 0..sp.sstables.len()
                        invariant
                            metas == meta_views(sp.sstables@),
                            views(out@) =~= done + table_paths(metas.take(j as int)),
                    {
                        let ghost before = views(out@);
                        out.push(sp.sstables[j].parquet_path());
                        assert(views(out@) =~= before.push(
                            parquet_path_of(metas[j as int].dir, metas[j as int].seq),
                        ));
                    }
                    assert(metas.take(metas.len() as int) =~= metas);
                },
                None => {},
            }
        }
        assert(keys@.take(keys@.len() as int) =~= keys@);
        out
    }

    /// The paths of the column files of a signal, given by its byte, in the given partitions;
    /// in all known ones, in an order that is left open, if none are given.
    pub fn sstable_paths_for_signal(&self, signal: u8, partition_filter: &Vec<u64>) -> (out: Vec<
        String,
    >)
        requires
            self.wf(),
        ensures
            match signal_of_code(signal) {
                None => out@.len() == 0,
                Some(sig) => if partition_filter@.len() > 0 {
                    views(out@) == paths_of(self.known(), partition_filter@, sig)
                } else {
                    exists|keys: Seq<u64>|
                        #[trigger] covers(keys, self.known()) && views(out@) == paths_of(
                            self.known(),
                            keys,
                            sig,
                        )
                },
            },
    {
        let sig = if signal == 0 {
            SignalType::Log
        } else if signal == 1 {
            SignalType::Metric
        } else if signal == 2 {
            SignalType::Span
        } else {
            return Vec::new();
        };
        if partition_filter.len() > 0 {
            return self.paths_in(partition_filter, sig);
        }
        let keys = self.keys();
        assert(covers(keys@, self.known()));
        self.paths_in(&keys, sig)
    }
}

/// The signal that a byte stands for.
pub open spec fn signal_of_code(signal: u8) -> Option<SignalType> {
    if signal == 0 {
        Some(SignalType::Log)
    } else if signal == 1 {
        Some(SignalType::Metric)
    } else if signal == 2 {
        Some(SignalType::Span)
    } else {
        None
    }
}

/// Whether keys are those of a map, each once.
pub open spec fn covers(keys: Seq<u64>, known: Map<u64, PartitionState>) -> bool {
    keys.no_duplicates() && forall|k: u64| #[trigger] keys.contains(k) <==> known.contains_key(k)
}

/// The column files of tables.
pub open spec fn table_paths(metas: Seq<MetaModel>) -> Seq<Seq<char>> {
    metas.map_values(|m: MetaModel| parquet_path_of(m.dir, m.seq))
}

/// The column files of a signal in the given partitions, as far as they are known.
pub open spec fn paths_of(
    known: Map<u64, PartitionState>,
    keys: Seq<u64>,
    sig: SignalType,
) -> Seq<Seq<char>>
    decreases keys.len(),
{
    if keys.len() == 0 {
        Seq::empty()
    } else {
        let front = paths_of(known, keys.drop_last(), sig);
        if known.contains_key(keys.last()) {
            front + table_paths(
                meta_views(known[keys.last()].partition.signal(sig).sstables@),
            )
        } else {
            front
        }
    }
}

/// Whether a key is among the first `n` of a list.
pub open spec fn is_among(keys: Seq<u64>, n: int, k: u64) -> bool {
    exists|j: int| 0 <= j < n && #[trigger] keys[j] == k
}

/// Whether there is a request for a partition.
pub open spec fn is_requested(requests: Seq<FlushRequest>, k: u64) -> bool {
    exists|i: int| 0 <= i < requests.len() && (#[trigger] requests[i]).key.0 == k
}

/// Whether a MemTable is another one, or an empty one, with one row more.
pub open spec fn took_row(
    before: Option<MemTable>,
    after: MemTable,
    timestamp_ns: u64,
    signal: SignalType,
    data: Seq<u8>,
) -> bool {
    match before {
        Some(m) => after.inserted(&m, timestamp_ns, signal.code(), data),
        None => {
            let key = RowKey { timestamp_ns, signal_type: signal.code(), sequence: 0 };
            &&& after.wf()
            &&& after@ == seq![(key, data)]
            &&& after.size() == (ROW_KEY_SIZE + data.len()) % (usize::MAX + 1)
            &&& after.next_sequence() == 1
        },
    }
}

// ── Laws ────────────────────────────────────────────────────────────────────

/// The rows that a partition has in memory.
pub open spec fn held_rows(mem: Option<MemTable>) -> Multiset<Row> {
    match mem {
        Some(m) => m@.to_multiset(),
        None => Multiset::empty(),
    }
}

/// The rows that a flush is asked for.
pub open spec fn requested_rows(request: Option<FlushRequest>) -> Multiset<Row> {
    match request {
        Some(r) => r.imm.0@.to_multiset(),
        None => Multiset::empty(),
    }
}

/// The key under which the next record of a partition is kept.
pub open spec fn next_key(mem: Option<MemTable>, timestamp_ns: u64, signal: SignalType) -> RowKey {
    RowKey {
        timestamp_ns,
        signal_type: signal.code(),
        sequence: match mem {
            Some(m) => m.next_sequence(),
            None => 0,
        },
    }
}

/// No record is lost and none is doubled: what a partition has in memory after a record was
/// committed, together with what is then handed out for flushing, is what it had before and
/// the record.
pub proof fn committing_keeps_every_row(
    before: StorageEngine,
    after: StorageEngine,
    timestamp_ns: u64,
    signal: SignalType,
    data: Seq<u8>,
    out: Option<FlushRequest>,
)
    requires
        before.wf(),
        before.has_room(timestamp_ns, data.len()),
        before.committed(&after, timestamp_ns, signal, data, out),
    ensures
        ({
            let k = before.key_of(timestamp_ns);
            let mem = before.known()[k].mem;
            held_rows(after.known()[k].mem).add(requested_rows(out)) == held_rows(mem).insert(
                (next_key(mem, timestamp_ns, signal), data),
            )
        }),
{
    let k = before.key_of(timestamp_ns);
    before.known_partition_is_well_formed(k);
    let mem = before.known()[k].mem;
    let key = next_key(mem, timestamp_ns, signal);
    let grown = match out {
        None => after.known()[k].mem->Some_0,
        Some(r) => r.imm.0,
    };
    match mem {
        Some(m) => {
            insert_row_adds_one(m@, key, data);
        },
        None => {
            assert(grown@ =~= Seq::<Row>::empty().push((key, data)));
            Seq::<Row>::empty().to_multiset_ensures();
        },
    }
    assert(grown@.to_multiset() =~= held_rows(mem).insert((key, data)));
    if out is Some {
        let rest = after.known()[k].mem->Some_0;
        assert(rest@ =~= Seq::<Row>::empty());
        rest@.to_multiset_ensures();
        assert(rest@.to_multiset() =~= Multiset::empty());
    }
    assert(held_rows(after.known()[k].mem).add(requested_rows(out)) =~= held_rows(mem).insert(
        (key, data),
    ));
}

/// Every row that is in memory is handed out when all is flushed, with the key of its
/// partition.
pub proof fn flushing_hands_out_every_row(
    before: StorageEngine,
    requests: Seq<FlushRequest>,
    k: u64,
    row: Row,
)
    requires
        before.all_requests(requests),
        before.known().contains_key(k),
        before.known()[k].mem matches Some(m) && m@.contains(row),
    ensures
        exists|i: int|
            0 <= i < requests.len() && (#[trigger] requests[i]).key.0 == k
                && requests[i].imm.0@.contains(row),
{
    assert(before.has_rows(k));
    assert(is_requested(requests, k));
    let i = choose|i: int| 0 <= i < requests.len() && (#[trigger] requests[i]).key.0 == k;
    assert(requests[i].imm.0@.contains(row));
}

/// A column file is among the files of given partitions only if it belongs to one of them.
pub proof fn files_belong_to_given_partitions(
    known: Map<u64, PartitionState>,
    keys: Seq<u64>,
    sig: SignalType,
    path: Seq<char>,
)
    requires
        paths_of(known, keys, sig).contains(path),
    ensures
        exists|k: u64|
            #[trigger] keys.contains(k) && known.contains_key(k) && table_paths(
                meta_views(known[k].partition.signal(sig).sstables@),
            ).contains(path),
    decreases keys.len(),
{
    if keys.len() > 0 {
        let front = keys.drop_last();
        let all = paths_of(known, keys, sig);
        let before = paths_of(known, front, sig);
        let i = choose|i: int| 0 <= i < all.len() && all[i] == path;
        if i < before.len() {
            assert(before[i] == path);
            files_belong_to_given_partitions(known, front, sig, path);
            let k = choose|k: u64|
                #[trigger] front.contains(k) && known.contains_key(k) && table_paths(
                    meta_views(known[k].partition.signal(sig).sstables@),
                ).contains(path);
            let j = choose|j: int| 0 <= j < front.len() && front[j] == k;
            assert(keys[j] == k);
            assert(keys.contains(k));
        } else {
            let own = table_paths(meta_views(known[keys.last()].partition.signal(sig).sstables@));
            assert(own[i - before.len()] == path);
            assert(keys[keys.len() - 1] == keys.last());
            assert(keys.contains(keys.last()));
        }
    }
}

/// The byte of a signal names it, and no other byte names one.
pub proof fn codes_name_their_signals(code: u8, s: SignalType)
    ensures
        signal_of_code(s.code()) == Some(s),
        signal_of_code(code) == Some(s) ==> code == s.code(),
        code > 2 ==> signal_of_code(code) is None,
{
}

/// Every column file of a signal in every given partition that is known is read.
pub proof fn every_known_file_is_read(
    known: Map<u64, PartitionState>,
    keys: Seq<u64>,
    sig: SignalType,
    i: int,
    j: int,
)
    requires
        0 <= i < keys.len(),
        known.contains_key(keys[i]),
        0 <= j < known[keys[i]].partition.signal(sig).sstables@.len(),
    ensures
        ({
            let m = known[keys[i]].partition.signal(sig).sstables@[j]@;
            paths_of(known, keys, sig).contains(parquet_path_of(m.dir, m.seq))
        }),
    decreases keys.len(),
{
    let front = keys.drop_last();
    let before = paths_of(known, front, sig);
    let all = paths_of(known, keys, sig);
    let m = known[keys[i]].partition.signal(sig).sstables@[j]@;
    let path = parquet_path_of(m.dir, m.seq);
    if i < keys.len() - 1 {
        assert(front[i] == keys[i]);
        every_known_file_is_read(known, front, sig, i, j);
        let k = choose|k: int| 0 <= k < before.len() && before[k] == path;
        assert(all[k] == path);
    } else {
        assert(keys.last() == keys[i]);
        let own = table_paths(meta_views(known[keys[i]].partition.signal(sig).sstables@));
        assert(own[j] == path);
        assert(all[before.len() + j] == path);
    }
}

} // verus!
