//! Partitions.
//!
//! A partition covers one bucket of time. It has a directory with one directory per
//! signal, each of which holds a log file and the signal's SSTables.

use crate::common::model::SignalType;
use crate::storage::meta::{meta_views, zonemap_seq, zonemap_seq_of, MetaModel, SSTableMeta};
use crate::storage::path::{join, path_join};
use crate::storage::zone_map::{zone_overlaps, ZoneMap, ZoneModel};
use crate::text::{decimal, padded_decimal, push_padded, u64_of};
use chrono::{Datelike, Timelike};
use vstd::prelude::*;

verus! {

/// Whether a year of the calendar has a day more.
pub open spec fn is_leap(year: int) -> bool {
    year % 4 == 0 && (year % 100 != 0 || year % 400 == 0)
}

/// The days of a year.
pub open spec fn year_days(year: int) -> int {
    if is_leap(year) {
        366
    } else {
        365
    }
}

/// The days of a month, counted from 1.
pub open spec fn month_days(year: int, month: int) -> int {
    if month == 2 {
        if is_leap(year) {
            29
        } else {
            28
        }
    } else if month == 4 || month == 6 || month == 9 || month == 11 {
        30
    } else {
        31
    }
}

/// The year that a day falls in, and the days before it in that year, counting the days from
/// the start of the given year.
pub open spec fn year_at(year: int, days: int) -> (int, int)
    decreases days,
{
    if days < year_days(year) {
        (year, days)
    } else {
        year_at(year + 1, days - year_days(year))
    }
}

/// The month that a day falls in, and the days before it in that month, counting the days
/// from the start of the given month.
pub open spec fn month_at(year: int, month: int, days: int) -> (int, int)
    decreases days,
{
    if days < month_days(year, month) {
        (month, days)
    } else {
        month_at(year, month + 1, days - month_days(year, month))
    }
}

/// Year, month, day and hour in UTC of a time in seconds since the start of 1970.
pub open spec fn utc_hour(secs: int) -> (int, int, int, int) {
    let (year, days) = year_at(1970, secs / 86_400);
    let (month, before) = month_at(year, 1, days);
    (year, month, before + 1, secs % 86_400 / 3_600)
}

/// `chrono::DateTime::<Utc>::from_timestamp` with no fraction, and the date and hour of what
/// it gives: those of the Gregorian calendar. Times that a count of nanoseconds in 64 bits
/// reaches lie in the range of `chrono`.
#[verifier::external_body]
fn utc_fields_of(secs: i64) -> (out: (i32, u32, u32, u32))
    requires
        0 <= secs <= 18_446_744_073,
    ensures
        out.0 == utc_hour(secs as int).0,
        out.1 == utc_hour(secs as int).1,
        out.2 == utc_hour(secs as int).2,
        out.3 == utc_hour(secs as int).3,
{
    let t = chrono::DateTime::<chrono::Utc>::from_timestamp(secs, 0).unwrap_or_default();
    (t.year(), t.month(), t.day(), t.hour())
}

proof fn lemma_year_at(year: int, days: int)
    ensures
        year_at(year, days).0 >= year,
    decreases days,
{
    if days >= year_days(year) {
        lemma_year_at(year + 1, days - year_days(year));
    }
}

// ── Keys ────────────────────────────────────────────────────────────────────

/// A partition's identifier: the start of its bucket, in nanoseconds since the epoch.
#[derive(Debug, Clone, Copy, PartialEq, Eq, Structural)]
pub struct PartitionKey(pub u64);

/// The name of a partition's directory: year, month, day and hour of its start.
pub open spec fn dir_name_of(key: PartitionKey) -> Seq<char> {
    let (year, month, day, hour) = utc_hour((key.0 / 1_000_000_000) as int);
    padded_decimal(year as nat, 4) + padded_decimal(month as nat, 2) + padded_decimal(
        day as nat,
        2,
    ) + padded_decimal(hour as nat, 2)
}

impl PartitionKey {
    /// The key of the bucket that a timestamp falls in.
    pub fn for_timestamp(timestamp_ns: u64, bucket_ns: u64) -> (key: PartitionKey)
        requires
            bucket_ns > 0,
        ensures
            key.0 == timestamp_ns - timestamp_ns % bucket_ns,
    {
        proof {
            vstd::arithmetic::div_mod::lemma_mod_decreases(timestamp_ns as nat, bucket_ns as nat);
        }
        PartitionKey(timestamp_ns - (timestamp_ns % bucket_ns))
    }

    /// The name of the partition's directory.
    pub fn dir_name(&self) -> (out: String)
        ensures
            out@ == dir_name_of(*self),
    {
        let secs: i64 = (self.0 / 1_000_000_000) as i64;
        let fields: (i32, u32, u32, u32) = utc_fields_of(secs);
        proof {
            lemma_year_at(1970, secs as int / 86_400);
        }
        let mut out = String::new();
        push_padded(&mut out, fields.0 as u64, 4);
        push_padded(&mut out, fields.1 as u64, 2);
        push_padded(&mut out, fields.2 as u64, 2);
        push_padded(&mut out, fields.3 as u64, 2);
        assert(out@ =~= dir_name_of(*self));
        out
    }
}

/// Buckets part the line of time: a bucket's key is a multiple of its width, and a
/// timestamp lies in the bucket of its key and in no other.
pub proof fn buckets_partition_time(ts: u64, bucket_ns: u64, key: int)
    requires
        bucket_ns > 0,
    ensures
        (ts - ts % bucket_ns) % (bucket_ns as int) == 0,
        key % (bucket_ns as int) == 0 ==> (key <= ts < key + bucket_ns <==> key == ts - ts
            % bucket_ns),
{
    let b = bucket_ns as int;
    let t = ts as int;
    vstd::arithmetic::div_mod::lemma_fundamental_div_mod(t, b);
    vstd::arithmetic::mul::lemma_mul_is_commutative(b, t / b);
    vstd::arithmetic::div_mod::lemma_mod_multiples_basic(t / b, b);
    if key % b == 0 {
        vstd::arithmetic::div_mod::lemma_fundamental_div_mod(key, b);
        let q = key / b;
        let p = t / b;
        vstd::arithmetic::mul::lemma_mul_is_commutative(b, q);
        if key <= ts < key + bucket_ns {
            assert(q == p) by (nonlinear_arith)
                requires
                    b > 0,
                    q * b <= t < q * b + b,
                    p * b <= t < p * b + b,
            ;
        }
    }
}

// ── One signal of a partition ───────────────────────────────────────────────

/// A file found in a signal's directory: its name, and its contents where it could be
/// read as a zone map.
pub struct ListedFile {
    pub name: String,
    pub zone_map: Option<ZoneMap>,
}

/// A listed file as mathematical values.
pub struct ListedModel {
    pub name: Seq<char>,
    pub zone_map: Option<ZoneModel>,
}

impl View for ListedFile {
    type V = ListedModel;

    open spec fn view(&self) -> ListedModel {
        ListedModel {
            name: self.name@,
            zone_map: match self.zone_map {
                Some(z) => Some(z@),
                None => None,
            },
        }
    }
}

/// The views of a listing.
pub open spec fn listed_views(v: Seq<ListedFile>) -> Seq<ListedModel> {
    v.map_values(|f: ListedFile| f@)
}

/// The greatest sequence number that the names of zone maps give, 0 if there is none.
pub open spec fn max_seq(files: Seq<ListedModel>) -> u64
    decreases files.len(),
{
    if files.len() == 0 {
        0
    } else {
        let before = max_seq(files.drop_last());
        match zonemap_seq_of(files.last().name) {
            Some(n) => if n > before {
                n
            } else {
                before
            },
            None => before,
        }
    }
}

/// How many of the tables have a sequence number up to `seq`.
pub open spec fn count_up_to(metas: Seq<MetaModel>, seq: u64) -> nat
    decreases metas.len(),
{
    if metas.len() == 0 {
        0
    } else {
        count_up_to(metas.drop_last(), seq) + (if metas.last().seq <= seq {
            1nat
        } else {
            0
        })
    }
}

/// The tables of a directory, by ascending sequence number, and in the order of the
/// listing where two are equal. A zone map that cannot be read gives no table.
pub open spec fn tables_of(dir: Seq<char>, files: Seq<ListedModel>) -> Seq<MetaModel>
    decreases files.len(),
{
    if files.len() == 0 {
        Seq::empty()
    } else {
        let before = tables_of(dir, files.drop_last());
        let file = files.last();
        match (zonemap_seq_of(file.name), file.zone_map) {
            (Some(seq), Some(zone_map)) => before.insert(
                count_up_to(before, seq) as int,
                MetaModel { seq, signal_type: SignalType::Log, dir, zone_map },
            ),
            _ => before,
        }
    }
}

/// Whether sequence numbers do not descend.
pub open spec fn seqs_sorted(metas: Seq<MetaModel>) -> bool {
    forall|i: int, j: int|
        0 <= i < j < metas.len() ==> (#[trigger] metas[i]).seq <= (#[trigger] metas[j]).seq
}

proof fn lemma_count_at(metas: Seq<MetaModel>, seq: u64, p: int)
    requires
        0 <= p <= metas.len(),
        forall|i: int| 0 <= i < p ==> (#[trigger] metas[i]).seq <= seq,
        forall|i: int| p <= i < metas.len() ==> (#[trigger] metas[i]).seq > seq,
    ensures
        count_up_to(metas, seq) == p,
    decreases metas.len(),
{
    if metas.len() > 0 {
        let front = metas.drop_last();
        assert(forall|i: int| 0 <= i < front.len() ==> front[i] == metas[i]);
        assert(metas.last() == metas[metas.len() - 1]);
        lemma_count_at(front, seq, if p == metas.len() { p - 1 } else { p });
    }
}

/// In sorted tables those up to a sequence number come first.
proof fn lemma_count_splits(metas: Seq<MetaModel>, seq: u64)
    requires
        seqs_sorted(metas),
    ensures
        count_up_to(metas, seq) <= metas.len(),
        forall|i: int| 0 <= i < count_up_to(metas, seq) ==> (#[trigger] metas[i]).seq <= seq,
        forall|i: int|
            count_up_to(metas, seq) <= i < metas.len() ==> (#[trigger] metas[i]).seq > seq,
    decreases metas.len(),
{
    if metas.len() > 0 {
        let front = metas.drop_last();
        assert(forall|i: int| 0 <= i < front.len() ==> front[i] == metas[i]);
        assert(seqs_sorted(front));
        lemma_count_splits(front, seq);
        let last = metas[metas.len() - 1];
        assert(last == metas.last());
        if last.seq <= seq {
            assert forall|i: int| 0 <= i < front.len() implies (#[trigger] front[i]).seq <= seq by {
                assert(metas[i].seq <= last.seq);
            }
            lemma_count_at(front, seq, front.len() as int);
        }
    }
}

/// The tables of a directory come by ascending sequence number, and each belongs to
/// the directory.
pub proof fn tables_are_sorted(dir: Seq<char>, files: Seq<ListedModel>)
    ensures
        seqs_sorted(tables_of(dir, files)),
        forall|i: int|
            0 <= i < tables_of(dir, files).len() ==> (#[trigger] tables_of(dir, files)[i]).dir == dir
                && tables_of(dir, files)[i].seq <= max_seq(files),
    decreases files.len(),
{
    if files.len() > 0 {
        let front = files.drop_last();
        tables_are_sorted(dir, front);
        let before = tables_of(dir, front);
        let after = tables_of(dir, files);
        match (zonemap_seq_of(files.last().name), files.last().zone_map) {
            (Some(seq), Some(zone_map)) => {
                lemma_count_splits(before, seq);
                let p = count_up_to(before, seq) as int;
                assert forall|i: int, j: int| 0 <= i < j < after.len() implies (
                #[trigger] after[i]).seq <= (#[trigger] after[j]).seq by {
                    let oi = if i < p { i } else { i - 1 };
                    let oj = if j < p { j } else { j - 1 };
                    if i != p && j != p {
                        assert(before[oi].seq <= before[oj].seq);
                    }
                }
                assert forall|i: int| 0 <= i < after.len() implies (#[trigger] after[i]).dir == dir
                    && after[i].seq <= max_seq(files) by {
                    if i < p {
                        assert(after[i] == before[i]);
                    } else if i > p {
                        assert(after[i] == before[i - 1]);
                    }
                }
            },
            _ => {},
        }
    }
}

/// The SSTables of one signal in one partition.
pub struct SignalPartition {
    pub dir: String,
    pub sstables: Vec<SSTableMeta>,
    pub next_seq: u64,
}

impl SignalPartition {
    /// Takes up a directory from its listing: the tables in it, and the sequence number
    /// behind the greatest in use.
    pub fn open(dir: String, files: Vec<ListedFile>) -> (p: SignalPartition)
        requires
            max_seq(listed_views(files@)) < u64::MAX,
        ensures
            p.dir@ == dir@,
            meta_views(p.sstables@) == tables_of(dir@, listed_views(files@)),
            p.next_seq == max_seq(listed_views(files@)) + 1,
    {
        let ghost all = listed_views(files@);
        let mut sstables: Vec<SSTableMeta> = Vec::new();
        let mut max: u64 = 0;
        assert(meta_views(sstables@) =~= Seq::empty());
        assert(all.take(0) =~= Seq::empty());
        for i in 0..files.len()
            invariant
                all == listed_views(files@),
                max == max_seq(all.take(i as int)),
                meta_views(sstables@) == tables_of(dir@, all.take(i as int)),
        {
            assert(all.take(i + 1).drop_last() =~= all.take(i as int));
            assert(all.take(i + 1).last() == files@[i as int]@);
            let ghost before = meta_views(sstables@);
            match zonemap_seq(files[i].name.as_str()) {
                Some(seq) => {
                    if seq > max {
                        max = seq;
                    }
                    match &files[i].zone_map {
                        Some(zone_map) => {
                            let mut p: usize = sstables.len();
                            proof {
                                tables_are_sorted(dir@, all.take(i as int));
                                lemma_count_splits(before, seq);
                            }
                            while p > 0 && sstables[p - 1].seq > seq
                                invariant
                                    p <= sstables@.len(),
                                    before == meta_views(sstables@),
                                    seqs_sorted(before),
                                    forall|k: int|
                                        p <= k < before.len() ==> (#[trigger] before[k]).seq > seq,
                                decreases p,
                            {
                                assert(before[p - 1].seq == sstables@[p - 1].seq);
                                p = p - 1;
                            }
                            proof {
                                assert forall|k: int| 0 <= k < p implies (#[trigger] before[k]).seq
                                    <= seq by {
                                    assert(before[p - 1].seq == sstables@[p - 1].seq);
                                    if k < p - 1 {
                                        assert(before[k].seq <= before[p - 1].seq);
                                    }
                                }
                                lemma_count_at(before, seq, p as int);
                            }
                            let meta = SSTableMeta {
                                seq,
                                signal_type: SignalType::Log,
                                dir: dir.clone(),
                                zone_map: zone_map.duplicate(),
                            };
                            let ghost m = meta@;
                            sstables.insert(p, meta);
                            assert(meta_views(sstables@) =~= before.insert(p as int, m));
                        },
                        None => {},
                    }
                },
                None => {},
            }
        }
        assert(all.take(all.len() as int) =~= all);
        SignalPartition { dir, sstables, next_seq: max + 1 }
    }

    /// Gives out a sequence number. They wrap around at the end of their range.
    pub fn next_seq(&mut self) -> (seq: u64)
        ensures
            seq == old(self).next_seq,
            final(self).next_seq == (if seq == u64::MAX {
                0
            } else {
                (seq + 1) as u64
            }),
            final(self).dir == old(self).dir,
            final(self).sstables == old(self).sstables,
    {
        let seq: u64 = self.next_seq;
        self.next_seq = seq.wrapping_add(1);
        seq
    }

    /// Takes in a new table.
    pub fn add_sstable(&mut self, meta: SSTableMeta)
        ensures
            final(self).sstables@ == old(self).sstables@.push(meta),
            final(self).dir == old(self).dir,
            final(self).next_seq == old(self).next_seq,
    {
        self.sstables.push(meta);
    }

    /// The number of tables.
    pub fn sstable_count(&self) -> (n: usize)
        ensures
            n == self.sstables@.len(),
    {
        self.sstables.len()
    }

    /// The tables whose zone maps meet the closed range from `start_ns` to `end_ns`.
    pub fn candidates(&self, start_ns: u64, end_ns: u64) -> (out: Vec<SSTableMeta>)
        ensures
            meta_views(out@) == candidates_of(meta_views(self.sstables@), start_ns, end_ns),
    {
        let ghost all = meta_views(self.sstables@);
        let mut out: Vec<SSTableMeta> = Vec::new();
        assert(meta_views(out@) =~= candidates_of(all.take(0), start_ns, end_ns));
        for i in 0..self.sstables.len()
            invariant
                all == meta_views(self.sstables@),
                meta_views(out@) == candidates_of(all.take(i as int), start_ns, end_ns),
        {
            let ghost before = meta_views(out@);
            assert(all.take(i + 1).drop_last() =~= all.take(i as int));
            assert(all.take(i + 1).last() == all[i as int]);
            reveal(Seq::filter);
            if self.sstables[i].zone_map.overlaps_time_range(start_ns, end_ns) {
                out.push(self.sstables[i].duplicate());
                assert(meta_views(out@) =~= before.push(all[i as int]));
            }
        }
        assert(all.take(all.len() as int) =~= all);
        out
    }

    /// The path of the signal's log.
    pub fn wal_path(&self) -> (out: String)
        ensures
            out@ == path_join(self.dir@, "wal.log"@),
    {
        join(self.dir.as_str(), "wal.log")
    }
}

/// The tables that can hold a row of the closed range from `start` to `end`, in order.
pub open spec fn candidates_of(metas: Seq<MetaModel>, start: u64, end: u64) -> Seq<MetaModel> {
    metas.filter(|m: MetaModel| zone_overlaps(m.zone_map, start, end))
}

/// No matching row is lost: the table of a row inside the asked range is a candidate.
pub proof fn matching_table_is_candidate(
    metas: Seq<MetaModel>,
    t: int,
    timestamps: Seq<u64>,
    i: int,
    start: u64,
    end: u64,
)
    requires
        0 <= t < metas.len(),
        timestamps.len() <= u64::MAX,
        metas[t].zone_map == crate::storage::zone_map::zone_of(timestamps),
        0 <= i < timestamps.len(),
        start <= timestamps[i] <= end,
    ensures
        candidates_of(metas, start, end).contains(metas[t]),
{
    crate::storage::zone_map::pruning_keeps_matching_rows(timestamps, i, start, end);
    metas.lemma_filter_contains(|m: MetaModel| zone_overlaps(m.zone_map, start, end), t);
}

// ── A whole partition ───────────────────────────────────────────────────────

/// The directory of a partition below the data directory.
pub open spec fn partition_dir_of(base: Seq<char>, key: PartitionKey) -> Seq<char> {
    path_join(path_join(base, "partitions"@), dir_name_of(key))
}

/// The directory of a partition below the data directory.
pub fn partition_dir(base: &str, key: PartitionKey) -> (out: String)
    ensures
        out@ == partition_dir_of(base@, key),
{
    let all = join(base, "partitions");
    let name = key.dir_name();
    join(all.as_str(), name.as_str())
}

/// The name of a signal's directory in a partition.
pub open spec fn signal_dir_of(signal: SignalType) -> Seq<char> {
    match signal {
        SignalType::Log => "logs"@,
        SignalType::Metric => "metrics"@,
        SignalType::Span => "traces"@,
    }
}

/// The directory of a signal in a partition's directory.
pub fn signal_dir(partition: &str, signal: SignalType) -> (out: String)
    ensures
        out@ == path_join(partition@, signal_dir_of(signal)),
{
    match signal {
        SignalType::Log => join(partition, "logs"),
        SignalType::Metric => join(partition, "metrics"),
        SignalType::Span => join(partition, "traces"),
    }
}

/// The three signals of one bucket of time.
pub struct Partition {
    pub key: PartitionKey,
    pub dir: String,
    pub logs: SignalPartition,
    pub metrics: SignalPartition,
    pub spans: SignalPartition,
}

impl Partition {
    /// The state of one signal.
    pub open spec fn signal(&self, sig: SignalType) -> SignalPartition {
        match sig {
            SignalType::Log => self.logs,
            SignalType::Metric => self.metrics,
            SignalType::Span => self.spans,
        }
    }

    /// Takes up a partition below `base_dir` from the listings of its directories.
    pub fn open(
        base_dir: &str,
        key: PartitionKey,
        logs: Vec<ListedFile>,
        metrics: Vec<ListedFile>,
        spans: Vec<ListedFile>,
    ) -> (p: Partition)
        requires
            max_seq(listed_views(logs@)) < u64::MAX,
            max_seq(listed_views(metrics@)) < u64::MAX,
            max_seq(listed_views(spans@)) < u64::MAX,
        ensures
            p.key == key,
            p.dir@ == partition_dir_of(base_dir@, key),
            forall|sig: SignalType|
                (#[trigger] p.signal(sig)).dir@ == path_join(p.dir@, signal_dir_of(sig)),
            forall|sig: SignalType|
                {
                    let files = listed_views(
                        match sig {
                            SignalType::Log => logs@,
                            SignalType::Metric => metrics@,
                            SignalType::Span => spans@,
                        },
                    );
                    meta_views((#[trigger] p.signal(sig)).sstables@) == tables_of(
                        p.signal(sig).dir@,
                        files,
                    ) && p.signal(sig).next_seq == max_seq(files) + 1
                },
    {
        let dir = partition_dir(base_dir, key);
        let logs = SignalPartition::open(signal_dir(dir.as_str(), SignalType::Log), logs);
        let metrics = SignalPartition::open(signal_dir(dir.as_str(), SignalType::Metric), metrics);
        let spans = SignalPartition::open(signal_dir(dir.as_str(), SignalType::Span), spans);
        Partition { key, dir, logs, metrics, spans }
    }

    /// Whether this partition is `before` with the state of one signal replaced by `s`.
    pub open spec fn changed(&self, before: &Partition, sig: SignalType, s: SignalPartition) -> bool {
        &&& self.key == before.key
        &&& self.dir == before.dir
        &&& self.signal(sig) == s
        &&& forall|t: SignalType| t != sig ==> #[trigger] self.signal(t) == before.signal(t)
    }

    /// Gives out a sequence number of a signal.
    pub fn next_seq(&mut self, sig: SignalType) -> (seq: u64)
        ensures
            seq == old(self).signal(sig).next_seq,
            final(self).changed(
                old(self),
                sig,
                SignalPartition {
                    next_seq: if seq == u64::MAX {
                        0
                    } else {
                        (seq + 1) as u64
                    },
                    ..old(self).signal(sig)
                },
            ),
    {
        match sig {
            SignalType::Log => self.logs.next_seq(),
            SignalType::Metric => self.metrics.next_seq(),
            SignalType::Span => self.spans.next_seq(),
        }
    }

    /// Takes in a new table of its signal.
    pub fn add_sstable(&mut self, meta: SSTableMeta)
        ensures
            final(self).key == old(self).key,
            final(self).dir == old(self).dir,
            forall|t: SignalType|
                t != meta.signal_type ==> #[trigger] final(self).signal(t) == old(self).signal(t),
            final(self).signal(meta.signal_type).sstables@ == old(self).signal(
                meta.signal_type,
            ).sstables@.push(meta),
            final(self).signal(meta.signal_type).dir == old(self).signal(meta.signal_type).dir,
            final(self).signal(meta.signal_type).next_seq == old(self).signal(
                meta.signal_type,
            ).next_seq,
    {
        match meta.signal_type {
            SignalType::Log => self.logs.add_sstable(meta),
            SignalType::Metric => self.metrics.add_sstable(meta),
            SignalType::Span => self.spans.add_sstable(meta),
        }
    }

    /// The state of one signal.
    pub fn signal_partition(&self, sig: SignalType) -> (p: &SignalPartition)
        ensures
            *p == self.signal(sig),
    {
        match sig {
            SignalType::Log => &self.logs,
            SignalType::Metric => &self.metrics,
            SignalType::Span => &self.spans,
        }
    }
}

/// Each signal has a directory of its own.
pub proof fn signals_have_their_own_directories(a: SignalType, b: SignalType)
    ensures
        signal_dir_of(a) == signal_dir_of(b) ==> a == b,
        signal_dir_of(SignalType::Log) == "logs"@,
        signal_dir_of(SignalType::Metric) == "metrics"@,
        signal_dir_of(SignalType::Span) == "traces"@,
{
    reveal_strlit("logs");
    reveal_strlit("metrics");
    reveal_strlit("traces");
    assert("logs"@.len() == 4 && "metrics"@.len() == 7 && "traces"@.len() == 6);
}

/// The greatest sequence number of a listing is that of a file, or 0, and no file has a
/// greater one: the next number is of no file yet.
pub proof fn greatest_sequence_is_greatest(files: Seq<ListedModel>)
    ensures
        forall|i: int|
            0 <= i < files.len() ==> (zonemap_seq_of((#[trigger] files[i]).name) matches Some(n) ==> n
                <= max_seq(files)),
        max_seq(files) == 0 || exists|i: int|
            0 <= i < files.len() && zonemap_seq_of((#[trigger] files[i]).name) == Some(
                max_seq(files),
            ),
    decreases files.len(),
{
    if files.len() > 0 {
        let front = files.drop_last();
        greatest_sequence_is_greatest(front);
        assert(forall|i: int| 0 <= i < front.len() ==> front[i] == files[i]);
        assert(files.last() == files[files.len() - 1]);
        if max_seq(front) != 0 {
            let i = choose|i: int|
                0 <= i < front.len() && zonemap_seq_of((#[trigger] front[i]).name) == Some(
                    max_seq(front),
                );
            assert(zonemap_seq_of(files[i].name) == Some(max_seq(front)));
        }
    }
}

proof fn lemma_place_inside(metas: Seq<MetaModel>, seq: u64)
    ensures
        count_up_to(metas, seq) <= metas.len(),
    decreases metas.len(),
{
    if metas.len() > 0 {
        lemma_place_inside(metas.drop_last(), seq);
    }
}

/// Whether a file gives a table: it is a zone map, and it can be read.
pub open spec fn gives_table(f: ListedModel) -> bool {
    zonemap_seq_of(f.name) is Some && f.zone_map is Some
}

/// Every zone map that can be read gives its table, in its directory, and nothing else does.
pub proof fn every_zone_map_gives_its_table(dir: Seq<char>, files: Seq<ListedModel>)
    ensures
        forall|i: int|
            0 <= i < files.len() && gives_table(#[trigger] files[i]) ==> has_table(
                tables_of(dir, files),
                dir,
                files[i],
            ),
        forall|k: int|
            0 <= k < tables_of(dir, files).len() ==> is_listed(
                files,
                #[trigger] tables_of(dir, files)[k],
                dir,
            ),
    decreases files.len(),
{
    if files.len() > 0 {
        let front = files.drop_last();
        let file = files.last();
        every_zone_map_gives_its_table(dir, front);
        assert(forall|i: int| 0 <= i < front.len() ==> front[i] == files[i]);
        assert(file == files[files.len() - 1]);
        let before = tables_of(dir, front);
        let after = tables_of(dir, files);
        if gives_table(file) {
            let seq = zonemap_seq_of(file.name)->Some_0;
            let at = count_up_to(before, seq) as int;
            lemma_place_inside(before, seq);
            let own = MetaModel {
                seq,
                signal_type: SignalType::Log,
                dir,
                zone_map: file.zone_map->Some_0,
            };
            assert(after == before.insert(at, own));
            assert(after[at] == own);
            assert forall|i: int| 0 <= i < files.len() && gives_table(#[trigger] files[i]) implies has_table(
                after,
                dir,
                files[i],
            ) by {
                if i < front.len() {
                    assert(gives_table(front[i]));
                    let k = choose|k: int| 0 <= k < before.len() && is_table_of(#[trigger] before[k], dir, front[i]);
                    if k < at {
                        assert(after[k] == before[k]);
                    } else {
                        assert(after[k + 1] == before[k]);
                    }
                } else {
                    assert(is_table_of(after[at], dir, file));
                }
            }
            assert forall|k: int| 0 <= k < after.len() implies is_listed(
                files,
                #[trigger] after[k],
                dir,
            ) by {
                if k == at {
                    assert(is_table_of(own, dir, files[files.len() - 1]));
                } else {
                    let o = if k < at {
                        k
                    } else {
                        k - 1
                    };
                    assert(after[k] == before[o]);
                    assert(is_listed(front, before[o], dir));
                    let i = choose|i: int| 0 <= i < front.len() && is_table_of(before[o], dir, #[trigger] front[i]);
                    assert(is_table_of(before[o], dir, files[i]));
                }
            }
        } else {
            assert(after == before);
            assert forall|i: int| 0 <= i < files.len() && gives_table(#[trigger] files[i]) implies has_table(
                after,
                dir,
                files[i],
            ) by {
                assert(gives_table(front[i]));
            }
            assert forall|k: int| 0 <= k < after.len() implies is_listed(
                files,
                #[trigger] after[k],
                dir,
            ) by {
                assert(is_listed(front, before[k], dir));
                let i = choose|i: int| 0 <= i < front.len() && is_table_of(before[k], dir, #[trigger] front[i]);
                assert(is_table_of(before[k], dir, files[i]));
            }
        }
    }
}

/// Whether a table is the one that a file gives.
pub open spec fn is_table_of(m: MetaModel, dir: Seq<char>, f: ListedModel) -> bool {
    &&& gives_table(f)
    &&& zonemap_seq_of(f.name) == Some(m.seq)
    &&& f.zone_map == Some(m.zone_map)
    &&& m.dir == dir
}

/// Whether the table of a file is among tables.
pub open spec fn has_table(metas: Seq<MetaModel>, dir: Seq<char>, f: ListedModel) -> bool {
    exists|k: int| 0 <= k < metas.len() && is_table_of(#[trigger] metas[k], dir, f)
}

/// Whether a table is that of a file of a listing.
pub open spec fn is_listed(files: Seq<ListedModel>, m: MetaModel, dir: Seq<char>) -> bool {
    exists|i: int| 0 <= i < files.len() && is_table_of(m, dir, #[trigger] files[i])
}

proof fn lemma_two_digits(n: nat)
    requires
        n < 100,
    ensures
        padded_decimal(n, 2).len() == 2,
{
    reveal_with_fuel(decimal, 3);
}

proof fn lemma_four_digits(n: nat)
    requires
        n < 10_000,
    ensures
        padded_decimal(n, 4).len() == 4,
{
    reveal_with_fuel(decimal, 5);
}

/// The name of a partition's directory reads back: four digits of the year, and two each of
/// the month, the day and the hour at which the partition starts.
pub proof fn directory_names_read_back(key: PartitionKey)
    requires
        ({
            let (year, month, day, hour) = utc_hour((key.0 / 1_000_000_000) as int);
            0 <= year < 10_000 && 0 <= month < 100 && 0 <= day < 100 && 0 <= hour < 100
        }),
    ensures
        ({
            let (year, month, day, hour) = utc_hour((key.0 / 1_000_000_000) as int);
            let name = dir_name_of(key);
            &&& name.len() == 10
            &&& u64_of(name.subrange(0, 4)) == Some(year as u64)
            &&& u64_of(name.subrange(4, 6)) == Some(month as u64)
            &&& u64_of(name.subrange(6, 8)) == Some(day as u64)
            &&& u64_of(name.subrange(8, 10)) == Some(hour as u64)
        }),
{
    let (year, month, day, hour) = utc_hour((key.0 / 1_000_000_000) as int);
    let name = dir_name_of(key);
    lemma_four_digits(year as nat);
    lemma_two_digits(month as nat);
    lemma_two_digits(day as nat);
    lemma_two_digits(hour as nat);
    crate::text::padded_decimal_reads_back(year as u64, 4);
    crate::text::padded_decimal_reads_back(month as u64, 2);
    crate::text::padded_decimal_reads_back(day as u64, 2);
    crate::text::padded_decimal_reads_back(hour as u64, 2);
    assert(name.subrange(0, 4) =~= padded_decimal(year as nat, 4));
    assert(name.subrange(4, 6) =~= padded_decimal(month as nat, 2));
    assert(name.subrange(6, 8) =~= padded_decimal(day as nat, 2));
    assert(name.subrange(8, 10) =~= padded_decimal(hour as nat, 2));
}

} // verus!
