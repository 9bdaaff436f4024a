//! In-memory sorted table.
//!
//! Rows are kept in the order of their keys, which order by time first, so that a
//! flush writes sorted files without sorting.

use crate::common::model::{LogRecord, MetricPoint, SignalType, SpanRecord};
use vstd::prelude::*;

verus! {

/// The key of a row: time, then signal, then the order of arrival.
#[derive(Debug, Clone, Copy, PartialEq, Eq, Structural)]
pub struct RowKey {
    pub timestamp_ns: u64,
    pub signal_type: u8,
    pub sequence: u64,
}

/// The bytes that a key takes in memory.
pub const ROW_KEY_SIZE: usize = 24;

/// Whether key `a` comes before key `b`.
pub open spec fn key_less(a: RowKey, b: RowKey) -> bool {
    a.timestamp_ns < b.timestamp_ns || (a.timestamp_ns == b.timestamp_ns && (a.signal_type
        < b.signal_type || (a.signal_type == b.signal_type && a.sequence < b.sequence)))
}

impl RowKey {
    /// Whether this key comes before another.
    pub fn is_before(&self, other: &RowKey) -> (yes: bool)
        ensures
            yes == key_less(*self, *other),
    {
        self.timestamp_ns < other.timestamp_ns || (self.timestamp_ns == other.timestamp_ns && (
        self.signal_type < other.signal_type || (self.signal_type == other.signal_type
            && self.sequence < other.sequence)))
    }
}

/// A row as mathematical values.
pub type Row = (RowKey, Seq<u8>);

/// The rows of a list.
pub open spec fn row_views(v: Seq<(RowKey, Vec<u8>)>) -> Seq<Row> {
    v.map_values(|r: (RowKey, Vec<u8>)| (r.0, r.1@))
}

/// Whether the keys ascend, so that no key occurs twice.
pub open spec fn keys_ascend(rows: Seq<Row>) -> bool {
    forall|i: int, j: int|
        0 <= i < j < rows.len() ==> key_less((#[trigger] rows[i]).0, (#[trigger] rows[j]).0)
}

/// How many rows have a key before `k`.
pub open spec fn rank(rows: Seq<Row>, k: RowKey) -> nat
    decreases rows.len(),
{
    if rows.len() == 0 {
        0
    } else {
        rank(rows.drop_last(), k) + (if key_less(rows.last().0, k) {
            1nat
        } else {
            0
        })
    }
}

/// The rows after inserting one.
pub open spec fn insert_row(rows: Seq<Row>, k: RowKey, data: Seq<u8>) -> Seq<Row> {
    rows.insert(rank(rows, k) as int, (k, data))
}

/// The rows of one signal, in key order.
pub open spec fn rows_of_signal(rows: Seq<Row>, signal: u8) -> Seq<Row> {
    rows.filter(|r: Row| r.0.signal_type == signal)
}

proof fn lemma_rank_at(rows: Seq<Row>, k: RowKey, p: int)
    requires
        0 <= p <= rows.len(),
        forall|i: int| 0 <= i < p ==> key_less((#[trigger] rows[i]).0, k),
        forall|i: int| p <= i < rows.len() ==> !key_less((#[trigger] rows[i]).0, k),
    ensures
        rank(rows, k) == p,
    decreases rows.len(),
{
    if rows.len() > 0 {
        let front = rows.drop_last();
        assert(forall|i: int| 0 <= i < front.len() ==> front[i] == rows[i]);
        assert(rows.last() == rows[rows.len() - 1]);
        lemma_rank_at(front, k, if p == rows.len() { p - 1 } else { p });
    }
}

/// Rows in memory, and the bytes they take.
#[derive(Debug)]
pub struct MemTable {
    rows: Vec<(RowKey, Vec<u8>)>,
    size_bytes: usize,
    max_size: usize,
    sequence: u64,
}

impl View for MemTable {
    type V = Seq<Row>;

    closed spec fn view(&self) -> Seq<Row> {
        row_views(self.rows@)
    }
}

impl MemTable {
    /// The bytes that the rows take.
    pub closed spec fn size(&self) -> usize {
        self.size_bytes
    }

    /// The size at which the table is full.
    pub closed spec fn limit(&self) -> usize {
        self.max_size
    }

    /// The sequence number of the next row.
    pub closed spec fn next_sequence(&self) -> u64 {
        self.sequence
    }

    /// Keys ascend, and every row's sequence number has been given out.
    pub open spec fn wf(&self) -> bool {
        &&& keys_ascend(self@)
        &&& forall|i: int|
            0 <= i < self@.len() ==> (#[trigger] self@[i]).0.sequence < self.next_sequence()
    }

    /// An empty table that is full at `max_size_bytes`.
    pub fn new(max_size_bytes: usize) -> (m: MemTable)
        ensures
            m.wf(),
            m@ == Seq::<Row>::empty(),
            m.size() == 0,
            m.limit() == max_size_bytes,
            m.next_sequence() == 0,
    {
        let m = MemTable { rows: Vec::new(), size_bytes: 0, max_size: max_size_bytes, sequence: 0 };
        assert(m@ =~= Seq::<Row>::empty());
        m
    }

    /// Adds a log record in its serialised form.
    pub fn write_log(&mut self, record: &LogRecord, data: Vec<u8>)
        requires
            old(self).wf(),
            old(self).next_sequence() < u64::MAX,
        ensures
            final(self).inserted(old(self), record.timestamp_ns, SignalType::Log.code(), data@),
    {
        self.insert(record.timestamp_ns, SignalType::Log.as_u8(), data)
    }

    /// Adds a metric point in its serialised form.
    pub fn write_metric(&mut self, record: &MetricPoint, data: Vec<u8>)
        requires
            old(self).wf(),
            old(self).next_sequence() < u64::MAX,
        ensures
            final(self).inserted(old(self), record.timestamp_ns, SignalType::Metric.code(), data@),
    {
        self.insert(record.timestamp_ns, SignalType::Metric.as_u8(), data)
    }

    /// Adds a span in its serialised form.
    pub fn write_span(&mut self, record: &SpanRecord, data: Vec<u8>)
        requires
            old(self).wf(),
            old(self).next_sequence() < u64::MAX,
        ensures
            final(self).inserted(old(self), record.start_time_ns, SignalType::Span.code(), data@),
    {
        self.insert(record.start_time_ns, SignalType::Span.as_u8(), data)
    }

    /// Whether this table is `before` with one row more, which got the next sequence
    /// number. The size counts modulo the machine's word.
    pub open spec fn inserted(
        &self,
        before: &MemTable,
        timestamp_ns: u64,
        signal_type: u8,
        data: Seq<u8>,
    ) -> bool {
        let key = RowKey { timestamp_ns, signal_type, sequence: before.next_sequence() };
        &&& self.wf()
        &&& self@ == insert_row(before@, key, data)
        &&& self.size() == (before.size() + ROW_KEY_SIZE + data.len()) % (usize::MAX + 1)
        &&& self.limit() == before.limit()
        &&& self.next_sequence() == before.next_sequence() + 1
    }

    /// Adds a row with the next sequence number.
    pub(crate) fn insert(&mut self, timestamp_ns: u64, signal_type: u8, data: Vec<u8>)
        requires
            old(self).wf(),
            old(self).next_sequence() < u64::MAX,
        ensures
            final(self).inserted(old(self), timestamp_ns, signal_type, data@),
    {
        let key = RowKey { timestamp_ns, signal_type, sequence: self.sequence };
        let ghost before = self@;
        let mut lo: usize = 0;
        let mut hi: usize = self.rows.len();
        while lo < hi
            invariant
                self == old(self),
                before == self@,
                keys_ascend(before),
                lo <= hi <= before.len(),
                forall|i: int| 0 <= i < lo ==> key_less((#[trigger] before[i]).0, key),
                forall|i: int| hi <= i < before.len() ==> !key_less((#[trigger] before[i]).0, key),
            decreases hi - lo,
        {
            let mid: usize = lo + (hi - lo) / 2;
            assert(before[mid as int].0 == self.rows@[mid as int].0);
            if self.rows[mid].0.is_before(&key) {
                assert forall|i: int| 0 <= i < mid + 1 implies key_less((#[trigger] before[i]).0, key) by {
                    if i < mid {
                        assert(key_less(before[i].0, before[mid as int].0));
                    }
                }
                lo = mid + 1;
            } else {
                assert forall|i: int| mid <= i < before.len() implies !key_less((#[trigger] before[i]).0, key) by {
                    if i > mid {
                        assert(key_less(before[mid as int].0, before[i].0));
                    }
                }
                hi = mid;
            }
        }
        let ghost bytes = data@;
        let size: usize = self.size_bytes.wrapping_add(ROW_KEY_SIZE).wrapping_add(data.len());
        proof {
            lemma_rank_at(before, key, lo as int);
            let m = usize::MAX + 1;
            let a = old(self).size_bytes + ROW_KEY_SIZE;
            vstd::arithmetic::div_mod::lemma_add_mod_noop_right(bytes.len() as int, a, m);
        }
        self.rows.insert(lo, (key, data));
        self.size_bytes = size;
        self.sequence = self.sequence + 1;
        assert(self@ =~= insert_row(before, key, bytes));
        assert forall|i: int, j: int| 0 <= i < j < self@.len() implies key_less(
            (#[trigger] self@[i]).0,
            (#[trigger] self@[j]).0,
        ) by {
            let p = lo as int;
            let oi = if i < p { i } else { i - 1 };
            let oj = if j < p { j } else { j - 1 };
            if i != p && j != p {
                assert(key_less(before[oi].0, before[oj].0));
            } else if i == p {
                assert(!key_less(before[oj].0, key));
                assert(before[oj].0.sequence < old(self).next_sequence());
            } else {
                assert(key_less(before[oi].0, key));
            }
        }
        assert forall|i: int| 0 <= i < self@.len() implies (#[trigger] self@[i]).0.sequence
            < self.next_sequence() by {
            let p = lo as int;
            if i < p {
                assert(self@[i] == before[i]);
            } else if i > p {
                assert(self@[i] == before[i - 1]);
            }
        }
    }

    /// The sequence number of the next row.
    pub fn sequence(&self) -> (n: u64)
        ensures
            n == self.next_sequence(),
    {
        self.sequence
    }

    /// The bytes that the rows take.
    pub fn size_bytes(&self) -> (n: usize)
        ensures
            n == self.size(),
    {
        self.size_bytes
    }

    /// Whether the rows take as many bytes as the table may hold.
    pub fn is_full(&self) -> (yes: bool)
        ensures
            yes == (self.size() >= self.limit()),
    {
        self.size_bytes >= self.max_size
    }

    /// The number of rows.
    pub fn len(&self) -> (n: usize)
        ensures
            n == self@.len(),
    {
        self.rows.len()
    }

    /// Whether there is no row.
    pub fn is_empty(&self) -> (yes: bool)
        ensures
            yes == (self@.len() == 0),
    {
        self.rows.len() == 0
    }

    /// Copies of the rows of one signal, in key order.
    pub fn drain_signal(&self, signal_type: u8) -> (out: Vec<(RowKey, Vec<u8>)>)
        ensures
            row_views(out@) == rows_of_signal(self@, signal_type),
    {
        let ghost keep = |r: Row| r.0.signal_type == signal_type;
        let mut out: Vec<(RowKey, Vec<u8>)> = Vec::new();
        assert(row_views(out@) =~= self@.take(0).filter(keep));
        for i in 0..self.rows.len()
            invariant
                keep == |r: Row| r.0.signal_type == signal_type,
                row_views(out@) == self@.take(i as int).filter(keep),
        {
            let ghost before = row_views(out@);
            assert(self@.take(i + 1).drop_last() =~= self@.take(i as int));
            assert(self@.take(i + 1).last() == self@[i as int]);
            reveal(Seq::filter);
            if self.rows[i].0.signal_type == signal_type {
                let data = crate::bytes::copy_range(self.rows[i].1.as_slice(), 0, self.rows[i].1.len());
                assert(data@ =~= self.rows@[i as int].1@);
                out.push((self.rows[i].0, data));
                assert(row_views(out@) =~= before.push(self@[i as int]));
            }
        }
        assert(self@.take(self@.len() as int) =~= self@);
        out
    }

    /// All rows, in key order. The table is used up.
    pub fn iter_all(self) -> (out: Vec<(RowKey, Vec<u8>)>)
        ensures
            row_views(out@) == self@,
    {
        self.rows
    }
}

/// A table that is being written to disk and takes no more rows.
#[derive(Debug)]
pub struct ImmutableMemTable(pub MemTable);

impl ImmutableMemTable {
    /// Freezes a table.
    pub fn from_active(mem: MemTable) -> (out: ImmutableMemTable)
        ensures
            out.0 == mem,
    {
        ImmutableMemTable(mem)
    }
}

/// The rows of one signal come in the order of their timestamps.
pub proof fn signal_rows_are_time_ordered(rows: Seq<Row>, signal: u8)
    requires
        keys_ascend(rows),
    ensures
        keys_ascend(rows_of_signal(rows, signal)),
        forall|i: int, j: int|
            0 <= i < j < rows_of_signal(rows, signal).len() ==> (#[trigger] rows_of_signal(
                rows,
                signal,
            )[i]).0.timestamp_ns <= (#[trigger] rows_of_signal(rows, signal)[j]).0.timestamp_ns,
    decreases rows.len(),
{
    reveal(Seq::filter);
    let out = rows_of_signal(rows, signal);
    if rows.len() > 0 {
        let front = rows.drop_last();
        let keep = |r: Row| r.0.signal_type == signal;
        assert(keys_ascend(front)) by {
            assert(forall|i: int| 0 <= i < front.len() ==> front[i] == rows[i]);
        }
        signal_rows_are_time_ordered(front, signal);
        let inner = rows_of_signal(front, signal);
        assert forall|i: int, j: int| 0 <= i < j < out.len() implies key_less(
            (#[trigger] out[i]).0,
            (#[trigger] out[j]).0,
        ) by {
            if j < inner.len() {
                assert(key_less(inner[i].0, inner[j].0));
            } else {
                front.lemma_filter_contains_rev(keep, inner[i]);
                let k = choose|k: int| 0 <= k < front.len() && front[k] == inner[i];
                assert(rows[k] == inner[i]);
                assert(key_less(rows[k].0, rows[rows.len() - 1].0));
            }
        }
    }
}

/// A row is seen when its own signal is asked for, and not when another is.
pub proof fn signals_are_isolated(rows: Seq<Row>, i: int, signal: u8)
    requires
        0 <= i < rows.len(),
    ensures
        rows_of_signal(rows, signal).contains(rows[i]) <==> rows[i].0.signal_type == signal,
{
    let keep = |r: Row| r.0.signal_type == signal;
    if rows[i].0.signal_type == signal {
        rows.lemma_filter_contains(keep, i);
    }
    if rows.filter(keep).contains(rows[i]) {
        let j = choose|j: int|
            0 <= j < rows.filter(keep).len() && rows.filter(keep)[j] == rows[i];
        rows.lemma_filter_pred(keep, j);
    }
}

/// Inserting a row adds that row and keeps the others.
pub proof fn insert_row_adds_one(rows: Seq<Row>, k: RowKey, data: Seq<u8>)
    ensures
        insert_row(rows, k, data).to_multiset() == rows.to_multiset().insert((k, data)),
{
    lemma_rank_bound(rows, k);
    rows.to_multiset_ensures();
    insert_row(rows, k, data).to_multiset_ensures();
    let at = rank(rows, k) as int;
    assert(insert_row(rows, k, data).remove(at) =~= rows);
    assert(insert_row(rows, k, data)[at] == (k, data));
    assert(insert_row(rows, k, data).to_multiset() =~= rows.to_multiset().insert((k, data)));
}

proof fn lemma_rank_bound(rows: Seq<Row>, k: RowKey)
    ensures
        rank(rows, k) <= rows.len(),
    decreases rows.len(),
{
    if rows.len() > 0 {
        lemma_rank_bound(rows.drop_last(), k);
    }
}

} // verus!
