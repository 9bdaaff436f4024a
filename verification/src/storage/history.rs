//! What becomes of everything that is written to an engine.

use crate::common::model::SignalType;
use crate::storage::engine::{is_requested, took_row, FlushRequest, PartitionState, StorageEngine};
use crate::storage::memtable::{rank, rows_of_signal, MemTable, Row, RowKey};
use vstd::multiset::Multiset;
use vstd::prelude::*;

verus! {

/// The records of a signal among rows, in their serialised form.
pub open spec fn records_in(rows: Seq<Row>, signal: u8) -> Multiset<Seq<u8>>
    decreases rows.len(),
{
    if rows.len() == 0 {
        Multiset::empty()
    } else {
        let front = records_in(rows.drop_last(), signal);
        if rows.last().0.signal_type == signal {
            front.insert(rows.last().1)
        } else {
            front
        }
    }
}

/// The records of a signal that a partition has in memory.
pub open spec fn records_held(known: Map<u64, PartitionState>, k: u64, signal: SignalType) -> Multiset<
    Seq<u8>,
> {
    if known.contains_key(k) {
        match known[k].mem {
            Some(m) => records_in(m@, signal.code()),
            None => Multiset::empty(),
        }
    } else {
        Multiset::empty()
    }
}

/// The records of a signal that a request has for a partition.
pub open spec fn records_requested(r: FlushRequest, k: u64, signal: SignalType) -> Multiset<
    Seq<u8>,
> {
    if r.key.0 == k {
        records_in(r.imm.0@, signal.code())
    } else {
        Multiset::empty()
    }
}

/// The records of a signal that requests have for a partition.
pub open spec fn all_records_requested(v: Seq<FlushRequest>, k: u64, signal: SignalType) -> Multiset<
    Seq<u8>,
>
    decreases v.len(),
{
    if v.len() == 0 {
        Multiset::empty()
    } else {
        all_records_requested(v.drop_last(), k, signal).add(
            records_requested(v.last(), k, signal),
        )
    }
}

/// The number of rows of a signal that requests have for a partition.
pub open spec fn all_rows_requested(v: Seq<FlushRequest>, k: u64, signal: SignalType) -> nat
    decreases v.len(),
{
    if v.len() == 0 {
        0
    } else {
        all_rows_requested(v.drop_last(), k, signal) + if v.last().key.0 == k {
            rows_of_signal(v.last().imm.0@, signal.code()).len()
        } else {
            0
        }
    }
}

/// What happens to an engine.
pub enum Event {
    /// A partition was taken up.
    Added(u64),
    /// A record was written; a MemTable that was full with it was handed out.
    Written { timestamp_ns: u64, signal: SignalType, data: Seq<u8>, full: Option<FlushRequest> },
    /// All that was in memory was handed out.
    Flushed(Seq<FlushRequest>),
    /// Tables were made, taken in or taken out; what is in memory stays.
    Kept,
}

/// Whether an event leads from one engine to another, as the engine's functions say.
pub open spec fn leads_to(before: StorageEngine, e: Event, after: StorageEngine) -> bool {
    &&& before.wf()
    &&& after.width() == before.width()
    &&& match e {
        Event::Added(key) => {
            &&& !before.known().contains_key(key)
            &&& after.known().dom() == before.known().dom().insert(key)
            &&& forall|k: u64|
                k != key && before.known().contains_key(k) ==> #[trigger] after.known()[k]
                    == before.known()[k]
            &&& after.known()[key].mem is None
        },
        Event::Written { timestamp_ns, signal, data, full } => before.has_room(
            timestamp_ns,
            data.len(),
        ) && before.committed(&after, timestamp_ns, signal, data, full),
        Event::Flushed(requests) => {
            &&& before.all_requests(requests)
            &&& after.known().dom() == before.known().dom()
            &&& forall|k: u64|
                before.known().contains_key(k) ==> (#[trigger] after.known()[k]).mem is None
        },
        Event::Kept => {
            &&& after.known().dom() == before.known().dom()
            &&& forall|k: u64|
                before.known().contains_key(k) ==> (#[trigger] after.known()[k]).mem
                    == before.known()[k].mem
        },
    }
}

/// Whether events lead an engine from its opening through the given states.
pub open spec fn is_history(engines: Seq<StorageEngine>, events: Seq<Event>) -> bool {
    &&& engines.len() == events.len() + 1
    &&& engines[0].known() == Map::<u64, PartitionState>::empty()
    &&& forall|i: int|
        0 <= i < events.len() ==> leads_to(#[trigger] engines[i], events[i], engines[i + 1])
}

/// The records of a signal that were written to a partition, after one more event.
pub open spec fn with_written(
    written: Multiset<Seq<u8>>,
    e: Event,
    width: u64,
    k: u64,
    signal: SignalType,
) -> Multiset<Seq<u8>> {
    match e {
        Event::Written { timestamp_ns, signal: s, data, full } => if s == signal && timestamp_ns
            - timestamp_ns % width == k {
            written.insert(data)
        } else {
            written
        },
        _ => written,
    }
}

/// The records of a signal that were written to a partition.
pub open spec fn records_written(events: Seq<Event>, width: u64, k: u64, signal: SignalType) -> Multiset<
    Seq<u8>,
>
    decreases events.len(),
{
    if events.len() == 0 {
        Multiset::empty()
    } else {
        with_written(
            records_written(events.drop_last(), width, k, signal),
            events.last(),
            width,
            k,
            signal,
        )
    }
}

/// The requests that were handed out, after one more event.
pub open spec fn with_requests(made: Seq<FlushRequest>, e: Event) -> Seq<FlushRequest> {
    match e {
        Event::Written { timestamp_ns, signal, data, full } => match full {
            Some(r) => made.push(r),
            None => made,
        },
        Event::Flushed(requests) => made + requests,
        _ => made,
    }
}

/// The requests that were handed out.
pub open spec fn requests_made(events: Seq<Event>) -> Seq<FlushRequest>
    decreases events.len(),
{
    if events.len() == 0 {
        Seq::empty()
    } else {
        with_requests(requests_made(events.drop_last()), events.last())
    }
}

// ── Lemmas ──────────────────────────────────────────────────────────────────

proof fn lemma_records_insert(rows: Seq<Row>, at: int, row: Row, signal: u8)
    requires
        0 <= at <= rows.len(),
    ensures
        records_in(rows.insert(at, row), signal) == if row.0.signal_type == signal {
            records_in(rows, signal).insert(row.1)
        } else {
            records_in(rows, signal)
        },
    decreases rows.len(),
{
    let out = rows.insert(at, row);
    if at == rows.len() {
        assert(out.drop_last() =~= rows);
        assert(out.last() == row);
    } else {
        lemma_records_insert(rows.drop_last(), at, row, signal);
        assert(out.drop_last() =~= rows.drop_last().insert(at, row));
        assert(out.last() == rows.last());
        let front = records_in(rows.drop_last(), signal);
        assert(front.insert(row.1).insert(rows.last().1) =~= front.insert(rows.last().1).insert(
            row.1,
        ));
    }
}

proof fn lemma_rank_inside(rows: Seq<Row>, k: RowKey)
    ensures
        rank(rows, k) <= rows.len(),
    decreases rows.len(),
{
    if rows.len() > 0 {
        lemma_rank_inside(rows.drop_last(), k);
    }
}

proof fn lemma_took_row(
    before: Option<MemTable>,
    after: MemTable,
    timestamp_ns: u64,
    written: SignalType,
    data: Seq<u8>,
    signal: SignalType,
)
    requires
        took_row(before, after, timestamp_ns, written, data),
    ensures
        ({
            let held = match before {
                Some(m) => records_in(m@, signal.code()),
                None => Multiset::empty(),
            };
            records_in(after@, signal.code()) == if written == signal {
                held.insert(data)
            } else {
                held
            }
        }),
{
    match before {
        Some(m) => {
            let key = RowKey {
                timestamp_ns,
                signal_type: written.code(),
                sequence: m.next_sequence(),
            };
            lemma_rank_inside(m@, key);
            lemma_records_insert(m@, rank(m@, key) as int, (key, data), signal.code());
        },
        None => {
            let key = RowKey { timestamp_ns, signal_type: written.code(), sequence: 0 };
            let none = Seq::<Row>::empty();
            lemma_records_insert(none, 0, (key, data), signal.code());
            assert(after@ =~= none.insert(0, (key, data)));
        },
    }
}

proof fn lemma_requested_push(v: Seq<FlushRequest>, r: FlushRequest, k: u64, signal: SignalType)
    ensures
        all_records_requested(v.push(r), k, signal) == all_records_requested(v, k, signal).add(
            records_requested(r, k, signal),
        ),
        all_rows_requested(v.push(r), k, signal) == all_rows_requested(v, k, signal) + (
        if r.key.0 == k {
            rows_of_signal(r.imm.0@, signal.code()).len()
        } else {
            0
        }),
{
    assert(v.push(r).drop_last() =~= v);
}

proof fn lemma_requested_concat(
    a: Seq<FlushRequest>,
    b: Seq<FlushRequest>,
    k: u64,
    signal: SignalType,
)
    ensures
        all_records_requested(a + b, k, signal) == all_records_requested(a, k, signal).add(
            all_records_requested(b, k, signal),
        ),
    decreases b.len(),
{
    let x = all_records_requested(a, k, signal);
    if b.len() == 0 {
        assert(a + b =~= a);
        assert(x.add(Multiset::empty()) =~= x);
    } else {
        lemma_requested_concat(a, b.drop_last(), k, signal);
        assert((a + b).drop_last() =~= a + b.drop_last());
        assert((a + b).last() == b.last());
        let y = all_records_requested(b.drop_last(), k, signal);
        let z = records_requested(b.last(), k, signal);
        assert(x.add(y).add(z) =~= x.add(y.add(z)));
    }
}

proof fn lemma_not_requested(v: Seq<FlushRequest>, k: u64, signal: SignalType)
    requires
        !is_requested(v, k),
    ensures
        all_records_requested(v, k, signal) == Multiset::<Seq<u8>>::empty(),
    decreases v.len(),
{
    if v.len() > 0 {
        let front = v.drop_last();
        assert(!is_requested(front, k)) by {
            if is_requested(front, k) {
                let i = choose|i: int| 0 <= i < front.len() && (#[trigger] front[i]).key.0 == k;
                assert(v[i].key.0 == k);
            }
        }
        lemma_not_requested(front, k, signal);
        assert(v[v.len() - 1].key.0 != k);
        assert(all_records_requested(v, k, signal) =~= Multiset::empty());
    }
}

proof fn lemma_requested_once(v: Seq<FlushRequest>, i: int, k: u64, signal: SignalType)
    requires
        0 <= i < v.len(),
        v[i].key.0 == k,
        forall|a: int, b: int|
            0 <= a < b < v.len() ==> (#[trigger] v[a]).key != (#[trigger] v[b]).key,
    ensures
        all_records_requested(v, k, signal) == records_in(v[i].imm.0@, signal.code()),
    decreases v.len(),
{
    let front = v.drop_last();
    let own = records_in(v[i].imm.0@, signal.code());
    if i == v.len() - 1 {
        assert(!is_requested(front, k)) by {
            if is_requested(front, k) {
                let j = choose|j: int| 0 <= j < front.len() && (#[trigger] front[j]).key.0 == k;
                assert(v[j].key != v[i].key);
            }
        }
        lemma_not_requested(front, k, signal);
        assert(Multiset::empty().add(own) =~= own);
    } else {
        assert forall|a: int, b: int| 0 <= a < b < front.len() implies (#[trigger] front[a]).key
            != (#[trigger] front[b]).key by {
            assert(v[a].key != v[b].key);
        }
        lemma_requested_once(front, i, k, signal);
        assert(v[i].key != v[v.len() - 1].key);
        assert(own.add(Multiset::empty()) =~= own);
    }
}

proof fn lemma_all_requested(
    before: StorageEngine,
    requests: Seq<FlushRequest>,
    k: u64,
    signal: SignalType,
)
    requires
        before.all_requests(requests),
    ensures
        all_records_requested(requests, k, signal) == records_held(before.known(), k, signal),
{
    if before.has_rows(k) {
        assert(is_requested(requests, k));
        let i = choose|i: int| 0 <= i < requests.len() && (#[trigger] requests[i]).key.0 == k;
        lemma_requested_once(requests, i, k, signal);
    } else {
        assert(!is_requested(requests, k)) by {
            if is_requested(requests, k) {
                let i = choose|i: int|
                    0 <= i < requests.len() && (#[trigger] requests[i]).key.0 == k;
                assert(before.has_rows(requests[i].key.0));
            }
        }
        lemma_not_requested(requests, k, signal);
        if before.known().contains_key(k) {
            if let Some(m) = before.known()[k].mem {
                assert(m@.len() == 0);
            }
        }
    }
}

proof fn lemma_written(
    before: StorageEngine,
    after: StorageEngine,
    made: Seq<FlushRequest>,
    timestamp_ns: u64,
    s: SignalType,
    data: Seq<u8>,
    full: Option<FlushRequest>,
    k: u64,
    signal: SignalType,
)
    requires
        before.wf(),
        before.committed(&after, timestamp_ns, s, data, full),
        before.has_room(timestamp_ns, data.len()),
    ensures
        ({
            let e = Event::Written { timestamp_ns, signal: s, data, full };
            let w = all_records_requested(made, k, signal).add(
                records_held(before.known(), k, signal),
            );
            with_written(w, e, before.width(), k, signal) =~= all_records_requested(
                with_requests(made, e),
                k,
                signal,
            ).add(records_held(after.known(), k, signal))
        }),
{
    let own = before.key_of(timestamp_ns);
    before.known_partition_is_well_formed(own);
    let width = before.width();
    assert(0 <= timestamp_ns % width <= timestamp_ns) by (nonlinear_arith)
        requires
            width > 0,
            timestamp_ns >= 0,
    ;
    assert(own == timestamp_ns - timestamp_ns % width);
    assert(after.known().contains_key(k) <==> before.known().contains_key(k));
    let handed = all_records_requested(made, k, signal);
    let held = records_held(before.known(), k, signal);
    let now = records_held(after.known(), k, signal);
    if own == k {
        let mem = before.known()[k].mem;
        assert(handed.add(held.insert(data)) =~= handed.add(held).insert(data));
        match full {
            None => {
                lemma_took_row(mem, after.known()[k].mem->Some_0, timestamp_ns, s, data, signal);
                assert(now == if s == signal {
                    held.insert(data)
                } else {
                    held
                });
            },
            Some(r) => {
                lemma_took_row(mem, r.imm.0, timestamp_ns, s, data, signal);
                lemma_requested_push(made, r, k, signal);
                assert(after.known()[k].mem->Some_0@.len() == 0);
                assert(now == Multiset::<Seq<u8>>::empty());
                let grown = records_in(r.imm.0@, signal.code());
                assert(handed.add(grown).add(now) =~= handed.add(grown));
            },
        }
    } else {
        assert(handed.add(Multiset::empty()) =~= handed);
        if before.known().contains_key(k) {
            assert(after.known()[k] == before.known()[k]);
        }
        if let Some(r) = full {
            lemma_requested_push(made, r, k, signal);
        }
    }
}

proof fn lemma_step(
    before: StorageEngine,
    e: Event,
    after: StorageEngine,
    made: Seq<FlushRequest>,
    k: u64,
    signal: SignalType,
)
    requires
        leads_to(before, e, after),
    ensures
        ({
            let w = all_records_requested(made, k, signal).add(
                records_held(before.known(), k, signal),
            );
            with_written(w, e, before.width(), k, signal) == all_records_requested(
                with_requests(made, e),
                k,
                signal,
            ).add(records_held(after.known(), k, signal))
        }),
{
    let handed = all_records_requested(made, k, signal);
    let held = records_held(before.known(), k, signal);
    let now = records_held(after.known(), k, signal);
    match e {
        Event::Added(key) => {
            assert(after.known().contains_key(k) <==> before.known().contains_key(k) || k == key);
            assert(now == held);
        },
        Event::Written { timestamp_ns, signal: s, data, full } => {
            lemma_written(before, after, made, timestamp_ns, s, data, full, k, signal);
        },
        Event::Flushed(requests) => {
            lemma_all_requested(before, requests, k, signal);
            lemma_requested_concat(made, requests, k, signal);
            assert(after.known().contains_key(k) <==> before.known().contains_key(k));
            if before.known().contains_key(k) {
                assert(after.known()[k].mem is None);
            }
            assert(handed.add(held).add(Multiset::empty()) =~= handed.add(held));
        },
        Event::Kept => {
            assert(after.known().contains_key(k) <==> before.known().contains_key(k));
            if before.known().contains_key(k) {
                assert(after.known()[k].mem == before.known()[k].mem);
            }
            assert(now == held);
        },
    }
}

proof fn lemma_history(engines: Seq<StorageEngine>, events: Seq<Event>, k: u64, signal: SignalType)
    requires
        is_history(engines, events),
    ensures
        engines.last().width() == engines[0].width(),
        records_written(events, engines[0].width(), k, signal) == all_records_requested(
            requests_made(events),
            k,
            signal,
        ).add(records_held(engines.last().known(), k, signal)),
    decreases events.len(),
{
    if events.len() == 0 {
        assert(Multiset::<Seq<u8>>::empty().add(Multiset::empty()) =~= Multiset::empty());
    } else {
        let n = events.len() - 1;
        let earlier = engines.drop_last();
        let front = events.drop_last();
        assert(is_history(earlier, front)) by {
            assert forall|i: int| 0 <= i < front.len() implies leads_to(
                #[trigger] earlier[i],
                front[i],
                earlier[i + 1],
            ) by {
                assert(leads_to(engines[i], events[i], engines[i + 1]));
            }
        }
        lemma_history(earlier, front, k, signal);
        assert(leads_to(engines[n], events[n], engines[n + 1]));
        assert(earlier.last() == engines[n]);
        lemma_step(engines[n], events[n], engines[n + 1], requests_made(front), k, signal);
    }
}

proof fn lemma_records_are_rows(rows: Seq<Row>, signal: u8)
    ensures
        records_in(rows, signal).len() == rows_of_signal(rows, signal).len(),
    decreases rows.len(),
{
    reveal(Seq::filter);
    if rows.len() > 0 {
        lemma_records_are_rows(rows.drop_last(), signal);
    }
}

proof fn lemma_records_count(v: Seq<FlushRequest>, k: u64, signal: SignalType)
    ensures
        all_records_requested(v, k, signal).len() == all_rows_requested(v, k, signal),
    decreases v.len(),
{
    if v.len() > 0 {
        lemma_records_count(v.drop_last(), k, signal);
        lemma_records_are_rows(v.last().imm.0@, signal.code());
    }
}

// ── Laws ────────────────────────────────────────────────────────────────────

/// Whatever was written to an engine since it was opened has been handed out for flushing
/// when it is closed, each record once and under the key of its partition: the requests that
/// were made before and the last ones, `requests`, hold together the records that were
/// written, and as many rows of each signal as there were records.
pub proof fn every_written_record_is_handed_out(
    engines: Seq<StorageEngine>,
    events: Seq<Event>,
    requests: Seq<FlushRequest>,
    k: u64,
    signal: SignalType,
)
    requires
        is_history(engines, events),
        engines.last().all_requests(requests),
    ensures
        ({
            let written = records_written(events, engines[0].width(), k, signal);
            let all = requests_made(events) + requests;
            &&& all_records_requested(all, k, signal) == written
            &&& all_rows_requested(all, k, signal) == written.len()
        }),
{
    let made = requests_made(events);
    lemma_history(engines, events, k, signal);
    lemma_all_requested(engines.last(), requests, k, signal);
    lemma_requested_concat(made, requests, k, signal);
    lemma_records_count(made + requests, k, signal);
}

/// Where a record was written, there is a request with a row for its partition and signal.
pub proof fn a_written_record_makes_a_table(
    v: Seq<FlushRequest>,
    k: u64,
    signal: SignalType,
)
    requires
        all_rows_requested(v, k, signal) > 0,
    ensures
        exists|i: int|
            0 <= i < v.len() && (#[trigger] v[i]).key.0 == k && rows_of_signal(
                v[i].imm.0@,
                signal.code(),
            ).len() > 0,
    decreases v.len(),
{
    let last = v[v.len() - 1];
    if last.key.0 == k && rows_of_signal(last.imm.0@, signal.code()).len() > 0 {
    } else {
        let front = v.drop_last();
        a_written_record_makes_a_table(front, k, signal);
        let i = choose|i: int|
            0 <= i < front.len() && (#[trigger] front[i]).key.0 == k && rows_of_signal(
                front[i].imm.0@,
                signal.code(),
            ).len() > 0;
        assert(v[i] == front[i]);
    }
}

} // verus!
