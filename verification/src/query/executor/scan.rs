//! Scans: the batches of a table that were read, and what is kept of them.

use crate::common::model::SignalType;
use crate::common::schema::{
    log_fields, log_schema, metric_fields, metric_schema, span_fields, span_schema, FieldModel,
    Schema,
};
use crate::query::ast::{opt_expr, Expr, ExprModel};
use crate::columnar::batch::{
    batch_filtered, batch_views, batch_wf, batches_fit, rows_total, Batch, BatchModel,
};
use crate::query::catalog::{unknown_table, unknown_table_text};
use crate::query::error::QueryError;
use crate::query::executor::operator::ScanOperator;
use crate::query::functions::compute::{reports_eval, EvalFault};
use crate::query::functions::eval::{eval_filter, filter_of};
use crate::query::planner::{ScanModel, ScanOp};
use crate::storage::engine::{covers, paths_of, signal_of_code, PartitionState, StorageEngine};
use crate::text::{str_eq, views};
use vstd::prelude::*;

verus! {

/// The columns of a table.
pub open spec fn table_fields(table: Seq<char>) -> Option<Seq<FieldModel>> {
    if table == "logs"@ {
        Some(log_fields())
    } else if table == "metrics"@ {
        Some(metric_fields())
    } else if table == "traces"@ {
        Some(span_fields())
    } else {
        None
    }
}

/// The byte of the signal that a table holds.
pub open spec fn table_signal(table: Seq<char>) -> Option<u8> {
    if table == "logs"@ {
        Some(0)
    } else if table == "metrics"@ {
        Some(1)
    } else if table == "traces"@ {
        Some(2)
    } else {
        None
    }
}

/// The columns of a table; an error if it is not known.
pub fn schema_for_table(table: &str) -> (out: Result<Schema, QueryError>)
    ensures
        match out {
            Ok(s) => table_fields(table@) == Some(s@),
            Err(e) => table_fields(table@) is None && (e matches QueryError::Bind(m) && m@
                == unknown_table_text(table@)),
        },
{
    if str_eq(table, "logs") {
        Ok(log_schema())
    } else if str_eq(table, "metrics") {
        Ok(metric_schema())
    } else if str_eq(table, "traces") {
        Ok(span_schema())
    } else {
        Err(unknown_table(table))
    }
}

/// The byte of the signal that a table holds; an error if it is not known.
pub fn signal_for_table(table: &str) -> (out: Result<u8, QueryError>)
    ensures
        match out {
            Ok(s) => table_signal(table@) == Some(s),
            Err(e) => table_signal(table@) is None && (e matches QueryError::Bind(m) && m@
                == unknown_table_text(table@)),
        },
{
    if str_eq(table, "logs") {
        Ok(0)
    } else if str_eq(table, "metrics") {
        Ok(1)
    } else if str_eq(table, "traces") {
        Ok(2)
    } else {
        Err(unknown_table(table))
    }
}

/// The column files that a scan reads: those of the partitions that it is restricted to,
/// and those of all partitions, in an order that is left open, where it is not restricted.
pub fn scan_paths(scan: &ScanOp, storage: &StorageEngine) -> (out: Result<Vec<String>, QueryError>)
    requires
        storage.wf(),
    ensures
        match out {
            Ok(paths) => {
                &&& table_signal(scan.table@) is Some
                &&& signal_of_code(table_signal(scan.table@)->Some_0) is Some
                &&& reads_files(
                    scan@,
                    storage.known(),
                    signal_of_code(table_signal(scan.table@)->Some_0)->Some_0,
                    views(paths@),
                )
            },
            Err(e) => table_signal(scan.table@) is None && (e matches QueryError::Bind(m) && m@
                == unknown_table_text(scan.table@)),
        },
{
    let signal: u8 = match signal_for_table(scan.table.as_str()) {
        Ok(s) => s,
        Err(e) => return Err(e),
    };
    match &scan.partition_filter {
        Some(keys) => {
            let sig = if signal == 0 {
                SignalType::Log
            } else if signal == 1 {
                SignalType::Metric
            } else {
                SignalType::Span
            };
            Ok(storage.paths_in(keys, sig))
        },
        None => {
            let all: Vec<u64> = Vec::new();
            Ok(storage.sstable_paths_for_signal(signal, &all))
        },
    }
}

/// Whether paths are the column files that a scan reads.
pub open spec fn reads_files(
    s: ScanModel,
    known: Map<u64, PartitionState>,
    sig: SignalType,
    paths: Seq<Seq<char>>,
) -> bool {
    match s.partition_filter {
        Some(keys) => paths == paths_of(known, keys, sig),
        None => exists|keys: Seq<u64>|
            #[trigger] covers(keys, known) && paths == paths_of(known, keys, sig),
    }
}

/// The outcome of reading one batch: the batch, or the message of the reader.
pub type Loaded = Result<Batch, String>;

/// The outcome of reading one batch as a mathematical value.
pub type LoadedModel = Result<BatchModel, Seq<char>>;

/// The outcome of reading one batch as a mathematical value.
pub open spec fn loaded_view(l: Loaded) -> LoadedModel {
    match l {
        Ok(b) => Ok(b@),
        Err(m) => Err(m@),
    }
}

/// The outcomes of a list.
pub open spec fn loaded_views(v: Seq<Loaded>) -> Seq<LoadedModel> {
    v.map_values(|l: Loaded| loaded_view(l))
}

/// Whether what was read are well-formed batches of the given columns.
pub open spec fn loaded_fit(v: Seq<LoadedModel>, schema: Seq<FieldModel>) -> bool {
    forall|i: int|
        0 <= i < v.len() ==> ((#[trigger] v[i]) matches Ok(b) ==> batch_wf(b) && b.schema == schema)
}

/// What a condition leaves of a batch; all of it, if there is no condition.
pub open spec fn selected(b: BatchModel, predicate: Option<ExprModel>, now_ns: i64) -> Result<
    Option<BatchModel>,
    EvalFault,
> {
    match predicate {
        None => Ok(Some(b)),
        Some(e) => match filter_of(b, e, now_ns) {
            Err(f) => Err(f),
            Ok(mask) => match batch_filtered(b, mask) {
                Err(t) => Err(EvalFault::Arrow(t)),
                Ok(out) => Ok(
                    if out.rows > 0 {
                        Some(out)
                    } else {
                        None
                    },
                ),
            },
        },
    }
}

/// What a condition leaves of the batches that were read. Batches of which it leaves
/// nothing are dropped. The first fault, of the reader or of the condition, ends it.
pub open spec fn scanned(v: Seq<LoadedModel>, predicate: Option<ExprModel>, now_ns: i64) -> Result<
    Seq<BatchModel>,
    EvalFault,
>
    decreases v.len(),
{
    if v.len() == 0 {
        Ok(Seq::empty())
    } else {
        match scanned(v.drop_last(), predicate, now_ns) {
            Err(f) => Err(f),
            Ok(front) => match v.last() {
                Err(m) => Err(EvalFault::Execution(m)),
                Ok(b) => match selected(b, predicate, now_ns) {
                    Err(f) => Err(f),
                    Ok(Some(out)) => Ok(front.push(out)),
                    Ok(None) => Ok(front),
                },
            },
        }
    }
}

/// The first batches that together have `limit` rows or more, or all.
pub open spec fn first_rows(v: Seq<BatchModel>, limit: nat) -> Seq<BatchModel>
    decreases v.len(),
{
    if v.len() == 0 {
        v
    } else {
        let front = first_rows(v.drop_last(), limit);
        if rows_total(front) >= limit {
            front
        } else {
            front.push(v.last())
        }
    }
}

/// The batches that a scan gives out.
pub open spec fn scan_result(s: ScanModel, v: Seq<LoadedModel>, now_ns: i64) -> Result<
    Seq<BatchModel>,
    EvalFault,
> {
    match scanned(v, s.predicate, now_ns) {
        Err(f) => Err(f),
        Ok(all) => match s.limit {
            None => Ok(all),
            Some(n) => Ok(first_rows(all, n as nat)),
        },
    }
}

proof fn lemma_scan_fails(v: Seq<LoadedModel>, predicate: Option<ExprModel>, now_ns: i64, n: int)
    requires
        0 <= n <= v.len(),
        scanned(v.take(n), predicate, now_ns) is Err,
    ensures
        scanned(v, predicate, now_ns) == scanned(v.take(n), predicate, now_ns),
    decreases v.len() - n,
{
    if n < v.len() {
        assert(v.take(n + 1).drop_last() =~= v.take(n));
        lemma_scan_fails(v, predicate, now_ns, n + 1);
    } else {
        assert(v.take(n) =~= v);
    }
}

fn select_rows(b: Batch, predicate: &Option<Expr>, now_ns: i64) -> (out: Result<
    Option<Batch>,
    QueryError,
>)
    requires
        batch_wf(b@),
    ensures
        match (out, selected(b@, opt_expr(*predicate), now_ns)) {
            (Ok(Some(x)), Ok(Some(m))) => x@ == m && batch_wf(m) && m.schema == b@.schema,
            (Ok(None), Ok(None)) => true,
            (Err(e), Err(f)) => reports_eval(e, f),
            _ => false,
        },
{
    match predicate {
        None => Ok(Some(b)),
        Some(e) => {
            let mask = match eval_filter(&b, e, now_ns) {
                Ok(m) => m,
                Err(e) => return Err(e),
            };
            match b.filter(&mask) {
                Ok(out) => if out.rows > 0 {
                    Ok(Some(out))
                } else {
                    Ok(None)
                },
                Err(t) => Err(QueryError::Arrow(t)),
            }
        },
    }
}

/// What a condition leaves of the batches that were read.
#[verifier::loop_isolation(false)]
fn load_batches(
    loaded: Vec<Loaded>,
    predicate: &Option<Expr>,
    now_ns: i64,
    Ghost(schema): Ghost<Seq<FieldModel>>,
) -> (out: Result<Vec<Batch>, QueryError>)
    requires
        loaded_fit(loaded_views(loaded@), schema),
    ensures
        match (out, scanned(loaded_views(loaded@), opt_expr(*predicate), now_ns)) {
            (Ok(v), Ok(m)) => batch_views(v@) == m && batches_fit(m, schema),
            (Err(e), Err(f)) => reports_eval(e, f),
            _ => false,
        },
{
    let ghost all = loaded_views(loaded@);
    let ghost pred = opt_expr(*predicate);
    let mut rest = loaded;
    let mut out: Vec<Batch> = Vec::new();
    let ghost mut n: int = 0;
    assert(batch_views(out@) =~= Seq::empty());
    assert(all.skip(0) =~= all);
    assert(all.take(0) =~= Seq::empty());
    while rest.len() > 0
        invariant
            0 <= n <= all.len(),
            pred == opt_expr(*predicate),
            loaded_views(rest@) == all.skip(n),
            loaded_fit(all, schema),
            scanned(all.take(n), pred, now_ns) == Ok::<Seq<BatchModel>, EvalFault>(
                batch_views(out@),
            ),
            batches_fit(batch_views(out@), schema),
        decreases rest@.len(),
    {
        assert(loaded_views(rest@).len() == rest@.len());
        let ghost before = rest@;
        let ghost kept = batch_views(out@);
        let item = rest.remove(0);
        assert(loaded_view(item) == loaded_views(before)[0]);
        assert(loaded_view(item) == all[n]);
        assert(loaded_views(rest@) =~= all.skip(n).skip(1));
        assert(loaded_views(rest@) =~= all.skip(n + 1));
        assert(all.take(n + 1).drop_last() =~= all.take(n));
        assert(all.take(n + 1).last() == all[n]);
        match item {
            Err(m) => {
                proof {
                    lemma_scan_fails(all, pred, now_ns, n + 1);
                }
                return Err(QueryError::Execution(m));
            },
            Ok(b) => match select_rows(b, predicate, now_ns) {
                Err(e) => {
                    proof {
                        lemma_scan_fails(all, pred, now_ns, n + 1);
                    }
                    return Err(e);
                },
                Ok(Some(b)) => {
                    let ghost m = b@;
                    out.push(b);
                    assert(batch_views(out@) =~= kept.push(m));
                },
                Ok(None) => {},
            },
        }
        proof {
            n = n + 1;
        }
    }
    assert(loaded_views(rest@).len() == 0);
    assert(all.take(n) =~= all);
    Ok(out)
}

/// Keeps the first batches that together have `limit` rows or more.
fn keep_first(batches: Vec<Batch>, limit: u64, Ghost(schema): Ghost<Seq<FieldModel>>) -> (out: Vec<
    Batch,
>)
    requires
        batches_fit(batch_views(batches@), schema),
    ensures
        batch_views(out@) == first_rows(batch_views(batches@), limit as nat),
        batches_fit(batch_views(out@), schema),
{
    let ghost all = batch_views(batches@);
    let mut rest = batches;
    let mut out: Vec<Batch> = Vec::new();
    let mut total: u64 = 0;
    let ghost mut n: int = 0;
    assert(batch_views(out@) =~= Seq::empty());
    assert(all.skip(0) =~= all);
    assert(all.take(0) =~= Seq::empty());
    while rest.len() > 0
        invariant
            0 <= n <= all.len(),
            batch_views(rest@) == all.skip(n),
            batches_fit(all, schema),
            batch_views(out@) == first_rows(all.take(n), limit as nat),
            batches_fit(batch_views(out@), schema),
            total == rows_total(batch_views(out@)) || (total == u64::MAX && rows_total(
                batch_views(out@),
            ) > u64::MAX),
        decreases rest@.len(),
    {
        assert(batch_views(rest@).len() == rest@.len());
        let ghost before = rest@;
        let ghost kept = batch_views(out@);
        let b = rest.remove(0);
        assert(b@ == batch_views(before)[0]);
        assert(b@ == all[n]);
        assert(batch_views(rest@) =~= all.skip(n).skip(1));
        assert(batch_views(rest@) =~= all.skip(n + 1));
        assert(all.take(n + 1).drop_last() =~= all.take(n));
        assert(all.take(n + 1).last() == all[n]);
        assert(batch_wf(all[n]) && all[n].schema == schema);
        if total < limit {
            let ghost m = b@;
            total = total.saturating_add(b.rows as u64);
            out.push(b);
            assert(batch_views(out@) =~= kept.push(m));
            assert(batch_views(out@).drop_last() =~= kept);
        }
        proof {
            n = n + 1;
        }
    }
    assert(batch_views(rest@).len() == 0);
    assert(all.take(n) =~= all);
    out
}

impl ScanOperator {
    /// A scan of a table over the batches that were read of it. An error if the table is
    /// not known, if a batch could not be read, or if the condition cannot be computed.
    pub fn new(op: ScanOp, batch_size: usize, loaded: Vec<Loaded>, now_ns: i64) -> (out: Result<
        ScanOperator,
        QueryError,
    >)
        requires
            table_fields(op.table@) matches Some(s) ==> loaded_fit(loaded_views(loaded@), s),
        ensures
            match table_fields(op.table@) {
                None => out matches Err(QueryError::Bind(m)) && m@ == unknown_table_text(op.table@),
                Some(schema) => match (out, scan_result(op@, loaded_views(loaded@), now_ns)) {
                    (Ok(s), Ok(v)) => s.schema@ == schema && batch_views(s.batches@) == v
                        && batches_fit(v, schema) && s.batch_size == batch_size,
                    (Err(e), Err(f)) => reports_eval(e, f),
                    _ => false,
                },
            },
    {
        let schema = match schema_for_table(op.table.as_str()) {
            Ok(s) => s,
            Err(e) => return Err(e),
        };
        let all = match load_batches(loaded, &op.predicate, now_ns, Ghost(schema@)) {
            Ok(v) => v,
            Err(e) => return Err(e),
        };
        let batches = match op.limit {
            None => all,
            Some(n) => keep_first(all, n, Ghost(schema@)),
        };
        Ok(ScanOperator { schema, batches, batch_size })
    }
}

// ── Laws ────────────────────────────────────────────────────────────────────

/// A scan with a limit gives out at least that many rows, if the table has them.
pub proof fn scan_limit_keeps_enough_rows(v: Seq<BatchModel>, limit: nat)
    ensures
        rows_total(first_rows(v, limit)) >= limit || first_rows(v, limit) == v,
        first_rows(v, limit).len() <= v.len(),
        first_rows(v, limit) == v.take(first_rows(v, limit).len() as int),
    decreases v.len(),
{
    if v.len() > 0 {
        let front = v.drop_last();
        scan_limit_keeps_enough_rows(front, limit);
        let kept = first_rows(front, limit);
        if rows_total(kept) >= limit {
            assert(kept =~= v.take(kept.len() as int));
        } else {
            assert(kept == front);
            assert(front.push(v.last()) =~= v);
            assert(v.take(v.len() as int) =~= v);
        }
    } else {
        assert(v.take(0) =~= v);
    }
}

} // verus!
