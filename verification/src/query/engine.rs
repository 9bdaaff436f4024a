//! Queries from text to result.
//!
//! A query is first turned into a plan. The batches of the table that the plan scans are
//! then read, and the plan is run over them.

use crate::query::ast::{ExprModel, SelectModel};
use crate::columnar::batch::{batch_filtered, batch_views, rows_total, Batch, BatchModel};
use crate::query::catalog::{Catalog, DescModel};
use crate::query::error::QueryError;
use crate::query::executor::operator::{
    behind_first, filtered_stream, lemma_rows_first, limited_stream, stream_of_list, with_first,
    Stream,
};
use crate::query::executor::scan::{
    first_rows, loaded_views, scan_limit_keeps_enough_rows, scan_result, scanned, selected,
    table_fields, Loaded, LoadedModel,
};
use crate::query::executor::tree::{
    build, loaded_for, plan_stream, reports_build, BuildFault,
};
use crate::query::functions::compute::EvalFault;
use crate::query::functions::eval::filter_of;
use crate::query::grammar::{statement_of, ParseFault};
use crate::query::lexer::{reports_lex, tokens_end_with_eof, tokens_of, LexFault, Lexer, TokenModel};
use crate::query::optimizer::rules::predicates_pushed;
use crate::query::optimizer::{optimized, Optimizer};
use crate::query::parser::{reports_parse, Parser};
use crate::query::planner::{
    join_strategy_of, rows_countable, select_plan, PhysicalPlan, PlanModel, Planner, ScanModel,
    BATCH_SIZE,
};
use vstd::prelude::*;

verus! {

/// Why there is no plan for a query.
pub enum QueryFault {
    Lex(LexFault),
    Parse(ParseFault),
    /// The rows of the tables of a join cannot be counted.
    Uncountable,
}

/// The statement that a text writes.
pub open spec fn statement_in(text: Seq<char>) -> Result<SelectModel, QueryFault> {
    match tokens_of(text) {
        Err(f) => Err(QueryFault::Lex(f)),
        Ok(t) => match statement_of(t, 0) {
            Err(f) => Err(QueryFault::Parse(f)),
            Ok(s) => Ok(s),
        },
    }
}

/// The plan of a query over the tables of a catalog, at the time `now_ns`.
pub open spec fn query_plan(text: Seq<char>, tables: Seq<DescModel>, now_ns: i64) -> Result<
    PlanModel,
    QueryFault,
> {
    match statement_in(text) {
        Err(f) => Err(f),
        Ok(s) => {
            let p = optimized(select_plan(s), tables, now_ns);
            if rows_countable(p, tables) {
                Ok(p)
            } else {
                Err(QueryFault::Uncountable)
            }
        },
    }
}

/// Whether `e` reports the fault `f`.
pub open spec fn reports_query(e: QueryError, f: QueryFault) -> bool {
    match f {
        QueryFault::Lex(x) => reports_lex(e, x),
        QueryFault::Parse(x) => reports_parse(e, x),
        QueryFault::Uncountable => e matches QueryError::Abort(t) && t@
            == "attempt to add with overflow"@,
    }
}

/// The plan of a query over the tables of a catalog, at the time `now_ns`.
pub fn prepare(sql: &str, catalog: &Catalog, now_ns: i64) -> (out: Result<PhysicalPlan, QueryError>)
    ensures
        match (out, query_plan(sql@, catalog@, now_ns)) {
            (Ok(p), Ok(m)) => p.logical@ == m && p.join_strategy == join_strategy_of(m, catalog@)
                && p.batch_size == BATCH_SIZE,
            (Err(e), Err(f)) => reports_query(e, f),
            _ => false,
        },
{
    let mut lexer = Lexer::new(sql);
    let tokens = match lexer.tokenise() {
        Ok(t) => t,
        Err(e) => return Err(e),
    };
    proof {
        tokens_end_with_eof(
            vstd::utf8::encode_utf8(sql@),
            0,
            Seq::<TokenModel>::empty(),
        );
    }
    let mut parser = Parser::new(tokens);
    let ast = match parser.parse_statement() {
        Ok(s) => s,
        Err(e) => return Err(e),
    };
    let planner = Planner::new(catalog);
    let logical = match planner.plan_statement(ast) {
        Ok(p) => p,
        Err(e) => return Err(e),
    };
    let optimizer = Optimizer::new(catalog);
    let logical = match optimizer.optimize(logical, now_ns) {
        Ok(p) => p,
        Err(e) => return Err(e),
    };
    planner.to_physical(logical)
}

/// The batches that a plan gives, or why it does not give them all.
pub open spec fn query_result(p: PlanModel, loaded: Seq<LoadedModel>, now_ns: i64) -> Result<
    Seq<BatchModel>,
    BuildFault,
> {
    match plan_stream(p, loaded, now_ns) {
        Err(f) => Err(f),
        Ok(s) => match s.fault {
            Some(f) => Err(BuildFault::Eval(f)),
            None => Ok(s.batches),
        },
    }
}

/// Runs a plan over the batches that were read of its table.
pub fn execute(plan: PhysicalPlan, loaded: Vec<Loaded>, now_ns: i64) -> (out: Result<
    Vec<Batch>,
    QueryError,
>)
    requires
        loaded_for(plan.logical@, loaded_views(loaded@)),
    ensures
        match (out, query_result(plan.logical@, loaded_views(loaded@), now_ns)) {
            (Ok(v), Ok(m)) => batch_views(v@) == m,
            (Err(e), Err(f)) => reports_build(e, f),
            _ => false,
        },
{
    let mut op = match build(plan, loaded, now_ns) {
        Ok(op) => op,
        Err(e) => return Err(e),
    };
    op.collect(now_ns)
}

// ── Laws ────────────────────────────────────────────────────────────────────

/// Batches that were all read.
pub open spec fn all_read(v: Seq<BatchModel>) -> Seq<LoadedModel> {
    v.map_values(|b: BatchModel| Ok::<BatchModel, Seq<char>>(b))
}

proof fn lemma_filtered_push(v: Seq<BatchModel>, b: BatchModel, e: ExprModel, now_ns: i64)
    ensures
        ({
            let before = filtered_stream(stream_of_list(v), e, now_ns);
            let after = filtered_stream(stream_of_list(v.push(b)), e, now_ns);
            if before.fault is Some {
                after.fault == before.fault
            } else {
                match selected(b, Some(e), now_ns) {
                    Err(f) => after.fault == Some(f),
                    Ok(Some(out)) => after.fault is None && after.batches == before.batches.push(
                        out,
                    ),
                    Ok(None) => after.fault is None && after.batches == before.batches,
                }
            }
        }),
    decreases v.len(),
{
    let s = stream_of_list(v);
    let t = stream_of_list(v.push(b));
    if v.len() == 0 {
        assert(behind_first(t).batches =~= Seq::empty());
        let none = behind_first(t);
        assert(filtered_stream(none, e, now_ns) == none);
        match selected(b, Some(e), now_ns) {
            Ok(Some(out)) => {
                assert(with_first(out, none).batches =~= Seq::<BatchModel>::empty().push(out));
            },
            _ => {},
        }
    } else {
        lemma_filtered_push(v.skip(1), b, e, now_ns);
        assert(behind_first(t).batches =~= v.skip(1).push(b));
        assert(behind_first(s) == stream_of_list(v.skip(1)));
        assert(behind_first(t) == stream_of_list(v.skip(1).push(b)));
        let before = filtered_stream(behind_first(s), e, now_ns);
        let after = filtered_stream(behind_first(t), e, now_ns);
        match filter_of(v[0], e, now_ns) {
            Ok(mask) => match batch_filtered(v[0], mask) {
                Ok(first) => {
                    if first.rows > 0 {
                        match selected(b, Some(e), now_ns) {
                            Ok(Some(out)) => {
                                if before.fault is None {
                                    assert(with_first(first, after).batches =~= with_first(
                                        first,
                                        before,
                                    ).batches.push(out));
                                }
                            },
                            _ => {},
                        }
                    }
                },
                Err(_) => {},
            },
            Err(_) => {},
        }
    }
}

proof fn lemma_filter_is_scan(v: Seq<BatchModel>, e: ExprModel, now_ns: i64)
    ensures
        ({
            let s = filtered_stream(stream_of_list(v), e, now_ns);
            match scanned(all_read(v), Some(e), now_ns) {
                Err(f) => s.fault == Some(f),
                Ok(m) => s.fault is None && s.batches == m,
            }
        }),
    decreases v.len(),
{
    if v.len() > 0 {
        let front = v.drop_last();
        lemma_filter_is_scan(front, e, now_ns);
        lemma_filtered_push(front, v.last(), e, now_ns);
        assert(front.push(v.last()) =~= v);
        assert(all_read(v).drop_last() =~= all_read(front));
        assert(all_read(v).last() == Ok::<BatchModel, Seq<char>>(v.last()));
    } else {
        assert(all_read(v) =~= Seq::empty());
        assert(v =~= Seq::empty());
    }
}

proof fn lemma_scan_all(v: Seq<BatchModel>, now_ns: i64)
    ensures
        scanned(all_read(v), None, now_ns) == Ok::<Seq<BatchModel>, EvalFault>(v),
    decreases v.len(),
{
    if v.len() > 0 {
        lemma_scan_all(v.drop_last(), now_ns);
        assert(all_read(v).drop_last() =~= all_read(v.drop_last()));
        assert(v.drop_last().push(v.last()) =~= v);
    } else {
        assert(v =~= Seq::empty());
    }
}

/// Moving a filter into the scan below it does not change the result, where the scan has no
/// limit of its own and all batches could be read. A scan that has a condition already is
/// left as it is.
pub proof fn pushing_a_filter_keeps_the_result(
    s: ScanModel,
    predicate: ExprModel,
    v: Seq<BatchModel>,
    now_ns: i64,
)
    requires
        s.limit is None || s.predicate is Some,
    ensures
        ({
            let above = PlanModel::Filter { predicate, input: Box::new(PlanModel::Scan(s)) };
            query_result(predicates_pushed(above), all_read(v), now_ns) == query_result(
                above,
                all_read(v),
                now_ns,
            )
        }),
{
    let scan = PlanModel::Scan(s);
    let above = PlanModel::Filter { predicate, input: Box::new(scan) };
    let pushed = ScanModel { predicate: Some(predicate), ..s };
    assert(predicates_pushed(scan) == scan);
    if s.predicate is Some {
        assert(predicates_pushed(above) == above);
    } else {
        assert(predicates_pushed(above) == PlanModel::Scan(pushed));
        lemma_filter_is_scan(v, predicate, now_ns);
        lemma_scan_all(v, now_ns);
        if table_fields(s.table) is Some {
            assert(scan_result(s, all_read(v), now_ns) == Ok::<Seq<BatchModel>, EvalFault>(v));
            assert(plan_stream(scan, all_read(v), now_ns) == Ok::<Stream, BuildFault>(
                stream_of_list(v),
            ));
        } else {
            assert(plan_stream(scan, all_read(v), now_ns) is Err);
        }
    }
}

/// Filters above a scan, the first of them right above it.
pub open spec fn filters_over(s: ScanModel, conditions: Seq<ExprModel>) -> PlanModel
    decreases conditions.len(),
{
    if conditions.len() == 0 {
        PlanModel::Scan(s)
    } else {
        PlanModel::Filter {
            predicate: conditions.last(),
            input: Box::new(filters_over(s, conditions.drop_last())),
        }
    }
}

/// Whether a plan does not give all its batches.
pub open spec fn fails(p: PlanModel, loaded: Seq<LoadedModel>, now_ns: i64) -> bool {
    query_result(p, loaded, now_ns) is Err
}

proof fn lemma_fault_stays(s: Stream, e: ExprModel, now_ns: i64)
    requires
        s.fault is Some,
    ensures
        filtered_stream(s, e, now_ns).fault is Some,
    decreases s.batches.len(),
{
    if s.batches.len() > 0 {
        lemma_fault_stays(behind_first(s), e, now_ns);
    }
}

proof fn lemma_pushed_filters(s: ScanModel, conditions: Seq<ExprModel>)
    ensures
        predicates_pushed(filters_over(s, conditions)) == if s.predicate is Some
            || conditions.len() == 0 {
            filters_over(s, conditions)
        } else {
            filters_over(ScanModel { predicate: Some(conditions[0]), ..s }, conditions.skip(1))
        },
    decreases conditions.len(),
{
    if conditions.len() > 0 {
        let below = conditions.drop_last();
        lemma_pushed_filters(s, below);
        assert(filters_over(s, conditions) == PlanModel::Filter {
            predicate: conditions.last(),
            input: Box::new(filters_over(s, below)),
        });
        if s.predicate is None {
            let pushed = ScanModel { predicate: Some(conditions[0]), ..s };
            if below.len() == 0 {
                assert(conditions.skip(1) =~= Seq::empty());
            } else {
                assert(conditions.skip(1).drop_last() =~= below.skip(1));
                assert(below[0] == conditions[0]);
                if below.skip(1).len() == 0 {
                    assert(filters_over(pushed, below.skip(1)) == PlanModel::Scan(pushed));
                }
            }
        } else if below.len() == 0 {
            assert(filters_over(s, below) == PlanModel::Scan(s));
        }
    }
}

/// Moving the filter that stands right above a scan into the scan does not change the
/// result, however many filters stand above it: the same batches come out, or both plans
/// fail. The scan has no limit of its own, or a condition already, and all batches could be
/// read.
pub proof fn pushing_keeps_the_result_below_filters(
    s: ScanModel,
    conditions: Seq<ExprModel>,
    v: Seq<BatchModel>,
    now_ns: i64,
)
    requires
        s.limit is None || s.predicate is Some,
    ensures
        ({
            let before = filters_over(s, conditions);
            let after = predicates_pushed(before);
            ||| query_result(after, all_read(v), now_ns) == query_result(
                before,
                all_read(v),
                now_ns,
            )
            ||| fails(after, all_read(v), now_ns) && fails(before, all_read(v), now_ns)
        }),
{
    lemma_pushed_filters(s, conditions);
    if s.predicate is None && conditions.len() > 0 {
        lemma_tower(s, conditions, v, now_ns);
    }
}

proof fn lemma_tower(s: ScanModel, conditions: Seq<ExprModel>, v: Seq<BatchModel>, now_ns: i64)
    requires
        s.limit is None,
        s.predicate is None,
        conditions.len() > 0,
    ensures
        ({
            let before = filters_over(s, conditions);
            let pushed = ScanModel { predicate: Some(conditions[0]), ..s };
            let after = filters_over(pushed, conditions.skip(1));
            ||| plan_stream(after, all_read(v), now_ns) == plan_stream(before, all_read(v), now_ns)
            ||| fails(after, all_read(v), now_ns) && fails(before, all_read(v), now_ns)
        }),
    decreases conditions.len(),
{
    let pushed = ScanModel { predicate: Some(conditions[0]), ..s };
    let below = conditions.drop_last();
    let e = conditions.last();
    let before = filters_over(s, conditions);
    if conditions.len() == 1 {
        assert(conditions.skip(1) =~= Seq::empty());
        assert(filters_over(s, below) == PlanModel::Scan(s));
        lemma_filter_is_scan(v, e, now_ns);
        lemma_scan_all(v, now_ns);
        if table_fields(s.table) is Some {
            let stream = filtered_stream(stream_of_list(v), e, now_ns);
            assert(plan_stream(PlanModel::Scan(s), all_read(v), now_ns) == Ok::<Stream, BuildFault>(
                stream_of_list(v),
            ));
            assert(plan_stream(before, all_read(v), now_ns) == Ok::<Stream, BuildFault>(stream));
            if stream.fault is None {
                assert(stream_of_list(stream.batches) == stream);
            }
        }
    } else {
        lemma_tower(s, below, v, now_ns);
        let rest = conditions.skip(1);
        assert(rest.drop_last() =~= below.skip(1));
        assert(below[0] == conditions[0]);
        let lower = plan_stream(filters_over(s, below), all_read(v), now_ns);
        let lower_pushed = plan_stream(filters_over(pushed, below.skip(1)), all_read(v), now_ns);
        if let Ok(a) = lower {
            if a.fault is Some {
                lemma_fault_stays(a, e, now_ns);
            }
        }
        if let Ok(b) = lower_pushed {
            if b.fault is Some {
                lemma_fault_stays(b, e, now_ns);
            }
        }
    }
}

proof fn lemma_enough_batches(v: Seq<BatchModel>, m: int, n: nat)
    requires
        0 <= m <= v.len(),
        rows_total(v.take(m)) >= n,
    ensures
        limited_stream(stream_of_list(v.take(m)), n, 0) == limited_stream(stream_of_list(v), n, 0),
    decreases v.len(),
{
    if n > 0 {
        if m == 0 {
            assert(v.take(0).len() == 0);
        } else {
            let b = v[0];
            let rest = v.skip(1);
            assert(v.take(m) =~= seq![b] + rest.take(m - 1));
            lemma_rows_first(b, rest.take(m - 1));
            assert(behind_first(stream_of_list(v)) == stream_of_list(rest));
            assert(v.take(m).skip(1) =~= rest.take(m - 1));
            assert(behind_first(stream_of_list(v.take(m))) == stream_of_list(rest.take(m - 1)));
            assert(v.take(m)[0] == b);
            let left: nat = if b.rows == 0 {
                n
            } else if b.rows < n {
                (n - b.rows) as nat
            } else {
                0
            };
            lemma_enough_batches(rest, m - 1, left);
        }
    }
}

/// The limit of a scan only saves work: below a limit of as many rows, the scan gives the
/// same result as without it.
pub proof fn scan_limit_does_not_change_the_answer(
    s: ScanModel,
    columns: Seq<Seq<char>>,
    n: u64,
    loaded: Seq<LoadedModel>,
    now_ns: i64,
)
    ensures
        ({
            let limited = PlanModel::Scan(ScanModel { limit: Some(n), ..s });
            let whole = PlanModel::Scan(ScanModel { limit: None, ..s });
            &&& query_result(first_of_plan(limited, n), loaded, now_ns) == query_result(
                first_of_plan(whole, n),
                loaded,
                now_ns,
            )
            &&& query_result(
                first_of_plan(PlanModel::Project { columns, input: Box::new(limited) }, n),
                loaded,
                now_ns,
            ) == query_result(
                first_of_plan(PlanModel::Project { columns, input: Box::new(whole) }, n),
                loaded,
                now_ns,
            )
        }),
{
    let limited = PlanModel::Scan(ScanModel { limit: Some(n), ..s });
    let whole = PlanModel::Scan(ScanModel { limit: None, ..s });
    if table_fields(s.table) is Some {
        match scanned(loaded, s.predicate, now_ns) {
            Err(_) => {},
            Ok(all) => {
                let kept = first_rows(all, n as nat);
                scan_limit_keeps_enough_rows(all, n as nat);
                if kept != all {
                    lemma_enough_batches(all, kept.len() as int, n as nat);
                }
                assert(plan_stream(limited, loaded, now_ns) == Ok::<Stream, BuildFault>(
                    stream_of_list(kept),
                ));
                assert(plan_stream(whole, loaded, now_ns) == Ok::<Stream, BuildFault>(
                    stream_of_list(all),
                ));
            },
        }
    }
    let a = PlanModel::Project { columns, input: Box::new(limited) };
    let b = PlanModel::Project { columns, input: Box::new(whole) };
    assert(plan_stream(a, loaded, now_ns) == plan_stream(limited, loaded, now_ns));
    assert(plan_stream(b, loaded, now_ns) == plan_stream(whole, loaded, now_ns));
}

/// The first `n` rows of a plan.
pub open spec fn first_of_plan(p: PlanModel, n: u64) -> PlanModel {
    PlanModel::Limit { n, offset: 0, input: Box::new(p) }
}

/// A select with a condition and a limit gives the first rows that meet the condition, where
/// the condition can be computed on every batch and all batches could be read: the plan in
/// which the scan takes over both gives what a filter and a limit above a whole scan give.
pub proof fn limited_select_gives_the_first_matching_rows(
    s: ScanModel,
    predicate: ExprModel,
    n: u64,
    v: Seq<BatchModel>,
    now_ns: i64,
)
    requires
        s.predicate is None,
        scanned(all_read(v), Some(predicate), now_ns) is Ok,
    ensures
        ({
            let limited = PlanModel::Scan(ScanModel { limit: Some(n), ..s });
            let whole = PlanModel::Scan(ScanModel { limit: None, ..s });
            let planned = first_of_plan(
                PlanModel::Filter { predicate, input: Box::new(limited) },
                n,
            );
            let meant = first_of_plan(PlanModel::Filter { predicate, input: Box::new(whole) }, n);
            query_result(predicates_pushed(planned), all_read(v), now_ns) == query_result(
                meant,
                all_read(v),
                now_ns,
            )
        }),
{
    let limited = PlanModel::Scan(ScanModel { limit: Some(n), ..s });
    let whole = PlanModel::Scan(ScanModel { limit: None, ..s });
    let over_limited = PlanModel::Filter { predicate, input: Box::new(limited) };
    let over_whole = PlanModel::Filter { predicate, input: Box::new(whole) };
    let pushed = ScanModel { predicate: Some(predicate), ..s };
    assert(predicates_pushed(limited) == limited);
    assert(predicates_pushed(over_limited) == PlanModel::Scan(
        ScanModel { limit: Some(n), ..pushed },
    ));
    scan_limit_does_not_change_the_answer(pushed, Seq::empty(), n, all_read(v), now_ns);
    lemma_filter_is_scan(v, predicate, now_ns);
    lemma_scan_all(v, now_ns);
    if table_fields(s.table) is Some {
        let stream = filtered_stream(stream_of_list(v), predicate, now_ns);
        assert(plan_stream(whole, all_read(v), now_ns) == Ok::<Stream, BuildFault>(
            stream_of_list(v),
        ));
        assert(plan_stream(over_whole, all_read(v), now_ns) == Ok::<Stream, BuildFault>(stream));
        assert(stream_of_list(stream.batches) == stream);
        assert(plan_stream(
            PlanModel::Scan(ScanModel { limit: None, ..pushed }),
            all_read(v),
            now_ns,
        ) == Ok::<Stream, BuildFault>(stream));
    } else {
        assert(plan_stream(whole, all_read(v), now_ns) is Err);
    }
}

} // verus!
