//! What the plan of a statement is, and which rows its parts give.

use crate::columnar::batch::{batch_at, batch_wf, rows_where, rows_where_ascend, BatchModel};
use crate::columnar::column::CellsModel;
use crate::columnar::rows::CellModel;
use crate::common::lists::{adds, lists_stand_in_order, total};
use crate::common::model::SignalType;
use crate::common::schema::{log_fields, metric_fields, span_fields};
use crate::query::ast::{ExprModel, JoinModel, ProjectionModel, SelectModel};
use crate::query::catalog::{table_named, DescModel};
use crate::query::executor::operator::{behind_first, filtered_stream, Stream};
use crate::query::executor::rows::{all_rows, first_rows_come_first, rows_at_places, rows_in};
use crate::query::executor::scan::{scanned, table_fields, table_signal, LoadedModel};
use crate::query::executor::tree::plan_stream;
use crate::query::functions::eval::filter_of;
use crate::query::laws::{folding_keeps_the_value, no_remainder};
use crate::query::optimizer::cost::{strategy_for, total_rows};
use crate::query::optimizer::rules::{folded, folded_plan, projections_pushed, pruned};
use crate::query::planner::{
    aggregate_of, aggregates_of, join_strategy_of, joined, output_name, output_names, plain_columns,
    plan_rows, select_plan, AggModel, JoinStrategy, PlanModel, ScanModel,
};
use crate::text::lowercase;
use vstd::prelude::*;

verus! {

// ── Filters ─────────────────────────────────────────────────────────────────

/// The rows among the first `n` of a batch for which a condition holds, in order. A null is
/// no.
pub open spec fn matching_rows(b: BatchModel, mask: CellsModel<bool>, n: nat) -> Seq<Seq<CellModel>>
    decreases n,
{
    if n == 0 {
        Seq::empty()
    } else if mask.valid[n - 1] && mask.values[n - 1] {
        matching_rows(b, mask, (n - 1) as nat).push(rows_in(b)[n - 1])
    } else {
        matching_rows(b, mask, (n - 1) as nat)
    }
}

/// The rows of all batches for which a condition holds, in order.
pub open spec fn all_matching(v: Seq<BatchModel>, predicate: ExprModel, now_ns: i64) -> Seq<
    Seq<CellModel>,
>
    decreases v.len(),
{
    if v.len() == 0 {
        Seq::empty()
    } else {
        all_matching(v.drop_last(), predicate, now_ns) + matching_rows(
            v.last(),
            filter_of(v.last(), predicate, now_ns)->Ok_0,
            v.last().rows,
        )
    }
}

/// Whether a condition can be computed for every row of a batch.
pub open spec fn can_be_filtered(b: BatchModel, predicate: ExprModel, now_ns: i64) -> bool {
    batch_wf(b) && (filter_of(b, predicate, now_ns) matches Ok(m) && m.values.len() == b.rows)
}

/// Whether a condition can be computed for every row of all batches.
pub open spec fn all_can_be_filtered(v: Seq<BatchModel>, predicate: ExprModel, now_ns: i64) -> bool {
    forall|i: int| 0 <= i < v.len() ==> can_be_filtered(#[trigger] v[i], predicate, now_ns)
}

proof fn lemma_matching(b: BatchModel, mask: CellsModel<bool>, n: nat)
    requires
        batch_wf(b),
        n <= b.rows,
    ensures
        rows_in(batch_at(b, rows_where(mask, n))) == matching_rows(b, mask, n),
    decreases n,
{
    rows_where_ascend(mask, n);
    rows_at_places(b, rows_where(mask, n));
    let out = rows_in(batch_at(b, rows_where(mask, n)));
    if n > 0 {
        let m = (n - 1) as nat;
        lemma_matching(b, mask, m);
        rows_where_ascend(mask, m);
        rows_at_places(b, rows_where(mask, m));
        let before = rows_in(batch_at(b, rows_where(mask, m)));
        assert forall|k: int| 0 <= k < before.len() implies out[k] == before[k] by {
            assert(rows_where(mask, n)[k] == rows_where(mask, m)[k]);
        }
        if mask.valid[n - 1] && mask.values[n - 1] {
            let last = before.len() as int;
            assert(rows_where(mask, n)[last] == n - 1);
            assert(out[last] == rows_in(b)[n - 1]);
            assert(out =~= before.push(rows_in(b)[n - 1]));
        } else {
            assert(out =~= before);
        }
    } else {
        assert(out =~= Seq::empty());
    }
}

proof fn lemma_all_matching_first(b: BatchModel, rest: Seq<BatchModel>, p: ExprModel, now_ns: i64)
    ensures
        all_matching(seq![b] + rest, p, now_ns) == matching_rows(
            b,
            filter_of(b, p, now_ns)->Ok_0,
            b.rows,
        ) + all_matching(rest, p, now_ns),
    decreases rest.len(),
{
    let v = seq![b] + rest;
    if rest.len() == 0 {
        assert(v.drop_last().len() == 0);
        assert(all_matching(v.drop_last(), p, now_ns) =~= Seq::empty());
        assert(v.last() == b);
    } else {
        lemma_all_matching_first(b, rest.drop_last(), p, now_ns);
        assert(v.drop_last() =~= seq![b] + rest.drop_last());
        assert(v.last() == rest.last());
    }
    assert(all_matching(v, p, now_ns) =~= matching_rows(b, filter_of(b, p, now_ns)->Ok_0, b.rows)
        + all_matching(rest, p, now_ns));
}

/// A filter gives exactly the rows for which its condition holds, in their order, and fails
/// as its input does.
pub proof fn filter_gives_the_matching_rows(s: Stream, predicate: ExprModel, now_ns: i64)
    requires
        all_can_be_filtered(s.batches, predicate, now_ns),
    ensures
        all_rows(filtered_stream(s, predicate, now_ns).batches) == all_matching(
            s.batches,
            predicate,
            now_ns,
        ),
        filtered_stream(s, predicate, now_ns).fault == s.fault,
    decreases s.batches.len(),
{
    if s.batches.len() > 0 {
        let b = s.batches[0];
        let rest = behind_first(s);
        let mask = filter_of(b, predicate, now_ns)->Ok_0;
        assert(can_be_filtered(b, predicate, now_ns));
        assert forall|i: int| 0 <= i < rest.batches.len() implies can_be_filtered(
            #[trigger] rest.batches[i],
            predicate,
            now_ns,
        ) by {
            assert(rest.batches[i] == s.batches[i + 1]);
        }
        filter_gives_the_matching_rows(rest, predicate, now_ns);
        assert(s.batches =~= seq![b] + rest.batches);
        lemma_all_matching_first(b, rest.batches, predicate, now_ns);
        lemma_matching(b, mask, b.rows);
        let out = batch_at(b, rows_where(mask, mask.values.len()));
        first_rows_come_first(out, filtered_stream(rest, predicate, now_ns).batches);
        if out.rows == 0 {
            assert(rows_in(out) =~= Seq::empty());
            assert(all_rows(filtered_stream(s, predicate, now_ns).batches) =~= all_matching(
                s.batches,
                predicate,
                now_ns,
            ));
        }
    }
}

/// The batches that were read.
pub open spec fn read_batches(v: Seq<LoadedModel>) -> Seq<BatchModel> {
    v.map_values(|l: LoadedModel| l->Ok_0)
}

/// A scan with a condition gives exactly the rows that were read for which it holds, and one
/// without gives all, in their order.
pub proof fn scan_gives_the_matching_rows(
    v: Seq<LoadedModel>,
    predicate: Option<ExprModel>,
    now_ns: i64,
)
    requires
        forall|i: int| 0 <= i < v.len() ==> (#[trigger] v[i]) is Ok,
        predicate matches Some(p) ==> all_can_be_filtered(read_batches(v), p, now_ns),
    ensures
        scanned(v, predicate, now_ns) matches Ok(out) && all_rows(out) == match predicate {
            Some(p) => all_matching(read_batches(v), p, now_ns),
            None => all_rows(read_batches(v)),
        },
    decreases v.len(),
{
    let all = read_batches(v);
    if v.len() > 0 {
        let front = v.drop_last();
        assert(read_batches(front) =~= all.drop_last());
        let b = v.last()->Ok_0;
        assert(all.last() == b && v.last() == v[v.len() - 1]);
        assert forall|i: int| 0 <= i < front.len() implies (#[trigger] front[i]) is Ok by {
            assert(front[i] == v[i]);
        }
        match predicate {
            Some(p) => {
                assert forall|i: int| 0 <= i < front.len() implies can_be_filtered(
                    #[trigger] read_batches(front)[i],
                    p,
                    now_ns,
                ) by {
                    assert(read_batches(front)[i] == all[i]);
                }
                scan_gives_the_matching_rows(front, predicate, now_ns);
                assert(can_be_filtered(all[v.len() - 1], p, now_ns));
                let mask = filter_of(b, p, now_ns)->Ok_0;
                lemma_matching(b, mask, b.rows);
                let out = batch_at(b, rows_where(mask, mask.values.len()));
                let before = scanned(front, predicate, now_ns)->Ok_0;
                if out.rows > 0 {
                    assert(before.push(out).drop_last() =~= before);
                } else {
                    assert(rows_in(out) =~= Seq::empty());
                    assert(all_rows(before) =~= all_rows(before) + rows_in(out));
                }
            },
            None => {
                scan_gives_the_matching_rows(front, predicate, now_ns);
                let before = scanned(front, predicate, now_ns)->Ok_0;
                assert(before.push(b).drop_last() =~= before);
            },
        }
    }
}

/// The tables of the language: logs, metrics and traces, each with the columns of its signal.
pub proof fn tables_are_those_of_the_signals()
    ensures
        table_fields("logs"@) == Some(log_fields()),
        table_signal("logs"@) == Some(SignalType::Log.code()),
        table_fields("metrics"@) == Some(metric_fields()),
        table_signal("metrics"@) == Some(SignalType::Metric.code()),
        table_fields("traces"@) == Some(span_fields()),
        table_signal("traces"@) == Some(SignalType::Span.code()),
        forall|t: Seq<char>|
            t != "logs"@ && t != "metrics"@ && t != "traces"@ ==> #[trigger] table_fields(t) is None
                && table_signal(t) is None,
{
    reveal_strlit("logs");
    reveal_strlit("metrics");
    reveal_strlit("traces");
    assert("logs"@.len() == 4 && "metrics"@.len() == 7 && "traces"@.len() == 6);
}

// ── Plans ───────────────────────────────────────────────────────────────────

/// Whether a projection is a call of an aggregate.
pub open spec fn asks_for_aggregate(p: ProjectionModel) -> bool {
    p matches ProjectionModel::Expr { expr: ExprModel::Function { name, args }, alias } && (
    lowercase(name) == "count"@ || lowercase(name) == "sum"@ || lowercase(name) == "avg"@
        || lowercase(name) == "min"@ || lowercase(name) == "max"@)
}

/// How many aggregates a projection asks for.
pub open spec fn aggregates_in() -> spec_fn(ProjectionModel) -> nat {
    |p: ProjectionModel|
        if asks_for_aggregate(p) {
            1
        } else {
            0
        }
}

/// Whether an aggregate is the one that a projection asks for: of the function and the first
/// argument of the call, under the alias or the name of the function.
pub open spec fn is_asked_for(a: AggModel, p: ProjectionModel) -> bool {
    p matches ProjectionModel::Expr { expr: ExprModel::Function { name, args }, alias } && a.func
        == lowercase(name) && (if args.len() > 0 {
        a.arg == Some(args[0])
    } else {
        a.arg is None
    }) && a.alias == match alias {
        Some(x) => x,
        None => name,
    }
}

/// Every aggregate that is asked for is computed once, in order, and no other.
pub proof fn every_asked_aggregate_is_computed(ps: Seq<ProjectionModel>, i: int)
    requires
        0 <= i < ps.len(),
    ensures
        aggregates_of(ps).len() == total(ps, aggregates_in(), ps.len()),
        asks_for_aggregate(ps[i]) ==> {
            let at = total(ps, aggregates_in(), i as nat);
            at < aggregates_of(ps).len() && is_asked_for(aggregates_of(ps)[at as int], ps[i])
        },
{
    let all = |m: nat| aggregates_of(ps.take(m as int));
    let own = |p: ProjectionModel|
        match aggregate_of(p) {
            Some(a) => seq![a],
            None => Seq::empty(),
        };
    assert forall|m: nat| 0 < m <= ps.len() implies #[trigger] adds(
        ps,
        all,
        own,
        aggregates_in(),
        m,
    ) by {
        assert(ps.take(m as int).drop_last() =~= ps.take(m - 1));
        assert(ps.take(m as int).last() == ps[m - 1]);
        assert(all(m) =~= all((m - 1) as nat) + own(ps[m - 1]));
    }
    lists_stand_in_order(ps, all, own, aggregates_in(), ps.len(), i, 0);
    assert(ps.take(ps.len() as int) =~= ps);
}

/// How many columns a projection gives by name: one with an alias or a column of its own.
pub open spec fn names_in() -> spec_fn(ProjectionModel) -> nat {
    |p: ProjectionModel|
        match p {
            ProjectionModel::Expr { expr, alias } => if alias is Some || expr is Column {
                1
            } else {
                0
            },
            ProjectionModel::Star => 0,
        }
}

/// Every projection with a name comes out under it, in order, and no other: under its alias,
/// or else as the column that it is.
pub proof fn every_name_comes_out(ps: Seq<ProjectionModel>, i: int)
    requires
        0 <= i < ps.len(),
    ensures
        output_names(ps).len() == total(ps, names_in(), ps.len()),
        ps[i] matches ProjectionModel::Expr { expr, alias } ==> {
            let at = total(ps, names_in(), i as nat);
            &&& alias matches Some(a) ==> at < output_names(ps).len() && output_names(ps)[at as int]
                == a
            &&& alias is None ==> (expr matches ExprModel::Column { table, name } ==> at
                < output_names(ps).len() && output_names(ps)[at as int] == name)
        },
{
    let all = |m: nat| output_names(ps.take(m as int));
    let own = |p: ProjectionModel|
        match output_name(p) {
            Some(a) => seq![a],
            None => Seq::empty(),
        };
    assert forall|m: nat| 0 < m <= ps.len() implies #[trigger] adds(
        ps,
        all,
        own,
        names_in(),
        m,
    ) by {
        assert(ps.take(m as int).drop_last() =~= ps.take(m - 1));
        assert(ps.take(m as int).last() == ps[m - 1]);
        assert(all(m) =~= all((m - 1) as nat) + own(ps[m - 1]));
    }
    lists_stand_in_order(ps, all, own, names_in(), ps.len(), i, 0);
    assert(ps.take(ps.len() as int) =~= ps);
}

/// Whether a plan is a limit over another, if one is asked for. An offset counts only with
/// a limit.
pub open spec fn limits(p: PlanModel, s: SelectModel, input: PlanModel) -> bool {
    match s.limit {
        Some(n) => p == (PlanModel::Limit {
            n,
            offset: match s.offset {
                Some(k) => k,
                None => 0,
            },
            input: Box::new(input),
        }),
        None => p == input,
    }
}

/// Whether a plan is a sort of another, if an order is asked for.
pub open spec fn sorts(p: PlanModel, s: SelectModel, input: PlanModel) -> bool {
    if s.order_by.len() > 0 {
        p == (PlanModel::Sort { keys: s.order_by, input: Box::new(input) })
    } else {
        p == input
    }
}

/// Whether a plan is a projection of another, if columns come out by name.
pub open spec fn projects(p: PlanModel, s: SelectModel, input: PlanModel) -> bool {
    if output_names(s.projections).len() > 0 {
        p == (PlanModel::Project { columns: output_names(s.projections), input: Box::new(input) })
    } else {
        p == input
    }
}

/// Whether a plan is another behind a condition, if there is one.
pub open spec fn filters(p: PlanModel, condition: Option<ExprModel>, input: PlanModel) -> bool {
    match condition {
        Some(predicate) => p == (PlanModel::Filter { predicate, input: Box::new(input) }),
        None => p == input,
    }
}

/// Whether a plan is an aggregation of another, if there is anything to aggregate or to group
/// by.
pub open spec fn aggregates(p: PlanModel, s: SelectModel, input: PlanModel) -> bool {
    if aggregates_of(s.projections).len() > 0 || s.group_by.len() > 0 {
        p == (PlanModel::Aggregate {
            keys: s.group_by,
            aggregates: aggregates_of(s.projections),
            input: Box::new(input),
        })
    } else {
        p == input
    }
}

/// Whether the parts of a plan are those that a statement asks for, from the outside in:
/// limit, sort, projection, condition on groups, aggregation, condition on rows.
pub open spec fn has_parts(s: SelectModel, parts: Seq<PlanModel>) -> bool {
    &&& parts.len() == 7
    &&& limits(parts[0], s, parts[1])
    &&& sorts(parts[1], s, parts[2])
    &&& projects(parts[2], s, parts[3])
    &&& filters(parts[3], s.having, parts[4])
    &&& aggregates(parts[4], s, parts[5])
    &&& filters(parts[5], s.filter, parts[6])
}

/// The plan of a statement has the parts that the statement asks for, in the order in which
/// they are meant: rows are filtered before they are aggregated, groups after; rows are
/// sorted before they are counted off. Innermost stand the joins and the scan of the table.
pub proof fn plan_has_the_asked_parts(s: SelectModel) -> (parts: Seq<PlanModel>)
    ensures
        has_parts(s, parts),
        parts[0] == select_plan(s),
        s.joins.len() == 0 ==> (parts[6] matches PlanModel::Scan(x) && x.table == s.from.name
            && x.predicate is None && x.projection is None && x.partition_filter is None && (x.limit
            is None || x.limit == s.limit)),
        s.joins.len() > 0 ==> ({
            let j = s.joins.last();
            parts[6] matches PlanModel::Join { kind, left, right, condition } && kind == j.kind
                && condition == j.condition && (*right matches PlanModel::Scan(x) && x.table
                == j.table.name && x.limit is None && x.predicate is None)
        }),
{
    let scan = crate::query::planner::scan_of(s.from.name, crate::query::planner::scan_limit(s));
    let p6 = joined(scan, s.joins);
    let p5 = crate::query::planner::filtered(p6, s.filter);
    let p4 = crate::query::planner::aggregated(p5, s.group_by, aggregates_of(s.projections));
    let p3 = crate::query::planner::filtered(p4, s.having);
    let p2 = crate::query::planner::projected(p3, output_names(s.projections));
    let p1 = crate::query::planner::sorted(p2, s.order_by);
    seq![select_plan(s), p1, p2, p3, p4, p5, p6]
}

/// Joins are taken from the left: a plan joined with tables has the last on the outside, and
/// below it the plan joined with the others.
pub proof fn joins_are_taken_from_the_left(plan: PlanModel, joins: Seq<JoinModel>, j: JoinModel)
    ensures
        joined(plan, Seq::empty()) == plan,
        joined(plan, joins.push(j)) matches PlanModel::Join { kind, left, right, condition } && kind
            == j.kind && condition == j.condition && *left == joined(plan, joins) && (
        *right matches PlanModel::Scan(x) && x.table == j.table.name && x.limit is None
            && x.predicate is None && x.partition_filter is None && x.projection is None),
{
    assert(joins.push(j).drop_last() =~= joins);
}

/// A join with a side of at most ten thousand rows is done by nested loops, one with both
/// sides of at most a million by hashing, and any other by sorting.
pub proof fn strategies_go_by_size(left_rows: nat, right_rows: nat)
    ensures
        strategy_for(left_rows, right_rows) == JoinStrategy::NestedLoop <==> (left_rows <= 10_000
            || right_rows <= 10_000),
        strategy_for(left_rows, right_rows) == JoinStrategy::Hash <==> (10_000 < left_rows
            <= 1_000_000 && 10_000 < right_rows <= 1_000_000),
{
}

/// The strategy of a join goes by the rows of its two tables; one that is not known counts as
/// the largest there can be. Nothing but a join has a strategy.
pub proof fn joins_have_strategies(p: PlanModel, tables: Seq<DescModel>)
    ensures
        !(p is Join) ==> join_strategy_of(p, tables) is None,
        p matches PlanModel::Join { kind, left, right, condition } ==> join_strategy_of(p, tables)
            == Some(strategy_for(plan_rows(*left, tables), plan_rows(*right, tables))),
        p matches PlanModel::Scan(s) ==> match table_named(tables, s.table) {
            Some(t) => plan_rows(p, tables) == total_rows(t.stats),
            None => plan_rows(p, tables) == u64::MAX,
        },
        p matches PlanModel::Filter { predicate, input } ==> plan_rows(p, tables) == plan_rows(
            *input,
            tables,
        ),
        p matches PlanModel::Project { columns, input } ==> plan_rows(p, tables) == plan_rows(
            *input,
            tables,
        ),
        p is Aggregate || p is Sort || p is Limit || p is Join ==> plan_rows(p, tables) == u64::MAX,
{
}

// ── Rewrites ────────────────────────────────────────────────────────────────

/// Restricting scans to projected columns leaves what a plan gives as it is.
pub proof fn pushing_projections_keeps_the_result(
    p: PlanModel,
    loaded: Seq<LoadedModel>,
    now_ns: i64,
)
    ensures
        plan_stream(projections_pushed(p), loaded, now_ns) == plan_stream(p, loaded, now_ns),
    decreases p,
{
    match p {
        PlanModel::Scan(s) => {},
        PlanModel::Filter { predicate, input } => {
            pushing_projections_keeps_the_result(*input, loaded, now_ns);
        },
        PlanModel::Project { columns, input } => {
            pushing_projections_keeps_the_result(*input, loaded, now_ns);
            match projections_pushed(*input) {
                PlanModel::Scan(s) => {
                    let t = ScanModel {
                        projection: match s.projection {
                            Some(c) => Some(c),
                            None => Some(columns),
                        },
                        ..s
                    };
                    assert(plan_stream(PlanModel::Scan(t), loaded, now_ns) == plan_stream(
                        PlanModel::Scan(s),
                        loaded,
                        now_ns,
                    ));
                    assert(projections_pushed(p) == (PlanModel::Project {
                        columns,
                        input: Box::new(PlanModel::Scan(t)),
                    }));
                },
                other => {
                    assert(projections_pushed(p) == (PlanModel::Project {
                        columns,
                        input: Box::new(other),
                    }));
                },
            }
        },
        PlanModel::Aggregate { keys, aggregates, input } => {
            pushing_projections_keeps_the_result(*input, loaded, now_ns);
        },
        PlanModel::Sort { keys, input } => {
            pushing_projections_keeps_the_result(*input, loaded, now_ns);
        },
        PlanModel::Limit { n, offset, input } => {
            pushing_projections_keeps_the_result(*input, loaded, now_ns);
        },
        PlanModel::Join { kind, left, right, condition } => {},
    }
}

/// A scan right below a projection reads the projected columns, unless it was restricted
/// before.
pub proof fn projected_scan_reads_the_columns(s: ScanModel, columns: Seq<Seq<char>>)
    ensures
        projections_pushed(
            PlanModel::Project { columns, input: Box::new(PlanModel::Scan(s)) },
        ) matches PlanModel::Project { columns: c, input } && c == columns && (
        *input matches PlanModel::Scan(t) && t == (ScanModel { projection: t.projection, ..s }) && (
        s.projection is None ==> t.projection == Some(columns)) && (s.projection is Some
            ==> t.projection == s.projection)),
{
    assert(projections_pushed(PlanModel::Scan(s)) == PlanModel::Scan(s));
}

/// Restricting scans to partitions leaves what a plan gives over what was read as it is.
pub proof fn pruning_keeps_the_result(
    p: PlanModel,
    tables: Seq<DescModel>,
    loaded: Seq<LoadedModel>,
    now_ns: i64,
)
    ensures
        plan_stream(pruned(p, tables), loaded, now_ns) == plan_stream(p, loaded, now_ns),
    decreases p,
{
    match p {
        PlanModel::Scan(s) => {},
        PlanModel::Filter { predicate, input } => {
            pruning_keeps_the_result(*input, tables, loaded, now_ns);
        },
        PlanModel::Project { columns, input } => {
            pruning_keeps_the_result(*input, tables, loaded, now_ns);
        },
        PlanModel::Aggregate { keys, aggregates, input } => {
            pruning_keeps_the_result(*input, tables, loaded, now_ns);
        },
        PlanModel::Sort { keys, input } => {
            pruning_keeps_the_result(*input, tables, loaded, now_ns);
        },
        PlanModel::Limit { n, offset, input } => {
            pruning_keeps_the_result(*input, tables, loaded, now_ns);
        },
        PlanModel::Join { kind, left, right, condition } => {},
    }
}

/// Whether no condition of a plan has a remainder where constants are folded.
pub open spec fn plan_has_no_remainder(p: PlanModel) -> bool
    decreases p,
{
    match p {
        PlanModel::Scan(s) => s.predicate matches Some(e) ==> no_remainder(e),
        PlanModel::Filter { predicate, input } => no_remainder(predicate) && plan_has_no_remainder(
            *input,
        ),
        PlanModel::Project { columns, input } => plan_has_no_remainder(*input),
        PlanModel::Aggregate { keys, aggregates, input } => plan_has_no_remainder(*input),
        PlanModel::Sort { keys, input } => plan_has_no_remainder(*input),
        PlanModel::Limit { n, offset, input } => plan_has_no_remainder(*input),
        PlanModel::Join { kind, left, right, condition } => true,
    }
}

proof fn lemma_folded_stream(s: Stream, predicate: ExprModel, now_ns: i64)
    requires
        no_remainder(predicate),
    ensures
        filtered_stream(s, folded(predicate, now_ns), now_ns) == filtered_stream(
            s,
            predicate,
            now_ns,
        ),
    decreases s.batches.len(),
{
    if s.batches.len() > 0 {
        folding_keeps_the_value(s.batches[0], predicate, now_ns);
        lemma_folded_stream(behind_first(s), predicate, now_ns);
    }
}

proof fn lemma_folded_scan(v: Seq<LoadedModel>, predicate: ExprModel, now_ns: i64)
    requires
        no_remainder(predicate),
    ensures
        scanned(v, Some(folded(predicate, now_ns)), now_ns) == scanned(v, Some(predicate), now_ns),
    decreases v.len(),
{
    if v.len() > 0 {
        lemma_folded_scan(v.drop_last(), predicate, now_ns);
        match v.last() {
            Ok(b) => {
                folding_keeps_the_value(b, predicate, now_ns);
            },
            Err(_) => {},
        }
    }
}

/// Computing what is constant in the conditions of a plan leaves what it gives as it is.
pub proof fn folding_keeps_the_result(p: PlanModel, loaded: Seq<LoadedModel>, now_ns: i64)
    requires
        plan_has_no_remainder(p),
    ensures
        plan_stream(folded_plan(p, now_ns), loaded, now_ns) == plan_stream(p, loaded, now_ns),
    decreases p,
{
    match p {
        PlanModel::Scan(s) => {
            match s.predicate {
                Some(e) => {
                    lemma_folded_scan(loaded, e, now_ns);
                },
                None => {},
            }
        },
        PlanModel::Filter { predicate, input } => {
            folding_keeps_the_result(*input, loaded, now_ns);
            match plan_stream(*input, loaded, now_ns) {
                Ok(s) => {
                    lemma_folded_stream(s, predicate, now_ns);
                },
                Err(_) => {},
            }
        },
        PlanModel::Project { columns, input } => {
            folding_keeps_the_result(*input, loaded, now_ns);
        },
        PlanModel::Aggregate { keys, aggregates, input } => {
            folding_keeps_the_result(*input, loaded, now_ns);
        },
        PlanModel::Sort { keys, input } => {
            folding_keeps_the_result(*input, loaded, now_ns);
        },
        PlanModel::Limit { n, offset, input } => {
            folding_keeps_the_result(*input, loaded, now_ns);
        },
        PlanModel::Join { kind, left, right, condition } => {},
    }
}

/// Whether a projection is a column under its own name.
pub open spec fn is_plain(p: ProjectionModel) -> bool {
    p matches ProjectionModel::Expr { expr, alias } && alias is None && expr is Column
}

/// How many columns a projection gives as they are.
pub open spec fn plain_in() -> spec_fn(ProjectionModel) -> nat {
    |p: ProjectionModel|
        if is_plain(p) {
            1
        } else {
            0
        }
}

/// Every projection of a column under its own name gives that column, in order, and no other
/// does.
pub proof fn every_plain_column_is_given(ps: Seq<ProjectionModel>, i: int)
    requires
        0 <= i < ps.len(),
    ensures
        plain_columns(ps).len() == total(ps, plain_in(), ps.len()),
        is_plain(ps[i]) ==> {
            let at = total(ps, plain_in(), i as nat);
            at < plain_columns(ps).len() && plain_columns(ps)[at as int]
                == ps[i]->Expr_expr->Column_name
        },
{
    let all = |m: nat| plain_columns(ps.take(m as int));
    let own = |p: ProjectionModel|
        if is_plain(p) {
            seq![p->Expr_expr->Column_name]
        } else {
            Seq::empty()
        };
    assert forall|m: nat| 0 < m <= ps.len() implies #[trigger] adds(
        ps,
        all,
        own,
        plain_in(),
        m,
    ) by {
        assert(ps.take(m as int).drop_last() =~= ps.take(m - 1));
        assert(ps.take(m as int).last() == ps[m - 1]);
        assert(all(m) =~= all((m - 1) as nat) + own(ps[m - 1]));
    }
    lists_stand_in_order(ps, all, own, plain_in(), ps.len(), i, 0);
    assert(ps.take(ps.len() as int) =~= ps);
}

} // verus!
