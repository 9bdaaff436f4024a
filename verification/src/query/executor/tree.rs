//! From plans to operators.

use crate::query::catalog::unknown_table_text;
use crate::query::error::QueryError;
use crate::query::executor::aggregate::aggregation;
use crate::query::executor::operator::{
    failed, filtered_stream, limited_stream, op_wf, stream_of, stream_of_list, AggregateOperator,
    FilterOperator, LimitOperator, Operator, ScanOperator, SortOperator, Stream,
};
use crate::query::executor::scan::{
    loaded_fit, loaded_views, scan_result, table_fields, Loaded, LoadedModel,
};
use crate::query::executor::sort::sort_result;
use crate::query::functions::compute::{execution_error, reports_eval, EvalFault};
use crate::query::planner::{LogicalPlan, PhysicalPlan, PlanModel, ScanModel, ScanOp};
use vstd::prelude::*;

verus! {

/// Why there are no operators for a plan.
pub enum BuildFault {
    /// The table of the scan is not known.
    UnknownTable(Seq<char>),
    /// The plan cannot be executed.
    Eval(EvalFault),
}

/// What is answered to a join.
pub open spec fn join_fault() -> EvalFault {
    EvalFault::Execution(
        "cross-table JOIN requires distributed executor (Phase 3 local scope: single-table)"@,
    )
}

/// What is sorted, as a stream.
pub open spec fn sorted_stream(s: Stream, keys: Seq<crate::query::ast::OrderModel>) -> Stream {
    match s.fault {
        Some(f) => failed(f),
        None => match sort_result(s.batches, keys) {
            Err(f) => failed(f),
            Ok(v) => stream_of_list(v),
        },
    }
}

/// What is aggregated, as a stream.
pub open spec fn aggregated_stream(
    s: Stream,
    keys: Seq<crate::query::ast::ExprModel>,
    aggregates: Seq<crate::query::planner::AggModel>,
) -> Stream {
    match s.fault {
        Some(f) => failed(f),
        None => match aggregation(s.batches, keys, aggregates) {
            Err(f) => failed(f),
            Ok(b) => stream_of_list(seq![b]),
        },
    }
}

/// What a plan gives over the batches that were read of its table. Projections leave all
/// columns as they are. There is no join.
pub open spec fn plan_stream(p: PlanModel, loaded: Seq<LoadedModel>, now_ns: i64) -> Result<
    Stream,
    BuildFault,
>
    decreases p,
{
    match p {
        PlanModel::Scan(s) => if table_fields(s.table) is None {
            Err(BuildFault::UnknownTable(s.table))
        } else {
            match scan_result(s, loaded, now_ns) {
                Err(f) => Err(BuildFault::Eval(f)),
                Ok(v) => Ok(stream_of_list(v)),
            }
        },
        PlanModel::Filter { predicate, input } => match plan_stream(*input, loaded, now_ns) {
            Err(f) => Err(f),
            Ok(s) => Ok(filtered_stream(s, predicate, now_ns)),
        },
        PlanModel::Project { columns, input } => plan_stream(*input, loaded, now_ns),
        PlanModel::Aggregate { keys, aggregates, input } => match plan_stream(
            *input,
            loaded,
            now_ns,
        ) {
            Err(f) => Err(f),
            Ok(s) => Ok(aggregated_stream(s, keys, aggregates)),
        },
        PlanModel::Sort { keys, input } => match plan_stream(*input, loaded, now_ns) {
            Err(f) => Err(f),
            Ok(s) => Ok(sorted_stream(s, keys)),
        },
        PlanModel::Limit { n, offset, input } => match plan_stream(*input, loaded, now_ns) {
            Err(f) => Err(f),
            Ok(s) => Ok(limited_stream(s, n as nat, offset as nat)),
        },
        PlanModel::Join { kind, left, right, condition } => Err(BuildFault::Eval(join_fault())),
    }
}

/// Whether `e` reports the fault `f`.
pub open spec fn reports_build(e: QueryError, f: BuildFault) -> bool {
    match f {
        BuildFault::UnknownTable(t) => e matches QueryError::Bind(m) && m@ == unknown_table_text(t),
        BuildFault::Eval(x) => reports_eval(e, x),
    }
}

/// The scan of a plan, below everything else; none if there is a join.
pub open spec fn plan_scan(p: PlanModel) -> Option<ScanModel>
    decreases p,
{
    match p {
        PlanModel::Scan(s) => Some(s),
        PlanModel::Filter { predicate, input } => plan_scan(*input),
        PlanModel::Project { columns, input } => plan_scan(*input),
        PlanModel::Aggregate { keys, aggregates, input } => plan_scan(*input),
        PlanModel::Sort { keys, input } => plan_scan(*input),
        PlanModel::Limit { n, offset, input } => plan_scan(*input),
        PlanModel::Join { kind, left, right, condition } => None,
    }
}

/// Whether the batches that were read are those of the plan's table.
pub open spec fn loaded_for(p: PlanModel, loaded: Seq<LoadedModel>) -> bool {
    match plan_scan(p) {
        Some(s) => table_fields(s.table) matches Some(fields) ==> loaded_fit(loaded, fields),
        None => true,
    }
}

/// The scan of a plan, for which batches have to be read; none if there is a join.
pub fn scan_to_load(plan: &LogicalPlan) -> (out: Option<&ScanOp>)
    ensures
        match out {
            Some(s) => plan_scan(plan@) == Some(s@),
            None => plan_scan(plan@) is None,
        },
    decreases plan,
{
    match plan {
        LogicalPlan::Scan(s) => Some(s),
        LogicalPlan::Filter { predicate, input } => scan_to_load(input),
        LogicalPlan::Project { columns, input } => scan_to_load(input),
        LogicalPlan::Aggregate { keys, aggregates, input } => scan_to_load(input),
        LogicalPlan::Sort { keys, input } => scan_to_load(input),
        LogicalPlan::Limit { n, offset, input } => scan_to_load(input),
        LogicalPlan::Join { kind, left, right, condition } => None,
    }
}

/// The operators of a plan, over the batches that were read of its table.
pub fn build(plan: PhysicalPlan, loaded: Vec<Loaded>, now_ns: i64) -> (out: Result<
    Operator,
    QueryError,
>)
    requires
        loaded_for(plan.logical@, loaded_views(loaded@)),
    ensures
        match (out, plan_stream(plan.logical@, loaded_views(loaded@), now_ns)) {
            (Ok(op), Ok(s)) => op_wf(op) && stream_of(op, now_ns) == s,
            (Err(e), Err(f)) => reports_build(e, f),
            _ => false,
        },
{
    build_logical(plan.logical, plan.batch_size, loaded, now_ns)
}

fn build_logical(plan: LogicalPlan, batch_size: usize, loaded: Vec<Loaded>, now_ns: i64) -> (out: Result<
    Operator,
    QueryError,
>)
    requires
        loaded_for(plan@, loaded_views(loaded@)),
    ensures
        match (out, plan_stream(plan@, loaded_views(loaded@), now_ns)) {
            (Ok(op), Ok(s)) => op_wf(op) && stream_of(op, now_ns) == s,
            (Err(e), Err(f)) => reports_build(e, f),
            _ => false,
        },
    decreases plan,
{
    match plan {
        LogicalPlan::Scan(scan) => match ScanOperator::new(scan, batch_size, loaded, now_ns) {
            Ok(s) => Ok(Operator::Scan(s)),
            Err(e) => Err(e),
        },
        LogicalPlan::Filter { predicate, input } => match build_logical(
            *input,
            batch_size,
            loaded,
            now_ns,
        ) {
            Ok(child) => {
                let op = Operator::Filter(FilterOperator::new(Box::new(child), predicate));
                Ok(op)
            },
            Err(e) => Err(e),
        },
        LogicalPlan::Aggregate { keys, aggregates, input } => match build_logical(
            *input,
            batch_size,
            loaded,
            now_ns,
        ) {
            Ok(child) => {
                let op = Operator::Aggregate(
                    AggregateOperator::new(Box::new(child), keys, aggregates),
                );
                Ok(op)
            },
            Err(e) => Err(e),
        },
        LogicalPlan::Sort { keys, input } => match build_logical(
            *input,
            batch_size,
            loaded,
            now_ns,
        ) {
            Ok(child) => {
                let op = Operator::Sort(SortOperator::new(Box::new(child), keys));
                Ok(op)
            },
            Err(e) => Err(e),
        },
        LogicalPlan::Limit { n, offset, input } => match build_logical(
            *input,
            batch_size,
            loaded,
            now_ns,
        ) {
            Ok(child) => {
                let op = Operator::Limit(LimitOperator::new(Box::new(child), n, offset));
                Ok(op)
            },
            Err(e) => Err(e),
        },
        LogicalPlan::Project { columns, input } => build_logical(
            *input,
            batch_size,
            loaded,
            now_ns,
        ),
        LogicalPlan::Join { kind, left, right, condition } => Err(
            execution_error(
                "cross-table JOIN requires distributed executor (Phase 3 local scope: single-table)",
            ),
        ),
    }
}

} // verus!
