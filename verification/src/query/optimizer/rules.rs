//! Rewrites of plans.

use crate::query::ast::{expr_view_lists, BinOp, Expr, ExprModel, Literal, LiteralModel};
use crate::query::catalog::{
    overlapping, partition_overlaps, table_named, Catalog, DescModel, TableStats,
};
use crate::query::planner::{LogicalPlan, PlanModel, ScanModel, ScanOp};
use crate::text::{clone_strings, str_eq};
use vstd::arithmetic::div_mod::{
    lemma_div_is_ordered_by_denominator, lemma_div_pos_is_pos, lemma_fundamental_div_mod,
    lemma_mod_bound,
};
use vstd::prelude::*;

verus! {

// ── Constant folding ────────────────────────────────────────────────────────

/// The result of an operator on two whole numbers, where it is a whole number that
/// fits in 64 bits. Quotients are cut off towards zero.
pub open spec fn const_op(op: BinOp, a: i64, b: i64) -> Option<i64> {
    match op {
        BinOp::Add => a.checked_add(b),
        BinOp::Sub => a.checked_sub(b),
        BinOp::Mul => a.checked_mul(b),
        BinOp::Div => a.checked_div(b),
        BinOp::Mod => a.checked_rem(b),
        _ => None,
    }
}

/// An expression with what is constant in it computed: the call `now()`, lengths of
/// time, and operators on whole numbers, as far as they stand below operators only.
pub open spec fn folded(e: ExprModel, now_ns: i64) -> ExprModel
    decreases e,
{
    match e {
        ExprModel::Function { name, args } => if name == "now"@ && args.len() == 0 {
            ExprModel::Literal(LiteralModel::Int(now_ns))
        } else {
            e
        },
        ExprModel::Interval(ns) => ExprModel::Literal(LiteralModel::Int(ns)),
        ExprModel::BinOp { op, left, right } => {
            let l = folded(*left, now_ns);
            let r = folded(*right, now_ns);
            let kept = ExprModel::BinOp { op, left: Box::new(l), right: Box::new(r) };
            match (l, r) {
                (
                    ExprModel::Literal(LiteralModel::Int(a)),
                    ExprModel::Literal(LiteralModel::Int(b)),
                ) => match const_op(op, a, b) {
                    Some(v) => ExprModel::Literal(LiteralModel::Int(v)),
                    None => kept,
                },
                _ => kept,
            }
        },
        _ => e,
    }
}

/// An optional expression with what is constant in it computed.
pub open spec fn opt_folded(e: Option<ExprModel>, now_ns: i64) -> Option<ExprModel> {
    match e {
        Some(x) => Some(folded(x, now_ns)),
        None => None,
    }
}

/// A plan with what is constant in its conditions computed.
pub open spec fn folded_plan(p: PlanModel, now_ns: i64) -> PlanModel
    decreases p,
{
    match p {
        PlanModel::Scan(s) => PlanModel::Scan(
            ScanModel { predicate: opt_folded(s.predicate, now_ns), ..s },
        ),
        PlanModel::Filter { predicate, input } => PlanModel::Filter {
            predicate: folded(predicate, now_ns),
            input: Box::new(folded_plan(*input, now_ns)),
        },
        PlanModel::Project { columns, input } => PlanModel::Project {
            columns,
            input: Box::new(folded_plan(*input, now_ns)),
        },
        PlanModel::Aggregate { keys, aggregates, input } => PlanModel::Aggregate {
            keys,
            aggregates,
            input: Box::new(folded_plan(*input, now_ns)),
        },
        PlanModel::Sort { keys, input } => PlanModel::Sort {
            keys,
            input: Box::new(folded_plan(*input, now_ns)),
        },
        PlanModel::Limit { n, offset, input } => PlanModel::Limit {
            n,
            offset,
            input: Box::new(folded_plan(*input, now_ns)),
        },
        PlanModel::Join { kind, left, right, condition } => PlanModel::Join {
            kind,
            left: Box::new(folded_plan(*left, now_ns)),
            right: Box::new(folded_plan(*right, now_ns)),
            condition,
        },
    }
}

fn const_value(op: BinOp, a: i64, b: i64) -> (out: Option<i64>)
    ensures
        out == const_op(op, a, b),
{
    match op {
        BinOp::Add => a.checked_add(b),
        BinOp::Sub => a.checked_sub(b),
        BinOp::Mul => a.checked_mul(b),
        BinOp::Div => a.checked_div(b),
        BinOp::Mod => a.checked_rem(b),
        _ => None,
    }
}

/// Computes what is constant in an expression.
pub fn fold_expr(expr: Expr, now_ns: i64) -> (out: Expr)
    ensures
        out@ == folded(expr@, now_ns),
    decreases expr,
{
    proof {
        expr_view_lists(expr);
    }
    match expr {
        Expr::Function { name, args } => {
            if str_eq(name.as_str(), "now") && args.len() == 0 {
                Expr::Literal(Literal::Int(now_ns))
            } else {
                Expr::Function { name, args }
            }
        },
        Expr::Interval(ns) => Expr::Literal(Literal::Int(ns)),
        Expr::BinOp { op, left, right } => {
            let l = fold_expr(*left, now_ns);
            let r = fold_expr(*right, now_ns);
            match (&l, &r) {
                (Expr::Literal(Literal::Int(a)), Expr::Literal(Literal::Int(b))) => {
                    if let Some(v) = const_value(op, *a, *b) {
                        return Expr::Literal(Literal::Int(v));
                    }
                },
                _ => {},
            }
            Expr::BinOp { op, left: Box::new(l), right: Box::new(r) }
        },
        other => other,
    }
}

/// Computes what is constant in the conditions of a plan, at the time `now_ns`.
pub fn fold_constants(plan: LogicalPlan, now_ns: i64) -> (out: LogicalPlan)
    ensures
        out@ == folded_plan(plan@, now_ns),
    decreases plan,
{
    match plan {
        LogicalPlan::Scan(scan) => {
            let predicate = match scan.predicate {
                Some(p) => Some(fold_expr(p, now_ns)),
                None => None,
            };
            LogicalPlan::Scan(
                ScanOp {
                    table: scan.table,
                    predicate,
                    projection: scan.projection,
                    partition_filter: scan.partition_filter,
                    limit: scan.limit,
                },
            )
        },
        LogicalPlan::Filter { predicate, input } => LogicalPlan::Filter {
            predicate: fold_expr(predicate, now_ns),
            input: Box::new(fold_constants(*input, now_ns)),
        },
        LogicalPlan::Project { columns, input } => LogicalPlan::Project {
            columns,
            input: Box::new(fold_constants(*input, now_ns)),
        },
        LogicalPlan::Aggregate { keys, aggregates, input } => LogicalPlan::Aggregate {
            keys,
            aggregates,
            input: Box::new(fold_constants(*input, now_ns)),
        },
        LogicalPlan::Sort { keys, input } => LogicalPlan::Sort {
            keys,
            input: Box::new(fold_constants(*input, now_ns)),
        },
        LogicalPlan::Limit { n, offset, input } => LogicalPlan::Limit {
            n,
            offset,
            input: Box::new(fold_constants(*input, now_ns)),
        },
        LogicalPlan::Join { kind, left, right, condition } => LogicalPlan::Join {
            kind,
            left: Box::new(fold_constants(*left, now_ns)),
            right: Box::new(fold_constants(*right, now_ns)),
            condition,
        },
    }
}

// ── Predicate pushdown ──────────────────────────────────────────────────────

/// A plan with each filter that stands right above a scan without a condition made the
/// scan's condition. A filter further up stays where it is, and so applies to the rows that
/// the scan's condition leaves.
pub open spec fn predicates_pushed(p: PlanModel) -> PlanModel
    decreases p,
{
    match p {
        PlanModel::Scan(s) => p,
        PlanModel::Filter { predicate, input } => match predicates_pushed(*input) {
            PlanModel::Scan(s) => if s.predicate is None {
                PlanModel::Scan(ScanModel { predicate: Some(predicate), ..s })
            } else {
                PlanModel::Filter { predicate, input: Box::new(PlanModel::Scan(s)) }
            },
            other => PlanModel::Filter { predicate, input: Box::new(other) },
        },
        PlanModel::Project { columns, input } => PlanModel::Project {
            columns,
            input: Box::new(predicates_pushed(*input)),
        },
        PlanModel::Aggregate { keys, aggregates, input } => PlanModel::Aggregate {
            keys,
            aggregates,
            input: Box::new(predicates_pushed(*input)),
        },
        PlanModel::Sort { keys, input } => PlanModel::Sort {
            keys,
            input: Box::new(predicates_pushed(*input)),
        },
        PlanModel::Limit { n, offset, input } => PlanModel::Limit {
            n,
            offset,
            input: Box::new(predicates_pushed(*input)),
        },
        PlanModel::Join { kind, left, right, condition } => PlanModel::Join {
            kind,
            left: Box::new(predicates_pushed(*left)),
            right: Box::new(predicates_pushed(*right)),
            condition,
        },
    }
}

/// Moves filters into the scans below them.
pub fn predicate_pushdown(plan: LogicalPlan) -> (out: LogicalPlan)
    ensures
        out@ == predicates_pushed(plan@),
    decreases plan,
{
    match plan {
        LogicalPlan::Scan(scan) => LogicalPlan::Scan(scan),
        LogicalPlan::Filter { predicate, input } => match predicate_pushdown(*input) {
            LogicalPlan::Scan(scan) => if scan.predicate.is_none() {
                LogicalPlan::Scan(
                    ScanOp {
                        table: scan.table,
                        predicate: Some(predicate),
                        projection: scan.projection,
                        partition_filter: scan.partition_filter,
                        limit: scan.limit,
                    },
                )
            } else {
                LogicalPlan::Filter { predicate, input: Box::new(LogicalPlan::Scan(scan)) }
            },
            other => LogicalPlan::Filter { predicate, input: Box::new(other) },
        },
        LogicalPlan::Project { columns, input } => LogicalPlan::Project {
            columns,
            input: Box::new(predicate_pushdown(*input)),
        },
        LogicalPlan::Aggregate { keys, aggregates, input } => LogicalPlan::Aggregate {
            keys,
            aggregates,
            input: Box::new(predicate_pushdown(*input)),
        },
        LogicalPlan::Sort { keys, input } => LogicalPlan::Sort {
            keys,
            input: Box::new(predicate_pushdown(*input)),
        },
        LogicalPlan::Limit { n, offset, input } => LogicalPlan::Limit {
            n,
            offset,
            input: Box::new(predicate_pushdown(*input)),
        },
        LogicalPlan::Join { kind, left, right, condition } => LogicalPlan::Join {
            kind,
            left: Box::new(predicate_pushdown(*left)),
            right: Box::new(predicate_pushdown(*right)),
            condition,
        },
    }
}

// ── Projection pushdown ─────────────────────────────────────────────────────

/// A plan with the columns of each projection right above a scan made those of the scan,
/// unless it has some.
pub open spec fn projections_pushed(p: PlanModel) -> PlanModel
    decreases p,
{
    match p {
        PlanModel::Scan(s) => p,
        PlanModel::Project { columns, input } => match projections_pushed(*input) {
            PlanModel::Scan(s) => PlanModel::Project {
                columns,
                input: Box::new(
                    PlanModel::Scan(
                        ScanModel {
                            projection: match s.projection {
                                Some(c) => Some(c),
                                None => Some(columns),
                            },
                            ..s
                        },
                    ),
                ),
            },
            other => PlanModel::Project { columns, input: Box::new(other) },
        },
        PlanModel::Filter { predicate, input } => PlanModel::Filter {
            predicate,
            input: Box::new(projections_pushed(*input)),
        },
        PlanModel::Aggregate { keys, aggregates, input } => PlanModel::Aggregate {
            keys,
            aggregates,
            input: Box::new(projections_pushed(*input)),
        },
        PlanModel::Sort { keys, input } => PlanModel::Sort {
            keys,
            input: Box::new(projections_pushed(*input)),
        },
        PlanModel::Limit { n, offset, input } => PlanModel::Limit {
            n,
            offset,
            input: Box::new(projections_pushed(*input)),
        },
        PlanModel::Join { kind, left, right, condition } => PlanModel::Join {
            kind,
            left: Box::new(projections_pushed(*left)),
            right: Box::new(projections_pushed(*right)),
            condition,
        },
    }
}

/// Restricts scans to the columns that are projected right above them.
pub fn projection_pushdown(plan: LogicalPlan) -> (out: LogicalPlan)
    ensures
        out@ == projections_pushed(plan@),
    decreases plan,
{
    match plan {
        LogicalPlan::Scan(scan) => LogicalPlan::Scan(scan),
        LogicalPlan::Project { columns, input } => match projection_pushdown(*input) {
            LogicalPlan::Scan(scan) => {
                let projection = match scan.projection {
                    Some(c) => Some(c),
                    None => Some(clone_strings(&columns)),
                };
                let scan = ScanOp {
                    table: scan.table,
                    predicate: scan.predicate,
                    projection,
                    partition_filter: scan.partition_filter,
                    limit: scan.limit,
                };
                let below = LogicalPlan::Scan(scan);
                assert(below@ == PlanModel::Scan(scan@));
                LogicalPlan::Project { columns, input: Box::new(below) }
            },
            other => LogicalPlan::Project { columns, input: Box::new(other) },
        },
        LogicalPlan::Filter { predicate, input } => LogicalPlan::Filter {
            predicate,
            input: Box::new(projection_pushdown(*input)),
        },
        LogicalPlan::Aggregate { keys, aggregates, input } => LogicalPlan::Aggregate {
            keys,
            aggregates,
            input: Box::new(projection_pushdown(*input)),
        },
        LogicalPlan::Sort { keys, input } => LogicalPlan::Sort {
            keys,
            input: Box::new(projection_pushdown(*input)),
        },
        LogicalPlan::Limit { n, offset, input } => LogicalPlan::Limit {
            n,
            offset,
            input: Box::new(projection_pushdown(*input)),
        },
        LogicalPlan::Join { kind, left, right, condition } => LogicalPlan::Join {
            kind,
            left: Box::new(projection_pushdown(*left)),
            right: Box::new(projection_pushdown(*right)),
            condition,
        },
    }
}

// ── Partition pruning ───────────────────────────────────────────────────────

/// Whether an expression is the column of timestamps.
pub open spec fn is_timestamp(e: ExprModel) -> bool {
    e matches ExprModel::Column { table, name } && name == "timestamp_ns"@
}

/// The whole number that an expression is, as a bound on timestamps: no timestamp lies
/// below 0, so a negative number is taken for 0.
pub open spec fn const_u64(e: ExprModel) -> Option<u64> {
    match e {
        ExprModel::Literal(LiteralModel::Int(n)) => Some(if n < 0 { 0 } else { n as u64 }),
        _ => None,
    }
}

/// The range of time that a condition asks for, if it is made of bounds on the
/// timestamp, possibly with other conditions beside them.
pub open spec fn time_range(e: ExprModel) -> Option<(u64, u64)>
    decreases e,
{
    match e {
        ExprModel::BinOp { op: BinOp::And, left, right } => match (
            time_range(*left),
            time_range(*right),
        ) {
            (Some(l), Some(r)) => Some((l.0, r.1)),
            (Some(l), None) => Some(l),
            (None, r) => r,
        },
        ExprModel::BinOp { op: BinOp::GtEq, left, right } => if is_timestamp(*left) {
            match const_u64(*right) {
                Some(v) => Some((v, u64::MAX)),
                None => None,
            }
        } else {
            None
        },
        ExprModel::BinOp { op: BinOp::LtEq, left, right } => if is_timestamp(*left) {
            match const_u64(*right) {
                Some(v) => Some((0, v)),
                None => None,
            }
        } else {
            None
        },
        ExprModel::Between { expr, low, high } => if is_timestamp(*expr) {
            match (const_u64(*low), const_u64(*high)) {
                (Some(lo), Some(hi)) => Some((lo, hi)),
                _ => None,
            }
        } else {
            None
        },
        _ => None,
    }
}

/// The partitions that a scan has to read: those that meet the range of time that its
/// condition asks for, and none where none does. Without such a range, or without statistics
/// of the table, they stay as they are.
pub open spec fn pruned_scan(s: ScanModel, tables: Seq<DescModel>) -> ScanModel {
    match s.predicate {
        None => s,
        Some(e) => match time_range(e) {
            None => s,
            Some((start, end)) => match table_named(tables, s.table) {
                Some(t) => if t.stats.len() > 0 {
                    ScanModel {
                        partition_filter: Some(overlapping(t.stats, start, end)),
                        ..s
                    }
                } else {
                    s
                },
                None => s,
            },
        },
    }
}

/// A plan with its scans restricted to the partitions that they have to read.
pub open spec fn pruned(p: PlanModel, tables: Seq<DescModel>) -> PlanModel
    decreases p,
{
    match p {
        PlanModel::Scan(s) => PlanModel::Scan(pruned_scan(s, tables)),
        PlanModel::Filter { predicate, input } => PlanModel::Filter {
            predicate,
            input: Box::new(pruned(*input, tables)),
        },
        PlanModel::Project { columns, input } => PlanModel::Project {
            columns,
            input: Box::new(pruned(*input, tables)),
        },
        PlanModel::Aggregate { keys, aggregates, input } => PlanModel::Aggregate {
            keys,
            aggregates,
            input: Box::new(pruned(*input, tables)),
        },
        PlanModel::Sort { keys, input } => PlanModel::Sort {
            keys,
            input: Box::new(pruned(*input, tables)),
        },
        PlanModel::Limit { n, offset, input } => PlanModel::Limit {
            n,
            offset,
            input: Box::new(pruned(*input, tables)),
        },
        PlanModel::Join { kind, left, right, condition } => PlanModel::Join {
            kind,
            left: Box::new(pruned(*left, tables)),
            right: Box::new(pruned(*right, tables)),
            condition,
        },
    }
}

fn is_ts(e: &Expr) -> (yes: bool)
    ensures
        yes == is_timestamp(e@),
{
    match e {
        Expr::Column { table, name } => str_eq(name.as_str(), "timestamp_ns"),
        _ => false,
    }
}

fn as_u64(e: &Expr) -> (out: Option<u64>)
    ensures
        out == const_u64(e@),
{
    match e {
        Expr::Literal(Literal::Int(n)) => Some(if *n < 0 { 0 } else { *n as u64 }),
        _ => None,
    }
}

/// The range of time that a condition asks for.
pub fn extract_time_range(expr: &Expr) -> (out: Option<(u64, u64)>)
    ensures
        out == time_range(expr@),
    decreases expr,
{
    match expr {
        Expr::BinOp { op: BinOp::And, left, right } => {
            let l = extract_time_range(left);
            let r = extract_time_range(right);
            match (l, r) {
                (Some((start, _)), Some((_, end))) => Some((start, end)),
                (Some(v), None) => Some(v),
                (None, v) => v,
            }
        },
        Expr::BinOp { op: BinOp::GtEq, left, right } => {
            if is_ts(left) {
                match as_u64(right) {
                    Some(v) => Some((v, u64::MAX)),
                    None => None,
                }
            } else {
                None
            }
        },
        Expr::BinOp { op: BinOp::LtEq, left, right } => {
            if is_ts(left) {
                match as_u64(right) {
                    Some(v) => Some((0, v)),
                    None => None,
                }
            } else {
                None
            }
        },
        Expr::Between { expr, low, high } => {
            if is_ts(expr) {
                match (as_u64(low), as_u64(high)) {
                    (Some(lo), Some(hi)) => Some((lo, hi)),
                    _ => None,
                }
            } else {
                None
            }
        },
        _ => None,
    }
}

/// Restricts scans to the partitions that they have to read.
pub fn partition_prune(plan: LogicalPlan, catalog: &Catalog) -> (out: LogicalPlan)
    ensures
        out@ == pruned(plan@, catalog@),
    decreases plan,
{
    match plan {
        LogicalPlan::Scan(scan) => {
            let range = match &scan.predicate {
                Some(e) => extract_time_range(e),
                None => None,
            };
            match range {
                None => LogicalPlan::Scan(scan),
                Some((start, end)) => {
                    if !catalog.has_stats(scan.table.as_str()) {
                        return LogicalPlan::Scan(scan);
                    }
                    let keys = catalog.overlapping_partitions(scan.table.as_str(), start, end);
                    LogicalPlan::Scan(
                        ScanOp {
                            table: scan.table,
                            predicate: scan.predicate,
                            projection: scan.projection,
                            partition_filter: Some(keys),
                            limit: scan.limit,
                        },
                    )
                },
            }
        },
        LogicalPlan::Filter { predicate, input } => LogicalPlan::Filter {
            predicate,
            input: Box::new(partition_prune(*input, catalog)),
        },
        LogicalPlan::Project { columns, input } => LogicalPlan::Project {
            columns,
            input: Box::new(partition_prune(*input, catalog)),
        },
        LogicalPlan::Aggregate { keys, aggregates, input } => LogicalPlan::Aggregate {
            keys,
            aggregates,
            input: Box::new(partition_prune(*input, catalog)),
        },
        LogicalPlan::Sort { keys, input } => LogicalPlan::Sort {
            keys,
            input: Box::new(partition_prune(*input, catalog)),
        },
        LogicalPlan::Limit { n, offset, input } => LogicalPlan::Limit {
            n,
            offset,
            input: Box::new(partition_prune(*input, catalog)),
        },
        LogicalPlan::Join { kind, left, right, condition } => LogicalPlan::Join {
            kind,
            left: Box::new(partition_prune(*left, catalog)),
            right: Box::new(partition_prune(*right, catalog)),
            condition,
        },
    }
}

// ── Laws ────────────────────────────────────────────────────────────────────

/// Folding a folded expression changes nothing.
pub proof fn folding_is_idempotent(e: ExprModel, now_ns: i64)
    ensures
        folded(folded(e, now_ns), now_ns) == folded(e, now_ns),
    decreases e,
{
    match e {
        ExprModel::BinOp { op, left, right } => {
            folding_is_idempotent(*left, now_ns);
            folding_is_idempotent(*right, now_ns);
        },
        _ => {},
    }
}

/// Whether a row with timestamp `ts` can meet a condition, going by its bounds on the
/// timestamp alone.
pub open spec fn admits(e: ExprModel, ts: u64) -> bool
    decreases e,
{
    match e {
        ExprModel::BinOp { op: BinOp::And, left, right } => admits(*left, ts) && admits(*right, ts),
        ExprModel::BinOp { op: BinOp::GtEq, left, right } => is_timestamp(*left) ==> match *right {
            ExprModel::Literal(LiteralModel::Int(n)) => ts >= n,
            _ => true,
        },
        ExprModel::BinOp { op: BinOp::LtEq, left, right } => is_timestamp(*left) ==> match *right {
            ExprModel::Literal(LiteralModel::Int(n)) => ts <= n,
            _ => true,
        },
        ExprModel::Between { expr, low, high } => is_timestamp(*expr) ==> match (*low, *high) {
            (
                ExprModel::Literal(LiteralModel::Int(lo)),
                ExprModel::Literal(LiteralModel::Int(hi)),
            ) => lo <= ts <= hi,
            _ => true,
        },
        _ => true,
    }
}

/// The range of time of a condition holds every row that the condition admits.
pub proof fn time_range_is_safe(e: ExprModel, ts: u64)
    requires
        admits(e, ts),
    ensures
        time_range(e) matches Some((start, end)) ==> start <= ts <= end,
    decreases e,
{
    match e {
        ExprModel::BinOp { op: BinOp::And, left, right } => {
            time_range_is_safe(*left, ts);
            time_range_is_safe(*right, ts);
        },
        _ => {},
    }
}

/// Whether a scan reads a partition.
pub open spec fn reads_partition(s: ScanModel, key: u64) -> bool {
    match s.partition_filter {
        Some(keys) => keys.contains(key),
        None => true,
    }
}

/// Pruning loses no row: a partition that holds a row which the scan's condition admits
/// is still read, if it was read before.
pub proof fn pruning_loses_no_row(
    s: ScanModel,
    tables: Seq<DescModel>,
    i: int,
    ts: u64,
)
    requires
        s.predicate matches Some(e) && admits(e, ts),
        table_named(tables, s.table) matches Some(t) && 0 <= i < t.stats.len()
            && t.stats[i].min_timestamp_ns <= ts <= t.stats[i].max_timestamp_ns
            && reads_partition(s, t.stats[i].partition_key),
    ensures
        reads_partition(
            pruned_scan(s, tables),
            table_named(tables, s.table)->Some_0.stats[i].partition_key,
        ),
{
    let e = s.predicate->Some_0;
    let t = table_named(tables, s.table)->Some_0;
    time_range_is_safe(e, ts);
    if let Some(r) = time_range(e) {
        crate::query::catalog::pruning_keeps_overlapping(t.stats, i, r.0, r.1);
    }
}

/// Whether statistics say that a partition meets a range of time.
pub open spec fn some_partition_overlaps(
    stats: Seq<TableStats>,
    key: u64,
    range: (u64, u64),
) -> bool {
    exists|i: int|
        0 <= i < stats.len() && (#[trigger] stats[i]).partition_key == key && partition_overlaps(
            stats[i],
            range.0,
            range.1,
        )
}

/// A scan that asks for a range of time reads only partitions that meet it, going by the
/// statistics of its table; none where no partition does.
pub proof fn pruned_scan_reads_only_the_range(s: ScanModel, tables: Seq<DescModel>, key: u64)
    requires
        s.predicate matches Some(e) && time_range(e) is Some,
        table_named(tables, s.table) matches Some(t) && t.stats.len() > 0,
        reads_partition(pruned_scan(s, tables), key),
    ensures
        some_partition_overlaps(
            table_named(tables, s.table)->Some_0.stats,
            key,
            time_range(s.predicate->Some_0)->Some_0,
        ),
{
    let stats = table_named(tables, s.table)->Some_0.stats;
    let range = time_range(s.predicate->Some_0)->Some_0;
    crate::query::catalog::overlapping_partitions_overlap(stats, range.0, range.1, key);
}

/// Whether an expression is made of whole numbers and the operators on them alone.
pub open spec fn is_number_tree(e: ExprModel) -> bool
    decreases e,
{
    match e {
        ExprModel::Literal(LiteralModel::Int(_)) => true,
        ExprModel::BinOp { op, left, right } => {
            &&& op == BinOp::Add || op == BinOp::Sub || op == BinOp::Mul || op == BinOp::Div || op
                == BinOp::Mod
            &&& is_number_tree(*left)
            &&& is_number_tree(*right)
        },
        _ => false,
    }
}

/// The quotient of two whole numbers, cut off towards zero.
pub open spec fn quotient(a: int, b: int) -> int {
    if a >= 0 {
        if b > 0 {
            a / b
        } else {
            -(a / -b)
        }
    } else if b > 0 {
        -(-a / b)
    } else {
        -a / -b
    }
}

/// The result of a step of a computation on whole numbers of 64 bits, where it is defined:
/// no number outgrows its bits, and nothing is divided by zero.
pub open spec fn step_value(op: BinOp, a: int, b: int) -> Option<int> {
    let v = match op {
        BinOp::Add => a + b,
        BinOp::Sub => a - b,
        BinOp::Mul => a * b,
        BinOp::Mod => a - b * quotient(a, b),
        _ => quotient(a, b),
    };
    let divides = op == BinOp::Div || op == BinOp::Mod;
    if divides && (b == 0 || !(i64::MIN <= quotient(a, b) <= i64::MAX)) {
        None
    } else if i64::MIN <= v <= i64::MAX {
        Some(v)
    } else {
        None
    }
}

/// The value of an expression of whole numbers, where all its steps are defined.
pub open spec fn tree_value(e: ExprModel) -> Option<int>
    decreases e,
{
    match e {
        ExprModel::Literal(LiteralModel::Int(n)) => Some(n as int),
        ExprModel::BinOp { op, left, right } => match (tree_value(*left), tree_value(*right)) {
            (Some(a), Some(b)) => step_value(op, a, b),
            _ => None,
        },
        _ => None,
    }
}

/// Whether an expression holds an operator on two whole numbers that is not defined on them.
pub open spec fn holds_undefined_step(e: ExprModel) -> bool
    decreases e,
{
    match e {
        ExprModel::BinOp { op, left, right } => {
            ||| is_undefined_step(op, *left, *right)
            ||| holds_undefined_step(*left)
            ||| holds_undefined_step(*right)
        },
        _ => false,
    }
}

/// Whether an operator stands between two whole numbers on which it is not defined.
pub open spec fn is_undefined_step(op: BinOp, left: ExprModel, right: ExprModel) -> bool {
    match (left, right) {
        (
            ExprModel::Literal(LiteralModel::Int(a)),
            ExprModel::Literal(LiteralModel::Int(b)),
        ) => step_value(op, a as int, b as int) is None,
        _ => false,
    }
}

/// An operator on two whole numbers gives its value, where it has one.
pub proof fn constants_are_computed(op: BinOp, a: i64, b: i64)
    requires
        op == BinOp::Add || op == BinOp::Sub || op == BinOp::Mul || op == BinOp::Div || op
            == BinOp::Mod,
    ensures
        match step_value(op, a as int, b as int) {
            Some(v) => const_op(op, a, b) == Some(v as i64) && i64::MIN <= v <= i64::MAX,
            None => const_op(op, a, b) is None,
        },
{
    let (x, d) = (a as int, b as int);
    if (op == BinOp::Div || op == BinOp::Mod) && b != 0 {
        let p = if x < 0 { -x } else { x };
        let q = if d < 0 { -d } else { d };
        lemma_fundamental_div_mod(p, q);
        lemma_mod_bound(p, q);
        assert(0 <= p / q <= p) by {
            lemma_div_pos_is_pos(p, q);
            lemma_div_is_ordered_by_denominator(p, 1, q);
        }
        if p / q > i64::MAX {
            assert(q == 1) by {
                if q >= 2 {
                    lemma_div_is_ordered_by_denominator(p, 2, q);
                }
            }
        }
        assert(x == 0 ==> quotient(x, d) == 0);
        assert(-(q * (p / q)) == (-q) * (p / q)) by (nonlinear_arith);
        assert(-(q * (p / q)) == q * (-(p / q))) by (nonlinear_arith);
        assert(q * (p / q) == (-q) * (-(p / q))) by (nonlinear_arith);
        assert(x * -1 == -x && d * -1 == -d);
        if op == BinOp::Mod {
            let r = x - d * quotient(x, d);
            assert(r == if x < 0 { -(p % q) } else { p % q });
        }
    }
}

/// Folding computes an expression of whole numbers to its value; where a step of it is not
/// defined, that step is kept.
pub proof fn folding_computes_whole_numbers(e: ExprModel, now_ns: i64)
    requires
        is_number_tree(e),
    ensures
        match tree_value(e) {
            Some(v) => i64::MIN <= v <= i64::MAX && folded(e, now_ns) == ExprModel::Literal(
                LiteralModel::Int(v as i64),
            ),
            None => folded(e, now_ns) is BinOp && holds_undefined_step(folded(e, now_ns)),
        },
    decreases e,
{
    match e {
        ExprModel::BinOp { op, left, right } => {
            folding_computes_whole_numbers(*left, now_ns);
            folding_computes_whole_numbers(*right, now_ns);
            match (tree_value(*left), tree_value(*right)) {
                (Some(a), Some(b)) => {
                    constants_are_computed(op, a as i64, b as i64);
                },
                _ => {},
            }
        },
        _ => {},
    }
}

} // verus!
