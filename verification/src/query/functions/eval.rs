//! Evaluation of expressions over a batch of rows.

use crate::common::schema::index_of;
use crate::query::ast::{expr_view_lists, expr_views, BinOp, Expr, ExprModel, Literal, UnaryOp};
use crate::columnar::batch::{batch_wf, Batch, BatchModel};
use crate::columnar::column::{
    cells_view, col_len, col_wf, Cells, CellsModel, Column, ColumnModel,
};
use crate::query::error::QueryError;
use crate::float::{float_of_signed, signed_bits};
use crate::query::functions::compute::{
    abort, and_masks, arithmetic_arrays, arithmetic_cols, both, column_outcome, compare_arrays,
    compare_cols, constant, either, eval_literal, execution_error, literal_col, mask_outcome,
    negate_col, negate_numeric, none_of, not_mask, null_mask, null_test, or_masks, repeat, repeated,
    reports_eval, EvalFault,
};
use crate::query::functions::like::{like, marked, Matcher};
use crate::query::functions::temporal::{
    delta, delta_of, histogram_quantile, quantile_of, rate, rate_of, time_bucket, time_bucket_of,
};
use crate::text::{str_eq, views};
use vstd::prelude::*;

verus! {

// ── Meaning of expressions ──────────────────────────────────────────────────

/// The outcome of an expression: a column, or why there is none.
pub type Evaluated = Result<ColumnModel, EvalFault>;

/// A condition, or the text that says that a column is none.
pub open spec fn as_condition(c: ColumnModel, text: Seq<char>) -> Result<
    CellsModel<bool>,
    EvalFault,
> {
    match c {
        ColumnModel::Boolean(m) => Ok(m),
        _ => Err(EvalFault::Execution(text)),
    }
}

/// A condition as a column.
pub open spec fn of_mask(m: Result<CellsModel<bool>, EvalFault>) -> Evaluated {
    match m {
        Ok(c) => Ok(ColumnModel::Boolean(c)),
        Err(f) => Err(f),
    }
}

/// The column of a batch with a name.
pub open spec fn column_named(b: BatchModel, name: Seq<char>) -> Evaluated {
    match index_of(b.schema, name) {
        Some(i) => Ok(b.columns[i]),
        None => Err(EvalFault::Execution("column '"@ + name + "' not found"@)),
    }
}

/// `AND` and `OR` of two outcomes; both are computed before they are looked at.
pub open spec fn logical_result(op: BinOp, l: Evaluated, r: Evaluated) -> Evaluated {
    let left_text = if op is And {
        "AND: left not boolean"@
    } else {
        "OR: left not boolean"@
    };
    let right_text = if op is And {
        "AND: right not boolean"@
    } else {
        "OR: right not boolean"@
    };
    match l {
        Err(f) => Err(f),
        Ok(lc) => match r {
            Err(f) => Err(f),
            Ok(rc) => match as_condition(lc, left_text) {
                Err(f) => Err(f),
                Ok(lm) => match as_condition(rc, right_text) {
                    Err(f) => Err(f),
                    Ok(rm) => of_mask(
                        if op is And {
                            both(lm, rm)
                        } else {
                            either(lm, rm)
                        },
                    ),
                },
            },
        },
    }
}

/// An operator on two outcomes.
pub open spec fn operator_result(op: BinOp, l: Evaluated, r: Evaluated) -> Evaluated {
    if op is And || op is Or {
        logical_result(op, l, r)
    } else {
        match l {
            Err(f) => Err(f),
            Ok(lc) => match r {
                Err(f) => Err(f),
                Ok(rc) => if op is Add || op is Sub || op is Mul || op is Div || op is Mod {
                    arithmetic_cols(lc, rc, op)
                } else {
                    of_mask(compare_cols(lc, rc, op))
                },
            },
        }
    }
}

/// Whether values lie between bounds.
pub open spec fn between_result(v: Evaluated, lo: Evaluated, hi: Evaluated) -> Evaluated {
    match v {
        Err(f) => Err(f),
        Ok(vc) => match lo {
            Err(f) => Err(f),
            Ok(lc) => match hi {
                Err(f) => Err(f),
                Ok(hc) => match compare_cols(vc, lc, BinOp::GtEq) {
                    Err(f) => Err(f),
                    Ok(ge) => match compare_cols(vc, hc, BinOp::LtEq) {
                        Err(f) => Err(f),
                        Ok(le) => of_mask(both(ge, le)),
                    },
                },
            },
        },
    }
}

/// Whether values are among the first `n` of a list.
pub open spec fn in_result(v: ColumnModel, items: Seq<Evaluated>, n: nat) -> Result<
    CellsModel<bool>,
    EvalFault,
>
    decreases n,
{
    if n == 0 {
        Ok(repeated(false, col_len(v)))
    } else {
        match in_result(v, items, (n - 1) as nat) {
            Err(f) => Err(f),
            Ok(mask) => match items[n - 1] {
                Err(f) => Err(f),
                Ok(c) => match compare_cols(v, c, BinOp::Eq) {
                    Err(f) => Err(f),
                    Ok(eq) => either(mask, eq),
                },
            },
        }
    }
}

/// Which texts match a pattern, or do not. Nulls are taken by the value that was kept for
/// them.
pub open spec fn like_result(c: ColumnModel, pattern: Seq<char>, negated: bool) -> Evaluated {
    match c {
        ColumnModel::Utf8(s) => Ok(
            ColumnModel::Boolean(
                CellsModel {
                    values: Seq::new(
                        s.values.len(),
                        |i: int| like(s.values[i], pattern) != negated,
                    ),
                    valid: Seq::new(s.values.len(), |i: int| true),
                },
            ),
        ),
        _ => Err(EvalFault::Execution("LIKE requires text column"@)),
    }
}

/// What is answered where the first row of a column without rows is asked for.
pub open spec fn no_first_row() -> EvalFault {
    EvalFault::Abort(
        "Trying to access an element at index 0 from a PrimitiveArray of length 0"@,
    )
}

/// The first value of a column of whole numbers.
pub open spec fn first_int(c: ColumnModel) -> Result<i64, EvalFault> {
    match c {
        ColumnModel::Int64(a) => if a.values.len() > 0 {
            Ok(a.values[0])
        } else {
            Err(no_first_row())
        },
        ColumnModel::UInt64(a) => if a.values.len() > 0 {
            Ok(a.values[0] as i64)
        } else {
            Err(no_first_row())
        },
        _ => Err(EvalFault::Execution("expected integer scalar"@)),
    }
}

/// The first value of a column of numbers, as a floating-point number.
pub open spec fn first_float(c: ColumnModel) -> Result<u64, EvalFault> {
    match c {
        ColumnModel::Float64(a) => if a.values.len() > 0 {
            Ok(a.values[0])
        } else {
            Err(no_first_row())
        },
        ColumnModel::Int64(a) => if a.values.len() > 0 {
            Ok(signed_bits(a.values[0]))
        } else {
            Err(no_first_row())
        },
        _ => Err(EvalFault::Execution("expected float scalar"@)),
    }
}

/// `time_bucket(width, ts)`.
pub open spec fn call_time_bucket(args: Seq<Evaluated>) -> Evaluated {
    if args.len() < 2 {
        Err(EvalFault::Execution("time_bucket(width, ts)"@))
    } else {
        match args[0] {
            Err(f) => Err(f),
            Ok(w) => match first_int(w) {
                Err(f) => Err(f),
                Ok(width) => match args[1] {
                    Err(f) => Err(f),
                    Ok(ts) => time_bucket_of(width, ts),
                },
            },
        }
    }
}

/// `rate(value, window)`.
pub open spec fn call_rate(args: Seq<Evaluated>) -> Evaluated {
    if args.len() < 2 {
        Err(EvalFault::Execution("rate(value, window)"@))
    } else {
        match args[0] {
            Err(f) => Err(f),
            Ok(v) => match args[1] {
                Err(f) => Err(f),
                Ok(w) => match first_int(w) {
                    Err(f) => Err(f),
                    Ok(window) => rate_of(v, window),
                },
            },
        }
    }
}

/// `delta(value, window)`.
pub open spec fn call_delta(args: Seq<Evaluated>) -> Evaluated {
    if args.len() < 2 {
        Err(EvalFault::Execution("delta(value, window)"@))
    } else {
        match args[0] {
            Err(f) => Err(f),
            Ok(v) => match args[1] {
                Err(f) => Err(f),
                Ok(w) => match first_int(w) {
                    Err(f) => Err(f),
                    Ok(window) => delta_of(v),
                },
            },
        }
    }
}

/// `histogram_quantile(q, col)` and `histogram_quantile(q, col, buckets)`.
pub open spec fn call_quantile(args: Seq<Evaluated>) -> Evaluated {
    if args.len() < 2 {
        Err(EvalFault::Execution("histogram_quantile(q, col[, buckets])"@))
    } else {
        match args[0] {
            Err(f) => Err(f),
            Ok(qc) => match first_float(qc) {
                Err(f) => Err(f),
                Ok(q) => match args[1] {
                    Err(f) => Err(f),
                    Ok(v) => if args.len() >= 3 {
                        match args[2] {
                            Err(f) => Err(f),
                            Ok(n) => match first_int(n) {
                                Err(f) => Err(f),
                                Ok(buckets) => quantile_of(q, v),
                            },
                        }
                    } else {
                        quantile_of(q, v)
                    },
                },
            },
        }
    }
}

/// A call of a function on the outcomes of its arguments, at the time `now_ns`, over
/// `rows` rows.
pub open spec fn call_result(
    name: Seq<char>,
    args: Seq<Evaluated>,
    rows: nat,
    now_ns: i64,
) -> Evaluated {
    if name == "now"@ {
        Ok(ColumnModel::Int64(repeated(now_ns, rows)))
    } else if name == "time_bucket"@ {
        call_time_bucket(args)
    } else if name == "rate"@ {
        call_rate(args)
    } else if name == "delta"@ {
        call_delta(args)
    } else if name == "histogram_quantile"@ {
        call_quantile(args)
    } else {
        Err(EvalFault::Execution("unknown function '"@ + name + "'"@))
    }
}

/// The outcome of an expression over a batch, at the time `now_ns`.
pub open spec fn eval_of(b: BatchModel, e: ExprModel, now_ns: i64) -> Evaluated
    decreases e, 0nat,
{
    match e {
        ExprModel::Literal(l) => Ok(literal_col(l, b.rows)),
        ExprModel::Column { table, name } => column_named(b, name),
        ExprModel::Star => Err(EvalFault::Execution("cannot evaluate * as a value"@)),
        ExprModel::BinOp { op, left, right } => operator_result(
            op,
            eval_of(b, *left, now_ns),
            eval_of(b, *right, now_ns),
        ),
        ExprModel::UnaryOp { op: UnaryOp::Neg, operand } => match eval_of(b, *operand, now_ns) {
            Err(f) => Err(f),
            Ok(c) => negate_col(c),
        },
        ExprModel::UnaryOp { op: UnaryOp::Not, operand } => match eval_of(b, *operand, now_ns) {
            Err(f) => Err(f),
            Ok(c) => match as_condition(c, "NOT requires boolean"@) {
                Err(f) => Err(f),
                Ok(m) => Ok(ColumnModel::Boolean(none_of(m))),
            },
        },
        ExprModel::IsNull(x) => match eval_of(b, *x, now_ns) {
            Err(f) => Err(f),
            Ok(c) => Ok(ColumnModel::Boolean(null_test(c, true))),
        },
        ExprModel::IsNotNull(x) => match eval_of(b, *x, now_ns) {
            Err(f) => Err(f),
            Ok(c) => Ok(ColumnModel::Boolean(null_test(c, false))),
        },
        ExprModel::Between { expr, low, high } => between_result(
            eval_of(b, *expr, now_ns),
            eval_of(b, *low, now_ns),
            eval_of(b, *high, now_ns),
        ),
        ExprModel::In { expr, list } => match eval_of(b, *expr, now_ns) {
            Err(f) => Err(f),
            Ok(v) => of_mask(
                in_result(
                    v,
                    eval_list(b, list, list.len(), now_ns),
                    list.len(),
                ),
            ),
        },
        ExprModel::Like { expr, pattern, negated } => match eval_of(b, *expr, now_ns) {
            Err(f) => Err(f),
            Ok(c) => like_result(c, pattern, negated),
        },
        ExprModel::Function { name, args } => call_result(
            name,
            eval_list(b, args, args.len(), now_ns),
            b.rows,
            now_ns,
        ),
        ExprModel::TimeBucket { width_ns, ts_expr } => match eval_of(b, *ts_expr, now_ns) {
            Err(f) => Err(f),
            Ok(c) => time_bucket_of(width_ns, c),
        },
        ExprModel::Rate { value_expr, window_ns } => match eval_of(b, *value_expr, now_ns) {
            Err(f) => Err(f),
            Ok(c) => rate_of(c, window_ns),
        },
        ExprModel::Delta { value_expr, window_ns } => match eval_of(b, *value_expr, now_ns) {
            Err(f) => Err(f),
            Ok(c) => delta_of(c),
        },
        ExprModel::HistogramQuantile { q, value_expr, buckets } => match eval_of(
            b,
            *value_expr,
            now_ns,
        ) {
            Err(f) => Err(f),
            Ok(c) => quantile_of(q, c),
        },
        ExprModel::Now => Ok(ColumnModel::Int64(repeated(now_ns, b.rows))),
        ExprModel::Interval(ns) => Ok(ColumnModel::Int64(repeated(ns, b.rows))),
    }
}

/// The outcomes of the first `n` expressions of a list.
pub open spec fn eval_list(b: BatchModel, list: Seq<ExprModel>, n: nat, now_ns: i64) -> Seq<
    Evaluated,
>
    decreases list, n,
{
    if n == 0 || n > list.len() {
        Seq::empty()
    } else {
        eval_list(b, list, (n - 1) as nat, now_ns).push(eval_of(b, list[n - 1], now_ns))
    }
}

/// The outcomes of a list of expressions.
pub open spec fn evals_of(b: BatchModel, list: Seq<ExprModel>, now_ns: i64) -> Seq<Evaluated> {
    Seq::new(list.len(), |i: int| eval_of(b, list[i], now_ns))
}

proof fn lemma_eval_list(b: BatchModel, list: Seq<ExprModel>, n: nat, now_ns: i64)
    requires
        n <= list.len(),
    ensures
        eval_list(b, list, n, now_ns) == evals_of(b, list, now_ns).take(n as int),
    decreases n,
{
    if n > 0 {
        lemma_eval_list(b, list, (n - 1) as nat, now_ns);
    }
    assert(eval_list(b, list, n, now_ns) =~= evals_of(b, list, now_ns).take(n as int));
}

/// The list of outcomes is the outcome of each expression.
pub proof fn eval_list_is_pointwise(b: BatchModel, list: Seq<ExprModel>, now_ns: i64)
    ensures
        eval_list(b, list, list.len(), now_ns) == evals_of(b, list, now_ns),
{
    lemma_eval_list(b, list, list.len(), now_ns);
    assert(evals_of(b, list, now_ns).take(list.len() as int) =~= evals_of(b, list, now_ns));
}

/// The rows that a condition holds of: an expression that has to be a condition.
pub open spec fn filter_of(b: BatchModel, e: ExprModel, now_ns: i64) -> Result<
    CellsModel<bool>,
    EvalFault,
> {
    match eval_of(b, e, now_ns) {
        Err(f) => Err(f),
        Ok(c) => as_condition(c, "filter expression must be boolean"@),
    }
}

// ── Evaluation ──────────────────────────────────────────────────────────────

/// Evaluates a condition, for `WHERE` and `HAVING`.
pub fn eval_filter(batch: &Batch, expr: &Expr, now_ns: i64) -> (out: Result<
    Cells<bool>,
    QueryError,
>)
    requires
        batch_wf(batch@),
    ensures
        mask_outcome(out, filter_of(batch@, expr@, now_ns)),
{
    match eval_expr(batch, expr, now_ns) {
        Err(e) => Err(e),
        Ok(c) => into_mask(c, "filter expression must be boolean"),
    }
}

fn into_mask(c: Column, text: &str) -> (out: Result<Cells<bool>, QueryError>)
    requires
        col_wf(c@),
    ensures
        mask_outcome(out, as_condition(c@, text@)),
{
    match c {
        Column::Boolean(m) => Ok(m),
        _ => Err(execution_error(text)),
    }
}

fn from_mask(m: Result<Cells<bool>, QueryError>, Ghost(want): Ghost<
    Result<CellsModel<bool>, EvalFault>,
>) -> (out: Result<Column, QueryError>)
    requires
        mask_outcome(m, want),
    ensures
        column_outcome(out, of_mask(want)),
{
    match m {
        Ok(c) => Ok(Column::Boolean(c)),
        Err(e) => Err(e),
    }
}

/// Evaluates an expression to a column, at the time `now_ns`.
pub fn eval_expr(batch: &Batch, expr: &Expr, now_ns: i64) -> (out: Result<Column, QueryError>)
    requires
        batch_wf(batch@),
    ensures
        column_outcome(out, eval_of(batch@, expr@, now_ns)),
    decreases expr, 1nat,
{
    proof {
        expr_view_lists(*expr);
        match expr {
            Expr::In { expr, list } => {
                eval_list_is_pointwise(batch@, expr_views(list@), now_ns);
            },
            Expr::Function { name, args } => {
                eval_list_is_pointwise(batch@, expr_views(args@), now_ns);
            },
            _ => {},
        }
    }
    match expr {
        Expr::Literal(lit) => Ok(eval_literal(lit, batch.rows)),
        Expr::Column { table, name } => eval_column(batch, name.as_str()),
        Expr::Star => Err(execution_error("cannot evaluate * as a value")),
        Expr::BinOp { op, left, right } => {
            let l = match eval_expr(batch, left, now_ns) {
                Ok(c) => c,
                Err(e) => return Err(e),
            };
            let r = match eval_expr(batch, right, now_ns) {
                Ok(c) => c,
                Err(e) => return Err(e),
            };
            eval_binop(*op, l, r)
        },
        Expr::UnaryOp { op: UnaryOp::Neg, operand } => match eval_expr(batch, operand, now_ns) {
            Ok(c) => negate_numeric(&c),
            Err(e) => Err(e),
        },
        Expr::UnaryOp { op: UnaryOp::Not, operand } => match eval_expr(batch, operand, now_ns) {
            Ok(c) => match into_mask(c, "NOT requires boolean") {
                Ok(m) => Ok(Column::Boolean(not_mask(&m))),
                Err(e) => Err(e),
            },
            Err(e) => Err(e),
        },
        Expr::IsNull(e) => match eval_expr(batch, e, now_ns) {
            Ok(c) => Ok(Column::Boolean(null_mask(&c, true))),
            Err(e) => Err(e),
        },
        Expr::IsNotNull(e) => match eval_expr(batch, e, now_ns) {
            Ok(c) => Ok(Column::Boolean(null_mask(&c, false))),
            Err(e) => Err(e),
        },
        Expr::Between { expr, low, high } => {
            let v = match eval_expr(batch, expr, now_ns) {
                Ok(c) => c,
                Err(e) => return Err(e),
            };
            let lo = match eval_expr(batch, low, now_ns) {
                Ok(c) => c,
                Err(e) => return Err(e),
            };
            let hi = match eval_expr(batch, high, now_ns) {
                Ok(c) => c,
                Err(e) => return Err(e),
            };
            eval_between(&v, &lo, &hi)
        },
        Expr::In { expr, list } => {
            let v = match eval_expr(batch, expr, now_ns) {
                Ok(c) => c,
                Err(e) => return Err(e),
            };
            eval_in(batch, &v, list, now_ns)
        },
        Expr::Like { expr, pattern, negated } => match eval_expr(batch, expr, now_ns) {
            Ok(c) => eval_like(&c, pattern.as_str(), *negated),
            Err(e) => Err(e),
        },
        Expr::Function { name, args } => eval_function(batch, name.as_str(), args, now_ns),
        Expr::TimeBucket { width_ns, ts_expr } => match eval_expr(batch, ts_expr, now_ns) {
            Ok(c) => time_bucket(*width_ns, &c),
            Err(e) => Err(e),
        },
        Expr::Rate { value_expr, window_ns } => match eval_expr(batch, value_expr, now_ns) {
            Ok(c) => rate(&c, *window_ns),
            Err(e) => Err(e),
        },
        Expr::Delta { value_expr, window_ns } => match eval_expr(batch, value_expr, now_ns) {
            Ok(c) => delta(&c, *window_ns),
            Err(e) => Err(e),
        },
        Expr::HistogramQuantile { q, value_expr, buckets } => match eval_expr(
            batch,
            value_expr,
            now_ns,
        ) {
            Ok(c) => histogram_quantile(*q, &c, *buckets),
            Err(e) => Err(e),
        },
        Expr::Now => Ok(Column::Int64(constant(now_ns, batch.rows))),
        Expr::Interval(ns) => Ok(Column::Int64(constant(*ns, batch.rows))),
    }
}

fn eval_column(batch: &Batch, name: &str) -> (out: Result<Column, QueryError>)
    requires
        batch_wf(batch@),
    ensures
        column_outcome(out, column_named(batch@, name@)),
{
    match batch.schema.index_of(name) {
        Some(i) => {
            assert(batch@.columns.len() == batch.columns@.len());
            assert(batch@.columns[i as int] == batch.columns@[i as int]@);
            Ok(batch.columns[i].duplicate())
        },
        None => {
            let mut t = "column '".to_string();
            t.append(name);
            t.append("' not found");
            Err(QueryError::Execution(t))
        },
    }
}

fn eval_logical(op: BinOp, l: Column, r: Column) -> (out: Result<Column, QueryError>)
    requires
        col_wf(l@),
        col_wf(r@),
        op is And || op is Or,
    ensures
        column_outcome(out, logical_result(op, Ok(l@), Ok(r@))),
{
    let is_and: bool = op == BinOp::And;
    let left_text = if is_and {
        "AND: left not boolean"
    } else {
        "OR: left not boolean"
    };
    let right_text = if is_and {
        "AND: right not boolean"
    } else {
        "OR: right not boolean"
    };
    let lm = match into_mask(l, left_text) {
        Ok(m) => m,
        Err(e) => return Err(e),
    };
    let rm = match into_mask(r, right_text) {
        Ok(m) => m,
        Err(e) => return Err(e),
    };
    if is_and {
        from_mask(and_masks(&lm, &rm), Ghost(both(cells_view(lm), cells_view(rm))))
    } else {
        from_mask(or_masks(&lm, &rm), Ghost(either(cells_view(lm), cells_view(rm))))
    }
}

/// An operator on two columns.
pub fn eval_binop(op: BinOp, l: Column, r: Column) -> (out: Result<Column, QueryError>)
    requires
        col_wf(l@),
        col_wf(r@),
    ensures
        column_outcome(out, operator_result(op, Ok(l@), Ok(r@))),
{
    match op {
        BinOp::And | BinOp::Or => eval_logical(op, l, r),
        BinOp::Add | BinOp::Sub | BinOp::Mul | BinOp::Div | BinOp::Mod => arithmetic_arrays(
            &l,
            &r,
            op,
        ),
        _ => from_mask(compare_arrays(&l, &r, op), Ghost(compare_cols(l@, r@, op))),
    }
}

fn eval_between(v: &Column, lo: &Column, hi: &Column) -> (out: Result<Column, QueryError>)
    requires
        col_wf(v@),
        col_wf(lo@),
        col_wf(hi@),
    ensures
        column_outcome(out, between_result(Ok(v@), Ok(lo@), Ok(hi@))),
{
    let ge = match compare_arrays(v, lo, BinOp::GtEq) {
        Ok(m) => m,
        Err(e) => return Err(e),
    };
    let le = match compare_arrays(v, hi, BinOp::LtEq) {
        Ok(m) => m,
        Err(e) => return Err(e),
    };
    from_mask(and_masks(&ge, &le), Ghost(both(cells_view(ge), cells_view(le))))
}

fn eval_in(batch: &Batch, v: &Column, list: &Vec<Expr>, now_ns: i64) -> (out: Result<
    Column,
    QueryError,
>)
    requires
        batch_wf(batch@),
        col_wf(v@),
    ensures
        column_outcome(
            out,
            of_mask(
                in_result(
                    v@,
                    evals_of(batch@, expr_views(list@), now_ns),
                    expr_views(list@).len(),
                ),
            ),
        ),
    decreases list, 0nat,
{
    let ghost items = evals_of(batch@, expr_views(list@), now_ns);
    let ghost all = in_result(v@, items, items.len());
    let mut mask = constant(false, v.len());
    for i in 0..list.len()
        invariant
            batch_wf(batch@),
            col_wf(v@),
            items == evals_of(batch@, expr_views(list@), now_ns),
            all == in_result(v@, items, items.len()),
            in_result(v@, items, i as nat) == Ok::<CellsModel<bool>, EvalFault>(cells_view(mask)),
            mask.values@.len() == mask.valid@.len(),
    {
        assert(items[i as int] == eval_of(batch@, list@[i as int]@, now_ns));
        let c = match eval_expr(batch, &list[i], now_ns) {
            Ok(c) => c,
            Err(e) => {
                proof {
                    lemma_in_fails(v@, items, (i + 1) as nat);
                }
                return Err(e);
            },
        };
        let eq = match compare_arrays(v, &c, BinOp::Eq) {
            Ok(m) => m,
            Err(e) => {
                proof {
                    lemma_in_fails(v@, items, (i + 1) as nat);
                }
                return Err(e);
            },
        };
        match or_masks(&mask, &eq) {
            Ok(m) => {
                mask = m;
            },
            Err(e) => {
                proof {
                    lemma_in_fails(v@, items, (i + 1) as nat);
                }
                return Err(e);
            },
        }
    }
    Ok(Column::Boolean(mask))
}

proof fn lemma_in_fails(v: ColumnModel, items: Seq<Evaluated>, n: nat)
    requires
        n <= items.len(),
        in_result(v, items, n) is Err,
    ensures
        in_result(v, items, items.len()) == in_result(v, items, n),
    decreases items.len() - n,
{
    if n < items.len() {
        lemma_in_fails(v, items, n + 1);
    }
}

fn eval_like(c: &Column, pattern: &str, negated: bool) -> (out: Result<Column, QueryError>)
    requires
        col_wf(c@),
    ensures
        column_outcome(out, like_result(c@, pattern@, negated)),
{
    match c {
        Column::Utf8(s) => {
            let matcher = Matcher::new(pattern);
            let mut values: Vec<bool> = Vec::new();
            for i in 0..s.values.len()
                invariant
                    matcher.wf(),
                    matcher.marks() == marked(pattern@),
                    values@ == Seq::new(
                        i as nat,
                        |k: int| like(views(s.values@)[k], pattern@) != negated,
                    ),
            {
                let m = matcher.matches(s.values[i].as_str());
                values.push(m != negated);
                assert(values@ =~= Seq::new(
                    (i + 1) as nat,
                    |k: int| like(views(s.values@)[k], pattern@) != negated,
                ));
            }
            let out = Cells { values, valid: repeat(true, s.values.len()) };
            proof {
                let want = like_result(c@, pattern@, negated);
                assert(want is Ok);
                assert(out.values@ =~= want->Ok_0->Boolean_0.values);
                assert(out.valid@ =~= want->Ok_0->Boolean_0.valid);
            }
            Ok(Column::Boolean(out))
        },
        _ => Err(execution_error("LIKE requires text column")),
    }
}

fn no_row() -> (e: QueryError)
    ensures
        reports_eval(e, no_first_row()),
{
    abort("Trying to access an element at index 0 from a PrimitiveArray of length 0")
}

fn scalar_i64(c: &Column) -> (out: Result<i64, QueryError>)
    ensures
        match (out, first_int(c@)) {
            (Ok(n), Ok(m)) => n == m,
            (Err(e), Err(f)) => reports_eval(e, f),
            _ => false,
        },
{
    match c {
        Column::Int64(a) => if a.values.len() > 0 {
            Ok(a.values[0])
        } else {
            Err(no_row())
        },
        Column::UInt64(a) => if a.values.len() > 0 {
            Ok(a.values[0] as i64)
        } else {
            Err(no_row())
        },
        _ => Err(execution_error("expected integer scalar")),
    }
}

fn scalar_f64(c: &Column) -> (out: Result<u64, QueryError>)
    ensures
        match (out, first_float(c@)) {
            (Ok(n), Ok(m)) => n == m,
            (Err(e), Err(f)) => reports_eval(e, f),
            _ => false,
        },
{
    match c {
        Column::Float64(a) => if a.values.len() > 0 {
            Ok(a.values[0])
        } else {
            Err(no_row())
        },
        Column::Int64(a) => if a.values.len() > 0 {
            Ok(float_of_signed(a.values[0]))
        } else {
            Err(no_row())
        },
        _ => Err(execution_error("expected float scalar")),
    }
}

/// The outcome of argument `i` of a call, and its first value as a whole number.
fn arg_i64(batch: &Batch, args: &Vec<Expr>, i: usize, now_ns: i64) -> (out: Result<
    i64,
    QueryError,
>)
    requires
        batch_wf(batch@),
        i < args@.len(),
    ensures
        match evals_of(batch@, expr_views(args@), now_ns)[i as int] {
            Err(f) => out matches Err(e) && reports_eval(e, f),
            Ok(c) => match (out, first_int(c)) {
                (Ok(n), Ok(m)) => n == m,
                (Err(e), Err(f)) => reports_eval(e, f),
                _ => false,
            },
        },
    decreases args, 0nat,
{
    match eval_expr(batch, &args[i], now_ns) {
        Err(e) => Err(e),
        Ok(c) => scalar_i64(&c),
    }
}

fn eval_time_bucket(batch: &Batch, args: &Vec<Expr>, now_ns: i64) -> (out: Result<
    Column,
    QueryError,
>)
    requires
        batch_wf(batch@),
    ensures
        column_outcome(out, call_time_bucket(evals_of(batch@, expr_views(args@), now_ns))),
    decreases args, 1nat,
{
    assert(expr_views(args@).len() == args@.len());
    if args.len() < 2 {
        return Err(execution_error("time_bucket(width, ts)"));
    }
    let width: i64 = match arg_i64(batch, args, 0, now_ns) {
        Ok(n) => n,
        Err(e) => return Err(e),
    };
    match eval_expr(batch, &args[1], now_ns) {
        Ok(ts) => time_bucket(width, &ts),
        Err(e) => Err(e),
    }
}

fn eval_rate(batch: &Batch, args: &Vec<Expr>, now_ns: i64) -> (out: Result<Column, QueryError>)
    requires
        batch_wf(batch@),
    ensures
        column_outcome(out, call_rate(evals_of(batch@, expr_views(args@), now_ns))),
    decreases args, 1nat,
{
    assert(expr_views(args@).len() == args@.len());
    if args.len() < 2 {
        return Err(execution_error("rate(value, window)"));
    }
    let values = match eval_expr(batch, &args[0], now_ns) {
        Ok(c) => c,
        Err(e) => return Err(e),
    };
    match arg_i64(batch, args, 1, now_ns) {
        Ok(window) => rate(&values, window),
        Err(e) => Err(e),
    }
}

fn eval_delta(batch: &Batch, args: &Vec<Expr>, now_ns: i64) -> (out: Result<Column, QueryError>)
    requires
        batch_wf(batch@),
    ensures
        column_outcome(out, call_delta(evals_of(batch@, expr_views(args@), now_ns))),
    decreases args, 1nat,
{
    assert(expr_views(args@).len() == args@.len());
    if args.len() < 2 {
        return Err(execution_error("delta(value, window)"));
    }
    let values = match eval_expr(batch, &args[0], now_ns) {
        Ok(c) => c,
        Err(e) => return Err(e),
    };
    match arg_i64(batch, args, 1, now_ns) {
        Ok(window) => delta(&values, window),
        Err(e) => Err(e),
    }
}

fn eval_quantile(batch: &Batch, args: &Vec<Expr>, now_ns: i64) -> (out: Result<Column, QueryError>)
    requires
        batch_wf(batch@),
    ensures
        column_outcome(out, call_quantile(evals_of(batch@, expr_views(args@), now_ns))),
    decreases args, 1nat,
{
    assert(expr_views(args@).len() == args@.len());
    if args.len() < 2 {
        return Err(execution_error("histogram_quantile(q, col[, buckets])"));
    }
    let q_col = match eval_expr(batch, &args[0], now_ns) {
        Ok(c) => c,
        Err(e) => return Err(e),
    };
    let q: u64 = match scalar_f64(&q_col) {
        Ok(q) => q,
        Err(e) => return Err(e),
    };
    let values = match eval_expr(batch, &args[1], now_ns) {
        Ok(c) => c,
        Err(e) => return Err(e),
    };
    let buckets: u32 = if args.len() >= 3 {
        match arg_i64(batch, args, 2, now_ns) {
            Ok(n) => n as u32,
            Err(e) => return Err(e),
        }
    } else {
        50
    };
    histogram_quantile(q, &values, buckets)
}

/// A call of a function.
pub fn eval_function(batch: &Batch, name: &str, args: &Vec<Expr>, now_ns: i64) -> (out: Result<
    Column,
    QueryError,
>)
    requires
        batch_wf(batch@),
    ensures
        column_outcome(
            out,
            call_result(
                name@,
                evals_of(batch@, expr_views(args@), now_ns),
                batch@.rows,
                now_ns,
            ),
        ),
    decreases args, 2nat,
{
    if str_eq(name, "now") {
        Ok(Column::Int64(constant(now_ns, batch.rows)))
    } else if str_eq(name, "time_bucket") {
        eval_time_bucket(batch, args, now_ns)
    } else if str_eq(name, "rate") {
        eval_rate(batch, args, now_ns)
    } else if str_eq(name, "delta") {
        eval_delta(batch, args, now_ns)
    } else if str_eq(name, "histogram_quantile") {
        eval_quantile(batch, args, now_ns)
    } else {
        let mut t = "unknown function '".to_string();
        t.append(name);
        t.append("'");
        Err(QueryError::Execution(t))
    }
}

} // verus!
