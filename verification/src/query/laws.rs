//! What the rewrites of the optimizer keep.

use crate::query::ast::{BinOp, ExprModel, LiteralModel};
use crate::columnar::batch::BatchModel;
use crate::columnar::column::ColumnModel;
use crate::query::functions::compute::{first_int_fault, int_arithmetic, repeated, EvalFault};
use crate::query::functions::eval::{call_result, eval_list, eval_of, operator_result};
use crate::query::optimizer::rules::{const_op, folded};
use vstd::prelude::*;

verus! {

/// Whether an expression has no remainder where constants are folded. Remainders are
/// folded, and cannot be computed over columns.
pub open spec fn no_remainder(e: ExprModel) -> bool
    decreases e,
{
    match e {
        ExprModel::BinOp { op, left, right } => !(op is Mod) && no_remainder(*left)
            && no_remainder(*right),
        _ => true,
    }
}

proof fn lemma_no_int_fault(a: i64, b: i64, op: BinOp, n: nat, i: nat)
    requires
        const_op(op, a, b) is Some,
    ensures
        first_int_fault(repeated(a, n), repeated(b, n), op, i) is None,
    decreases n - i,
{
    if i < n {
        lemma_no_int_fault(a, b, op, n, i + 1);
    }
}

proof fn lemma_const_columns(a: i64, b: i64, op: BinOp, v: i64, n: nat)
    requires
        const_op(op, a, b) == Some(v),
        !(op is Mod),
    ensures
        operator_result(
            op,
            Ok(ColumnModel::Int64(repeated(a, n))),
            Ok(ColumnModel::Int64(repeated(b, n))),
        ) == Ok::<ColumnModel, EvalFault>(ColumnModel::Int64(repeated(v, n))),
{
    lemma_no_int_fault(a, b, op, n, 0);
    let l = repeated(a, n);
    let r = repeated(b, n);
    let out = int_arithmetic(l, r, op);
    assert(out is Ok);
    assert(out->Ok_0.values =~= repeated(v, n).values);
    assert(out->Ok_0.valid =~= repeated(v, n).valid);
}

/// Folding constants does not change what an expression stands for.
pub proof fn folding_keeps_the_value(b: BatchModel, e: ExprModel, now_ns: i64)
    requires
        no_remainder(e),
    ensures
        eval_of(b, folded(e, now_ns), now_ns) == eval_of(b, e, now_ns),
    decreases e,
{
    match e {
        ExprModel::BinOp { op, left, right } => {
            folding_keeps_the_value(b, *left, now_ns);
            folding_keeps_the_value(b, *right, now_ns);
            let l = folded(*left, now_ns);
            let r = folded(*right, now_ns);
            match (l, r) {
                (
                    ExprModel::Literal(LiteralModel::Int(x)),
                    ExprModel::Literal(LiteralModel::Int(y)),
                ) => {
                    assert(eval_of(b, l, now_ns) == Ok::<ColumnModel, EvalFault>(
                        ColumnModel::Int64(repeated(x, b.rows)),
                    ));
                    assert(eval_of(b, r, now_ns) == Ok::<ColumnModel, EvalFault>(
                        ColumnModel::Int64(repeated(y, b.rows)),
                    ));
                    match const_op(op, x, y) {
                        Some(v) => {
                            lemma_const_columns(x, y, op, v, b.rows);
                        },
                        None => {},
                    }
                },
                _ => {},
            }
        },
        ExprModel::Function { name, args } => {
            if name == "now"@ && args.len() == 0 {
                assert(eval_of(b, e, now_ns) == call_result(
                    name,
                    eval_list(b, args, args.len(), now_ns),
                    b.rows,
                    now_ns,
                ));
            }
        },
        _ => {},
    }
}

} // verus!
