//! What expressions hold, row by row.

use crate::columnar::batch::BatchModel;
use crate::columnar::column::{col_len, col_valid, CellsModel, ColumnModel};
use crate::common::schema::index_of;
use crate::float::{float_result, signed_bits, total_key, FloatOp, SIGN};
use crate::query::ast::{BinOp, ExprModel, LiteralModel, UnaryOp};
use crate::query::functions::compute::{
    bytes_less, first_int_fault, int_fails, EvalFault,
};
use crate::query::functions::eval::{eval_list, eval_of, filter_of, in_result, Evaluated};
use crate::query::functions::like::like;
use crate::query::functions::temporal::{delta_of, quantile_of, rate_of, time_bucket_of};
use crate::query::grammar::{bin, un};
use crate::query::optimizer::rules::{constants_are_computed, step_value};
use vstd::prelude::*;
use vstd::utf8::encode_utf8;

verus! {

// ── Columns and literals ────────────────────────────────────────────────────

/// A column is found by its name, whatever table it is asked of, and a literal stands in
/// every row. A null stands nowhere.
pub proof fn leaves_are_themselves(b: BatchModel, e: ExprModel, now_ns: i64, i: int)
    requires
        0 <= i < b.rows,
    ensures
        match e {
            ExprModel::Column { table, name } => match index_of(b.schema, name) {
                Some(k) => eval_of(b, e, now_ns) == Ok::<ColumnModel, EvalFault>(b.columns[k]),
                None => eval_of(b, e, now_ns) is Err,
            },
            ExprModel::Literal(LiteralModel::Int(n)) => eval_of(b, e, now_ns) matches Ok(
                ColumnModel::Int64(c),
            ) && c.values.len() == b.rows && c.valid[i] && c.values[i] == n,
            ExprModel::Literal(LiteralModel::Float(n)) => eval_of(b, e, now_ns) matches Ok(
                ColumnModel::Float64(c),
            ) && c.values.len() == b.rows && c.valid[i] && c.values[i] == n,
            ExprModel::Literal(LiteralModel::Str(s)) => eval_of(b, e, now_ns) matches Ok(
                ColumnModel::Utf8(c),
            ) && c.values.len() == b.rows && c.valid[i] && c.values[i] == s,
            ExprModel::Literal(LiteralModel::Bool(x)) => eval_of(b, e, now_ns) matches Ok(
                ColumnModel::Boolean(c),
            ) && c.values.len() == b.rows && c.valid[i] && c.values[i] == x,
            ExprModel::Literal(LiteralModel::Null) => eval_of(b, e, now_ns) matches Ok(
                ColumnModel::Boolean(c),
            ) && c.values.len() == b.rows && !c.valid[i],
            ExprModel::Interval(n) => eval_of(b, e, now_ns) matches Ok(ColumnModel::Int64(c))
                && c.values.len() == b.rows && c.valid[i] && c.values[i] == n,
            ExprModel::Now => eval_of(b, e, now_ns) matches Ok(ColumnModel::Int64(c))
                && c.values.len() == b.rows && c.valid[i] && c.values[i] == now_ns,
            _ => true,
        },
{
}

// ── Comparisons ─────────────────────────────────────────────────────────────

/// What a comparison says of two numbers.
pub open spec fn compares(op: BinOp, x: int, y: int) -> bool {
    match op {
        BinOp::Eq => x == y,
        BinOp::NotEq => x != y,
        BinOp::Lt => x < y,
        BinOp::LtEq => x <= y,
        BinOp::Gt => x > y,
        BinOp::GtEq => x >= y,
        _ => false,
    }
}

/// Whether an operator compares.
pub open spec fn is_compare(op: BinOp) -> bool {
    op is Eq || op is NotEq || op is Lt || op is LtEq || op is Gt || op is GtEq
}

proof fn lemma_total_key(x: u64, y: u64)
    ensures
        total_key(x) == total_key(y) <==> x == y,
{
}

/// A comparison of two columns of numbers of one type compares the numbers of each row, and
/// is null where one of them is.
pub proof fn comparisons_compare_numbers(
    b: BatchModel,
    op: BinOp,
    l: ExprModel,
    r: ExprModel,
    now_ns: i64,
    i: int,
)
    requires
        is_compare(op),
        eval_of(b, l, now_ns) is Ok,
        eval_of(b, r, now_ns) is Ok,
    ensures
        match (eval_of(b, l, now_ns)->Ok_0, eval_of(b, r, now_ns)->Ok_0) {
            (ColumnModel::Int64(x), ColumnModel::Int64(y)) => x.values.len() == y.values.len() ==> (
            eval_of(b, bin(op, l, r), now_ns) matches Ok(ColumnModel::Boolean(c)) && c.values.len()
                == x.values.len() && (0 <= i < c.values.len() ==> c.valid[i] == (x.valid[i]
                && y.valid[i]) && c.values[i] == compares(
                op,
                x.values[i] as int,
                y.values[i] as int,
            ))),
            (ColumnModel::UInt64(x), ColumnModel::UInt64(y)) => x.values.len() == y.values.len() ==> (
            eval_of(b, bin(op, l, r), now_ns) matches Ok(ColumnModel::Boolean(c)) && c.values.len()
                == x.values.len() && (0 <= i < c.values.len() ==> c.valid[i] == (x.valid[i]
                && y.valid[i]) && c.values[i] == compares(
                op,
                x.values[i] as int,
                y.values[i] as int,
            ))),
            (ColumnModel::Float64(x), ColumnModel::Float64(y)) => x.values.len() == y.values.len() ==> (
            eval_of(b, bin(op, l, r), now_ns) matches Ok(ColumnModel::Boolean(c)) && c.values.len()
                == x.values.len() && (0 <= i < c.values.len() ==> c.valid[i] == (x.valid[i]
                && y.valid[i]) && c.values[i] == compares(
                op,
                total_key(x.values[i]),
                total_key(y.values[i]),
            ))),
            _ => true,
        },
{
    match (eval_of(b, l, now_ns)->Ok_0, eval_of(b, r, now_ns)->Ok_0) {
        (ColumnModel::Float64(x), ColumnModel::Float64(y)) => {
            if x.values.len() == y.values.len() && 0 <= i < x.values.len() {
                lemma_total_key(x.values[i], y.values[i]);
            }
        },
        _ => {},
    }
}

proof fn lemma_bytes_order(x: Seq<u8>, y: Seq<u8>)
    ensures
        !(bytes_less(x, y) && bytes_less(y, x)),
        !bytes_less(x, y) && !bytes_less(y, x) <==> x == y,
    decreases x.len(),
{
    if x.len() > 0 && y.len() > 0 {
        lemma_bytes_order(x.skip(1), y.skip(1));
        if x[0] == y[0] && x.skip(1) == y.skip(1) {
            assert forall|k: int| 0 <= k < x.len() implies k < y.len() && x[k] == y[k] by {
                if k > 0 {
                    assert(x.skip(1)[k - 1] == x[k]);
                    assert(y.skip(1)[k - 1] == y[k]);
                }
            }
            assert(x.len() == x.skip(1).len() + 1);
            assert(y.len() == y.skip(1).len() + 1);
            assert(x =~= y);
        }
    } else if x.len() == 0 && y.len() == 0 {
        assert(x =~= y);
    }
}

/// Whether one byte string comes before another: at the first place where they differ it has
/// the smaller byte, or it ends there.
pub open spec fn is_before_at(x: Seq<u8>, y: Seq<u8>, k: int) -> bool {
    &&& 0 <= k <= x.len()
    &&& k < y.len()
    &&& forall|j: int| 0 <= j < k ==> x[j] == #[trigger] y[j]
    &&& k == x.len() || x[k] < y[k]
}

/// Texts are ordered by their bytes: at the first place where they differ the smaller one has
/// the smaller byte, or it ends there.
pub proof fn texts_are_ordered_by_bytes(x: Seq<u8>, y: Seq<u8>)
    ensures
        bytes_less(x, y) <==> exists|k: int| is_before_at(x, y, k),
    decreases x.len(),
{
    if y.len() > 0 && x.len() > 0 {
        let a = x.skip(1);
        let c = y.skip(1);
        texts_are_ordered_by_bytes(a, c);
        if bytes_less(x, y) {
            if x[0] < y[0] {
                assert(is_before_at(x, y, 0));
            } else {
                let k = choose|k: int| is_before_at(a, c, k);
                assert forall|j: int| 0 <= j < k + 1 implies x[j] == #[trigger] y[j] by {
                    if j > 0 {
                        assert(a[j - 1] == c[j - 1]);
                    }
                }
                if k < a.len() {
                    assert(a[k] == x[k + 1]);
                }
                assert(c[k] == y[k + 1]);
                assert(is_before_at(x, y, k + 1));
            }
        }
        if exists|k: int| is_before_at(x, y, k) {
            let k = choose|k: int| is_before_at(x, y, k);
            if k > 0 {
                assert(x[0] == y[0]);
                assert forall|j: int| 0 <= j < k - 1 implies a[j] == #[trigger] c[j] by {
                    assert(x[j + 1] == y[j + 1]);
                }
                assert(c[k - 1] == y[k]);
                if k < x.len() {
                    assert(a[k - 1] == x[k]);
                }
                assert(is_before_at(a, c, k - 1));
            }
        }
    } else if y.len() > 0 {
        assert(is_before_at(x, y, 0));
    }
}

/// A comparison of two columns of texts compares the texts of each row by their bytes, and is
/// null where one of them is.
pub proof fn comparisons_compare_texts(
    b: BatchModel,
    op: BinOp,
    l: ExprModel,
    r: ExprModel,
    now_ns: i64,
    i: int,
)
    requires
        is_compare(op),
        eval_of(b, l, now_ns) is Ok,
        eval_of(b, r, now_ns) is Ok,
    ensures
        match (eval_of(b, l, now_ns)->Ok_0, eval_of(b, r, now_ns)->Ok_0) {
            (ColumnModel::Utf8(x), ColumnModel::Utf8(y)) => x.values.len() == y.values.len() ==> (
            eval_of(b, bin(op, l, r), now_ns) matches Ok(ColumnModel::Boolean(c)) && c.values.len()
                == x.values.len() && (0 <= i < c.values.len() ==> c.valid[i] == (x.valid[i]
                && y.valid[i]) && {
                let less = bytes_less(encode_utf8(x.values[i]), encode_utf8(y.values[i]));
                let more = bytes_less(encode_utf8(y.values[i]), encode_utf8(x.values[i]));
                &&& op is Eq ==> c.values[i] == (x.values[i] == y.values[i])
                &&& op is NotEq ==> c.values[i] == (x.values[i] != y.values[i])
                &&& op is Lt ==> c.values[i] == less
                &&& op is LtEq ==> c.values[i] == !more
                &&& op is Gt ==> c.values[i] == more
                &&& op is GtEq ==> c.values[i] == !less
            })),
            _ => true,
        },
{
}

/// The order of texts is one: of two byte strings one comes before the other, or they are the
/// same, and only one of these holds.
pub proof fn texts_have_one_order(x: Seq<u8>, y: Seq<u8>)
    ensures
        !(bytes_less(x, y) && bytes_less(y, x)),
        x == y <==> !bytes_less(x, y) && !bytes_less(y, x),
{
    lemma_bytes_order(x, y);
}

// ── Arithmetic ──────────────────────────────────────────────────────────────

/// Whether an operator computes a number over columns.
pub open spec fn is_arithmetic(op: BinOp) -> bool {
    op is Add || op is Sub || op is Mul || op is Div
}

/// Whether both numbers of a row are there, and an operator has no value for them that fits
/// in 64 bits.
pub open spec fn is_undefined(x: CellsModel<i64>, y: CellsModel<i64>, op: BinOp, i: int) -> bool {
    x.valid[i] && y.valid[i] && step_value(op, x.values[i] as int, y.values[i] as int) is None
}

proof fn lemma_first_fault(x: CellsModel<i64>, y: CellsModel<i64>, op: BinOp, i: nat)
    requires
        is_arithmetic(op),
        x.values.len() == y.values.len(),
    ensures
        first_int_fault(x, y, op, i) is Some <==> exists|k: int|
            i <= k < x.values.len() && #[trigger] is_undefined(x, y, op, k),
    decreases x.values.len() - i,
{
    if i < x.values.len() {
        constants_are_computed(op, x.values[i as int], y.values[i as int]);
        lemma_first_fault(x, y, op, i + 1);
        if int_fails(x, y, op, i as int) {
            assert(is_undefined(x, y, op, i as int));
        }
    }
}

/// Arithmetic on two columns of whole numbers gives the value of the operator on the numbers
/// of each row, and a null where one of them is. It fails if and only if a row has no value.
pub proof fn whole_arithmetic_is_exact(
    b: BatchModel,
    op: BinOp,
    l: ExprModel,
    r: ExprModel,
    now_ns: i64,
    i: int,
)
    requires
        is_arithmetic(op),
        eval_of(b, l, now_ns) matches Ok(ColumnModel::Int64(_)),
        eval_of(b, r, now_ns) matches Ok(ColumnModel::Int64(_)),
        eval_of(b, l, now_ns)->Ok_0->Int64_0.values.len() == eval_of(
            b,
            r,
            now_ns,
        )->Ok_0->Int64_0.values.len(),
    ensures
        ({
            let x = eval_of(b, l, now_ns)->Ok_0->Int64_0;
            let y = eval_of(b, r, now_ns)->Ok_0->Int64_0;
            let out = eval_of(b, bin(op, l, r), now_ns);
            &&& out is Err <==> exists|k: int|
                0 <= k < x.values.len() && #[trigger] is_undefined(x, y, op, k)
            &&& out is Ok ==> (out matches Ok(ColumnModel::Int64(c)) && c.values.len()
                == x.values.len() && (0 <= i < c.values.len() ==> c.valid[i] == (x.valid[i]
                && y.valid[i]) && (c.valid[i] ==> Some(c.values[i] as int) == step_value(
                op,
                x.values[i] as int,
                y.values[i] as int,
            ))))
        }),
{
    let x = eval_of(b, l, now_ns)->Ok_0->Int64_0;
    let y = eval_of(b, r, now_ns)->Ok_0->Int64_0;
    lemma_first_fault(x, y, op, 0);
    if eval_of(b, bin(op, l, r), now_ns) is Ok && 0 <= i < x.values.len() && x.valid[i]
        && y.valid[i] {
        constants_are_computed(op, x.values[i], y.values[i]);
        assert(!is_undefined(x, y, op, i));
    }
}

/// What an operator is on whole numbers: sums, differences and products are those of numbers,
/// and a quotient leaves a remainder smaller than the divisor, with the sign of the dividend.
pub proof fn steps_are_those_of_numbers(op: BinOp, x: int, y: int)
    requires
        is_arithmetic(op),
    ensures
        step_value(op, x, y) matches Some(v) ==> i64::MIN <= v <= i64::MAX && match op {
            BinOp::Add => v == x + y,
            BinOp::Sub => v == x - y,
            BinOp::Mul => v == x * y,
            _ => y != 0 && ({
                let rest = x - v * y;
                &&& (if rest < 0 {
                    -rest
                } else {
                    rest
                }) < (if y < 0 {
                    -y
                } else {
                    y
                })
                &&& x >= 0 ==> rest >= 0
                &&& x <= 0 ==> rest <= 0
            }),
        },
        op is Add && i64::MIN <= x + y <= i64::MAX ==> step_value(op, x, y) is Some,
        op is Sub && i64::MIN <= x - y <= i64::MAX ==> step_value(op, x, y) is Some,
        op is Mul && i64::MIN <= x * y <= i64::MAX ==> step_value(op, x, y) is Some,
        op is Div && y == 0 ==> step_value(op, x, y) is None,
{
    if op is Div && y != 0 {
        let p = if x < 0 {
            -x
        } else {
            x
        };
        let q = if y < 0 {
            -y
        } else {
            y
        };
        vstd::arithmetic::div_mod::lemma_fundamental_div_mod(p, q);
        vstd::arithmetic::div_mod::lemma_mod_bound(p, q);
        let k = p / q;
        assert((-k) * y == -(k * y)) by (nonlinear_arith);
        assert(k * (-y) == -(k * y)) by (nonlinear_arith);
        assert(q * k == k * q) by (nonlinear_arith);
    }
}

/// Arithmetic on two columns of floating-point numbers gives the rounded result for the
/// numbers of each row, and a null where one of them is.
pub proof fn float_arithmetic_is_rowwise(
    b: BatchModel,
    op: BinOp,
    l: ExprModel,
    r: ExprModel,
    now_ns: i64,
    i: int,
)
    requires
        is_arithmetic(op),
        eval_of(b, l, now_ns) matches Ok(ColumnModel::Float64(_)),
        eval_of(b, r, now_ns) matches Ok(ColumnModel::Float64(_)),
        eval_of(b, l, now_ns)->Ok_0->Float64_0.values.len() == eval_of(
            b,
            r,
            now_ns,
        )->Ok_0->Float64_0.values.len(),
    ensures
        ({
            let x = eval_of(b, l, now_ns)->Ok_0->Float64_0;
            let y = eval_of(b, r, now_ns)->Ok_0->Float64_0;
            eval_of(b, bin(op, l, r), now_ns) matches Ok(ColumnModel::Float64(c)) && c.values.len()
                == x.values.len() && (0 <= i < c.values.len() ==> c.valid[i] == (x.valid[i]
                && y.valid[i]) && c.values[i] == float_result(
                match op {
                    BinOp::Add => FloatOp::Plus,
                    BinOp::Sub => FloatOp::Minus,
                    BinOp::Mul => FloatOp::Times,
                    _ => FloatOp::Over,
                },
                x.values[i],
                y.values[i],
            ))
        }),
{
}

/// A sign turns the number of each row round: the sum of a whole number and its negation is
/// zero, and a floating-point number keeps all but its sign.
pub proof fn signs_turn_round(b: BatchModel, x: ExprModel, now_ns: i64, i: int)
    requires
        eval_of(b, x, now_ns) is Ok,
    ensures
        match eval_of(b, x, now_ns)->Ok_0 {
            ColumnModel::Int64(a) => match eval_of(b, un(UnaryOp::Neg, x), now_ns) {
                Ok(ColumnModel::Int64(c)) => c.values.len() == a.values.len() && (0 <= i
                    < c.values.len() ==> c.values[i] + a.values[i] == 0),
                Ok(_) => false,
                Err(_) => exists|k: int|
                    0 <= k < a.values.len() && #[trigger] a.values[k] == i64::MIN,
            },
            ColumnModel::Float64(a) => eval_of(b, un(UnaryOp::Neg, x), now_ns) matches Ok(
                ColumnModel::Float64(c),
            ) && c.values.len() == a.values.len() && (0 <= i < c.values.len() ==> c.values[i] % SIGN
                == a.values[i] % SIGN && (c.values[i] < SIGN <==> a.values[i] >= SIGN)),
            _ => eval_of(b, un(UnaryOp::Neg, x), now_ns) is Err,
        },
{
}

// ── Conditions ──────────────────────────────────────────────────────────────

/// `AND`, `OR` and `NOT` of conditions are those of truth values in each row, and null where
/// a condition is.
pub proof fn conditions_are_rowwise(
    b: BatchModel,
    l: ExprModel,
    r: ExprModel,
    now_ns: i64,
    i: int,
)
    requires
        eval_of(b, l, now_ns) matches Ok(ColumnModel::Boolean(_)),
        eval_of(b, r, now_ns) matches Ok(ColumnModel::Boolean(_)),
        eval_of(b, l, now_ns)->Ok_0->Boolean_0.values.len() == eval_of(
            b,
            r,
            now_ns,
        )->Ok_0->Boolean_0.values.len(),
        0 <= i < eval_of(b, l, now_ns)->Ok_0->Boolean_0.values.len(),
    ensures
        ({
            let x = eval_of(b, l, now_ns)->Ok_0->Boolean_0;
            let y = eval_of(b, r, now_ns)->Ok_0->Boolean_0;
            &&& eval_of(b, bin(BinOp::And, l, r), now_ns) matches Ok(ColumnModel::Boolean(c))
                && c.values.len() == x.values.len() && c.values[i] == (x.values[i] && y.values[i])
                && c.valid[i] == (x.valid[i] && y.valid[i])
            &&& eval_of(b, bin(BinOp::Or, l, r), now_ns) matches Ok(ColumnModel::Boolean(c))
                && c.values.len() == x.values.len() && c.values[i] == (x.values[i] || y.values[i])
                && c.valid[i] == (x.valid[i] && y.valid[i])
            &&& eval_of(b, un(UnaryOp::Not, l), now_ns) matches Ok(ColumnModel::Boolean(c))
                && c.values.len() == x.values.len() && c.values[i] == !x.values[i] && c.valid[i]
                == x.valid[i]
        }),
{
}

/// A test for null says in each row whether it is one, and is never null; the opposite test
/// says the opposite.
pub proof fn null_tests_test_for_null(b: BatchModel, x: ExprModel, now_ns: i64, i: int)
    requires
        eval_of(b, x, now_ns) is Ok,
        0 <= i < col_len(eval_of(b, x, now_ns)->Ok_0),
    ensures
        ({
            let a = eval_of(b, x, now_ns)->Ok_0;
            &&& eval_of(b, ExprModel::IsNull(Box::new(x)), now_ns) matches Ok(
                ColumnModel::Boolean(c),
            ) && c.values.len() == col_len(a) && c.valid[i] && c.values[i] == !col_valid(a)[i]
            &&& eval_of(b, ExprModel::IsNotNull(Box::new(x)), now_ns) matches Ok(
                ColumnModel::Boolean(c),
            ) && c.values.len() == col_len(a) && c.valid[i] && c.values[i] == col_valid(a)[i]
        }),
{
}

/// `x BETWEEN low AND high` is `x >= low AND x <= high`, where all three can be computed.
pub proof fn between_is_two_comparisons(
    b: BatchModel,
    x: ExprModel,
    low: ExprModel,
    high: ExprModel,
    now_ns: i64,
)
    requires
        eval_of(b, x, now_ns) is Ok,
        eval_of(b, low, now_ns) is Ok,
        eval_of(b, high, now_ns) is Ok,
    ensures
        eval_of(
            b,
            ExprModel::Between { expr: Box::new(x), low: Box::new(low), high: Box::new(high) },
            now_ns,
        ) == eval_of(
            b,
            bin(BinOp::And, bin(BinOp::GtEq, x, low), bin(BinOp::LtEq, x, high)),
            now_ns,
        ),
{
    reveal_with_fuel(eval_of, 3);
}

proof fn lemma_same_items(
    b: BatchModel,
    a: Seq<ExprModel>,
    c: Seq<ExprModel>,
    n: nat,
    now_ns: i64,
)
    requires
        n <= a.len(),
        n <= c.len(),
        forall|k: int| 0 <= k < n ==> a[k] == #[trigger] c[k],
    ensures
        eval_list(b, a, n, now_ns) == eval_list(b, c, n, now_ns),
        eval_list(b, a, n, now_ns).len() == n,
        forall|k: int| 0 <= k < n ==> #[trigger] eval_list(b, a, n, now_ns)[k] == eval_of(b, a[k], now_ns),
    decreases n,
{
    if n > 0 {
        lemma_same_items(b, a, c, (n - 1) as nat, now_ns);
        assert(a[n - 1] == c[n - 1]);
    }
}

proof fn lemma_in_prefix(v: ColumnModel, a: Seq<Evaluated>, c: Seq<Evaluated>, n: nat)
    requires
        n <= a.len(),
        n <= c.len(),
        forall|k: int| 0 <= k < n ==> a[k] == #[trigger] c[k],
    ensures
        in_result(v, a, n) == in_result(v, c, n),
    decreases n,
{
    if n > 0 {
        lemma_in_prefix(v, a, c, (n - 1) as nat);
        assert(a[n - 1] == c[n - 1]);
    }
}

/// Nothing is in an empty list, and `x IN (.., y)` is `x IN (..) OR x = y`.
pub proof fn in_is_a_chain_of_equalities(
    b: BatchModel,
    x: ExprModel,
    list: Seq<ExprModel>,
    y: ExprModel,
    now_ns: i64,
)
    requires
        eval_of(b, x, now_ns) is Ok,
        eval_of(b, ExprModel::In { expr: Box::new(x), list }, now_ns) is Ok,
        eval_of(b, bin(BinOp::Eq, x, y), now_ns) is Ok,
    ensures
        eval_of(b, ExprModel::In { expr: Box::new(x), list: list.push(y) }, now_ns) == eval_of(
            b,
            bin(
                BinOp::Or,
                ExprModel::In { expr: Box::new(x), list },
                bin(BinOp::Eq, x, y),
            ),
            now_ns,
        ),
        list.len() == 0 ==> (eval_of(
            b,
            ExprModel::In { expr: Box::new(x), list },
            now_ns,
        ) matches Ok(ColumnModel::Boolean(c)) && c.values.len() == col_len(
            eval_of(b, x, now_ns)->Ok_0,
        ) && forall|i: int| 0 <= i < c.values.len() ==> !(#[trigger] c.values[i]) && c.valid[i]),
{
    let n = list.len();
    let more = list.push(y);
    lemma_same_items(b, list, more, n, now_ns);
    let short = eval_list(b, list, n, now_ns);
    let long = eval_list(b, more, n + 1, now_ns);
    assert(long == eval_list(b, more, n, now_ns).push(eval_of(b, y, now_ns)));
    let v = eval_of(b, x, now_ns)->Ok_0;
    lemma_in_prefix(v, short, long, n);
    reveal_with_fuel(eval_of, 3);
    assert(more.len() == n + 1);
    assert(in_result(v, long, n + 1) == match in_result(v, long, n) {
        Err(f) => Err(f),
        Ok(mask) => match long[n as int] {
            Err(f) => Err(f),
            Ok(c) => match crate::query::functions::compute::compare_cols(v, c, BinOp::Eq) {
                Err(f) => Err(f),
                Ok(eq) => crate::query::functions::compute::either(mask, eq),
            },
        },
    });
}

/// `LIKE` says of the text of each row whether it matches, and `NOT LIKE` the opposite.
pub proof fn like_tests_each_text(
    b: BatchModel,
    x: ExprModel,
    pattern: Seq<char>,
    now_ns: i64,
    i: int,
)
    requires
        eval_of(b, x, now_ns) matches Ok(ColumnModel::Utf8(_)),
        0 <= i < eval_of(b, x, now_ns)->Ok_0->Utf8_0.values.len(),
    ensures
        ({
            let a = eval_of(b, x, now_ns)->Ok_0->Utf8_0;
            &&& eval_of(
                b,
                ExprModel::Like { expr: Box::new(x), pattern, negated: false },
                now_ns,
            ) matches Ok(ColumnModel::Boolean(c)) && c.values.len() == a.values.len() && c.valid[i]
                && c.values[i] == like(a.values[i], pattern)
            &&& eval_of(
                b,
                ExprModel::Like { expr: Box::new(x), pattern, negated: true },
                now_ns,
            ) matches Ok(ColumnModel::Boolean(c)) && c.values.len() == a.values.len() && c.valid[i]
                && c.values[i] == !like(a.values[i], pattern)
        }),
{
}

/// A filter is the condition itself, and nothing but a condition is one.
pub proof fn filters_are_conditions(b: BatchModel, e: ExprModel, now_ns: i64)
    ensures
        match eval_of(b, e, now_ns) {
            Ok(ColumnModel::Boolean(c)) => filter_of(b, e, now_ns) == Ok::<
                CellsModel<bool>,
                EvalFault,
            >(c),
            Ok(_) => filter_of(b, e, now_ns) is Err,
            Err(f) => filter_of(b, e, now_ns) == Err::<CellsModel<bool>, EvalFault>(f),
        },
{
}

// ── Calls ───────────────────────────────────────────────────────────────────

proof fn lemma_call_names()
    ensures
        "now"@ != "time_bucket"@,
        "now"@ != "rate"@,
        "now"@ != "delta"@,
        "now"@ != "histogram_quantile"@,
        "time_bucket"@ != "rate"@,
        "time_bucket"@ != "delta"@,
        "time_bucket"@ != "histogram_quantile"@,
        "rate"@ != "delta"@,
        "rate"@ != "histogram_quantile"@,
        "delta"@ != "histogram_quantile"@,
{
    reveal_strlit("now");
    reveal_strlit("time_bucket");
    reveal_strlit("rate");
    reveal_strlit("delta");
    reveal_strlit("histogram_quantile");
    assert("now"@.len() == 3 && "time_bucket"@.len() == 11 && "rate"@.len() == 4 && "delta"@.len()
        == 5 && "histogram_quantile"@.len() == 18);
}

/// The calls of the language: each function is found by its name, takes its arguments in
/// their order, and reads numbers that are no columns from the first row.
pub proof fn calls_call_their_functions(
    b: BatchModel,
    first: ExprModel,
    second: ExprModel,
    now_ns: i64,
)
    requires
        eval_of(b, first, now_ns) is Ok,
        eval_of(b, second, now_ns) is Ok,
    ensures
        ({
            let args = seq![first, second];
            let x = eval_of(b, first, now_ns)->Ok_0;
            let y = eval_of(b, second, now_ns)->Ok_0;
            &&& eval_of(
                b,
                ExprModel::Function { name: "now"@, args: Seq::empty() },
                now_ns,
            ) == eval_of(b, ExprModel::Now, now_ns)
            &&& x is Int64 && x->Int64_0.values.len() > 0 ==> eval_of(
                b,
                ExprModel::Function { name: "time_bucket"@, args },
                now_ns,
            ) == time_bucket_of(x->Int64_0.values[0], y)
            &&& y is Int64 && y->Int64_0.values.len() > 0 ==> eval_of(
                b,
                ExprModel::Function { name: "rate"@, args },
                now_ns,
            ) == rate_of(x, y->Int64_0.values[0])
            &&& y is Int64 && y->Int64_0.values.len() > 0 ==> eval_of(
                b,
                ExprModel::Function { name: "delta"@, args },
                now_ns,
            ) == delta_of(x)
            &&& x is Float64 && x->Float64_0.values.len() > 0 ==> eval_of(
                b,
                ExprModel::Function { name: "histogram_quantile"@, args },
                now_ns,
            ) == quantile_of(x->Float64_0.values[0], y)
            &&& x is Int64 && x->Int64_0.values.len() > 0 ==> eval_of(
                b,
                ExprModel::Function { name: "histogram_quantile"@, args },
                now_ns,
            ) == quantile_of(signed_bits(x->Int64_0.values[0]), y)
        }),
{
    lemma_call_names();
    let args = seq![first, second];
    lemma_same_items(b, args, args, 2, now_ns);
    assert(eval_list(b, args, 2, now_ns)[0] == eval_of(b, args[0], now_ns));
    assert(eval_list(b, args, 2, now_ns)[1] == eval_of(b, args[1], now_ns));
}

/// A call with lengths of time and a call of the function itself are the same.
pub proof fn written_calls_are_the_calls(
    b: BatchModel,
    width_ns: i64,
    q: u64,
    buckets: u32,
    x: ExprModel,
    now_ns: i64,
)
    requires
        eval_of(b, x, now_ns) is Ok,
    ensures
        ({
            let c = eval_of(b, x, now_ns)->Ok_0;
            &&& eval_of(
                b,
                ExprModel::TimeBucket { width_ns, ts_expr: Box::new(x) },
                now_ns,
            ) == time_bucket_of(width_ns, c)
            &&& eval_of(
                b,
                ExprModel::Rate { value_expr: Box::new(x), window_ns: width_ns },
                now_ns,
            ) == rate_of(c, width_ns)
            &&& eval_of(
                b,
                ExprModel::Delta { value_expr: Box::new(x), window_ns: width_ns },
                now_ns,
            ) == delta_of(c)
            &&& eval_of(
                b,
                ExprModel::HistogramQuantile { q, value_expr: Box::new(x), buckets },
                now_ns,
            ) == quantile_of(q, c)
        }),
{
}

/// The number of buckets of a quantile does not count, as long as it is one.
pub proof fn buckets_do_not_count(
    b: BatchModel,
    q: ExprModel,
    x: ExprModel,
    n: ExprModel,
    now_ns: i64,
)
    requires
        eval_of(b, q, now_ns) is Ok,
        eval_of(b, x, now_ns) is Ok,
        eval_of(b, n, now_ns) matches Ok(ColumnModel::Int64(c)) && c.values.len() > 0,
    ensures
        eval_of(
            b,
            ExprModel::Function { name: "histogram_quantile"@, args: seq![q, x, n] },
            now_ns,
        ) == eval_of(
            b,
            ExprModel::Function { name: "histogram_quantile"@, args: seq![q, x] },
            now_ns,
        ),
{
    lemma_call_names();
    let two = seq![q, x];
    let three = seq![q, x, n];
    lemma_same_items(b, two, two, 2, now_ns);
    lemma_same_items(b, three, three, 3, now_ns);
    assert(eval_list(b, two, 2, now_ns)[0] == eval_of(b, two[0], now_ns));
    assert(eval_list(b, two, 2, now_ns)[1] == eval_of(b, two[1], now_ns));
    assert(eval_list(b, three, 3, now_ns)[0] == eval_of(b, three[0], now_ns));
    assert(eval_list(b, three, 3, now_ns)[1] == eval_of(b, three[1], now_ns));
    assert(eval_list(b, three, 3, now_ns)[2] == eval_of(b, three[2], now_ns));
}

// ── What is refused ─────────────────────────────────────────────────────────

/// Whether two columns are of one type that can be compared.
pub open spec fn comparable(x: ColumnModel, y: ColumnModel) -> bool {
    (x is UInt64 && y is UInt64) || (x is Int64 && y is Int64) || (x is Float64 && y is Float64) || (
    x is Utf8 && y is Utf8)
}

/// Values of different types, and of types without an order, are not compared; only numbers
/// of one type are computed with; only conditions are joined; and a fault of an operand is the
/// fault of the whole, that of the left one first.
pub proof fn operands_have_to_fit(
    b: BatchModel,
    op: BinOp,
    l: ExprModel,
    r: ExprModel,
    now_ns: i64,
)
    ensures
        ({
            let x = eval_of(b, l, now_ns);
            let y = eval_of(b, r, now_ns);
            let out = eval_of(b, bin(op, l, r), now_ns);
            &&& x is Err ==> out == x
            &&& x is Ok && y is Err ==> out == y
            &&& x is Ok && y is Ok && is_compare(op) && !comparable(x->Ok_0, y->Ok_0) ==> out is Err
            &&& x is Ok && y is Ok && is_arithmetic(op) && !(x->Ok_0 is Int64 && y->Ok_0 is Int64)
                && !(x->Ok_0 is Float64 && y->Ok_0 is Float64) ==> out is Err
            &&& x is Ok && y is Ok && (op is And || op is Or) && !(x->Ok_0 is Boolean
                && y->Ok_0 is Boolean) ==> out is Err
            &&& op is Mod ==> out is Err
        }),
{
}

/// Only a condition is negated, only texts are matched, and a star, an unknown column and an
/// unknown function have no value.
pub proof fn values_have_to_be_there(
    b: BatchModel,
    x: ExprModel,
    name: Seq<char>,
    pattern: Seq<char>,
    negated: bool,
    now_ns: i64,
)
    ensures
        eval_of(b, x, now_ns) is Ok && !(eval_of(b, x, now_ns)->Ok_0 is Boolean) ==> eval_of(
            b,
            un(UnaryOp::Not, x),
            now_ns,
        ) is Err,
        eval_of(b, x, now_ns) is Ok && !(eval_of(b, x, now_ns)->Ok_0 is Utf8) ==> eval_of(
            b,
            ExprModel::Like { expr: Box::new(x), pattern, negated },
            now_ns,
        ) is Err,
        eval_of(b, ExprModel::Star, now_ns) is Err,
        name != "now"@ && name != "time_bucket"@ && name != "rate"@ && name != "delta"@ && name
            != "histogram_quantile"@ ==> eval_of(
            b,
            ExprModel::Function { name, args: Seq::empty() },
            now_ns,
        ) is Err,
{
}

} // verus!
