//! Functions of time and of distributions.

use crate::columnar::column::{col_len, col_wf, Cells, CellsModel, Column, ColumnModel};
use crate::query::error::QueryError;
use crate::float::{
    float_of_signed, float_of_unsigned, float_pair, float_result, floats_of_signed,
    floats_of_unsigned, is_nan, nan, nearest, real_key, round, signed_bits, unsigned_bits, FloatOp,
    BILLION, ONE, SIGN,
};
use crate::query::functions::compute::{
    abort, column_outcome, constant, execution_error, repeat, repeated, EvalFault,
};
use crate::query::order::{sort_rows, sorted_rows, Less, RowOrder};
use vstd::prelude::*;

verus! {

// ── Buckets of time ─────────────────────────────────────────────────────────

/// The start of the bucket of time that each timestamp falls in. Nulls are taken by the
/// value that was kept for them.
pub open spec fn time_bucket_of(width_ns: i64, ts: ColumnModel) -> Result<ColumnModel, EvalFault> {
    if width_ns <= 0 {
        Err(EvalFault::Execution("time_bucket width must be > 0"@))
    } else {
        match ts {
            ColumnModel::UInt64(c) => Ok(
                ColumnModel::UInt64(
                    CellsModel {
                        values: Seq::new(
                            c.values.len(),
                            |i: int| ((c.values[i] as int / width_ns as int) * width_ns) as u64,
                        ),
                        valid: Seq::new(c.values.len(), |i: int| true),
                    },
                ),
            ),
            _ => Err(EvalFault::Execution("time_bucket: expected UInt64 timestamp"@)),
        }
    }
}

/// A bucket of time starts at a multiple of its width, and holds the timestamp.
pub proof fn bucket_holds_timestamp(width_ns: i64, ts: u64)
    requires
        width_ns > 0,
    ensures
        (ts as int / width_ns as int) * width_ns <= ts < (ts as int / width_ns as int) * width_ns
            + width_ns,
        ((ts as int / width_ns as int) * width_ns) % (width_ns as int) == 0,
{
    let w = width_ns as int;
    let t = ts as int;
    vstd::arithmetic::div_mod::lemma_fundamental_div_mod(t, w);
    vstd::arithmetic::mul::lemma_mul_is_commutative(w, t / w);
    vstd::arithmetic::div_mod::lemma_mod_multiples_basic(t / w, w);
}

/// `time_bucket(width, ts)`: the start of the bucket of time of each timestamp.
pub fn time_bucket(width_ns: i64, ts: &Column) -> (out: Result<Column, QueryError>)
    requires
        col_wf(ts@),
    ensures
        column_outcome(out, time_bucket_of(width_ns, ts@)),
{
    if width_ns <= 0 {
        return Err(execution_error("time_bucket width must be > 0"));
    }
    match ts {
        Column::UInt64(c) => {
            let w: u64 = width_ns as u64;
            let mut values: Vec<u64> = Vec::new();
            for i in 0..c.values.len()
                invariant
                    w == width_ns,
                    w > 0,
                    values@ == Seq::new(
                        i as nat,
                        |k: int| ((c.values@[k] as int / width_ns as int) * width_ns) as u64,
                    ),
            {
                let t: u64 = c.values[i];
                proof {
                    bucket_holds_timestamp(width_ns, t);
                }
                values.push((t / w) * w);
                assert(values@ =~= Seq::new(
                    (i + 1) as nat,
                    |k: int| ((c.values@[k] as int / width_ns as int) * width_ns) as u64,
                ));
            }
            let out = Cells { values, valid: repeat(true, c.values.len()) };
            proof {
                let want = time_bucket_of(width_ns, ts@);
                assert(want is Ok);
                assert(out.values@ =~= want->Ok_0->UInt64_0.values);
                assert(out.valid@ =~= want->Ok_0->UInt64_0.valid);
            }
            Ok(Column::UInt64(out))
        },
        _ => Err(execution_error("time_bucket: expected UInt64 timestamp")),
    }
}

// ── Rate and change ─────────────────────────────────────────────────────────

/// The number of rows per second of a window.
pub open spec fn rate_value(rows: nat, window_ns: i64) -> u64 {
    float_result(
        FloatOp::Over,
        unsigned_bits(rows as u64),
        float_result(FloatOp::Over, signed_bits(window_ns), BILLION),
    )
}

/// The number of rows per second of a window, in each row.
pub open spec fn rate_of(values: ColumnModel, window_ns: i64) -> Result<ColumnModel, EvalFault> {
    if window_ns <= 0 {
        Err(EvalFault::Execution("rate: window must be > 0"@))
    } else {
        Ok(
            ColumnModel::Float64(
                repeated(rate_value(col_len(values), window_ns), col_len(values)),
            ),
        )
    }
}

/// `rate(values, window)`: the number of rows per second of the window.
pub fn rate(values: &Column, window_ns: i64) -> (out: Result<Column, QueryError>)
    ensures
        column_outcome(out, rate_of(values@, window_ns)),
{
    if window_ns <= 0 {
        return Err(execution_error("rate: window must be > 0"));
    }
    let n: usize = values.len();
    let window: u64 = float_pair(FloatOp::Over, float_of_signed(window_ns), BILLION);
    let r: u64 = float_pair(FloatOp::Over, float_of_unsigned(n as u64), window);
    Ok(Column::Float64(constant(r, n)))
}

/// The numbers of a column as floating-point numbers.
pub open spec fn numbers_of(c: ColumnModel) -> Option<Seq<u64>> {
    match c {
        ColumnModel::Float64(a) => Some(a.values),
        ColumnModel::Int64(a) => Some(Seq::new(a.values.len(), |i: int| signed_bits(a.values[i]))),
        ColumnModel::UInt64(a) => Some(
            Seq::new(a.values.len(), |i: int| unsigned_bits(a.values[i])),
        ),
        _ => None,
    }
}

/// What a column without numbers is answered.
pub open spec fn no_numbers() -> EvalFault {
    EvalFault::Execution("temporal function: unsupported numeric type"@)
}

fn to_floats(c: &Column) -> (out: Result<Vec<u64>, QueryError>)
    ensures
        match out {
            Ok(v) => numbers_of(c@) == Some(v@),
            Err(e) => numbers_of(c@) is None && crate::query::functions::compute::reports_eval(
                e,
                no_numbers(),
            ),
        },
{
    match c {
        Column::Float64(a) => {
            let mut v: Vec<u64> = Vec::new();
            for i in 0..a.values.len()
                invariant
                    v@ == a.values@.take(i as int),
            {
                v.push(a.values[i]);
                assert(v@ =~= a.values@.take(i + 1));
            }
            assert(a.values@.take(a.values@.len() as int) =~= a.values@);
            Ok(v)
        },
        Column::Int64(a) => Ok(floats_of_signed(&a.values)),
        Column::UInt64(a) => Ok(floats_of_unsigned(&a.values)),
        _ => Err(execution_error("temporal function: unsupported numeric type")),
    }
}

/// The last number less the first, in each row. A column without rows gives one zero.
pub open spec fn delta_of(values: ColumnModel) -> Result<ColumnModel, EvalFault> {
    match numbers_of(values) {
        None => Err(no_numbers()),
        Some(v) => if v.len() == 0 {
            Ok(ColumnModel::Float64(repeated(0u64, 1)))
        } else {
            Ok(
                ColumnModel::Float64(
                    repeated(float_result(FloatOp::Minus, v.last(), v[0]), col_len(values)),
                ),
            )
        },
    }
}

/// `delta(values, window)`: the last number less the first. The window does not count.
pub fn delta(values: &Column, _window_ns: i64) -> (out: Result<Column, QueryError>)
    ensures
        column_outcome(out, delta_of(values@)),
{
    let v = match to_floats(values) {
        Ok(v) => v,
        Err(e) => return Err(e),
    };
    let n: usize = v.len();
    if n == 0 {
        return Ok(Column::Float64(constant(0u64, 1)));
    }
    let d: u64 = float_pair(FloatOp::Minus, v[n - 1], v[0]);
    Ok(Column::Float64(constant(d, values.len())))
}

// ── Quantiles ───────────────────────────────────────────────────────────────

/// The order of numbers by size, in which the two zeros are equal.
pub open spec fn number_order(v: Seq<u64>) -> Less {
    |a: int, b: int| real_key(v[a]) < real_key(v[b])
}

struct Numbers<'a> {
    v: &'a Vec<u64>,
}

impl<'a> RowOrder for Numbers<'a> {
    closed spec fn size(&self) -> nat {
        self.v@.len()
    }

    closed spec fn order(&self) -> Less {
        number_order(self.v@)
    }

    proof fn is_weak_order(&self) {
    }

    fn is_less(&self, a: usize, b: usize) -> (yes: bool) {
        let x: u64 = self.v[a];
        let y: u64 = self.v[b];
        if x < SIGN {
            y < SIGN && x < y
        } else if y < SIGN {
            x > SIGN || y > 0
        } else {
            x > y
        }
    }
}

/// Whether a number lies between 0 and 1.
pub open spec fn in_unit(q: u64) -> bool {
    q <= ONE || q == SIGN
}

/// Whether a list holds a not-a-number value.
pub open spec fn has_nan(v: Seq<u64>) -> bool {
    exists|i: int| 0 <= i < v.len() && is_nan(#[trigger] v[i])
}

/// The place in a sorted list of `n` numbers at which a quantile is taken.
pub open spec fn quantile_place(q: u64, n: nat) -> int {
    let p = nearest(
        float_result(
            FloatOp::Times,
            q,
            float_result(FloatOp::Minus, unsigned_bits(n as u64), ONE),
        ),
    );
    if p < n - 1 {
        p as int
    } else {
        n - 1
    }
}

/// A quantile of numbers that can be sorted.
pub open spec fn quantile_value(q: u64, v: Seq<u64>) -> u64 {
    v[sorted_rows(number_order(v), v.len())[quantile_place(q, v.len())] as int]
}

/// A quantile of a column, in each row. A column without rows gives one zero. Values that
/// are no numbers have no order.
pub open spec fn quantile_of(q: u64, values: ColumnModel) -> Result<ColumnModel, EvalFault> {
    if !in_unit(q) {
        Err(EvalFault::Execution("histogram_quantile: q must be in [0, 1]"@))
    } else {
        match numbers_of(values) {
            None => Err(no_numbers()),
            Some(v) => if v.len() == 0 {
                Ok(ColumnModel::Float64(repeated(0u64, 1)))
            } else if v.len() > 1 && has_nan(v) {
                Err(EvalFault::Abort("called `Option::unwrap()` on a `None` value"@))
            } else {
                Ok(ColumnModel::Float64(repeated(quantile_value(q, v), col_len(values))))
            },
        }
    }
}

/// `histogram_quantile(q, values, buckets)`: the quantile of the sorted values. The number
/// of buckets does not count.
pub fn histogram_quantile(q: u64, values: &Column, _buckets: u32) -> (out: Result<
    Column,
    QueryError,
>)
    ensures
        column_outcome(out, quantile_of(q, values@)),
{
    if !(q <= ONE || q == SIGN) {
        return Err(execution_error("histogram_quantile: q must be in [0, 1]"));
    }
    let v = match to_floats(values) {
        Ok(v) => v,
        Err(e) => return Err(e),
    };
    let n: usize = v.len();
    if n == 0 {
        return Ok(Column::Float64(constant(0u64, 1)));
    }
    if n > 1 {
        for i in 0..n
            invariant
                in_unit(q),
                n == v@.len(),
                n > 1,
                numbers_of(values@) == Some(v@),
                forall|k: int| 0 <= k < i ==> !is_nan(#[trigger] v@[k]),
        {
            if nan(v[i]) {
                assert(has_nan(v@));
                return Err(abort("called `Option::unwrap()` on a `None` value"));
            }
        }
    }
    let rows = Numbers { v: &v };
    let order = sort_rows(&rows, n);
    let top: u64 = float_pair(FloatOp::Minus, float_of_unsigned(n as u64), ONE);
    let p: u64 = round(float_pair(FloatOp::Times, q, top));
    let at: usize = if p < (n - 1) as u64 {
        p as usize
    } else {
        n - 1
    };
    assert(at == quantile_place(q, n as nat));
    assert(order@[at as int] < n);
    let value: u64 = v[order[at]];
    Ok(Column::Float64(constant(value, values.len())))
}

} // verus!
