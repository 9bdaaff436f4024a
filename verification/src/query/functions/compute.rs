//! Operators on columns.

use crate::common::schema::type_text;
use crate::query::ast::{op_text, BinOp, Literal, LiteralModel};
use crate::columnar::column::{
    cells_view, col_len, col_type, col_valid, col_wf, Cells, CellsModel, Column, ColumnModel,
};
use crate::query::error::QueryError;
use crate::float::{
    float_lists, float_result, negate, negated, total_key, total_less, FloatOp,
};
use crate::query::optimizer::rules::const_op;
use crate::text::{decimal, push_decimal, push_signed, signed_decimal, str_eq, views};
use vstd::prelude::*;
use vstd::utf8::encode_utf8;

verus! {

/// Why an expression has no value, with the text that says so.
pub enum EvalFault {
    /// The expression is not one that can be computed.
    Execution(Seq<char>),
    /// The columns do not fit an operator.
    Arrow(Seq<char>),
    /// The computation cannot go on.
    Abort(Seq<char>),
}

/// Whether `e` reports the fault `f`.
pub open spec fn reports_eval(e: QueryError, f: EvalFault) -> bool {
    match f {
        EvalFault::Execution(t) => e matches QueryError::Execution(m) && m@ == t,
        EvalFault::Arrow(t) => e matches QueryError::Arrow(m) && m@ == t,
        EvalFault::Abort(t) => e matches QueryError::Abort(m) && m@ == t,
    }
}

/// Whether an outcome is the one that `want` says.
pub open spec fn column_outcome(
    got: Result<Column, QueryError>,
    want: Result<ColumnModel, EvalFault>,
) -> bool {
    match (got, want) {
        (Ok(c), Ok(m)) => c@ == m && col_wf(c@),
        (Err(e), Err(f)) => reports_eval(e, f),
        _ => false,
    }
}

/// Whether an outcome is the one that `want` says.
pub open spec fn mask_outcome(
    got: Result<Cells<bool>, QueryError>,
    want: Result<CellsModel<bool>, EvalFault>,
) -> bool {
    match (got, want) {
        (Ok(c), Ok(m)) => cells_view(c) == m && m.values.len() == m.valid.len(),
        (Err(e), Err(f)) => reports_eval(e, f),
        _ => false,
    }
}

pub fn execution_error(text: &str) -> (e: QueryError)
    ensures
        reports_eval(e, EvalFault::Execution(text@)),
{
    QueryError::Execution(text.to_string())
}

pub fn abort(text: &str) -> (e: QueryError)
    ensures
        reports_eval(e, EvalFault::Abort(text@)),
{
    QueryError::Abort(text.to_string())
}

// ── Constants ───────────────────────────────────────────────────────────────

/// `n` times the same value.
pub open spec fn repeated<T>(v: T, n: nat) -> CellsModel<T> {
    CellsModel { values: Seq::new(n, |i: int| v), valid: Seq::new(n, |i: int| true) }
}

/// A literal as a column of `n` rows.
pub open spec fn literal_col(l: LiteralModel, n: nat) -> ColumnModel {
    match l {
        LiteralModel::Int(v) => ColumnModel::Int64(repeated(v, n)),
        LiteralModel::Float(b) => ColumnModel::Float64(repeated(b, n)),
        LiteralModel::Str(s) => ColumnModel::Utf8(repeated(s, n)),
        LiteralModel::Bool(b) => ColumnModel::Boolean(repeated(b, n)),
        LiteralModel::Null => ColumnModel::Boolean(
            CellsModel {
                values: Seq::new(n, |i: int| false),
                valid: Seq::new(n, |i: int| false),
            },
        ),
        LiteralModel::IntervalNs(v) => ColumnModel::Int64(repeated(v, n)),
    }
}

/// `n` times the same value.
pub fn repeat<T: Copy>(v: T, n: usize) -> (out: Vec<T>)
    ensures
        out@ == Seq::new(n as nat, |i: int| v),
{
    let mut out: Vec<T> = Vec::new();
    for i in 0..n
        invariant
            out@ == Seq::new(i as nat, |k: int| v),
    {
        out.push(v);
        assert(out@ =~= Seq::new((i + 1) as nat, |k: int| v));
    }
    out
}

/// `n` times the same value, none of them null.
pub fn constant<T: Copy>(v: T, n: usize) -> (out: Cells<T>)
    ensures
        cells_view(out) == repeated(v, n as nat),
{
    Cells { values: repeat(v, n), valid: repeat(true, n) }
}

fn repeat_text(s: &str, n: usize) -> (out: Vec<String>)
    ensures
        views(out@) == Seq::new(n as nat, |i: int| s@),
{
    let mut out: Vec<String> = Vec::new();
    for i in 0..n
        invariant
            views(out@) =~= Seq::new(i as nat, |k: int| s@),
    {
        let ghost before = views(out@);
        out.push(s.to_string());
        assert(views(out@) =~= before.push(s@));
    }
    out
}

/// A literal as a column of `n` rows.
pub fn eval_literal(lit: &Literal, n: usize) -> (out: Column)
    ensures
        out@ == literal_col(lit@, n as nat),
        col_wf(out@),
        col_len(out@) == n,
{
    match lit {
        Literal::Int(v) => Column::Int64(constant(*v, n)),
        Literal::Float(b) => Column::Float64(constant(*b, n)),
        Literal::Str(s) => Column::Utf8(
            Cells { values: repeat_text(s.as_str(), n), valid: repeat(true, n) },
        ),
        Literal::Bool(b) => Column::Boolean(constant(*b, n)),
        Literal::Null => Column::Boolean(Cells { values: repeat(false, n), valid: repeat(false, n) }),
        Literal::IntervalNs(v) => Column::Int64(constant(*v, n)),
    }
}

// ── Truth values ────────────────────────────────────────────────────────────

/// Two conditions row by row; a row is null where one of them is.
pub open spec fn bool_zip(
    l: CellsModel<bool>,
    r: CellsModel<bool>,
    f: spec_fn(bool, bool) -> bool,
) -> Result<CellsModel<bool>, EvalFault> {
    if l.values.len() != r.values.len() {
        Err(
            EvalFault::Arrow(
                "Compute error: Cannot perform bitwise operation on arrays of different length"@,
            ),
        )
    } else {
        Ok(
            CellsModel {
                values: Seq::new(l.values.len(), |i: int| f(l.values[i], r.values[i])),
                valid: Seq::new(l.values.len(), |i: int| l.valid[i] && r.valid[i]),
            },
        )
    }
}

/// Whether both conditions hold, row by row.
pub open spec fn both(l: CellsModel<bool>, r: CellsModel<bool>) -> Result<
    CellsModel<bool>,
    EvalFault,
> {
    bool_zip(l, r, |a: bool, b: bool| a && b)
}

/// Whether one of the conditions holds, row by row.
pub open spec fn either(l: CellsModel<bool>, r: CellsModel<bool>) -> Result<
    CellsModel<bool>,
    EvalFault,
> {
    bool_zip(l, r, |a: bool, b: bool| a || b)
}

/// Whether a condition does not hold, row by row.
pub open spec fn none_of(c: CellsModel<bool>) -> CellsModel<bool> {
    CellsModel { values: Seq::new(c.values.len(), |i: int| !c.values[i]), valid: c.valid }
}

/// Whether both conditions hold, row by row.
pub fn and_masks(l: &Cells<bool>, r: &Cells<bool>) -> (out: Result<Cells<bool>, QueryError>)
    requires
        l.values@.len() == l.valid@.len(),
        r.values@.len() == r.valid@.len(),
    ensures
        mask_outcome(out, both(cells_view(*l), cells_view(*r))),
{
    if l.values.len() != r.values.len() {
        let t = "Compute error: Cannot perform bitwise operation on arrays of different length";
        return Err(QueryError::Arrow(t.to_string()));
    }
    let mut values: Vec<bool> = Vec::new();
    let mut valid: Vec<bool> = Vec::new();
    for i in 0..l.values.len()
        invariant
            l.values@.len() == l.valid@.len(),
            r.values@.len() == r.valid@.len(),
            l.values@.len() == r.values@.len(),
            values@ == Seq::new(i as nat, |k: int| l.values@[k] && r.values@[k]),
            valid@ == Seq::new(i as nat, |k: int| l.valid@[k] && r.valid@[k]),
    {
        values.push(l.values[i] && r.values[i]);
        valid.push(l.valid[i] && r.valid[i]);
        assert(values@ =~= Seq::new((i + 1) as nat, |k: int| l.values@[k] && r.values@[k]));
        assert(valid@ =~= Seq::new((i + 1) as nat, |k: int| l.valid@[k] && r.valid@[k]));
    }
    let out = Cells { values, valid };
    proof {
        let want = both(cells_view(*l), cells_view(*r));
        assert(want is Ok);
        assert(out.values@ =~= want->Ok_0.values);
        assert(out.valid@ =~= want->Ok_0.valid);
    }
    Ok(out)
}

/// Whether one of the conditions holds, row by row.
pub fn or_masks(l: &Cells<bool>, r: &Cells<bool>) -> (out: Result<Cells<bool>, QueryError>)
    requires
        l.values@.len() == l.valid@.len(),
        r.values@.len() == r.valid@.len(),
    ensures
        mask_outcome(out, either(cells_view(*l), cells_view(*r))),
{
    if l.values.len() != r.values.len() {
        let t = "Compute error: Cannot perform bitwise operation on arrays of different length";
        return Err(QueryError::Arrow(t.to_string()));
    }
    let mut values: Vec<bool> = Vec::new();
    let mut valid: Vec<bool> = Vec::new();
    for i in 0..l.values.len()
        invariant
            l.values@.len() == l.valid@.len(),
            r.values@.len() == r.valid@.len(),
            l.values@.len() == r.values@.len(),
            values@ == Seq::new(i as nat, |k: int| l.values@[k] || r.values@[k]),
            valid@ == Seq::new(i as nat, |k: int| l.valid@[k] && r.valid@[k]),
    {
        values.push(l.values[i] || r.values[i]);
        valid.push(l.valid[i] && r.valid[i]);
        assert(values@ =~= Seq::new((i + 1) as nat, |k: int| l.values@[k] || r.values@[k]));
        assert(valid@ =~= Seq::new((i + 1) as nat, |k: int| l.valid@[k] && r.valid@[k]));
    }
    let out = Cells { values, valid };
    proof {
        let want = either(cells_view(*l), cells_view(*r));
        assert(want is Ok);
        assert(out.values@ =~= want->Ok_0.values);
        assert(out.valid@ =~= want->Ok_0.valid);
    }
    Ok(out)
}

/// Whether a condition does not hold, row by row.
pub fn not_mask(c: &Cells<bool>) -> (out: Cells<bool>)
    requires
        c.values@.len() == c.valid@.len(),
    ensures
        cells_view(out) == none_of(cells_view(*c)),
{
    let mut values: Vec<bool> = Vec::new();
    let mut valid: Vec<bool> = Vec::new();
    for i in 0..c.values.len()
        invariant
            c.values@.len() == c.valid@.len(),
            values@ == Seq::new(i as nat, |k: int| !c.values@[k]),
            valid@ == c.valid@.take(i as int),
    {
        values.push(!c.values[i]);
        valid.push(c.valid[i]);
        assert(values@ =~= Seq::new((i + 1) as nat, |k: int| !c.values@[k]));
        assert(valid@ =~= c.valid@.take(i + 1));
    }
    assert(c.valid@.take(c.valid@.len() as int) =~= c.valid@);
    let out = Cells { values, valid };
    assert(out.values@ =~= none_of(cells_view(*c)).values);
    out
}

/// Which rows hold a value, or hold none.
pub open spec fn null_test(c: ColumnModel, is_null: bool) -> CellsModel<bool> {
    CellsModel {
        values: Seq::new(col_len(c), |i: int| col_valid(c)[i] != is_null),
        valid: Seq::new(col_len(c), |i: int| true),
    }
}

/// Which rows hold a value, or hold none.
pub fn null_mask(c: &Column, is_null: bool) -> (out: Cells<bool>)
    requires
        col_wf(c@),
    ensures
        cells_view(out) == null_test(c@, is_null),
{
    let marks = c.validity();
    let mut values: Vec<bool> = Vec::new();
    for i in 0..marks.len()
        invariant
            marks@ == col_valid(c@),
            values@ == Seq::new(i as nat, |k: int| col_valid(c@)[k] != is_null),
    {
        values.push(marks[i] != is_null);
        assert(values@ =~= Seq::new((i + 1) as nat, |k: int| col_valid(c@)[k] != is_null));
    }
    let out = Cells { values, valid: repeat(true, marks.len()) };
    assert(out.values@ =~= null_test(c@, is_null).values);
    assert(out.valid@ =~= null_test(c@, is_null).valid);
    out
}

// ── Comparisons ─────────────────────────────────────────────────────────────

/// Whether a comparison holds of two values that are equal, or of which the first or
/// the second is the smaller one.
pub open spec fn holds(op: BinOp, eq: bool, less: bool, greater: bool) -> bool {
    match op {
        BinOp::Eq => eq,
        BinOp::NotEq => !eq,
        BinOp::Lt => less,
        BinOp::LtEq => !greater,
        BinOp::Gt => greater,
        BinOp::GtEq => !less,
        _ => false,
    }
}

/// Whether an operator is a comparison.
pub open spec fn is_comparison(op: BinOp) -> bool {
    op is Eq || op is NotEq || op is Lt || op is LtEq || op is Gt || op is GtEq
}

/// Whether one byte string comes before another.
pub open spec fn bytes_less(a: Seq<u8>, b: Seq<u8>) -> bool
    decreases a.len(),
{
    if b.len() == 0 {
        false
    } else if a.len() == 0 {
        true
    } else {
        a[0] < b[0] || (a[0] == b[0] && bytes_less(a.skip(1), b.skip(1)))
    }
}

/// Whether one text comes before another, by its bytes.
pub open spec fn text_less(a: Seq<char>, b: Seq<char>) -> bool {
    bytes_less(encode_utf8(a), encode_utf8(b))
}

/// A comparison row by row; a row is null where one of its values is.
pub open spec fn compare_cells<T>(
    l: CellsModel<T>,
    r: CellsModel<T>,
    f: spec_fn(T, T) -> bool,
) -> Result<CellsModel<bool>, EvalFault> {
    if l.values.len() != r.values.len() {
        Err(
            EvalFault::Arrow(
                "Invalid argument error: Cannot compare arrays of different lengths, got "@
                    + decimal(l.values.len()) + " vs "@ + decimal(r.values.len()),
            ),
        )
    } else {
        Ok(
            CellsModel {
                values: Seq::new(l.values.len(), |i: int| f(l.values[i], r.values[i])),
                valid: Seq::new(l.values.len(), |i: int| l.valid[i] && r.valid[i]),
            },
        )
    }
}

/// A comparison of two columns, which have to be of one type: whole numbers of 64 bits,
/// floating-point numbers or texts. Floating-point numbers are compared in their total
/// order.
pub open spec fn compare_cols(l: ColumnModel, r: ColumnModel, op: BinOp) -> Result<
    CellsModel<bool>,
    EvalFault,
> {
    let unsupported = EvalFault::Execution(
        "unsupported comparison between "@ + type_text(col_type(l)) + " and "@ + type_text(
            col_type(r),
        ),
    );
    if !is_comparison(op) {
        Err(unsupported)
    } else {
        match (l, r) {
            (ColumnModel::UInt64(a), ColumnModel::UInt64(b)) => compare_cells(
                a,
                b,
                |x: u64, y: u64| holds(op, x == y, x < y, y < x),
            ),
            (ColumnModel::Int64(a), ColumnModel::Int64(b)) => compare_cells(
                a,
                b,
                |x: i64, y: i64| holds(op, x == y, x < y, y < x),
            ),
            (ColumnModel::Float64(a), ColumnModel::Float64(b)) => compare_cells(
                a,
                b,
                |x: u64, y: u64|
                    holds(op, x == y, total_key(x) < total_key(y), total_key(y) < total_key(x)),
            ),
            (ColumnModel::Utf8(a), ColumnModel::Utf8(b)) => compare_cells(
                a,
                b,
                |x: Seq<char>, y: Seq<char>| holds(op, x == y, text_less(x, y), text_less(y, x)),
            ),
            _ => Err(unsupported),
        }
    }
}

fn does_hold(op: BinOp, eq: bool, less: bool, greater: bool) -> (yes: bool)
    ensures
        yes == holds(op, eq, less, greater),
{
    match op {
        BinOp::Eq => eq,
        BinOp::NotEq => !eq,
        BinOp::Lt => less,
        BinOp::LtEq => !greater,
        BinOp::Gt => greater,
        BinOp::GtEq => !less,
        _ => false,
    }
}

/// Whether one byte string comes before another.
pub fn bytes_before(a: &[u8], b: &[u8]) -> (yes: bool)
    ensures
        yes == bytes_less(a@, b@),
{
    let mut i: usize = 0;
    assert(a@.skip(0) =~= a@);
    assert(b@.skip(0) =~= b@);
    loop
        invariant
            i <= a@.len(),
            i <= b@.len(),
            bytes_less(a@, b@) == bytes_less(a@.skip(i as int), b@.skip(i as int)),
        decreases a@.len() - i,
    {
        if i >= b.len() {
            return false;
        }
        if i >= a.len() {
            return true;
        }
        if a[i] < b[i] {
            return true;
        }
        if a[i] > b[i] {
            return false;
        }
        assert(a@.skip(i as int).skip(1) =~= a@.skip(i + 1));
        assert(b@.skip(i as int).skip(1) =~= b@.skip(i + 1));
        i = i + 1;
    }
}

fn length_error(l: usize, r: usize) -> (e: QueryError)
    ensures
        reports_eval(
            e,
            EvalFault::Arrow(
                "Invalid argument error: Cannot compare arrays of different lengths, got "@
                    + decimal(l as nat) + " vs "@ + decimal(r as nat),
            ),
        ),
{
    let mut t =
        "Invalid argument error: Cannot compare arrays of different lengths, got ".to_string();
    push_decimal(&mut t, l as u64);
    t.append(" vs ");
    push_decimal(&mut t, r as u64);
    QueryError::Arrow(t)
}

fn both_valid(l: &Vec<bool>, r: &Vec<bool>) -> (out: Vec<bool>)
    requires
        l@.len() == r@.len(),
    ensures
        out@ == Seq::new(l@.len(), |i: int| l@[i] && r@[i]),
{
    let mut out: Vec<bool> = Vec::new();
    for i in 0..l.len()
        invariant
            l@.len() == r@.len(),
            out@ == Seq::new(i as nat, |k: int| l@[k] && r@[k]),
    {
        out.push(l[i] && r[i]);
        assert(out@ =~= Seq::new((i + 1) as nat, |k: int| l@[k] && r@[k]));
    }
    out
}

fn compare_unsigned(l: &Cells<u64>, r: &Cells<u64>, op: BinOp) -> (out: Result<Cells<bool>, QueryError>)
    requires
        l.values@.len() == l.valid@.len(),
        r.values@.len() == r.valid@.len(),
    ensures
        mask_outcome(
            out,
            compare_cells(
                cells_view(*l),
                cells_view(*r),
                |x: u64, y: u64| holds(op, x == y, x < y, y < x),
            ),
        ),
{
    if l.values.len() != r.values.len() {
        return Err(length_error(l.values.len(), r.values.len()));
    }
    let ghost f = |x: u64, y: u64| holds(op, x == y, x < y, y < x);
    let mut values: Vec<bool> = Vec::new();
    for i in 0..l.values.len()
        invariant
            l.values@.len() == r.values@.len(),
            f == (|x: u64, y: u64| holds(op, x == y, x < y, y < x)),
            values@ == Seq::new(i as nat, |k: int| f(l.values@[k], r.values@[k])),
    {
        let x = l.values[i];
        let y = r.values[i];
        values.push(does_hold(op, x == y, x < y, y < x));
        assert(values@ =~= Seq::new((i + 1) as nat, |k: int| f(l.values@[k], r.values@[k])));
    }
    let out = Cells { values, valid: both_valid(&l.valid, &r.valid) };
    proof {
        let want = compare_cells(cells_view(*l), cells_view(*r), f);
        assert(want is Ok);
        assert(out.values@ =~= want->Ok_0.values);
        assert(out.valid@ =~= want->Ok_0.valid);
    }
    Ok(out)
}

fn compare_signed(l: &Cells<i64>, r: &Cells<i64>, op: BinOp) -> (out: Result<Cells<bool>, QueryError>)
    requires
        l.values@.len() == l.valid@.len(),
        r.values@.len() == r.valid@.len(),
    ensures
        mask_outcome(
            out,
            compare_cells(
                cells_view(*l),
                cells_view(*r),
                |x: i64, y: i64| holds(op, x == y, x < y, y < x),
            ),
        ),
{
    if l.values.len() != r.values.len() {
        return Err(length_error(l.values.len(), r.values.len()));
    }
    let ghost f = |x: i64, y: i64| holds(op, x == y, x < y, y < x);
    let mut values: Vec<bool> = Vec::new();
    for i in 0..l.values.len()
        invariant
            l.values@.len() == r.values@.len(),
            f == (|x: i64, y: i64| holds(op, x == y, x < y, y < x)),
            values@ == Seq::new(i as nat, |k: int| f(l.values@[k], r.values@[k])),
    {
        let x = l.values[i];
        let y = r.values[i];
        values.push(does_hold(op, x == y, x < y, y < x));
        assert(values@ =~= Seq::new((i + 1) as nat, |k: int| f(l.values@[k], r.values@[k])));
    }
    let out = Cells { values, valid: both_valid(&l.valid, &r.valid) };
    proof {
        let want = compare_cells(cells_view(*l), cells_view(*r), f);
        assert(want is Ok);
        assert(out.values@ =~= want->Ok_0.values);
        assert(out.valid@ =~= want->Ok_0.valid);
    }
    Ok(out)
}

fn compare_floats(l: &Cells<u64>, r: &Cells<u64>, op: BinOp) -> (out: Result<Cells<bool>, QueryError>)
    requires
        l.values@.len() == l.valid@.len(),
        r.values@.len() == r.valid@.len(),
    ensures
        mask_outcome(
            out,
            compare_cells(
                cells_view(*l),
                cells_view(*r),
                |x: u64, y: u64| holds(op, x == y, total_key(x) < total_key(y), total_key(y) < total_key(x)),
            ),
        ),
{
    if l.values.len() != r.values.len() {
        return Err(length_error(l.values.len(), r.values.len()));
    }
    let ghost f = |x: u64, y: u64| holds(op, x == y, total_key(x) < total_key(y), total_key(y) < total_key(x));
    let mut values: Vec<bool> = Vec::new();
    for i in 0..l.values.len()
        invariant
            l.values@.len() == r.values@.len(),
            f == (|x: u64, y: u64| holds(op, x == y, total_key(x) < total_key(y), total_key(y) < total_key(x))),
            values@ == Seq::new(i as nat, |k: int| f(l.values@[k], r.values@[k])),
    {
        let x = l.values[i];
        let y = r.values[i];
        values.push(does_hold(op, x == y, total_less(x, y), total_less(y, x)));
        assert(values@ =~= Seq::new((i + 1) as nat, |k: int| f(l.values@[k], r.values@[k])));
    }
    let out = Cells { values, valid: both_valid(&l.valid, &r.valid) };
    proof {
        let want = compare_cells(cells_view(*l), cells_view(*r), f);
        assert(want is Ok);
        assert(out.values@ =~= want->Ok_0.values);
        assert(out.valid@ =~= want->Ok_0.valid);
    }
    Ok(out)
}

fn compare_texts(l: &Cells<String>, r: &Cells<String>, op: BinOp) -> (out: Result<Cells<bool>, QueryError>)
    requires
        l.values@.len() == l.valid@.len(),
        r.values@.len() == r.valid@.len(),
    ensures
        mask_outcome(
            out,
            compare_cells(
                (CellsModel { values: views(l.values@), valid: l.valid@ }),
                (CellsModel { values: views(r.values@), valid: r.valid@ }),
                |x: Seq<char>, y: Seq<char>| holds(op, x == y, text_less(x, y), text_less(y, x)),
            ),
        ),
{
    if l.values.len() != r.values.len() {
        return Err(length_error(l.values.len(), r.values.len()));
    }
    let ghost f = |x: Seq<char>, y: Seq<char>| holds(op, x == y, text_less(x, y), text_less(y, x));
    let mut values: Vec<bool> = Vec::new();
    for i in 0..l.values.len()
        invariant
            l.values@.len() == r.values@.len(),
            f == (|x: Seq<char>, y: Seq<char>| holds(op, x == y, text_less(x, y), text_less(y, x))),
            values@ == Seq::new(i as nat, |k: int| f(views(l.values@)[k], views(r.values@)[k])),
    {
        let x = l.values[i].as_str();
        let y = r.values[i].as_str();
        values.push(does_hold(op, str_eq(x, y), bytes_before(x.as_bytes(), y.as_bytes()), bytes_before(y.as_bytes(), x.as_bytes())));
        assert(values@ =~= Seq::new((i + 1) as nat, |k: int| f(views(l.values@)[k], views(r.values@)[k])));
    }
    let out = Cells { values, valid: both_valid(&l.valid, &r.valid) };
    proof {
        let want = compare_cells((CellsModel { values: views(l.values@), valid: l.valid@ }), (CellsModel { values: views(r.values@), valid: r.valid@ }), f);
        assert(want is Ok);
        assert(out.values@ =~= want->Ok_0.values);
        assert(out.valid@ =~= want->Ok_0.valid);
    }
    Ok(out)
}

/// Compares two columns.
pub fn compare_arrays(l: &Column, r: &Column, op: BinOp) -> (out: Result<Cells<bool>, QueryError>)
    requires
        col_wf(l@),
        col_wf(r@),
    ensures
        mask_outcome(out, compare_cols(l@, r@, op)),
{
    let known = match op {
        BinOp::Eq | BinOp::NotEq | BinOp::Lt | BinOp::LtEq | BinOp::Gt | BinOp::GtEq => true,
        _ => false,
    };
    if known {
        match (l, r) {
            (Column::UInt64(a), Column::UInt64(b)) => {
                return compare_unsigned(a, b, op);
            },
            (Column::Int64(a), Column::Int64(b)) => {
                return compare_signed(a, b, op);
            },
            (Column::Float64(a), Column::Float64(b)) => {
                return compare_floats(a, b, op);
            },
            (Column::Utf8(a), Column::Utf8(b)) => {
                return compare_texts(a, b, op);
            },
            _ => {},
        }
    }
    let mut t = "unsupported comparison between ".to_string();
    t.append(l.data_type().text());
    t.append(" and ");
    t.append(r.data_type().text());
    Err(QueryError::Execution(t))
}

// ── Arithmetic ──────────────────────────────────────────────────────────────

/// Why an operator on two whole numbers has no result.
pub open spec fn int_fault(op: BinOp, a: i64, b: i64) -> EvalFault {
    if op is Div && b == 0 {
        EvalFault::Arrow("Divide by zero error"@)
    } else {
        EvalFault::Arrow(
            "Arithmetic overflow: Overflow happened on: "@ + signed_decimal(a as int) + " "@
                + op_text(op) + " "@ + signed_decimal(b as int),
        )
    }
}

/// Whether two cells hold numbers for which an operator has no result.
pub open spec fn int_fails(l: CellsModel<i64>, r: CellsModel<i64>, op: BinOp, i: int) -> bool {
    l.valid[i] && r.valid[i] && const_op(op, l.values[i], r.values[i]) is None
}

/// The fault of the first row from `i` on in which an operator has no result.
pub open spec fn first_int_fault(
    l: CellsModel<i64>,
    r: CellsModel<i64>,
    op: BinOp,
    i: nat,
) -> Option<EvalFault>
    decreases l.values.len() - i,
{
    if i >= l.values.len() {
        None
    } else if int_fails(l, r, op, i as int) {
        Some(int_fault(op, l.values[i as int], r.values[i as int]))
    } else {
        first_int_fault(l, r, op, i + 1)
    }
}

/// The value of an operator in one row; 0 where a number is missing.
pub open spec fn int_cell(l: CellsModel<i64>, r: CellsModel<i64>, op: BinOp, i: int) -> i64 {
    if l.valid[i] && r.valid[i] {
        match const_op(op, l.values[i], r.values[i]) {
            Some(v) => v,
            None => 0,
        }
    } else {
        0
    }
}

/// An operator on whole numbers, row by row.
pub open spec fn int_arithmetic(l: CellsModel<i64>, r: CellsModel<i64>, op: BinOp) -> Result<
    CellsModel<i64>,
    EvalFault,
> {
    if l.values.len() != r.values.len() {
        Err(
            EvalFault::Arrow(
                "Compute error: Cannot perform a binary operation on arrays of different length"@,
            ),
        )
    } else {
        match first_int_fault(l, r, op, 0) {
            Some(f) => Err(f),
            None => Ok(
                CellsModel {
                    values: Seq::new(l.values.len(), |i: int| int_cell(l, r, op, i)),
                    valid: Seq::new(l.values.len(), |i: int| l.valid[i] && r.valid[i]),
                },
            ),
        }
    }
}

/// The operation of an operator on floating-point numbers.
pub open spec fn float_op(op: BinOp) -> FloatOp {
    match op {
        BinOp::Add => FloatOp::Plus,
        BinOp::Sub => FloatOp::Minus,
        BinOp::Mul => FloatOp::Times,
        _ => FloatOp::Over,
    }
}

/// An operator on floating-point numbers, row by row.
pub open spec fn float_arithmetic(l: CellsModel<u64>, r: CellsModel<u64>, op: BinOp) -> Result<
    CellsModel<u64>,
    EvalFault,
> {
    if l.values.len() != r.values.len() {
        Err(
            EvalFault::Arrow(
                "Compute error: Cannot perform binary operation on arrays of different length"@,
            ),
        )
    } else {
        Ok(
            CellsModel {
                values: Seq::new(
                    l.values.len(),
                    |i: int| float_result(float_op(op), l.values[i], r.values[i]),
                ),
                valid: Seq::new(l.values.len(), |i: int| l.valid[i] && r.valid[i]),
            },
        )
    }
}

/// An arithmetic operator on two columns, which have to be both of whole numbers of 64
/// bits or both of floating-point numbers. There is no remainder.
pub open spec fn arithmetic_cols(l: ColumnModel, r: ColumnModel, op: BinOp) -> Result<
    ColumnModel,
    EvalFault,
> {
    let unsupported = EvalFault::Execution("unsupported arithmetic types"@);
    if !(op is Add || op is Sub || op is Mul || op is Div) {
        Err(unsupported)
    } else {
        match (l, r) {
            (ColumnModel::Int64(a), ColumnModel::Int64(b)) => match int_arithmetic(a, b, op) {
                Ok(c) => Ok(ColumnModel::Int64(c)),
                Err(f) => Err(f),
            },
            (ColumnModel::Float64(a), ColumnModel::Float64(b)) => match float_arithmetic(
                a,
                b,
                op,
            ) {
                Ok(c) => Ok(ColumnModel::Float64(c)),
                Err(f) => Err(f),
            },
            _ => Err(unsupported),
        }
    }
}

fn int_value(op: BinOp, a: i64, b: i64) -> (out: Result<i64, QueryError>)
    ensures
        match out {
            Ok(v) => const_op(op, a, b) == Some(v),
            Err(e) => const_op(op, a, b) is None && reports_eval(e, int_fault(op, a, b)),
        },
{
    let value = match op {
        BinOp::Add => a.checked_add(b),
        BinOp::Sub => a.checked_sub(b),
        BinOp::Mul => a.checked_mul(b),
        BinOp::Div => a.checked_div(b),
        BinOp::Mod => a.checked_rem(b),
        _ => None,
    };
    match value {
        Some(v) => Ok(v),
        None => {
            if op == BinOp::Div && b == 0 {
                return Err(QueryError::Arrow("Divide by zero error".to_string()));
            }
            let mut t = "Arithmetic overflow: Overflow happened on: ".to_string();
            push_signed(&mut t, a);
            t.append(" ");
            t.append(op.text());
            t.append(" ");
            push_signed(&mut t, b);
            Err(QueryError::Arrow(t))
        },
    }
}

fn arithmetic_ints(l: &Cells<i64>, r: &Cells<i64>, op: BinOp) -> (out: Result<Column, QueryError>)
    requires
        l.values@.len() == l.valid@.len(),
        r.values@.len() == r.valid@.len(),
        op is Add || op is Sub || op is Mul || op is Div,
    ensures
        column_outcome(
            out,
            arithmetic_cols(ColumnModel::Int64(cells_view(*l)), ColumnModel::Int64(cells_view(*r)), op),
        ),
{
    if l.values.len() != r.values.len() {
        let t = "Compute error: Cannot perform a binary operation on arrays of different length";
        return Err(QueryError::Arrow(t.to_string()));
    }
    let ghost a = cells_view(*l);
    let ghost b = cells_view(*r);
    let mut values: Vec<i64> = Vec::new();
    for i in 0..l.values.len()
        invariant
            l.values@.len() == l.valid@.len(),
            r.values@.len() == r.valid@.len(),
            l.values@.len() == r.values@.len(),
            op is Add || op is Sub || op is Mul || op is Div,
            a == cells_view(*l),
            b == cells_view(*r),
            first_int_fault(a, b, op, 0) == first_int_fault(a, b, op, i as nat),
            values@ == Seq::new(i as nat, |k: int| int_cell(a, b, op, k)),
    {
        if l.valid[i] && r.valid[i] {
            match int_value(op, l.values[i], r.values[i]) {
                Ok(v) => {
                    values.push(v);
                },
                Err(e) => {
                    return Err(e);
                },
            }
        } else {
            values.push(0);
        }
        assert(values@ =~= Seq::new((i + 1) as nat, |k: int| int_cell(a, b, op, k)));
    }
    let out = Cells { values, valid: both_valid(&l.valid, &r.valid) };
    proof {
        let want = int_arithmetic(a, b, op);
        assert(want is Ok);
        assert(out.values@ =~= want->Ok_0.values);
        assert(out.valid@ =~= want->Ok_0.valid);
    }
    Ok(Column::Int64(out))
}

fn arithmetic_floats(l: &Cells<u64>, r: &Cells<u64>, op: BinOp) -> (out: Result<Column, QueryError>)
    requires
        l.values@.len() == l.valid@.len(),
        r.values@.len() == r.valid@.len(),
        op is Add || op is Sub || op is Mul || op is Div,
    ensures
        column_outcome(
            out,
            arithmetic_cols(
                ColumnModel::Float64(cells_view(*l)),
                ColumnModel::Float64(cells_view(*r)),
                op,
            ),
        ),
{
    if l.values.len() != r.values.len() {
        let t = "Compute error: Cannot perform binary operation on arrays of different length";
        return Err(QueryError::Arrow(t.to_string()));
    }
    let f = match op {
        BinOp::Add => FloatOp::Plus,
        BinOp::Sub => FloatOp::Minus,
        BinOp::Mul => FloatOp::Times,
        _ => FloatOp::Over,
    };
    let out = Cells {
        values: float_lists(f, &l.values, &r.values),
        valid: both_valid(&l.valid, &r.valid),
    };
    proof {
        let want = float_arithmetic(cells_view(*l), cells_view(*r), op);
        assert(want is Ok);
        assert(out.values@ =~= want->Ok_0.values);
        assert(out.valid@ =~= want->Ok_0.valid);
    }
    Ok(Column::Float64(out))
}

/// Does arithmetic on two columns.
pub fn arithmetic_arrays(l: &Column, r: &Column, op: BinOp) -> (out: Result<Column, QueryError>)
    requires
        col_wf(l@),
        col_wf(r@),
    ensures
        column_outcome(out, arithmetic_cols(l@, r@, op)),
{
    let known = match op {
        BinOp::Add | BinOp::Sub | BinOp::Mul | BinOp::Div => true,
        _ => false,
    };
    if known {
        match (l, r) {
            (Column::Int64(a), Column::Int64(b)) => {
                return arithmetic_ints(a, b, op);
            },
            (Column::Float64(a), Column::Float64(b)) => {
                return arithmetic_floats(a, b, op);
            },
            _ => {},
        }
    }
    Err(execution_error("unsupported arithmetic types"))
}

/// A column with its numbers negated. What was null becomes the negated value that was
/// kept there. The least whole number has no negative.
pub open spec fn negate_col(c: ColumnModel) -> Result<ColumnModel, EvalFault> {
    match c {
        ColumnModel::Int64(a) => if exists|i: int|
            0 <= i < a.values.len() && #[trigger] a.values[i] == i64::MIN {
            Err(EvalFault::Abort("attempt to negate with overflow"@))
        } else {
            Ok(
                ColumnModel::Int64(
                    CellsModel {
                        values: Seq::new(a.values.len(), |i: int| (-a.values[i]) as i64),
                        valid: Seq::new(a.values.len(), |i: int| true),
                    },
                ),
            )
        },
        ColumnModel::Float64(a) => Ok(
            ColumnModel::Float64(
                CellsModel {
                    values: Seq::new(a.values.len(), |i: int| negated(a.values[i])),
                    valid: Seq::new(a.values.len(), |i: int| true),
                },
            ),
        ),
        _ => Err(EvalFault::Execution("unary minus on non-numeric type"@)),
    }
}

/// Negates the numbers of a column.
pub fn negate_numeric(c: &Column) -> (out: Result<Column, QueryError>)
    requires
        col_wf(c@),
    ensures
        column_outcome(out, negate_col(c@)),
{
    match c {
        Column::Int64(a) => {
            let mut values: Vec<i64> = Vec::new();
            for i in 0..a.values.len()
                invariant
                    c@ == ColumnModel::Int64(cells_view(*a)),
                    values@ == Seq::new(i as nat, |k: int| (-a.values@[k]) as i64),
                    forall|k: int| 0 <= k < i ==> #[trigger] a.values@[k] != i64::MIN,
            {
                if a.values[i] == i64::MIN {
                    assert(cells_view(*a).values[i as int] == i64::MIN);
                    return Err(abort("attempt to negate with overflow"));
                }
                values.push(-a.values[i]);
                assert(values@ =~= Seq::new((i + 1) as nat, |k: int| (-a.values@[k]) as i64));
            }
            let out = Cells { values, valid: repeat(true, a.values.len()) };
            proof {
                let want = negate_col(c@);
                assert(want is Ok);
                assert(out.values@ =~= want->Ok_0->Int64_0.values);
                assert(out.valid@ =~= want->Ok_0->Int64_0.valid);
            }
            Ok(Column::Int64(out))
        },
        Column::Float64(a) => {
            let mut values: Vec<u64> = Vec::new();
            for i in 0..a.values.len()
                invariant
                    values@ == Seq::new(i as nat, |k: int| negated(a.values@[k])),
            {
                values.push(negate(a.values[i]));
                assert(values@ =~= Seq::new((i + 1) as nat, |k: int| negated(a.values@[k])));
            }
            let out = Cells { values, valid: repeat(true, a.values.len()) };
            proof {
                let want = negate_col(c@);
                assert(want is Ok);
                assert(out.values@ =~= want->Ok_0->Float64_0.values);
                assert(out.valid@ =~= want->Ok_0->Float64_0.valid);
            }
            Ok(Column::Float64(out))
        },
        _ => Err(execution_error("unary minus on non-numeric type")),
    }
}

// ── Laws ────────────────────────────────────────────────────────────────────

/// A comparison and its opposite hold of no row together, and one of them holds of every
/// row that has both values.
pub proof fn comparisons_complement(eq: bool, less: bool, greater: bool)
    ensures
        holds(BinOp::Eq, eq, less, greater) != holds(BinOp::NotEq, eq, less, greater),
        holds(BinOp::Lt, eq, less, greater) != holds(BinOp::GtEq, eq, less, greater),
        holds(BinOp::Gt, eq, less, greater) != holds(BinOp::LtEq, eq, less, greater),
{
}

} // verus!
