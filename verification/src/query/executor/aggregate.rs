//! Aggregation: all rows in, one batch out.

use crate::common::schema::{field, field_views, index_of, DataType, Field, FieldModel, Schema};
use crate::query::ast::{expr_views, Expr, ExprModel};
use crate::columnar::batch::{
    batch_of, batch_views, batch_wf, empty_batch, rows_total, Batch, BatchModel,
};
use crate::columnar::column::{col_wf, column_views, Cells, CellsModel, Column, ColumnModel};
use crate::query::error::QueryError;
use crate::float::{
    float_of_signed, float_of_unsigned, float_less, float_pair, float_result, floats_of_signed,
    number_less, signed_bits, unsigned_bits, FloatOp, INFINITY, NEG_INFINITY,
};
use crate::query::functions::compute::{abort, constant, repeat, repeated, reports_eval, EvalFault};
use crate::query::planner::{agg_views, AggExpr, AggModel};
use crate::text::{decimal, decimal_text, str_eq, views};
use vstd::prelude::*;

verus! {

/// The outcome of an aggregation.
pub type Aggregated = Result<BatchModel, EvalFault>;

// ── Schema of the result ────────────────────────────────────────────────────

/// The name under which a grouping expression comes out.
pub open spec fn key_name(e: ExprModel) -> Seq<char> {
    match e {
        ExprModel::Column { table, name } => name,
        _ => "key"@,
    }
}

/// The columns of the groups, of a type, then those of the aggregates. A count is a whole
/// number; all else is floating-point.
pub open spec fn schema_with(key_type: DataType, keys: Seq<ExprModel>, aggs: Seq<AggModel>) -> Seq<
    FieldModel,
> {
    Seq::new(
        keys.len() + aggs.len(),
        |i: int|
            if i < keys.len() {
                field(key_name(keys[i]), key_type, true)
            } else {
                let a = aggs[i - keys.len()];
                field(
                    a.alias,
                    if a.func == "count"@ {
                        DataType::Int64
                    } else {
                        DataType::Float64
                    },
                    false,
                )
            },
    )
}

/// The columns that an aggregation announces, and those of its result where nothing comes
/// in: groups are announced as whole numbers.
pub open spec fn result_schema(keys: Seq<ExprModel>, aggs: Seq<AggModel>) -> Seq<FieldModel> {
    schema_with(DataType::Int64, keys, aggs)
}

/// The columns of grouped rows: the names of groups are texts.
pub open spec fn grouped_schema(keys: Seq<ExprModel>, aggs: Seq<AggModel>) -> Seq<FieldModel> {
    schema_with(DataType::Utf8, keys, aggs)
}

fn make_schema(key_type: DataType, keys: &Vec<Expr>, aggs: &Vec<AggExpr>) -> (s: Schema)
    ensures
        s@ == schema_with(key_type, expr_views(keys@), agg_views(aggs@)),
{
    let ghost want = schema_with(key_type, expr_views(keys@), agg_views(aggs@));
    let mut fields: Vec<Field> = Vec::new();
    for i in 0..keys.len()
        invariant
            want == schema_with(key_type, expr_views(keys@), agg_views(aggs@)),
            fields@.len() == i,
            field_views(fields@) == want.take(i as int),
    {
        let name = match &keys[i] {
            Expr::Column { table, name } => name.as_str(),
            _ => "key",
        };
        assert(expr_views(keys@)[i as int] == keys@[i as int]@);
        fields.push(Field::new(name, key_type, true));
        assert(field_views(fields@) =~= want.take(i + 1));
    }
    for i in 0..aggs.len()
        invariant
            want == schema_with(key_type, expr_views(keys@), agg_views(aggs@)),
            fields@.len() == keys@.len() + i,
            field_views(fields@) == want.take(keys@.len() + i),
    {
        let a = &aggs[i];
        let t = if str_eq(a.func.as_str(), "count") {
            DataType::Int64
        } else {
            DataType::Float64
        };
        assert(agg_views(aggs@)[i as int] == aggs@[i as int]@);
        fields.push(Field::new(a.alias.as_str(), t, false));
        assert(field_views(fields@) =~= want.take(keys@.len() + i + 1));
    }
    let s = Schema { fields };
    assert(s@ =~= want);
    s
}

/// The columns that an aggregation announces.
pub fn output_schema(keys: &Vec<Expr>, aggs: &Vec<AggExpr>) -> (s: Schema)
    ensures
        s@ == result_schema(expr_views(keys@), agg_views(aggs@)),
{
    make_schema(DataType::Int64, keys, aggs)
}

// ── Aggregates over all rows ────────────────────────────────────────────────

/// The numbers of a column that an aggregate over all rows reads: floating-point numbers
/// and signed whole numbers. Other columns have none.
pub open spec fn summed_numbers(c: ColumnModel) -> Seq<u64> {
    match c {
        ColumnModel::Float64(a) => a.values,
        ColumnModel::Int64(a) => Seq::new(a.values.len(), |i: int| signed_bits(a.values[i])),
        _ => Seq::empty(),
    }
}

/// The numbers of a column in all batches, one behind the other; the text that says that
/// a batch lacks the column.
pub open spec fn all_numbers(batches: Seq<BatchModel>, name: Seq<char>) -> Result<
    Seq<u64>,
    EvalFault,
>
    decreases batches.len(),
{
    if batches.len() == 0 {
        Ok(Seq::empty())
    } else {
        match all_numbers(batches.drop_last(), name) {
            Err(f) => Err(f),
            Ok(front) => match index_of(batches.last().schema, name) {
                None => Err(EvalFault::Execution("column '"@ + name + "' not found"@)),
                Some(i) => Ok(front + summed_numbers(batches.last().columns[i])),
            },
        }
    }
}

/// The start of an aggregate.
pub open spec fn start_value(func: Seq<char>) -> u64 {
    if func == "min"@ {
        INFINITY
    } else if func == "max"@ {
        NEG_INFINITY
    } else {
        0
    }
}

/// An aggregate after one more number.
pub open spec fn next_value(func: Seq<char>, acc: u64, v: u64) -> u64 {
    if func == "sum"@ || func == "avg"@ {
        float_result(FloatOp::Plus, acc, v)
    } else if func == "min"@ {
        if float_less(v, acc) {
            v
        } else {
            acc
        }
    } else if func == "max"@ {
        if float_less(acc, v) {
            v
        } else {
            acc
        }
    } else {
        acc
    }
}

/// An aggregate after the given numbers.
pub open spec fn folded_value(func: Seq<char>, v: Seq<u64>) -> u64
    decreases v.len(),
{
    if v.len() == 0 {
        start_value(func)
    } else {
        next_value(func, folded_value(func, v.drop_last()), v.last())
    }
}

/// The value of an aggregate of the given numbers.
pub open spec fn aggregate_value(func: Seq<char>, v: Seq<u64>) -> u64 {
    if func == "avg"@ {
        if v.len() > 0 {
            float_result(FloatOp::Over, folded_value(func, v), unsigned_bits(v.len() as u64))
        } else {
            0
        }
    } else {
        folded_value(func, v)
    }
}

/// An aggregate over all rows: of a column, or 0 of anything else.
pub open spec fn scalar_agg(batches: Seq<BatchModel>, func: Seq<char>, arg: Option<ExprModel>) -> Result<
    u64,
    EvalFault,
> {
    match arg {
        Some(ExprModel::Column { table, name }) => match all_numbers(batches, name) {
            Err(f) => Err(f),
            Ok(v) => Ok(aggregate_value(func, v)),
        },
        _ => Ok(0),
    }
}

/// The column of one aggregate over all rows.
pub open spec fn scalar_column(batches: Seq<BatchModel>, a: AggModel) -> Result<
    ColumnModel,
    EvalFault,
> {
    if a.func == "count"@ {
        Ok(ColumnModel::Int64(repeated(rows_total(batches) as i64, 1)))
    } else if a.func == "sum"@ || a.func == "avg"@ || a.func == "min"@ || a.func == "max"@ {
        match scalar_agg(batches, a.func, a.arg) {
            Err(f) => Err(f),
            Ok(v) => Ok(ColumnModel::Float64(repeated(v, 1))),
        }
    } else {
        Ok(ColumnModel::Float64(repeated(0u64, 1)))
    }
}

/// The columns of the first `n` aggregates over all rows.
pub open spec fn scalar_columns(batches: Seq<BatchModel>, aggs: Seq<AggModel>, n: nat) -> Result<
    Seq<ColumnModel>,
    EvalFault,
>
    decreases n,
{
    if n == 0 {
        Ok(Seq::empty())
    } else {
        match scalar_columns(batches, aggs, (n - 1) as nat) {
            Err(f) => Err(f),
            Ok(front) => match scalar_column(batches, aggs[n - 1]) {
                Err(f) => Err(f),
                Ok(c) => Ok(front.push(c)),
            },
        }
    }
}

// ── Aggregates by group ─────────────────────────────────────────────────────

/// What is known of a group: its rows, and the sum, least and greatest of the numbers that
/// its aggregates have seen. All aggregates of a group share them.
pub struct GroupModel {
    pub count: nat,
    pub sum: u64,
    pub min: u64,
    pub max: u64,
}

/// A group without rows.
pub open spec fn new_group() -> GroupModel {
    GroupModel { count: 0, sum: 0, min: 0, max: 0 }
}

/// A group after an aggregate has seen a number in a row.
pub open spec fn accumulated(g: GroupModel, func: Seq<char>, v: Option<u64>) -> GroupModel {
    match v {
        None => g,
        Some(x) => if func == "sum"@ || func == "avg"@ {
            GroupModel { sum: float_result(FloatOp::Plus, g.sum, x), ..g }
        } else if func == "min"@ {
            GroupModel {
                min: if float_less(x, g.min) || g.count == 0 {
                    x
                } else {
                    g.min
                },
                ..g
            }
        } else if func == "max"@ {
            GroupModel {
                max: if float_less(g.max, x) || g.count == 0 {
                    x
                } else {
                    g.max
                },
                ..g
            }
        } else {
            g
        },
    }
}

/// The value of an aggregate of a group.
pub open spec fn group_value(g: GroupModel, func: Seq<char>) -> u64 {
    if func == "count"@ {
        unsigned_bits(g.count as u64)
    } else if func == "sum"@ {
        g.sum
    } else if func == "avg"@ {
        if g.count > 0 {
            float_result(FloatOp::Over, g.sum, unsigned_bits(g.count as u64))
        } else {
            0
        }
    } else if func == "min"@ {
        g.min
    } else if func == "max"@ {
        g.max
    } else {
        0
    }
}

/// The group that a row belongs to: the first column, where it holds unsigned whole
/// numbers; otherwise all rows are one group.
pub open spec fn group_key(b: BatchModel, row: int) -> Seq<char> {
    match b.columns[0] {
        ColumnModel::UInt64(c) => decimal(c.values[row] as nat),
        _ => "?"@,
    }
}

/// The number that an aggregate sees in a row, if it asks for a column of numbers.
pub open spec fn row_number(b: BatchModel, row: int, arg: Option<ExprModel>) -> Option<u64> {
    match arg {
        Some(ExprModel::Column { table, name }) => match index_of(b.schema, name) {
            None => None,
            Some(i) => match b.columns[i] {
                ColumnModel::Float64(c) => Some(c.values[row]),
                ColumnModel::Int64(c) => Some(signed_bits(c.values[row])),
                ColumnModel::UInt64(c) => Some(unsigned_bits(c.values[row])),
                _ => None,
            },
        },
        _ => None,
    }
}

/// A group after the first `n` aggregates have seen a row.
pub open spec fn seen_row(g: GroupModel, b: BatchModel, row: int, aggs: Seq<AggModel>, n: nat) -> GroupModel
    decreases n,
{
    if n == 0 {
        g
    } else {
        accumulated(
            seen_row(g, b, row, aggs, (n - 1) as nat),
            aggs[n - 1].func,
            row_number(b, row, aggs[n - 1].arg),
        )
    }
}

/// A group after a row.
pub open spec fn after_row(g: GroupModel, b: BatchModel, row: int, aggs: Seq<AggModel>) -> GroupModel {
    let s = seen_row(g, b, row, aggs, aggs.len());
    GroupModel { count: s.count + 1, ..s }
}

/// Groups with their names, in the order in which they were first met.
pub type Groups = Seq<(Seq<char>, GroupModel)>;

/// The place of a group, if it is there.
pub open spec fn group_index(groups: Groups, key: Seq<char>) -> Option<int>
    decreases groups.len(),
{
    if groups.len() == 0 {
        None
    } else {
        match group_index(groups.drop_last(), key) {
            Some(i) => Some(i),
            None => if groups.last().0 == key {
                Some(groups.len() - 1)
            } else {
                None
            },
        }
    }
}

/// The groups after a row.
pub open spec fn groups_with_row(groups: Groups, b: BatchModel, row: int, aggs: Seq<AggModel>) -> Groups {
    let key = group_key(b, row);
    match group_index(groups, key) {
        Some(i) => groups.update(i, (key, after_row(groups[i].1, b, row, aggs))),
        None => groups.push((key, after_row(new_group(), b, row, aggs))),
    }
}

/// The groups after the first `n` rows of a batch.
pub open spec fn groups_with_rows(groups: Groups, b: BatchModel, n: nat, aggs: Seq<AggModel>) -> Groups
    decreases n,
{
    if n == 0 {
        groups
    } else {
        groups_with_row(groups_with_rows(groups, b, (n - 1) as nat, aggs), b, n - 1, aggs)
    }
}

/// The groups of all rows of all batches.
pub open spec fn groups_of(batches: Seq<BatchModel>, aggs: Seq<AggModel>) -> Groups
    decreases batches.len(),
{
    if batches.len() == 0 {
        Seq::empty()
    } else {
        groups_with_rows(
            groups_of(batches.drop_last(), aggs),
            batches.last(),
            batches.last().rows,
            aggs,
        )
    }
}

/// The column of an aggregate of groups.
pub open spec fn group_column(groups: Groups, func: Seq<char>) -> ColumnModel {
    let valid = groups.map_values(|g: (Seq<char>, GroupModel)| true);
    if func == "count"@ {
        ColumnModel::Int64(
            CellsModel {
                values: groups.map_values(|g: (Seq<char>, GroupModel)| g.1.count as i64),
                valid,
            },
        )
    } else {
        ColumnModel::Float64(
            CellsModel {
                values: groups.map_values(
                    |g: (Seq<char>, GroupModel)| group_value(g.1, func),
                ),
                valid,
            },
        )
    }
}

/// The columns of grouped rows. The names of the groups stand in the first column; any
/// further grouping column stays empty.
pub open spec fn group_columns(groups: Groups, keys: nat, aggs: Seq<AggModel>) -> Seq<ColumnModel> {
    Seq::new(
        keys + aggs.len(),
        |i: int|
            if i == 0 {
                ColumnModel::Utf8(
                    CellsModel {
                        values: groups.map_values(|g: (Seq<char>, GroupModel)| g.0),
                        valid: groups.map_values(|g: (Seq<char>, GroupModel)| true),
                    },
                )
            } else if i < keys {
                ColumnModel::Utf8(
                    CellsModel { values: Seq::empty(), valid: Seq::empty() },
                )
            } else {
                group_column(groups, aggs[i - keys].func)
            },
    )
}

/// Whether every batch with rows has a column to group by.
pub open spec fn groupable(batches: Seq<BatchModel>) -> bool {
    forall|i: int|
        0 <= i < batches.len() ==> (#[trigger] batches[i]).rows == 0 || batches[i].columns.len() > 0
}

/// A batch or its refusal as an outcome.
pub open spec fn as_outcome(b: Result<BatchModel, Seq<char>>) -> Aggregated {
    match b {
        Ok(m) => Ok(m),
        Err(t) => Err(EvalFault::Arrow(t)),
    }
}

/// The aggregation of batches: one row over all, or one row per group.
pub open spec fn aggregation(
    batches: Seq<BatchModel>,
    keys: Seq<ExprModel>,
    aggs: Seq<AggModel>,
) -> Aggregated {
    let schema = result_schema(keys, aggs);
    if batches.len() == 0 {
        Ok(empty_batch(schema))
    } else if rows_total(batches) > usize::MAX {
        Err(EvalFault::Abort("attempt to add with overflow"@))
    } else if keys.len() == 0 {
        match scalar_columns(batches, aggs, aggs.len()) {
            Err(f) => Err(f),
            Ok(columns) => as_outcome(batch_of(schema, columns)),
        }
    } else if !groupable(batches) {
        Err(EvalFault::Abort("index out of bounds: the len is 0 but the index is 0"@))
    } else {
        as_outcome(
            batch_of(
                grouped_schema(keys, aggs),
                group_columns(groups_of(batches, aggs), keys.len(), aggs),
            ),
        )
    }
}

proof fn lemma_scalar_columns_wf(batches: Seq<BatchModel>, aggs: Seq<AggModel>, n: nat)
    ensures
        scalar_columns(batches, aggs, n) matches Ok(v) ==> forall|i: int|
            0 <= i < v.len() ==> col_wf(#[trigger] v[i]),
    decreases n,
{
    if n > 0 {
        lemma_scalar_columns_wf(batches, aggs, (n - 1) as nat);
    }
}

/// The columns of what an aggregation gives of a number of batches.
pub open spec fn given_columns(batches: nat, keys: Seq<ExprModel>, aggs: Seq<AggModel>) -> Seq<
    FieldModel,
> {
    if batches == 0 || keys.len() == 0 {
        result_schema(keys, aggs)
    } else {
        grouped_schema(keys, aggs)
    }
}

/// What an aggregation gives is a well-formed batch of its columns.
pub proof fn aggregation_is_well_formed(
    batches: Seq<BatchModel>,
    keys: Seq<ExprModel>,
    aggs: Seq<AggModel>,
)
    ensures
        aggregation(batches, keys, aggs) matches Ok(b) ==> batch_wf(b) && b.schema
            == given_columns(batches.len(), keys, aggs),
{
    let schema = result_schema(keys, aggs);
    let e = empty_batch(schema);
    assert(batch_wf(e)) by {
        assert forall|i: int| 0 <= i < e.columns.len() implies crate::columnar::batch::column_fits(
            #[trigger] e.columns[i],
            e.schema[i],
            e.rows,
        ) by {}
    }
    lemma_scalar_columns_wf(batches, aggs, aggs.len());
    match scalar_columns(batches, aggs, aggs.len()) {
        Ok(v) => {
            crate::columnar::batch::batch_of_is_well_formed(schema, v);
        },
        Err(_) => {},
    }
    let g = group_columns(groups_of(batches, aggs), keys.len(), aggs);
    assert forall|i: int| 0 <= i < g.len() implies col_wf(#[trigger] g[i]) by {}
    crate::columnar::batch::batch_of_is_well_formed(grouped_schema(keys, aggs), g);
}

// ── Computing over all rows ─────────────────────────────────────────────────

/// The first batches have no more rows than all.
pub proof fn lemma_total_grows(v: Seq<BatchModel>, n: int)
    requires
        0 <= n <= v.len(),
    ensures
        rows_total(v.take(n)) <= rows_total(v),
    decreases v.len() - n,
{
    if n < v.len() {
        assert(v.take(n + 1).drop_last() =~= v.take(n));
        lemma_total_grows(v, n + 1);
    } else {
        assert(v.take(n) =~= v);
    }
}

/// The number of rows of all batches, where it fits.
pub fn total_rows(batches: &Vec<Batch>) -> (out: Option<usize>)
    ensures
        match out {
            Some(n) => n == rows_total(batch_views(batches@)),
            None => rows_total(batch_views(batches@)) > usize::MAX,
        },
{
    let ghost v = batch_views(batches@);
    let mut total: usize = 0;
    assert(v.take(0) =~= Seq::empty());
    for i in 0..batches.len()
        invariant
            v == batch_views(batches@),
            total == rows_total(v.take(i as int)),
    {
        assert(v.take(i + 1).drop_last() =~= v.take(i as int));
        assert(v.take(i + 1).last() == batches@[i as int]@);
        proof {
            lemma_total_grows(v, i + 1);
        }
        match total.checked_add(batches[i].rows) {
            Some(t) => {
                total = t;
            },
            None => {
                return None;
            },
        }
    }
    assert(v.take(v.len() as int) =~= v);
    Some(total)
}

fn column_numbers(c: &Column) -> (out: Vec<u64>)
    ensures
        out@ == summed_numbers(c@),
{
    match c {
        Column::Float64(a) => {
            let mut v: Vec<u64> = Vec::new();
            for i in 0..a.values.len()
                invariant
                    v@ == a.values@.take(i as int),
            {
                v.push(a.values[i]);
                assert(v@ =~= a.values@.take(i + 1));
            }
            assert(a.values@.take(a.values@.len() as int) =~= a.values@);
            v
        },
        Column::Int64(a) => floats_of_signed(&a.values),
        _ => {
            let v: Vec<u64> = Vec::new();
            assert(v@ =~= Seq::empty());
            v
        },
    }
}

fn next_number(func: &str, acc: u64, v: u64) -> (out: u64)
    ensures
        out == next_value(func@, acc, v),
{
    if str_eq(func, "sum") || str_eq(func, "avg") {
        float_pair(FloatOp::Plus, acc, v)
    } else if str_eq(func, "min") {
        if number_less(v, acc) {
            v
        } else {
            acc
        }
    } else if str_eq(func, "max") {
        if number_less(acc, v) {
            v
        } else {
            acc
        }
    } else {
        acc
    }
}

proof fn lemma_numbers_fail(batches: Seq<BatchModel>, name: Seq<char>, n: int)
    requires
        0 <= n <= batches.len(),
        all_numbers(batches.take(n), name) is Err,
    ensures
        all_numbers(batches, name) == all_numbers(batches.take(n), name),
    decreases batches.len() - n,
{
    if n < batches.len() {
        assert(batches.take(n + 1).drop_last() =~= batches.take(n));
        lemma_numbers_fail(batches, name, n + 1);
    } else {
        assert(batches.take(n) =~= batches);
    }
}

proof fn lemma_numbers_bounded(batches: Seq<BatchModel>, name: Seq<char>, n: int)
    requires
        0 <= n <= batches.len(),
        forall|i: int| 0 <= i < batches.len() ==> batch_wf(#[trigger] batches[i]),
    ensures
        all_numbers(batches.take(n), name) matches Ok(v) ==> v.len() <= rows_total(batches.take(n)),
    decreases n,
{
    if n > 0 {
        let front = batches.take(n).drop_last();
        assert(front =~= batches.take(n - 1));
        lemma_numbers_bounded(batches, name, n - 1);
        let b = batches.take(n).last();
        assert(b == batches[n - 1]);
        crate::common::schema::found_column_has_the_name(b.schema, name);
        match index_of(b.schema, name) {
            Some(i) => {
                assert(crate::columnar::batch::column_fits(b.columns[i], b.schema[i], b.rows));
            },
            None => {},
        }
    }
}

fn compute_scalar_agg(batches: &Vec<Batch>, func: &str, arg: &Option<Expr>) -> (out: Result<
    u64,
    QueryError,
>)
    requires
        forall|i: int| 0 <= i < batches@.len() ==> batch_wf((#[trigger] batches@[i])@),
        rows_total(batch_views(batches@)) <= usize::MAX,
    ensures
        match (
            out,
            scalar_agg(batch_views(batches@), func@, crate::query::ast::opt_expr(*arg)),
        ) {
            (Ok(v), Ok(w)) => v == w,
            (Err(e), Err(f)) => reports_eval(e, f),
            _ => false,
        },
{
    let ghost all = batch_views(batches@);
    let name = match arg {
        Some(Expr::Column { table, name }) => name.as_str(),
        _ => {
            return Ok(0);
        },
    };
    let mut acc: u64 = if str_eq(func, "min") {
        INFINITY
    } else if str_eq(func, "max") {
        NEG_INFINITY
    } else {
        0
    };
    let mut count: usize = 0;
    let ghost mut seen: Seq<u64> = Seq::empty();
    assert(all.take(0) =~= Seq::empty());
    assert forall|i: int| 0 <= i < all.len() implies batch_wf(#[trigger] all[i]) by {
        assert(all[i] == batches@[i]@);
    }
    for i in 0..batches.len()
        invariant
            all == batch_views(batches@),
            forall|k: int| 0 <= k < all.len() ==> batch_wf(#[trigger] all[k]),
            rows_total(all) <= usize::MAX,
            all_numbers(all.take(i as int), name@) == Ok::<Seq<u64>, EvalFault>(seen),
            acc == folded_value(func@, seen),
            count == seen.len(),
            arg matches Some(Expr::Column { table: tt, name: nn }) && nn@ == name@,
    {
        let b = &batches[i];
        assert(all[i as int] == b@);
        assert(all.take(i + 1).drop_last() =~= all.take(i as int));
        assert(all.take(i + 1).last() == b@);
        let at = match b.schema.index_of(name) {
            Some(at) => at,
            None => {
                proof {
                    lemma_numbers_fail(all, name@, i + 1);
                }
                let mut t = "column '".to_string();
                t.append(name);
                t.append("' not found");
                return Err(QueryError::Execution(t));
            },
        };
        assert(b@.columns[at as int] == b.columns@[at as int]@);
        let numbers = column_numbers(&b.columns[at]);
        let ghost before = seen;
        proof {
            lemma_numbers_bounded(all, name@, i + 1);
            lemma_total_grows(all, i + 1);
            assert(all_numbers(all.take(i + 1), name@) == Ok::<Seq<u64>, EvalFault>(
                before + numbers@,
            ));
        }
        assert(numbers@.take(0) =~= Seq::empty());
        assert(before + Seq::empty() =~= before);
        for j in 0..numbers.len()
            invariant
                before.len() + numbers@.len() <= usize::MAX,
                seen == before + numbers@.take(j as int),
                acc == folded_value(func@, seen),
                count == seen.len(),
        {
            proof {
                let next = before + numbers@.take(j + 1);
                assert(next.drop_last() =~= seen);
                assert(next.last() == numbers@[j as int]);
                seen = next;
            }
            acc = next_number(func, acc, numbers[j]);
            count = count + 1;
        }
        assert(numbers@.take(numbers@.len() as int) =~= numbers@);
    }
    assert(all.take(all.len() as int) =~= all);
    if str_eq(func, "avg") {
        if count > 0 {
            Ok(float_pair(FloatOp::Over, acc, float_of_unsigned(count as u64)))
        } else {
            Ok(0)
        }
    } else {
        Ok(acc)
    }
}

proof fn lemma_columns_fail(batches: Seq<BatchModel>, aggs: Seq<AggModel>, n: nat, m: nat)
    requires
        n <= m,
        scalar_columns(batches, aggs, n) is Err,
    ensures
        scalar_columns(batches, aggs, m) == scalar_columns(batches, aggs, n),
    decreases m - n,
{
    if n < m {
        lemma_columns_fail(batches, aggs, n, (m - 1) as nat);
    }
}

/// The columns of the aggregates over all rows.
fn all_rows(batches: &Vec<Batch>, aggs: &Vec<AggExpr>, total: usize) -> (out: Result<
    Vec<Column>,
    QueryError,
>)
    requires
        forall|i: int| 0 <= i < batches@.len() ==> batch_wf((#[trigger] batches@[i])@),
        total == rows_total(batch_views(batches@)),
    ensures
        match (
            out,
            scalar_columns(batch_views(batches@), agg_views(aggs@), agg_views(aggs@).len()),
        ) {
            (Ok(v), Ok(w)) => column_views(v@) == w && forall|i: int|
                0 <= i < v@.len() ==> col_wf((#[trigger] v@[i])@),
            (Err(e), Err(f)) => reports_eval(e, f),
            _ => false,
        },
{
    let ghost all = batch_views(batches@);
    let ghost models = agg_views(aggs@);
    let mut columns: Vec<Column> = Vec::new();
    assert(column_views(columns@) =~= Seq::empty());
    for i in 0..aggs.len()
        invariant
            all == batch_views(batches@),
            models == agg_views(aggs@),
            forall|k: int| 0 <= k < batches@.len() ==> batch_wf((#[trigger] batches@[k])@),
            total == rows_total(all),
            scalar_columns(all, models, i as nat) == Ok::<Seq<ColumnModel>, EvalFault>(
                column_views(columns@),
            ),
            forall|k: int| 0 <= k < columns@.len() ==> col_wf((#[trigger] columns@[k])@),
    {
        let a = &aggs[i];
        let func = a.func.as_str();
        assert(models[i as int] == a@);
        let ghost before = column_views(columns@);
        let c = if str_eq(func, "count") {
            Column::Int64(constant(total as i64, 1))
        } else if str_eq(func, "sum") || str_eq(func, "avg") || str_eq(func, "min") || str_eq(
            func,
            "max",
        ) {
            match compute_scalar_agg(batches, func, &a.arg) {
                Ok(v) => Column::Float64(constant(v, 1)),
                Err(e) => {
                    proof {
                        lemma_columns_fail(all, models, (i + 1) as nat, models.len());
                    }
                    return Err(e);
                },
            }
        } else {
            Column::Float64(constant(0u64, 1))
        };
        let ghost m = c@;
        columns.push(c);
        assert(column_views(columns@) =~= before.push(m));
    }
    Ok(columns)
}

// ── Computing by group ──────────────────────────────────────────────────────

/// What is known of a group.
#[derive(Debug)]
pub struct GroupState {
    pub count: usize,
    pub sum: u64,
    pub min: u64,
    pub max: u64,
}

impl View for GroupState {
    type V = GroupModel;

    open spec fn view(&self) -> GroupModel {
        GroupModel { count: self.count as nat, sum: self.sum, min: self.min, max: self.max }
    }
}

impl GroupState {
    /// Takes in a number that an aggregate has seen.
    pub fn accumulate(&mut self, func: &str, val: Option<u64>)
        ensures
            final(self)@ == accumulated(old(self)@, func@, val),
    {
        if let Some(v) = val {
            if str_eq(func, "sum") || str_eq(func, "avg") {
                self.sum = float_pair(FloatOp::Plus, self.sum, v);
            } else if str_eq(func, "min") {
                if number_less(v, self.min) || self.count == 0 {
                    self.min = v;
                }
            } else if str_eq(func, "max") {
                if number_less(self.max, v) || self.count == 0 {
                    self.max = v;
                }
            }
        }
    }

    /// The value of an aggregate.
    pub fn finalize(&self, func: &str) -> (out: u64)
        ensures
            out == group_value(self@, func@),
    {
        if str_eq(func, "count") {
            float_of_unsigned(self.count as u64)
        } else if str_eq(func, "sum") {
            self.sum
        } else if str_eq(func, "avg") {
            if self.count > 0 {
                float_pair(FloatOp::Over, self.sum, float_of_unsigned(self.count as u64))
            } else {
                0
            }
        } else if str_eq(func, "min") {
            self.min
        } else if str_eq(func, "max") {
            self.max
        } else {
            0
        }
    }
}

impl Default for GroupState {
    fn default() -> (g: Self)
        ensures
            g@ == new_group(),
    {
        GroupState { count: 0, sum: 0, min: 0, max: 0 }
    }
}

/// Groups as mathematical values.
pub open spec fn group_views(v: Seq<(String, GroupState)>) -> Groups {
    v.map_values(|g: (String, GroupState)| (g.0@, g.1@))
}

fn extract_group_key(b: &Batch, row: usize) -> (out: String)
    requires
        batch_wf(b@),
        row < b@.rows,
        b@.columns.len() > 0,
    ensures
        out@ == group_key(b@, row as int),
{
    assert(b@.columns[0] == b.columns@[0]@);
    assert(crate::columnar::batch::column_fits(b@.columns[0], b@.schema[0], b@.rows));
    match &b.columns[0] {
        Column::UInt64(c) => decimal_text(c.values[row]),
        _ => "?".to_string(),
    }
}

fn extract_f64(b: &Batch, row: usize, arg: &Option<Expr>) -> (out: Option<u64>)
    requires
        batch_wf(b@),
        row < b@.rows,
    ensures
        out == row_number(b@, row as int, crate::query::ast::opt_expr(*arg)),
{
    match arg {
        Some(Expr::Column { table, name }) => match b.schema.index_of(name.as_str()) {
            None => None,
            Some(i) => {
                assert(b@.columns[i as int] == b.columns@[i as int]@);
                assert(crate::columnar::batch::column_fits(
                    b@.columns[i as int],
                    b@.schema[i as int],
                    b@.rows,
                ));
                match &b.columns[i] {
                    Column::Float64(c) => Some(c.values[row]),
                    Column::Int64(c) => Some(float_of_signed(c.values[row])),
                    Column::UInt64(c) => Some(float_of_unsigned(c.values[row])),
                    _ => None,
                }
            },
        },
        _ => None,
    }
}

proof fn lemma_group_stays(groups: Groups, key: Seq<char>, n: int)
    requires
        0 <= n <= groups.len(),
        group_index(groups.take(n), key) is Some,
    ensures
        group_index(groups, key) == group_index(groups.take(n), key),
    decreases groups.len() - n,
{
    if n < groups.len() {
        assert(groups.take(n + 1).drop_last() =~= groups.take(n));
        lemma_group_stays(groups, key, n + 1);
    } else {
        assert(groups.take(n) =~= groups);
    }
}

fn find_group(groups: &Vec<(String, GroupState)>, key: &str) -> (out: Option<usize>)
    ensures
        match out {
            Some(i) => group_index(group_views(groups@), key@) == Some(i as int) && i
                < groups@.len() && groups@[i as int].0@ == key@,
            None => group_index(group_views(groups@), key@) is None,
        },
{
    let ghost all = group_views(groups@);
    assert(all.take(0) =~= Seq::empty());
    for i in 0..groups.len()
        invariant
            all == group_views(groups@),
            group_index(all.take(i as int), key@) is None,
    {
        assert(all.take(i + 1).drop_last() =~= all.take(i as int));
        assert(all.take(i + 1).last() == all[i as int]);
        if str_eq(groups[i].0.as_str(), key) {
            proof {
                lemma_group_stays(all, key@, i + 1);
            }
            return Some(i);
        }
    }
    assert(all.take(all.len() as int) =~= all);
    None
}

proof fn lemma_seen_keeps_count(
    g: GroupModel,
    b: BatchModel,
    row: int,
    aggs: Seq<AggModel>,
    n: nat,
)
    ensures
        seen_row(g, b, row, aggs, n).count == g.count,
    decreases n,
{
    if n > 0 {
        lemma_seen_keeps_count(g, b, row, aggs, (n - 1) as nat);
    }
}

fn see_row(g: &mut GroupState, b: &Batch, row: usize, aggs: &Vec<AggExpr>)
    requires
        batch_wf(b@),
        row < b@.rows,
        old(g).count < usize::MAX,
    ensures
        final(g)@ == after_row(old(g)@, b@, row as int, agg_views(aggs@)),
        final(g).count == old(g).count + 1,
{
    let ghost models = agg_views(aggs@);
    let ghost g0 = g@;
    for i in 0..aggs.len()
        invariant
            batch_wf(b@),
            row < b@.rows,
            models == agg_views(aggs@),
            g@ == seen_row(g0, b@, row as int, models, i as nat),
    {
        assert(models[i as int] == aggs@[i as int]@);
        let v = extract_f64(b, row, &aggs[i].arg);
        g.accumulate(aggs[i].func.as_str(), v);
    }
    proof {
        lemma_seen_keeps_count(g0, b@, row as int, models, models.len());
    }
    g.count = g.count + 1;
}

/// Adds the rows of a batch to the groups.
fn add_batch(
    groups: &mut Vec<(String, GroupState)>,
    b: &Batch,
    aggs: &Vec<AggExpr>,
    Ghost(done): Ghost<nat>,
)
    requires
        batch_wf(b@),
        b@.rows > 0 ==> b@.columns.len() > 0,
        done + b@.rows <= usize::MAX,
        forall|k: int| 0 <= k < old(groups)@.len() ==> (#[trigger] old(groups)@[k]).1.count <= done,
    ensures
        group_views(final(groups)@) == groups_with_rows(
            group_views(old(groups)@),
            b@,
            b@.rows,
            agg_views(aggs@),
        ),
        forall|k: int|
            0 <= k < final(groups)@.len() ==> (#[trigger] final(groups)@[k]).1.count <= done
                + b@.rows,
{
    let ghost models = agg_views(aggs@);
    let ghost start = group_views(groups@);
    for row in 0..b.rows
        invariant
            batch_wf(b@),
            b@.rows > 0 ==> b@.columns.len() > 0,
            done + b@.rows <= usize::MAX,
            models == agg_views(aggs@),
            group_views(groups@) == groups_with_rows(start, b@, row as nat, models),
            forall|k: int| 0 <= k < groups@.len() ==> (#[trigger] groups@[k]).1.count <= done + row,
    {
        let key = extract_group_key(b, row);
        let ghost before = group_views(groups@);
        match find_group(groups, key.as_str()) {
            Some(i) => {
                let ghost g0 = groups@[i as int].1@;
                assert(groups@[i as int].1.count <= done + row);
                see_row(&mut groups[i].1, b, row, aggs);
                assert(group_views(groups@) =~= before.update(
                    i as int,
                    (key@, after_row(g0, b@, row as int, models)),
                ));
            },
            None => {
                let mut g = GroupState::default();
                see_row(&mut g, b, row, aggs);
                let ghost m = (key@, g@);
                groups.push((key, g));
                assert(group_views(groups@) =~= before.push(m));
            },
        }
    }
}

/// The column of an aggregate of groups.
fn grouped_column(groups: &Vec<(String, GroupState)>, func: &str) -> (c: Column)
    ensures
        c@ == group_column(group_views(groups@), func@),
        col_wf(c@),
{
    let ghost all = group_views(groups@);
    let ghost want = group_column(all, func@);
    let n: usize = groups.len();
    if str_eq(func, "count") {
        let mut values: Vec<i64> = Vec::new();
        for j in 0..n
            invariant
                n == groups@.len(),
                all == group_views(groups@),
                values@ == Seq::new(j as nat, |k: int| all[k].1.count as i64),
        {
            values.push(groups[j].1.count as i64);
            assert(values@ =~= Seq::new((j + 1) as nat, |k: int| all[k].1.count as i64));
        }
        let c = Column::Int64(Cells { values, valid: repeat(true, n) });
        assert(c@->Int64_0.values =~= want->Int64_0.values);
        assert(c@->Int64_0.valid =~= want->Int64_0.valid);
        c
    } else {
        let mut values: Vec<u64> = Vec::new();
        for j in 0..n
            invariant
                n == groups@.len(),
                all == group_views(groups@),
                values@ == Seq::new(j as nat, |k: int| group_value(all[k].1, func@)),
        {
            values.push(groups[j].1.finalize(func));
            assert(values@ =~= Seq::new((j + 1) as nat, |k: int| group_value(all[k].1, func@)));
        }
        let c = Column::Float64(Cells { values, valid: repeat(true, n) });
        assert(c@->Float64_0.values =~= want->Float64_0.values);
        assert(c@->Float64_0.valid =~= want->Float64_0.valid);
        c
    }
}

/// The columns of grouped rows.
fn grouped_columns(groups: &Vec<(String, GroupState)>, keys: usize, aggs: &Vec<AggExpr>) -> (out: Vec<
    Column,
>)
    requires
        keys > 0,
    ensures
        column_views(out@) == group_columns(group_views(groups@), keys as nat, agg_views(aggs@)),
        forall|i: int| 0 <= i < out@.len() ==> col_wf((#[trigger] out@[i])@),
{
    let ghost all = group_views(groups@);
    let ghost models = agg_views(aggs@);
    let ghost want = group_columns(all, keys as nat, models);
    let n: usize = groups.len();
    let mut out: Vec<Column> = Vec::new();
    let mut names: Vec<String> = Vec::new();
    for i in 0..n
        invariant
            n == groups@.len(),
            all == group_views(groups@),
            views(names@) =~= all.take(i as int).map_values(|g: (Seq<char>, GroupModel)| g.0),
    {
        let ghost before = views(names@);
        names.push(groups[i].0.clone());
        assert(views(names@) =~= before.push(all[i as int].0));
    }
    assert(all.take(n as int) =~= all);
    let first = Column::Utf8(Cells { values: names, valid: repeat(true, n) });
    proof {
        assert(first@->Utf8_0.values =~= want[0]->Utf8_0.values);
        assert(first@->Utf8_0.valid =~= want[0]->Utf8_0.valid);
    }
    out.push(first);
    assert(column_views(out@) =~= want.take(1));
    for i in 1..keys
        invariant
            keys > 0,
            want == group_columns(all, keys as nat, models),
            out@.len() == i,
            column_views(out@) == want.take(i as int),
            forall|k: int| 0 <= k < out@.len() ==> col_wf((#[trigger] out@[k])@),
    {
        let c = Column::Utf8(Cells { values: Vec::new(), valid: Vec::new() });
        assert(c@->Utf8_0.values =~= Seq::empty());
        assert(c@->Utf8_0.valid =~= Seq::empty());
        assert(c@ == want[i as int]);
        out.push(c);
        assert(column_views(out@) =~= want.take(i + 1));
    }
    for i in 0..aggs.len()
        invariant
            keys > 0,
            n == groups@.len(),
            all == group_views(groups@),
            models == agg_views(aggs@),
            want == group_columns(all, keys as nat, models),
            out@.len() == keys + i,
            column_views(out@) == want.take(keys + i),
            forall|k: int| 0 <= k < out@.len() ==> col_wf((#[trigger] out@[k])@),
    {
        let func = aggs[i].func.as_str();
        assert(models[i as int] == aggs@[i as int]@);
        let c = grouped_column(groups, func);
        assert(c@ == want[keys + i]);
        out.push(c);
        assert(column_views(out@) =~= want.take(keys + i + 1));
    }
    assert(want.take(want.len() as int) =~= want);
    out
}

/// Aggregates batches.
pub fn aggregate(batches: &Vec<Batch>, keys: &Vec<Expr>, aggs: &Vec<AggExpr>) -> (out: Result<
    Batch,
    QueryError,
>)
    requires
        forall|i: int| 0 <= i < batches@.len() ==> batch_wf((#[trigger] batches@[i])@),
    ensures
        match (
            out,
            aggregation(batch_views(batches@), expr_views(keys@), agg_views(aggs@)),
        ) {
            (Ok(b), Ok(m)) => b@ == m && batch_wf(b@),
            (Err(e), Err(f)) => reports_eval(e, f),
            _ => false,
        },
{
    let ghost all = batch_views(batches@);
    let ghost models = agg_views(aggs@);
    let schema = output_schema(keys, aggs);
    assert(all.len() == batches@.len());
    assert(expr_views(keys@).len() == keys@.len());
    if batches.len() == 0 {
        return Ok(Batch::new_empty(schema));
    }
    let total: usize = match total_rows(batches) {
        Some(n) => n,
        None => {
            return Err(abort("attempt to add with overflow"));
        },
    };
    if keys.len() == 0 {
        let columns = match all_rows(batches, aggs, total) {
            Ok(c) => c,
            Err(e) => return Err(e),
        };
        return match Batch::try_new(schema, columns) {
            Ok(b) => Ok(b),
            Err(t) => Err(QueryError::Arrow(t)),
        };
    }
    for i in 0..batches.len()
        invariant
            all == batch_views(batches@),
            all.len() > 0,
            total == rows_total(all),
            keys@.len() > 0,
            expr_views(keys@).len() == keys@.len(),
            forall|k: int|
                0 <= k < i ==> (#[trigger] all[k]).rows == 0 || all[k].columns.len() > 0,
    {
        assert(all[i as int] == batches@[i as int]@);
        assert(all[i as int].columns.len() == batches@[i as int].columns@.len());
        if batches[i].rows > 0 && batches[i].columns.len() == 0 {
            assert(!groupable(all));
            return Err(abort("index out of bounds: the len is 0 but the index is 0"));
        }
    }
    let mut groups: Vec<(String, GroupState)> = Vec::new();
    assert(group_views(groups@) =~= Seq::empty());
    assert(all.take(0) =~= Seq::empty());
    for i in 0..batches.len()
        invariant
            forall|k: int| 0 <= k < batches@.len() ==> batch_wf((#[trigger] batches@[k])@),
            all == batch_views(batches@),
            models == agg_views(aggs@),
            groupable(all),
            rows_total(all) <= usize::MAX,
            group_views(groups@) == groups_of(all.take(i as int), models),
            forall|k: int|
                0 <= k < groups@.len() ==> (#[trigger] groups@[k]).1.count <= rows_total(
                    all.take(i as int),
                ),
    {
        assert(all[i as int] == batches@[i as int]@);
        assert(all.take(i + 1).drop_last() =~= all.take(i as int));
        assert(all.take(i + 1).last() == batches@[i as int]@);
        proof {
            lemma_total_grows(all, i + 1);
        }
        add_batch(&mut groups, &batches[i], aggs, Ghost(rows_total(all.take(i as int))));
    }
    assert(all.take(all.len() as int) =~= all);
    let columns = grouped_columns(&groups, keys.len(), aggs);
    match Batch::try_new(make_schema(DataType::Utf8, keys, aggs), columns) {
        Ok(b) => Ok(b),
        Err(t) => Err(QueryError::Arrow(t)),
    }
}

// ── Laws ────────────────────────────────────────────────────────────────────

/// The rows of all groups together.
pub open spec fn counted(groups: Groups) -> nat
    decreases groups.len(),
{
    if groups.len() == 0 {
        0
    } else {
        counted(groups.drop_last()) + groups.last().1.count
    }
}

/// Whether no two groups have the same name.
pub open spec fn names_differ(groups: Groups) -> bool {
    forall|i: int, j: int| 0 <= i < j < groups.len() ==> (#[trigger] groups[i]).0 != (#[trigger] groups[j]).0
}

/// A group that is found has the name, and one that is not found has no place.
pub proof fn found_group_has_the_name(groups: Groups, key: Seq<char>)
    ensures
        group_index(groups, key) matches Some(i) ==> 0 <= i < groups.len() && groups[i].0 == key,
        group_index(groups, key) is None ==> forall|i: int|
            0 <= i < groups.len() ==> (#[trigger] groups[i]).0 != key,
    decreases groups.len(),
{
    if groups.len() > 0 {
        let front = groups.drop_last();
        found_group_has_the_name(front, key);
        assert(forall|i: int| 0 <= i < front.len() ==> front[i] == groups[i]);
        assert(groups.last() == groups[groups.len() - 1]);
    }
}

proof fn lemma_counted_update(groups: Groups, i: int, g: (Seq<char>, GroupModel))
    requires
        0 <= i < groups.len(),
        g.1.count == groups[i].1.count + 1,
    ensures
        counted(groups.update(i, g)) == counted(groups) + 1,
    decreases groups.len(),
{
    let after = groups.update(i, g);
    if i == groups.len() - 1 {
        assert(after.drop_last() =~= groups.drop_last());
    } else {
        lemma_counted_update(groups.drop_last(), i, g);
        assert(after.drop_last() =~= groups.drop_last().update(i, g));
        assert(after.last() == groups.last());
    }
}

/// A row is counted once, and groups keep different names.
pub proof fn row_is_counted_once(groups: Groups, b: BatchModel, row: int, aggs: Seq<AggModel>)
    requires
        names_differ(groups),
    ensures
        names_differ(groups_with_row(groups, b, row, aggs)),
        counted(groups_with_row(groups, b, row, aggs)) == counted(groups) + 1,
{
    let key = group_key(b, row);
    let after = groups_with_row(groups, b, row, aggs);
    found_group_has_the_name(groups, key);
    match group_index(groups, key) {
        Some(i) => {
            let g = (key, after_row(groups[i].1, b, row, aggs));
            lemma_seen_keeps_count(groups[i].1, b, row, aggs, aggs.len());
            lemma_counted_update(groups, i, g);
            assert forall|x: int, y: int| 0 <= x < y < after.len() implies (#[trigger] after[x]).0
                != (#[trigger] after[y]).0 by {
                assert(groups[x].0 != groups[y].0);
            }
        },
        None => {
            lemma_seen_keeps_count(new_group(), b, row, aggs, aggs.len());
            assert(after.drop_last() =~= groups);
            assert forall|x: int, y: int| 0 <= x < y < after.len() implies (#[trigger] after[x]).0
                != (#[trigger] after[y]).0 by {
                if y < groups.len() {
                    assert(groups[x].0 != groups[y].0);
                } else {
                    assert(groups[x].0 != key);
                }
            }
        },
    }
}

proof fn lemma_rows_counted(groups: Groups, b: BatchModel, n: nat, aggs: Seq<AggModel>)
    requires
        names_differ(groups),
    ensures
        names_differ(groups_with_rows(groups, b, n, aggs)),
        counted(groups_with_rows(groups, b, n, aggs)) == counted(groups) + n,
    decreases n,
{
    if n > 0 {
        lemma_rows_counted(groups, b, (n - 1) as nat, aggs);
        row_is_counted_once(groups_with_rows(groups, b, (n - 1) as nat, aggs), b, n - 1, aggs);
    }
}

/// Every row falls in exactly one group: groups have different names, and together they
/// count all rows.
pub proof fn groups_partition_rows(batches: Seq<BatchModel>, aggs: Seq<AggModel>)
    ensures
        names_differ(groups_of(batches, aggs)),
        counted(groups_of(batches, aggs)) == rows_total(batches),
    decreases batches.len(),
{
    if batches.len() > 0 {
        groups_partition_rows(batches.drop_last(), aggs);
        lemma_rows_counted(
            groups_of(batches.drop_last(), aggs),
            batches.last(),
            batches.last().rows,
            aggs,
        );
    }
}

} // verus!
