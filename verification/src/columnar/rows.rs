//! Batches from rows.

use crate::common::schema::{DataType, FieldModel, Schema};
use crate::columnar::batch::{
    batch_of, batch_of_is_well_formed, batch_wf, empty_col, empty_column, has_null, lengths_agree,
    null_fault, type_fault, Batch, BatchModel,
};
use crate::columnar::column::{
    bytes_views, col_len, col_type, col_valid, col_wf, column_views, CellsModel, Column,
    ColumnModel,
};
use crate::text::views;
use vstd::prelude::*;

verus! {

/// One value of a row, or a null.
#[derive(Debug)]
pub enum Cell {
    Int8(Option<i8>),
    Int32(Option<i32>),
    Int64(Option<i64>),
    UInt64(Option<u64>),
    Float64(Option<u64>),
    Utf8(Option<String>),
    Binary(Option<Vec<u8>>),
    Boolean(Option<bool>),
}

/// One value of a row as a mathematical value.
pub enum CellModel {
    Int8(Option<i8>),
    Int32(Option<i32>),
    Int64(Option<i64>),
    UInt64(Option<u64>),
    Float64(Option<u64>),
    Utf8(Option<Seq<char>>),
    Binary(Option<Seq<u8>>),
    Boolean(Option<bool>),
}

/// Optional bytes as a mathematical value.
pub open spec fn opt_bytes(b: Option<Vec<u8>>) -> Option<Seq<u8>> {
    match b {
        Some(v) => Some(v@),
        None => None,
    }
}

impl View for Cell {
    type V = CellModel;

    open spec fn view(&self) -> CellModel {
        match self {
            Cell::Int8(x) => CellModel::Int8(*x),
            Cell::Int32(x) => CellModel::Int32(*x),
            Cell::Int64(x) => CellModel::Int64(*x),
            Cell::UInt64(x) => CellModel::UInt64(*x),
            Cell::Float64(x) => CellModel::Float64(*x),
            Cell::Utf8(x) => CellModel::Utf8(crate::storage::zone_map::opt_text(*x)),
            Cell::Binary(x) => CellModel::Binary(opt_bytes(*x)),
            Cell::Boolean(x) => CellModel::Boolean(*x),
        }
    }
}

/// The values of a row.
pub open spec fn row_view(v: Seq<Cell>) -> Seq<CellModel> {
    v.map_values(|c: Cell| c@)
}

/// The rows of a list.
pub open spec fn rows_view(v: Seq<Vec<Cell>>) -> Seq<Seq<CellModel>> {
    v.map_values(|r: Vec<Cell>| row_view(r@))
}

/// The type of a value.
pub open spec fn cell_type(c: CellModel) -> DataType {
    match c {
        CellModel::Int8(_) => DataType::Int8,
        CellModel::Int32(_) => DataType::Int32,
        CellModel::Int64(_) => DataType::Int64,
        CellModel::UInt64(_) => DataType::UInt64,
        CellModel::Float64(_) => DataType::Float64,
        CellModel::Utf8(_) => DataType::Utf8,
        CellModel::Binary(_) => DataType::Binary,
        CellModel::Boolean(_) => DataType::Boolean,
    }
}

/// Whether a value is a null.
pub open spec fn is_null(c: CellModel) -> bool {
    match c {
        CellModel::Int8(x) => x is None,
        CellModel::Int32(x) => x is None,
        CellModel::Int64(x) => x is None,
        CellModel::UInt64(x) => x is None,
        CellModel::Float64(x) => x is None,
        CellModel::Utf8(x) => x is None,
        CellModel::Binary(x) => x is None,
        CellModel::Boolean(x) => x is None,
    }
}

/// Cells with one more value. A null is kept as `zero`.
pub open spec fn with_value<T>(c: CellsModel<T>, x: Option<T>, zero: T) -> CellsModel<T> {
    CellsModel {
        values: c.values.push(
            match x {
                Some(v) => v,
                None => zero,
            },
        ),
        valid: c.valid.push(x is Some),
    }
}

/// A column with one more value of its type.
pub open spec fn with_cell(col: ColumnModel, c: CellModel) -> ColumnModel {
    match (col, c) {
        (ColumnModel::Int8(x), CellModel::Int8(v)) => ColumnModel::Int8(with_value(x, v, 0)),
        (ColumnModel::Int32(x), CellModel::Int32(v)) => ColumnModel::Int32(with_value(x, v, 0)),
        (ColumnModel::Int64(x), CellModel::Int64(v)) => ColumnModel::Int64(with_value(x, v, 0)),
        (ColumnModel::UInt64(x), CellModel::UInt64(v)) => ColumnModel::UInt64(with_value(x, v, 0)),
        (ColumnModel::Float64(x), CellModel::Float64(v)) => ColumnModel::Float64(with_value(x, v, 0)),
        (ColumnModel::Utf8(x), CellModel::Utf8(v)) => ColumnModel::Utf8(with_value(x, v, Seq::empty())),
        (ColumnModel::Binary(x), CellModel::Binary(v)) => ColumnModel::Binary(with_value(x, v, Seq::empty())),
        (ColumnModel::Boolean(x), CellModel::Boolean(v)) => ColumnModel::Boolean(with_value(x, v, false)),
        _ => col,
    }
}

/// The columns of rows under a schema.
pub open spec fn columns_of(schema: Seq<FieldModel>, rows: Seq<Seq<CellModel>>) -> Seq<ColumnModel>
    decreases rows.len(),
{
    if rows.len() == 0 {
        schema.map_values(|f: FieldModel| empty_col(f.data_type))
    } else {
        let front = columns_of(schema, rows.drop_last());
        Seq::new(schema.len(), |j: int| with_cell(front[j], rows.last()[j]))
    }
}

/// Whether a row has a value of the right type for each column, and no null where there may
/// be none.
pub open spec fn row_fits(schema: Seq<FieldModel>, row: Seq<CellModel>) -> bool {
    &&& row.len() == schema.len()
    &&& forall|j: int|
        0 <= j < row.len() ==> cell_type(#[trigger] row[j]) == schema[j].data_type && (
        schema[j].nullable || !is_null(row[j]))
}

/// Whether all rows fit a schema.
pub open spec fn rows_fit(schema: Seq<FieldModel>, rows: Seq<Seq<CellModel>>) -> bool {
    forall|i: int| 0 <= i < rows.len() ==> row_fits(schema, #[trigger] rows[i])
}

/// The columns of rows that fit a schema have its types and as many values as there are
/// rows, and nulls only where there may be some.
pub proof fn columns_fit(schema: Seq<FieldModel>, rows: Seq<Seq<CellModel>>)
    requires
        rows_fit(schema, rows),
    ensures
        columns_of(schema, rows).len() == schema.len(),
        forall|j: int|
            0 <= j < schema.len() ==> {
                let c = #[trigger] columns_of(schema, rows)[j];
                col_type(c) == schema[j].data_type && col_len(c) == rows.len() && col_wf(c) && (
                schema[j].nullable || !has_null(c))
            },
    decreases rows.len(),
{
    if rows.len() > 0 {
        let front = rows.drop_last();
        assert(forall|i: int| 0 <= i < front.len() ==> front[i] == rows[i]);
        columns_fit(schema, front);
        let before = columns_of(schema, front);
        let after = columns_of(schema, rows);
        let last = rows.last();
        assert(last == rows[rows.len() - 1]);
        assert(row_fits(schema, last));
        assert forall|j: int| 0 <= j < schema.len() implies {
            let c = #[trigger] after[j];
            col_type(c) == schema[j].data_type && col_len(c) == rows.len() && col_wf(c) && (
            schema[j].nullable || !has_null(c))
        } by {
            let b = before[j];
            let c = after[j];
            assert(cell_type(last[j]) == schema[j].data_type);
            assert(col_valid(c) =~= col_valid(b).push(!is_null(last[j])));
            if !schema[j].nullable && has_null(c) {
                let k = choose|k: int| 0 <= k < col_valid(c).len() && !#[trigger] col_valid(c)[k];
                if k < col_valid(b).len() {
                    assert(!col_valid(b)[k]);
                }
            }
        }
    }
}

proof fn lemma_no_null_fault(schema: Seq<FieldModel>, columns: Seq<ColumnModel>, i: nat)
    requires
        columns.len() == schema.len(),
        forall|j: int|
            0 <= j < columns.len() ==> schema[j].nullable || !has_null(#[trigger] columns[j]),
    ensures
        null_fault(schema, columns, i) is None,
    decreases columns.len() - i,
{
    if i < columns.len() {
        assert(schema[i as int].nullable || !has_null(columns[i as int]));
        lemma_no_null_fault(schema, columns, i + 1);
    }
}

proof fn lemma_no_type_fault(schema: Seq<FieldModel>, columns: Seq<ColumnModel>, i: nat)
    requires
        columns.len() == schema.len(),
        forall|j: int|
            0 <= j < columns.len() ==> col_type(#[trigger] columns[j]) == schema[j].data_type,
    ensures
        type_fault(schema, columns, i) is None,
    decreases columns.len() - i,
{
    if i < columns.len() {
        assert(col_type(columns[i as int]) == schema[i as int].data_type);
        lemma_no_type_fault(schema, columns, i + 1);
    }
}

/// The columns of rows that fit a schema make a batch of these rows.
pub proof fn rows_make_a_batch(schema: Seq<FieldModel>, rows: Seq<Seq<CellModel>>)
    requires
        schema.len() > 0,
        rows_fit(schema, rows),
    ensures
        batch_of(schema, columns_of(schema, rows)) == Ok::<BatchModel, Seq<char>>(
            BatchModel { schema, columns: columns_of(schema, rows), rows: rows.len() },
        ),
{
    columns_fit(schema, rows);
    let c = columns_of(schema, rows);
    lemma_no_null_fault(schema, c, 0);
    lemma_no_type_fault(schema, c, 0);
    assert(lengths_agree(c));
    assert(col_len(c[0]) == rows.len());
}

fn push_cell(col: &mut Column, c: Cell)
    requires
        col_type(old(col)@) == cell_type(c@),
    ensures
        final(col)@ == with_cell(old(col)@, c@),
{
    match (col, c) {
        (Column::Int8(x), Cell::Int8(v)) => {
            let ghost before = x.values@;
            match v {
                Some(y) => {
                    x.values.push(y);
                    x.valid.push(true);
                },
                None => {
                    let zero: i8 = 0;
                    x.values.push(zero);
                    x.valid.push(false);
                },
            }
        },
        (Column::Int32(x), Cell::Int32(v)) => {
            let ghost before = x.values@;
            match v {
                Some(y) => {
                    x.values.push(y);
                    x.valid.push(true);
                },
                None => {
                    let zero: i32 = 0;
                    x.values.push(zero);
                    x.valid.push(false);
                },
            }
        },
        (Column::Int64(x), Cell::Int64(v)) => {
            let ghost before = x.values@;
            match v {
                Some(y) => {
                    x.values.push(y);
                    x.valid.push(true);
                },
                None => {
                    let zero: i64 = 0;
                    x.values.push(zero);
                    x.valid.push(false);
                },
            }
        },
        (Column::UInt64(x), Cell::UInt64(v)) => {
            let ghost before = x.values@;
            match v {
                Some(y) => {
                    x.values.push(y);
                    x.valid.push(true);
                },
                None => {
                    let zero: u64 = 0;
                    x.values.push(zero);
                    x.valid.push(false);
                },
            }
        },
        (Column::Float64(x), Cell::Float64(v)) => {
            let ghost before = x.values@;
            match v {
                Some(y) => {
                    x.values.push(y);
                    x.valid.push(true);
                },
                None => {
                    let zero: u64 = 0;
                    x.values.push(zero);
                    x.valid.push(false);
                },
            }
        },
        (Column::Utf8(x), Cell::Utf8(v)) => {
            let ghost before = x.values@;
            match v {
                Some(y) => {
                    x.values.push(y);
                    x.valid.push(true);
                },
                None => {
                    let zero: String = String::new();
                    assert(zero@ =~= Seq::empty());
                    x.values.push(zero);
                    x.valid.push(false);
                },
            }
            assert(views(x.values@) =~= views(before).push(x.values@.last()@));
        },
        (Column::Binary(x), Cell::Binary(v)) => {
            let ghost before = x.values@;
            match v {
                Some(y) => {
                    x.values.push(y);
                    x.valid.push(true);
                },
                None => {
                    let zero: Vec<u8> = Vec::new();
                    assert(zero@ =~= Seq::empty());
                    x.values.push(zero);
                    x.valid.push(false);
                },
            }
            assert(bytes_views(x.values@) =~= bytes_views(before).push(x.values@.last()@));
        },
        (Column::Boolean(x), Cell::Boolean(v)) => {
            let ghost before = x.values@;
            match v {
                Some(y) => {
                    x.values.push(y);
                    x.valid.push(true);
                },
                None => {
                    let zero: bool = false;
                    x.values.push(zero);
                    x.valid.push(false);
                },
            }
        },
        _ => {},
    }
}

/// Puts rows that fit a schema into columns.
pub fn rows_to_batch(schema: Schema, rows: Vec<Vec<Cell>>) -> (out: Batch)
    requires
        schema@.len() > 0,
        rows_fit(schema@, rows_view(rows@)),
    ensures
        out@ == (BatchModel {
            schema: schema@,
            columns: columns_of(schema@, rows_view(rows@)),
            rows: rows@.len(),
        }),
        batch_wf(out@),
{
    let ghost s = schema@;
    let ghost all = rows_view(rows@);
    let total: usize = rows.len();
    let width: usize = schema.fields.len();
    let mut columns: Vec<Column> = Vec::new();
    for j in 0..width
        invariant
            s == schema@,
            width == s.len(),
            columns@.len() == j,
            forall|k: int| 0 <= k < j ==> (#[trigger] columns@[k])@ == empty_col(s[k].data_type),
    {
        columns.push(empty_column(schema.fields[j].data_type));
    }
    assert(all.take(0) =~= Seq::empty());
    assert(column_views(columns@) =~= columns_of(s, all.take(0)));
    let mut rest = rows;
    let ghost mut n: int = 0;
    assert(all.skip(0) =~= all);
    while rest.len() > 0
        invariant
            width == s.len(),
            rows_fit(s, all),
            0 <= n <= all.len(),
            rows_view(rest@) == all.skip(n),
            columns@.len() == width,
            column_views(columns@) == columns_of(s, all.take(n)),
        decreases rest@.len(),
    {
        let ghost before = rest@;
        assert(rows_view(rest@).len() == rest@.len());
        let row = rest.remove(0);
        assert(row_view(row@) == rows_view(before)[0]);
        assert(row_view(row@) == all[n]);
        assert(rows_view(rest@) =~= all.skip(n).skip(1));
        assert(rows_view(rest@) =~= all.skip(n + 1));
        assert(row_fits(s, all[n]));
        let ghost front = columns_of(s, all.take(n));
        proof {
            let prefix = all.take(n);
            assert(forall|i: int| 0 <= i < prefix.len() ==> prefix[i] == all[i]);
            columns_fit(s, prefix);
        }
        let ghost cells = row_view(row@);
        let mut row = row;
        assert(cells.len() == row@.len());
        while row.len() > 0
            invariant
                width == s.len(),
                columns@.len() == width,
                row@.len() <= width,
                cells.len() == width,
                front.len() == width,
                forall|k: int| 0 <= k < row@.len() ==> (#[trigger] row@[k])@ == cells[k],
                forall|k: int|
                    0 <= k < width ==> col_type(#[trigger] front[k]) == cell_type(cells[k]),
                forall|k: int| 0 <= k < row@.len() ==> (#[trigger] columns@[k])@ == front[k],
                forall|k: int|
                    row@.len() <= k < width ==> (#[trigger] columns@[k])@ == with_cell(
                        front[k],
                        cells[k],
                    ),
            decreases row@.len(),
        {
            let j: usize = row.len() - 1;
            assert(row@[j as int]@ == cells[j as int]);
            assert(columns@[j as int]@ == front[j as int]);
            if let Some(c) = row.pop() {
                push_cell(&mut columns[j], c);
            }
        }
        proof {
            assert(all.take(n + 1).drop_last() =~= all.take(n));
            assert(all.take(n + 1).last() == all[n]);
            assert(column_views(columns@) =~= columns_of(s, all.take(n + 1)));
            n = n + 1;
        }
    }
    assert(rows_view(rest@).len() == 0);
    assert(all.take(n) =~= all);
    proof {
        columns_fit(s, all);
        rows_make_a_batch(s, all);
        assert forall|k: int| 0 <= k < columns@.len() implies col_wf((#[trigger] columns@[k])@) by {
            assert(column_views(columns@)[k] == columns@[k]@);
        }
        assert forall|k: int| 0 <= k < column_views(columns@).len() implies col_wf(
            #[trigger] column_views(columns@)[k],
        ) by {}
        batch_of_is_well_formed(s, column_views(columns@));
    }
    Batch { schema, columns, rows: total }
}

} // verus!
