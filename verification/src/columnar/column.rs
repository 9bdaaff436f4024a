//! Columns of values.
//!
//! A column holds a value and a mark for each row; the mark says whether the value
//! counts or the row holds a null. The value of a null is kept, since some functions
//! read it. A 64-bit floating-point number is held as its bits.

use crate::common::schema::DataType;
use crate::text::views;
use vstd::prelude::*;

verus! {

// ── Columns ─────────────────────────────────────────────────────────────────

/// The values of a column, and for each whether it is there.
#[derive(Debug)]
pub struct Cells<T> {
    pub values: Vec<T>,
    pub valid: Vec<bool>,
}

/// The values of a column as mathematical values.
pub struct CellsModel<T> {
    pub values: Seq<T>,
    pub valid: Seq<bool>,
}

/// A column.
#[derive(Debug)]
pub enum Column {
    Int8(Cells<i8>),
    Int32(Cells<i32>),
    Int64(Cells<i64>),
    UInt64(Cells<u64>),
    Float64(Cells<u64>),
    Utf8(Cells<String>),
    Binary(Cells<Vec<u8>>),
    Boolean(Cells<bool>),
}

/// A column as a mathematical value.
pub enum ColumnModel {
    Int8(CellsModel<i8>),
    Int32(CellsModel<i32>),
    Int64(CellsModel<i64>),
    UInt64(CellsModel<u64>),
    Float64(CellsModel<u64>),
    Utf8(CellsModel<Seq<char>>),
    Binary(CellsModel<Seq<u8>>),
    Boolean(CellsModel<bool>),
}

/// Cells as mathematical values.
pub open spec fn cells_view<T>(c: Cells<T>) -> CellsModel<T> {
    CellsModel { values: c.values@, valid: c.valid@ }
}

/// The bytes of each cell.
pub open spec fn bytes_views(v: Seq<Vec<u8>>) -> Seq<Seq<u8>> {
    v.map_values(|b: Vec<u8>| b@)
}

impl View for Column {
    type V = ColumnModel;

    open spec fn view(&self) -> ColumnModel {
        match self {
            Column::Int8(c) => ColumnModel::Int8(cells_view(*c)),
            Column::Int32(c) => ColumnModel::Int32(cells_view(*c)),
            Column::Int64(c) => ColumnModel::Int64(cells_view(*c)),
            Column::UInt64(c) => ColumnModel::UInt64(cells_view(*c)),
            Column::Float64(c) => ColumnModel::Float64(cells_view(*c)),
            Column::Utf8(c) => ColumnModel::Utf8(
                CellsModel { values: views(c.values@), valid: c.valid@ },
            ),
            Column::Binary(c) => ColumnModel::Binary(
                CellsModel { values: bytes_views(c.values@), valid: c.valid@ },
            ),
            Column::Boolean(c) => ColumnModel::Boolean(cells_view(*c)),
        }
    }
}

/// The columns of a list.
pub open spec fn column_views(v: Seq<Column>) -> Seq<ColumnModel> {
    v.map_values(|c: Column| c@)
}

/// The type of a column.
pub open spec fn col_type(m: ColumnModel) -> DataType {
    match m {
        ColumnModel::Int8(c) => DataType::Int8,
        ColumnModel::Int32(c) => DataType::Int32,
        ColumnModel::Int64(c) => DataType::Int64,
        ColumnModel::UInt64(c) => DataType::UInt64,
        ColumnModel::Float64(c) => DataType::Float64,
        ColumnModel::Utf8(c) => DataType::Utf8,
        ColumnModel::Binary(c) => DataType::Binary,
        ColumnModel::Boolean(c) => DataType::Boolean,
    }
}

/// The number of rows of a column.
pub open spec fn col_len(m: ColumnModel) -> nat {
    match m {
        ColumnModel::Int8(c) => c.values.len(),
        ColumnModel::Int32(c) => c.values.len(),
        ColumnModel::Int64(c) => c.values.len(),
        ColumnModel::UInt64(c) => c.values.len(),
        ColumnModel::Float64(c) => c.values.len(),
        ColumnModel::Utf8(c) => c.values.len(),
        ColumnModel::Binary(c) => c.values.len(),
        ColumnModel::Boolean(c) => c.values.len(),
    }
}

/// For each row of a column whether it holds a value.
pub open spec fn col_valid(m: ColumnModel) -> Seq<bool> {
    match m {
        ColumnModel::Int8(c) => c.valid,
        ColumnModel::Int32(c) => c.valid,
        ColumnModel::Int64(c) => c.valid,
        ColumnModel::UInt64(c) => c.valid,
        ColumnModel::Float64(c) => c.valid,
        ColumnModel::Utf8(c) => c.valid,
        ColumnModel::Binary(c) => c.valid,
        ColumnModel::Boolean(c) => c.valid,
    }
}

/// Whether a column has a mark for each value.
pub open spec fn col_wf(m: ColumnModel) -> bool {
    col_valid(m).len() == col_len(m)
}

/// The cells at the given rows.
pub open spec fn cells_at<T>(c: CellsModel<T>, rows: Seq<int>) -> CellsModel<T> {
    CellsModel {
        values: Seq::new(rows.len(), |i: int| c.values[rows[i]]),
        valid: Seq::new(rows.len(), |i: int| c.valid[rows[i]]),
    }
}

/// The rows of a column at the given places.
pub open spec fn col_at(m: ColumnModel, rows: Seq<int>) -> ColumnModel {
    match m {
        ColumnModel::Int8(c) => ColumnModel::Int8(cells_at(c, rows)),
        ColumnModel::Int32(c) => ColumnModel::Int32(cells_at(c, rows)),
        ColumnModel::Int64(c) => ColumnModel::Int64(cells_at(c, rows)),
        ColumnModel::UInt64(c) => ColumnModel::UInt64(cells_at(c, rows)),
        ColumnModel::Float64(c) => ColumnModel::Float64(cells_at(c, rows)),
        ColumnModel::Utf8(c) => ColumnModel::Utf8(cells_at(c, rows)),
        ColumnModel::Binary(c) => ColumnModel::Binary(cells_at(c, rows)),
        ColumnModel::Boolean(c) => ColumnModel::Boolean(cells_at(c, rows)),
    }
}

/// Cells behind each other.
pub open spec fn cells_join<T>(a: CellsModel<T>, b: CellsModel<T>) -> CellsModel<T> {
    CellsModel { values: a.values + b.values, valid: a.valid + b.valid }
}

/// The rows of a column and behind them those of another of the same type.
pub open spec fn col_join(a: ColumnModel, b: ColumnModel) -> ColumnModel {
    match (a, b) {
        (ColumnModel::Int8(x), ColumnModel::Int8(y)) => ColumnModel::Int8(cells_join(x, y)),
        (ColumnModel::Int32(x), ColumnModel::Int32(y)) => ColumnModel::Int32(cells_join(x, y)),
        (ColumnModel::Int64(x), ColumnModel::Int64(y)) => ColumnModel::Int64(cells_join(x, y)),
        (ColumnModel::UInt64(x), ColumnModel::UInt64(y)) => ColumnModel::UInt64(cells_join(x, y)),
        (ColumnModel::Float64(x), ColumnModel::Float64(y)) => ColumnModel::Float64(cells_join(x, y)),
        (ColumnModel::Utf8(x), ColumnModel::Utf8(y)) => ColumnModel::Utf8(cells_join(x, y)),
        (ColumnModel::Binary(x), ColumnModel::Binary(y)) => ColumnModel::Binary(cells_join(x, y)),
        (ColumnModel::Boolean(x), ColumnModel::Boolean(y)) => ColumnModel::Boolean(cells_join(x, y)),
        _ => a,
    }
}

/// Row numbers as mathematical integers.
pub open spec fn row_numbers(v: Seq<usize>) -> Seq<int> {
    v.map_values(|r: usize| r as int)
}

/// Whether row numbers lie below `n`.
pub open spec fn rows_below(rows: Seq<usize>, n: nat) -> bool {
    forall|i: int| 0 <= i < rows.len() ==> #[trigger] rows[i] < n
}

fn pick<T: Copy>(v: &Vec<T>, rows: &Vec<usize>) -> (out: Vec<T>)
    requires
        rows_below(rows@, v@.len()),
    ensures
        out@ == Seq::new(rows@.len(), |i: int| v@[row_numbers(rows@)[i]]),
{
    let mut out: Vec<T> = Vec::new();
    for i in 0..rows.len()
        invariant
            rows_below(rows@, v@.len()),
            out@ == Seq::new(i as nat, |k: int| v@[row_numbers(rows@)[k]]),
    {
        out.push(v[rows[i]]);
        assert(out@ =~= Seq::new((i + 1) as nat, |k: int| v@[row_numbers(rows@)[k]]));
    }
    out
}

fn pick_texts(v: &Vec<String>, rows: &Vec<usize>) -> (out: Vec<String>)
    requires
        rows_below(rows@, v@.len()),
    ensures
        views(out@) == Seq::new(rows@.len(), |i: int| views(v@)[row_numbers(rows@)[i]]),
{
    let mut out: Vec<String> = Vec::new();
    for i in 0..rows.len()
        invariant
            rows_below(rows@, v@.len()),
            views(out@) =~= Seq::new(i as nat, |k: int| views(v@)[row_numbers(rows@)[k]]),
    {
        let ghost before = views(out@);
        out.push(v[rows[i]].clone());
        assert(views(out@) =~= before.push(views(v@)[row_numbers(rows@)[i as int]]));
    }
    out
}

fn pick_bytes(v: &Vec<Vec<u8>>, rows: &Vec<usize>) -> (out: Vec<Vec<u8>>)
    requires
        rows_below(rows@, v@.len()),
    ensures
        bytes_views(out@) == Seq::new(rows@.len(), |i: int| bytes_views(v@)[row_numbers(rows@)[i]]),
{
    let mut out: Vec<Vec<u8>> = Vec::new();
    for i in 0..rows.len()
        invariant
            rows_below(rows@, v@.len()),
            bytes_views(out@) =~= Seq::new(
                i as nat,
                |k: int| bytes_views(v@)[row_numbers(rows@)[k]],
            ),
    {
        let ghost before = bytes_views(out@);
        let b = &v[rows[i]];
        let copy = crate::bytes::copy_range(b.as_slice(), 0, b.len());
        assert(copy@ =~= b@);
        out.push(copy);
        assert(bytes_views(out@) =~= before.push(bytes_views(v@)[row_numbers(rows@)[i as int]]));
    }
    out
}

impl Column {
    /// The number of rows.
    pub fn len(&self) -> (n: usize)
        ensures
            n == col_len(self@),
    {
        match self {
            Column::Int8(c) => c.values.len(),
            Column::Int32(c) => c.values.len(),
            Column::Int64(c) => c.values.len(),
            Column::UInt64(c) => c.values.len(),
            Column::Float64(c) => c.values.len(),
            Column::Utf8(c) => c.values.len(),
            Column::Binary(c) => c.values.len(),
            Column::Boolean(c) => c.values.len(),
        }
    }

    /// The type.
    pub fn data_type(&self) -> (t: DataType)
        ensures
            t == col_type(self@),
    {
        match self {
            Column::Int8(_) => DataType::Int8,
            Column::Int32(_) => DataType::Int32,
            Column::Int64(_) => DataType::Int64,
            Column::UInt64(_) => DataType::UInt64,
            Column::Float64(_) => DataType::Float64,
            Column::Utf8(_) => DataType::Utf8,
            Column::Binary(_) => DataType::Binary,
            Column::Boolean(_) => DataType::Boolean,
        }
    }

    /// For each row whether it holds a value.
    pub fn validity(&self) -> (v: &Vec<bool>)
        ensures
            v@ == col_valid(self@),
    {
        match self {
            Column::Int8(c) => &c.valid,
            Column::Int32(c) => &c.valid,
            Column::Int64(c) => &c.valid,
            Column::UInt64(c) => &c.valid,
            Column::Float64(c) => &c.valid,
            Column::Utf8(c) => &c.valid,
            Column::Binary(c) => &c.valid,
            Column::Boolean(c) => &c.valid,
        }
    }

    /// The rows at the given places.
    pub fn at(&self, rows: &Vec<usize>) -> (out: Column)
        requires
            col_wf(self@),
            rows_below(rows@, col_len(self@)),
        ensures
            out@ == col_at(self@, row_numbers(rows@)),
    {
        match self {
            Column::Int8(c) => Column::Int8(
                Cells { values: pick(&c.values, rows), valid: pick(&c.valid, rows) },
            ),
            Column::Int32(c) => Column::Int32(
                Cells { values: pick(&c.values, rows), valid: pick(&c.valid, rows) },
            ),
            Column::Int64(c) => Column::Int64(
                Cells { values: pick(&c.values, rows), valid: pick(&c.valid, rows) },
            ),
            Column::UInt64(c) => Column::UInt64(
                Cells { values: pick(&c.values, rows), valid: pick(&c.valid, rows) },
            ),
            Column::Float64(c) => Column::Float64(
                Cells { values: pick(&c.values, rows), valid: pick(&c.valid, rows) },
            ),
            Column::Utf8(c) => Column::Utf8(
                Cells { values: pick_texts(&c.values, rows), valid: pick(&c.valid, rows) },
            ),
            Column::Binary(c) => Column::Binary(
                Cells { values: pick_bytes(&c.values, rows), valid: pick(&c.valid, rows) },
            ),
            Column::Boolean(c) => Column::Boolean(
                Cells { values: pick(&c.values, rows), valid: pick(&c.valid, rows) },
            ),
        }
    }

    /// A copy of this column.
    pub fn duplicate(&self) -> (out: Column)
        requires
            col_wf(self@),
        ensures
            out@ == self@,
    {
        let n = self.len();
        let rows = row_range(0, n);
        let out = self.at(&rows);
        proof {
            match self@ {
                ColumnModel::Int8(c) => {
                    assert(cells_at(c, row_numbers(rows@)).values =~= c.values);
                    assert(cells_at(c, row_numbers(rows@)).valid =~= c.valid);
                },
                ColumnModel::Int32(c) => {
                    assert(cells_at(c, row_numbers(rows@)).values =~= c.values);
                    assert(cells_at(c, row_numbers(rows@)).valid =~= c.valid);
                },
                ColumnModel::Int64(c) => {
                    assert(cells_at(c, row_numbers(rows@)).values =~= c.values);
                    assert(cells_at(c, row_numbers(rows@)).valid =~= c.valid);
                },
                ColumnModel::UInt64(c) => {
                    assert(cells_at(c, row_numbers(rows@)).values =~= c.values);
                    assert(cells_at(c, row_numbers(rows@)).valid =~= c.valid);
                },
                ColumnModel::Float64(c) => {
                    assert(cells_at(c, row_numbers(rows@)).values =~= c.values);
                    assert(cells_at(c, row_numbers(rows@)).valid =~= c.valid);
                },
                ColumnModel::Utf8(c) => {
                    assert(cells_at(c, row_numbers(rows@)).values =~= c.values);
                    assert(cells_at(c, row_numbers(rows@)).valid =~= c.valid);
                },
                ColumnModel::Binary(c) => {
                    assert(cells_at(c, row_numbers(rows@)).values =~= c.values);
                    assert(cells_at(c, row_numbers(rows@)).valid =~= c.valid);
                },
                ColumnModel::Boolean(c) => {
                    assert(cells_at(c, row_numbers(rows@)).values =~= c.values);
                    assert(cells_at(c, row_numbers(rows@)).valid =~= c.valid);
                },
            }
        }
        out
    }

    /// Puts the rows of another column of the same type behind those of this one.
    pub fn append(&mut self, other: Column)
        requires
            col_type(old(self)@) == col_type(other@),
        ensures
            final(self)@ == col_join(old(self)@, other@),
    {
        match (self, other) {
            (Column::Int8(x), Column::Int8(y)) => {
                let mut y = y;
                x.values.append(&mut y.values);
                x.valid.append(&mut y.valid);
            },
            (Column::Int32(x), Column::Int32(y)) => {
                let mut y = y;
                x.values.append(&mut y.values);
                x.valid.append(&mut y.valid);
            },
            (Column::Int64(x), Column::Int64(y)) => {
                let mut y = y;
                x.values.append(&mut y.values);
                x.valid.append(&mut y.valid);
            },
            (Column::UInt64(x), Column::UInt64(y)) => {
                let mut y = y;
                x.values.append(&mut y.values);
                x.valid.append(&mut y.valid);
            },
            (Column::Float64(x), Column::Float64(y)) => {
                let mut y = y;
                x.values.append(&mut y.values);
                x.valid.append(&mut y.valid);
            },
            (Column::Utf8(x), Column::Utf8(y)) => {
                let mut y = y;
                let ghost v0 = x.values@;
                let ghost w0 = y.values@;
                x.values.append(&mut y.values);
                x.valid.append(&mut y.valid);
                assert(views(x.values@) =~= views(v0) + views(w0));
            },
            (Column::Binary(x), Column::Binary(y)) => {
                let mut y = y;
                let ghost v0 = x.values@;
                let ghost w0 = y.values@;
                x.values.append(&mut y.values);
                x.valid.append(&mut y.valid);
                assert(bytes_views(x.values@) =~= bytes_views(v0) + bytes_views(w0));
            },
            (Column::Boolean(x), Column::Boolean(y)) => {
                let mut y = y;
                x.values.append(&mut y.values);
                x.valid.append(&mut y.valid);
            },
            _ => {},
        }
    }
}

/// The row numbers from `from` to `to`.
pub fn row_range(from: usize, to: usize) -> (out: Vec<usize>)
    requires
        from <= to,
    ensures
        out@ == Seq::new((to - from) as nat, |i: int| (from + i) as usize),
        row_numbers(out@) == Seq::new((to - from) as nat, |i: int| from + i),
{
    let mut out: Vec<usize> = Vec::new();
    for r in from..to
        invariant
            from <= to,
            out@ == Seq::new((r - from) as nat, |i: int| (from + i) as usize),
    {
        out.push(r);
        assert(out@ =~= Seq::new((r + 1 - from) as nat, |i: int| (from + i) as usize));
    }
    assert(row_numbers(out@) =~= Seq::new((to - from) as nat, |i: int| from + i));
    out
}

} // verus!
