//! Batches of rows.

use crate::common::schema::{type_text, DataType, FieldModel, Schema};
use crate::columnar::column::{
    col_at, col_join, col_len, col_type, col_valid, col_wf, column_views, row_numbers, row_range,
    rows_below, Cells, CellsModel, Column, ColumnModel,
};
use crate::text::{decimal, push_decimal};
use vstd::prelude::*;

verus! {

/// Columns of equal length under the names of a schema.
#[derive(Debug)]
pub struct Batch {
    pub schema: Schema,
    pub columns: Vec<Column>,
    pub rows: usize,
}

/// A batch as mathematical values.
pub struct BatchModel {
    pub schema: Seq<FieldModel>,
    pub columns: Seq<ColumnModel>,
    pub rows: nat,
}

impl View for Batch {
    type V = BatchModel;

    open spec fn view(&self) -> BatchModel {
        BatchModel {
            schema: self.schema@,
            columns: column_views(self.columns@),
            rows: self.rows as nat,
        }
    }
}

/// The batches of a list.
pub open spec fn batch_views(v: Seq<Batch>) -> Seq<BatchModel> {
    v.map_values(|b: Batch| b@)
}

/// Whether a column has the type of its field and the length of its batch.
pub open spec fn column_fits(c: ColumnModel, f: FieldModel, rows: nat) -> bool {
    col_wf(c) && col_len(c) == rows && col_type(c) == f.data_type
}

/// Whether a batch has a column of its length for each field.
pub open spec fn batch_wf(b: BatchModel) -> bool {
    &&& b.columns.len() == b.schema.len()
    &&& forall|i: int|
        0 <= i < b.columns.len() ==> column_fits(#[trigger] b.columns[i], b.schema[i], b.rows)
}

/// The rows of a batch at the given places.
pub open spec fn batch_at(b: BatchModel, rows: Seq<int>) -> BatchModel {
    BatchModel {
        schema: b.schema,
        columns: b.columns.map_values(|c: ColumnModel| col_at(c, rows)),
        rows: rows.len(),
    }
}

/// The row numbers from `from` up to `to`.
pub open spec fn span(from: int, to: int) -> Seq<int> {
    Seq::new((to - from) as nat, |i: int| from + i)
}

/// The rows for which a condition holds, among the first `n`.
pub open spec fn rows_where(mask: CellsModel<bool>, n: nat) -> Seq<int>
    decreases n,
{
    if n == 0 {
        Seq::empty()
    } else {
        let front = rows_where(mask, (n - 1) as nat);
        if mask.valid[n - 1] && mask.values[n - 1] {
            front.push(n - 1)
        } else {
            front
        }
    }
}

/// The rows of a batch for which a condition holds; a null counts as no.
pub open spec fn batch_filtered(b: BatchModel, mask: CellsModel<bool>) -> Result<
    BatchModel,
    Seq<char>,
> {
    if b.columns.len() > 0 && mask.values.len() > b.rows {
        Err(
            "Invalid argument error: Filter predicate of length "@ + decimal(mask.values.len())
                + " is larger than target array of length "@ + decimal(b.rows),
        )
    } else {
        Ok(batch_at(b, rows_where(mask, mask.values.len())))
    }
}

/// The rows of a batch and behind them those of another with the same schema.
pub open spec fn batch_join(a: BatchModel, b: BatchModel) -> BatchModel {
    BatchModel {
        schema: a.schema,
        columns: Seq::new(a.columns.len(), |i: int| col_join(a.columns[i], b.columns[i])),
        rows: a.rows + b.rows,
    }
}

/// The rows of all batches of a list, which is not empty.
pub open spec fn batches_joined(v: Seq<BatchModel>) -> BatchModel
    decreases v.len(),
{
    if v.len() <= 1 {
        v[0]
    } else {
        batch_join(batches_joined(v.drop_last()), v.last())
    }
}

/// The number of rows of all batches of a list.
pub open spec fn rows_total(v: Seq<BatchModel>) -> nat
    decreases v.len(),
{
    if v.len() == 0 {
        0
    } else {
        rows_total(v.drop_last()) + v.last().rows
    }
}

/// Whether batches are well formed and have the given schema.
pub open spec fn batches_fit(v: Seq<BatchModel>, schema: Seq<FieldModel>) -> bool {
    forall|i: int| 0 <= i < v.len() ==> batch_wf(#[trigger] v[i]) && v[i].schema == schema
}

/// Rows at given places make a well-formed batch, if they lie inside.
pub proof fn batch_at_is_well_formed(b: BatchModel, rows: Seq<int>)
    requires
        batch_wf(b),
    ensures
        batch_wf(batch_at(b, rows)),
{
    let out = batch_at(b, rows);
    assert forall|i: int| 0 <= i < out.columns.len() implies column_fits(
        #[trigger] out.columns[i],
        out.schema[i],
        out.rows,
    ) by {
        assert(column_fits(b.columns[i], b.schema[i], b.rows));
    }
}

/// The joined rows make a well-formed batch.
pub proof fn batch_join_is_well_formed(a: BatchModel, b: BatchModel)
    requires
        batch_wf(a),
        batch_wf(b),
        a.schema == b.schema,
    ensures
        batch_wf(batch_join(a, b)),
{
    let out = batch_join(a, b);
    assert forall|i: int| 0 <= i < out.columns.len() implies column_fits(
        #[trigger] out.columns[i],
        out.schema[i],
        out.rows,
    ) by {
        assert(column_fits(a.columns[i], a.schema[i], a.rows));
        assert(column_fits(b.columns[i], b.schema[i], b.rows));
    }
}

/// Joined batches are well formed and keep the schema.
pub proof fn batches_joined_is_well_formed(v: Seq<BatchModel>, schema: Seq<FieldModel>)
    requires
        v.len() > 0,
        batches_fit(v, schema),
    ensures
        batch_wf(batches_joined(v)),
        batches_joined(v).schema == schema,
        batches_joined(v).rows == rows_total(v),
    decreases v.len(),
{
    if v.len() > 1 {
        let front = v.drop_last();
        assert(forall|i: int| 0 <= i < front.len() ==> front[i] == v[i]);
        batches_joined_is_well_formed(front, schema);
        assert(v.last() == v[v.len() - 1]);
        batch_join_is_well_formed(batches_joined(front), v.last());
    } else {
        assert(v.drop_last() =~= Seq::empty());
        assert(v.last() == v[0]);
        reveal_with_fuel(rows_total, 2);
    }
}

/// The rows for which a condition holds ascend and lie among those that it speaks of.
pub proof fn rows_where_ascend(mask: CellsModel<bool>, n: nat)
    ensures
        rows_where(mask, n).len() <= n,
        forall|i: int| 0 <= i < rows_where(mask, n).len() ==> 0 <= #[trigger] rows_where(mask, n)[i] < n,
        forall|i: int, j: int|
            0 <= i < j < rows_where(mask, n).len() ==> #[trigger] rows_where(mask, n)[i]
                < #[trigger] rows_where(mask, n)[j],
        forall|r: int|
            0 <= r < n ==> (#[trigger] rows_where(mask, n).contains(r) <==> mask.valid[r]
                && mask.values[r]),
    decreases n,
{
    if n > 0 {
        rows_where_ascend(mask, (n - 1) as nat);
        let front = rows_where(mask, (n - 1) as nat);
        let out = rows_where(mask, n);
        assert forall|r: int| 0 <= r < n implies (#[trigger] out.contains(r) <==> mask.valid[r]
            && mask.values[r]) by {
            if out.contains(r) {
                let k = choose|k: int| 0 <= k < out.len() && out[k] == r;
                if k < front.len() {
                    assert(front[k] == r);
                    assert(front.contains(r));
                }
            }
            if mask.valid[r] && mask.values[r] {
                if r < n - 1 {
                    assert(front.contains(r));
                    let k = choose|k: int| 0 <= k < front.len() && front[k] == r;
                    assert(out[k] == r);
                } else {
                    assert(out[front.len() as int] == r);
                }
            }
        }
    }
}

// ── Making batches ──────────────────────────────────────────────────────────

/// Whether a column holds a null.
pub open spec fn has_null(c: ColumnModel) -> bool {
    exists|i: int| 0 <= i < col_valid(c).len() && !#[trigger] col_valid(c)[i]
}

/// The first column that holds a null against its field, from `i` on.
pub open spec fn null_fault(schema: Seq<FieldModel>, columns: Seq<ColumnModel>, i: nat) -> Option<
    nat,
>
    decreases columns.len() - i,
{
    if i >= columns.len() {
        None
    } else if !schema[i as int].nullable && has_null(columns[i as int]) {
        Some(i)
    } else {
        null_fault(schema, columns, i + 1)
    }
}

/// The first column with another type than its field, from `i` on.
pub open spec fn type_fault(schema: Seq<FieldModel>, columns: Seq<ColumnModel>, i: nat) -> Option<
    nat,
>
    decreases columns.len() - i,
{
    if i >= columns.len() {
        None
    } else if col_type(columns[i as int]) != schema[i as int].data_type {
        Some(i)
    } else {
        type_fault(schema, columns, i + 1)
    }
}

/// Whether all columns have the length of the first.
pub open spec fn lengths_agree(columns: Seq<ColumnModel>) -> bool {
    forall|i: int| 0 <= i < columns.len() ==> col_len(#[trigger] columns[i]) == col_len(columns[0])
}

/// The batch of columns under a schema, or the text that says why there is none.
pub open spec fn batch_of(schema: Seq<FieldModel>, columns: Seq<ColumnModel>) -> Result<
    BatchModel,
    Seq<char>,
> {
    if schema.len() != columns.len() {
        Err(
            "Invalid argument error: number of columns("@ + decimal(columns.len())
                + ") must match number of fields("@ + decimal(schema.len()) + ") in schema"@,
        )
    } else if columns.len() == 0 {
        Err(
            "Invalid argument error: must either specify a row count or at least one column"@,
        )
    } else if null_fault(schema, columns, 0) is Some {
        Err(
            "Invalid argument error: Column '"@ + schema[null_fault(
                schema,
                columns,
                0,
            )->Some_0 as int].name + "' is declared as non-nullable but contains null values"@,
        )
    } else if !lengths_agree(columns) {
        Err(
            "Invalid argument error: all columns in a record batch must have the same length"@,
        )
    } else if type_fault(schema, columns, 0) is Some {
        let i = type_fault(schema, columns, 0)->Some_0;
        Err(
            "Invalid argument error: column types must match schema types, expected "@ + type_text(
                schema[i as int].data_type,
            ) + " but found "@ + type_text(col_type(columns[i as int])) + " at column index "@
                + decimal(i),
        )
    } else {
        Ok(BatchModel { schema, columns, rows: col_len(columns[0]) })
    }
}

proof fn lemma_no_type_fault(schema: Seq<FieldModel>, columns: Seq<ColumnModel>, i: nat)
    requires
        type_fault(schema, columns, i) is None,
    ensures
        forall|j: int|
            i <= j < columns.len() ==> col_type(#[trigger] columns[j]) == schema[j].data_type,
    decreases columns.len() - i,
{
    if i < columns.len() {
        lemma_no_type_fault(schema, columns, i + 1);
    }
}

/// Columns that can be put under a schema make a well-formed batch.
pub proof fn batch_of_is_well_formed(schema: Seq<FieldModel>, columns: Seq<ColumnModel>)
    requires
        forall|i: int| 0 <= i < columns.len() ==> col_wf(#[trigger] columns[i]),
    ensures
        batch_of(schema, columns) matches Ok(b) ==> batch_wf(b) && b.schema == schema,
{
    if batch_of(schema, columns) is Ok {
        lemma_no_type_fault(schema, columns, 0);
        let b = batch_of(schema, columns)->Ok_0;
        assert forall|i: int| 0 <= i < b.columns.len() implies column_fits(
            #[trigger] b.columns[i],
            b.schema[i],
            b.rows,
        ) by {}
    }
}

fn holds_null(c: &Column) -> (yes: bool)
    ensures
        yes == has_null(c@),
{
    let valid = c.validity();
    for i in 0..valid.len()
        invariant
            valid@ == col_valid(c@),
            forall|j: int| 0 <= j < i ==> #[trigger] valid@[j],
    {
        if !valid[i] {
            assert(!col_valid(c@)[i as int]);
            return true;
        }
    }
    false
}

impl Batch {
    /// Puts columns under a schema.
    pub fn try_new(schema: Schema, columns: Vec<Column>) -> (out: Result<Batch, String>)
        requires
            forall|i: int| 0 <= i < columns@.len() ==> col_wf((#[trigger] columns@[i])@),
        ensures
            match (out, batch_of(schema@, column_views(columns@))) {
                (Ok(b), Ok(m)) => b@ == m && batch_wf(b@),
                (Err(t), Err(m)) => t@ == m,
                _ => false,
            },
    {
        let ghost s = schema@;
        let ghost cs = column_views(columns@);
        if schema.fields.len() != columns.len() {
            let mut t = "Invalid argument error: number of columns(".to_string();
            push_decimal(&mut t, columns.len() as u64);
            t.append(") must match number of fields(");
            push_decimal(&mut t, schema.fields.len() as u64);
            t.append(") in schema");
            return Err(t);
        }
        if columns.len() == 0 {
            let t = "Invalid argument error: must either specify a row count or at least one column";
            return Err(t.to_string());
        }
        for i in 0..columns.len()
            invariant
                s == schema@,
                cs == column_views(columns@),
                s.len() == cs.len(),
                cs.len() > 0,
                null_fault(s, cs, 0) == null_fault(s, cs, i as nat),
        {
            assert(cs[i as int] == columns@[i as int]@);
            assert(s[i as int] == schema.fields@[i as int]@);
            if !schema.fields[i].nullable && holds_null(&columns[i]) {
                let mut t = "Invalid argument error: Column '".to_string();
                t.append(schema.fields[i].name.as_str());
                t.append("' is declared as non-nullable but contains null values");
                return Err(t);
            }
        }
        let rows: usize = columns[0].len();
        assert(cs[0] == columns@[0]@);
        for i in 0..columns.len()
            invariant
                s == schema@,
                cs == column_views(columns@),
                s.len() == cs.len(),
                cs.len() > 0,
                null_fault(s, cs, 0) is None,
                rows == col_len(cs[0]),
                forall|j: int| 0 <= j < i ==> col_len(#[trigger] cs[j]) == rows,
        {
            assert(cs[i as int] == columns@[i as int]@);
            if columns[i].len() != rows {
                let t =
                    "Invalid argument error: all columns in a record batch must have the same length";
                return Err(t.to_string());
            }
        }
        for i in 0..columns.len()
            invariant
                s == schema@,
                cs == column_views(columns@),
                s.len() == cs.len(),
                cs.len() > 0,
                null_fault(s, cs, 0) is None,
                lengths_agree(cs),
                type_fault(s, cs, 0) == type_fault(s, cs, i as nat),
                forall|j: int| 0 <= j < i ==> col_type(#[trigger] cs[j]) == s[j].data_type,
        {
            assert(cs[i as int] == columns@[i as int]@);
            assert(s[i as int] == schema.fields@[i as int]@);
            let found = columns[i].data_type();
            let wanted = schema.fields[i].data_type;
            if found != wanted {
                let mut t =
                    "Invalid argument error: column types must match schema types, expected ".to_string();
                t.append(wanted.text());
                t.append(" but found ");
                t.append(found.text());
                t.append(" at column index ");
                push_decimal(&mut t, i as u64);
                return Err(t);
            }
        }
        let b = Batch { schema, columns, rows };
        assert(batch_wf(b@)) by {
            assert forall|i: int| 0 <= i < b@.columns.len() implies column_fits(
                #[trigger] b@.columns[i],
                b@.schema[i],
                b@.rows,
            ) by {
                assert(b@.columns[i] == columns@[i]@);
                assert(cs[i] == columns@[i]@);
            }
        }
        Ok(b)
    }

    /// A batch without rows.
    pub fn new_empty(schema: Schema) -> (b: Batch)
        ensures
            b@ == empty_batch(schema@),
            batch_wf(b@),
    {
        let ghost want = empty_batch(schema@);
        let mut columns: Vec<Column> = Vec::new();
        for i in 0..schema.fields.len()
            invariant
                columns@.len() == i,
                forall|j: int|
                    0 <= j < i ==> (#[trigger] columns@[j])@ == empty_col(schema@[j].data_type),
        {
            let c = empty_column(schema.fields[i].data_type);
            columns.push(c);
        }
        let b = Batch { schema, columns, rows: 0 };
        assert(b@.columns =~= want.columns);
        b
    }

    /// The rows at the given places.
    pub fn at(&self, rows: &Vec<usize>) -> (out: Batch)
        requires
            batch_wf(self@),
            self@.columns.len() > 0 ==> rows_below(rows@, self@.rows),
        ensures
            out@ == batch_at(self@, row_numbers(rows@)),
            batch_wf(out@),
    {
        let mut columns: Vec<Column> = Vec::new();
        for i in 0..self.columns.len()
            invariant
                batch_wf(self@),
                self@.columns.len() > 0 ==> rows_below(rows@, self@.rows),
                columns@.len() == i,
                forall|j: int|
                    0 <= j < i ==> (#[trigger] columns@[j])@ == col_at(
                        self.columns@[j]@,
                        row_numbers(rows@),
                    ),
        {
            assert(self@.columns[i as int] == self.columns@[i as int]@);
            columns.push(self.columns[i].at(rows));
        }
        let out = Batch { schema: self.schema.duplicate(), columns, rows: rows.len() };
        proof {
            assert(out@.columns =~= batch_at(self@, row_numbers(rows@)).columns);
            batch_at_is_well_formed(self@, row_numbers(rows@));
        }
        out
    }

    /// The rows from `from` on, `len` of them.
    pub fn slice(&self, from: usize, len: usize) -> (out: Batch)
        requires
            batch_wf(self@),
            from + len <= self@.rows,
        ensures
            out@ == batch_at(self@, span(from as int, from + len)),
            batch_wf(out@),
    {
        let rows = row_range(from, from + len);
        assert(row_numbers(rows@) =~= span(from as int, from + len));
        self.at(&rows)
    }

    /// The rows for which a condition holds; a null counts as no.
    pub fn filter(&self, mask: &Cells<bool>) -> (out: Result<Batch, String>)
        requires
            batch_wf(self@),
            mask.values@.len() == mask.valid@.len(),
        ensures
            match (out, batch_filtered(self@, crate::columnar::column::cells_view(*mask))) {
                (Ok(b), Ok(m)) => b@ == m && batch_wf(b@),
                (Err(t), Err(m)) => t@ == m,
                _ => false,
            },
    {
        let ghost m = crate::columnar::column::cells_view(*mask);
        assert(self@.columns.len() == self.columns@.len());
        if self.columns.len() > 0 && mask.values.len() > self.rows {
            let mut t = "Invalid argument error: Filter predicate of length ".to_string();
            push_decimal(&mut t, mask.values.len() as u64);
            t.append(" is larger than target array of length ");
            push_decimal(&mut t, self.rows as u64);
            return Err(t);
        }
        let mut rows: Vec<usize> = Vec::new();
        assert(row_numbers(rows@) =~= Seq::empty());
        for i in 0..mask.values.len()
            invariant
                m == crate::columnar::column::cells_view(*mask),
                mask.values@.len() == mask.valid@.len(),
                row_numbers(rows@) == rows_where(m, i as nat),
                rows_below(rows@, i as nat),
        {
            let ghost before = row_numbers(rows@);
            if mask.valid[i] && mask.values[i] {
                rows.push(i);
                assert(row_numbers(rows@) =~= before.push(i as int));
            }
        }
        Ok(self.at(&rows))
    }

    /// Puts the rows of another batch with the same schema behind those of this one.
    pub fn append(&mut self, other: Batch)
        requires
            batch_wf(old(self)@),
            batch_wf(other@),
            old(self)@.schema == other@.schema,
            old(self)@.rows + other@.rows <= usize::MAX,
        ensures
            final(self)@ == batch_join(old(self)@, other@),
            batch_wf(final(self)@),
    {
        let ghost before = self@;
        let ghost theirs = other@;
        let more: usize = other.rows;
        let mut rest = other.columns;
        let ghost mine = self.columns@;
        let ghost others = rest@;
        assert(before.columns.len() == mine.len() && theirs.columns.len() == others.len());
        assert forall|i: int| 0 <= i < mine.len() implies col_type((#[trigger] mine[i])@)
            == col_type(others[i]@) by {
            assert(column_fits(before.columns[i], before.schema[i], before.rows));
            assert(column_fits(theirs.columns[i], theirs.schema[i], theirs.rows));
        }
        while rest.len() > 0
            invariant
                rest@.len() <= mine.len(),
                mine.len() == others.len(),
                self.columns@.len() == mine.len(),
                self.rows == old(self).rows,
                self.schema == old(self).schema,
                forall|i: int| 0 <= i < rest@.len() ==> #[trigger] rest@[i] == others[i],
                forall|i: int| 0 <= i < rest@.len() ==> #[trigger] self.columns@[i] == mine[i],
                forall|i: int|
                    rest@.len() <= i < mine.len() ==> (#[trigger] self.columns@[i])@ == col_join(
                        mine[i]@,
                        others[i]@,
                    ),
                forall|i: int|
                    0 <= i < mine.len() ==> col_type((#[trigger] mine[i])@) == col_type(others[i]@),
            decreases rest@.len(),
        {
            let i: usize = rest.len() - 1;
            assert(rest@[i as int] == others[i as int]);
            assert(self.columns@[i as int] == mine[i as int]);
            if let Some(c) = rest.pop() {
                self.columns[i].append(c);
            }
        }
        self.rows = self.rows + more;
        proof {
            assert(self@.columns =~= batch_join(before, theirs).columns);
            batch_join_is_well_formed(before, theirs);
        }
    }
}

/// No cells.
pub open spec fn no_cells<T>() -> CellsModel<T> {
    CellsModel { values: Seq::empty(), valid: Seq::empty() }
}

/// A column of a type without rows.
pub open spec fn empty_col(t: DataType) -> ColumnModel {
    match t {
        DataType::Int8 => ColumnModel::Int8(no_cells()),
        DataType::Int32 => ColumnModel::Int32(no_cells()),
        DataType::Int64 => ColumnModel::Int64(no_cells()),
        DataType::UInt64 => ColumnModel::UInt64(no_cells()),
        DataType::Float64 => ColumnModel::Float64(no_cells()),
        DataType::Utf8 => ColumnModel::Utf8(no_cells()),
        DataType::Binary => ColumnModel::Binary(no_cells()),
        DataType::Boolean => ColumnModel::Boolean(no_cells()),
    }
}

/// A batch without rows.
pub open spec fn empty_batch(schema: Seq<FieldModel>) -> BatchModel {
    BatchModel {
        schema,
        columns: schema.map_values(|f: FieldModel| empty_col(f.data_type)),
        rows: 0,
    }
}

/// A column of a type without rows.
pub fn empty_column(t: DataType) -> (c: Column)
    ensures
        c@ == empty_col(t),
        col_wf(c@),
        col_type(c@) == t,
        col_len(c@) == 0,
{
    let c = match t {
        DataType::Int8 => Column::Int8(Cells { values: Vec::new(), valid: Vec::new() }),
        DataType::Int32 => Column::Int32(Cells { values: Vec::new(), valid: Vec::new() }),
        DataType::Int64 => Column::Int64(Cells { values: Vec::new(), valid: Vec::new() }),
        DataType::UInt64 => Column::UInt64(Cells { values: Vec::new(), valid: Vec::new() }),
        DataType::Float64 => Column::Float64(Cells { values: Vec::new(), valid: Vec::new() }),
        DataType::Utf8 => Column::Utf8(Cells { values: Vec::new(), valid: Vec::new() }),
        DataType::Binary => Column::Binary(Cells { values: Vec::new(), valid: Vec::new() }),
        DataType::Boolean => Column::Boolean(Cells { values: Vec::new(), valid: Vec::new() }),
    };
    proof {
        match c@ {
            ColumnModel::Int8(x) => {
                assert(x.values =~= Seq::empty());
                assert(x.valid =~= Seq::empty());
            },
            ColumnModel::Int32(x) => {
                assert(x.values =~= Seq::empty());
                assert(x.valid =~= Seq::empty());
            },
            ColumnModel::Int64(x) => {
                assert(x.values =~= Seq::empty());
                assert(x.valid =~= Seq::empty());
            },
            ColumnModel::UInt64(x) => {
                assert(x.values =~= Seq::empty());
                assert(x.valid =~= Seq::empty());
            },
            ColumnModel::Float64(x) => {
                assert(x.values =~= Seq::empty());
                assert(x.valid =~= Seq::empty());
            },
            ColumnModel::Utf8(x) => {
                assert(x.values =~= Seq::empty());
                assert(x.valid =~= Seq::empty());
            },
            ColumnModel::Binary(x) => {
                assert(x.values =~= Seq::empty());
                assert(x.valid =~= Seq::empty());
            },
            ColumnModel::Boolean(x) => {
                assert(x.values =~= Seq::empty());
                assert(x.valid =~= Seq::empty());
            },
        }
    }
    c
}

} // verus!
