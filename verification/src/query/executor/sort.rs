//! Sorting: all rows in, one batch out.

use crate::common::schema::index_of;
use crate::query::ast::{order_views, Expr, ExprModel, OrderByItem, OrderModel};
use crate::columnar::batch::{
    batch_at, batch_views, batch_wf, batches_fit, batches_joined, batches_joined_is_well_formed,
    column_fits, rows_total, Batch, BatchModel,
};
use crate::columnar::column::{
    col_len, col_valid, col_wf, row_numbers, rows_below, Column, ColumnModel,
};
use crate::query::error::QueryError;
use crate::query::executor::aggregate::total_rows;
use crate::float::{total_key, total_less};
use crate::query::functions::compute::{
    abort, bytes_before, bytes_less, reports_eval, text_less, EvalFault,
};
use crate::query::order::{sort_rows, sorted_rows, weak_order, Less, RowOrder};
use vstd::prelude::*;
use vstd::utf8::encode_utf8;

verus! {

/// Whether the value in row `a` of a column comes before that in row `b`.
pub open spec fn cell_less(c: ColumnModel, a: int, b: int) -> bool {
    match c {
        ColumnModel::Int8(x) => x.values[a] < x.values[b],
        ColumnModel::Int32(x) => x.values[a] < x.values[b],
        ColumnModel::Int64(x) => x.values[a] < x.values[b],
        ColumnModel::UInt64(x) => x.values[a] < x.values[b],
        ColumnModel::Float64(x) => total_key(x.values[a]) < total_key(x.values[b]),
        ColumnModel::Utf8(x) => text_less(x.values[a], x.values[b]),
        ColumnModel::Binary(x) => bytes_less(x.values[a], x.values[b]),
        ColumnModel::Boolean(x) => !x.values[a] && x.values[b],
    }
}

/// A column to sort by, and whether it descends.
pub type SortKey = (ColumnModel, bool);

/// Whether row `a` comes before row `b` by one column. Nulls come last in any case.
pub open spec fn key_before(k: SortKey, a: int, b: int) -> bool {
    let valid = col_valid(k.0);
    if valid[a] && valid[b] {
        if k.1 {
            cell_less(k.0, b, a)
        } else {
            cell_less(k.0, a, b)
        }
    } else {
        valid[a] && !valid[b]
    }
}

/// Whether row `a` comes before row `b` by the columns from `i` on, the first that tells
/// them apart deciding.
pub open spec fn row_before(keys: Seq<SortKey>, i: nat, a: int, b: int) -> bool
    decreases keys.len() - i,
{
    if i >= keys.len() {
        false
    } else {
        key_before(keys[i as int], a, b) || (!key_before(keys[i as int], b, a) && row_before(
            keys,
            i + 1,
            a,
            b,
        ))
    }
}

/// The order of rows by columns.
pub open spec fn rows_order(keys: Seq<SortKey>) -> Less {
    |a: int, b: int| row_before(keys, 0, a, b)
}

/// The columns to sort by: those that are named and that the batch has. Other orderings
/// do not count.
pub open spec fn sort_keys(b: BatchModel, items: Seq<OrderModel>) -> Seq<SortKey>
    decreases items.len(),
{
    if items.len() == 0 {
        Seq::empty()
    } else {
        let front = sort_keys(b, items.drop_last());
        match items.last().expr {
            ExprModel::Column { table, name } => match index_of(b.schema, name) {
                Some(i) => front.push((b.columns[i], !items.last().asc)),
                None => front,
            },
            _ => front,
        }
    }
}

/// A batch with its rows in order, equal rows in their places.
pub open spec fn batch_sorted(b: BatchModel, items: Seq<OrderModel>) -> BatchModel {
    let keys = sort_keys(b, items);
    if keys.len() == 0 {
        b
    } else {
        batch_at(b, row_numbers(sorted_rows(rows_order(keys), b.rows)))
    }
}

/// The rows of all batches, in order, in one batch; none if there is no batch.
pub open spec fn sort_result(batches: Seq<BatchModel>, items: Seq<OrderModel>) -> Result<
    Seq<BatchModel>,
    EvalFault,
> {
    if batches.len() == 0 {
        Ok(Seq::empty())
    } else if rows_total(batches) > usize::MAX {
        Err(EvalFault::Abort("attempt to add with overflow"@))
    } else {
        Ok(seq![batch_sorted(batches_joined(batches), items)])
    }
}

// ── The order is one ────────────────────────────────────────────────────────

proof fn lemma_bytes_irreflexive(a: Seq<u8>)
    ensures
        !bytes_less(a, a),
    decreases a.len(),
{
    if a.len() > 0 {
        lemma_bytes_irreflexive(a.skip(1));
    }
}

proof fn lemma_bytes_transitive(a: Seq<u8>, b: Seq<u8>, c: Seq<u8>)
    requires
        bytes_less(a, b),
        bytes_less(b, c),
    ensures
        bytes_less(a, c),
    decreases a.len(),
{
    if a.len() > 0 && b.len() > 0 && c.len() > 0 && a[0] == b[0] && b[0] == c[0] {
        lemma_bytes_transitive(a.skip(1), b.skip(1), c.skip(1));
    }
}

proof fn lemma_bytes_negative(a: Seq<u8>, b: Seq<u8>, c: Seq<u8>)
    requires
        !bytes_less(a, b),
        !bytes_less(b, c),
    ensures
        !bytes_less(a, c),
    decreases a.len(),
{
    if a.len() > 0 && b.len() > 0 && c.len() > 0 && a[0] == b[0] && b[0] == c[0] {
        lemma_bytes_negative(a.skip(1), b.skip(1), c.skip(1));
    }
}

proof fn lemma_cells(c: ColumnModel, x: int, y: int, z: int)
    ensures
        !cell_less(c, x, x),
        cell_less(c, x, y) && cell_less(c, y, z) ==> cell_less(c, x, z),
        !cell_less(c, x, y) && !cell_less(c, y, z) ==> !cell_less(c, x, z),
{
    match c {
        ColumnModel::Utf8(v) => {
            let (p, q, r) = (
                encode_utf8(v.values[x]),
                encode_utf8(v.values[y]),
                encode_utf8(v.values[z]),
            );
            lemma_bytes_irreflexive(p);
            if bytes_less(p, q) && bytes_less(q, r) {
                lemma_bytes_transitive(p, q, r);
            }
            if !bytes_less(p, q) && !bytes_less(q, r) {
                lemma_bytes_negative(p, q, r);
            }
        },
        ColumnModel::Binary(v) => {
            let (p, q, r) = (v.values[x], v.values[y], v.values[z]);
            lemma_bytes_irreflexive(p);
            if bytes_less(p, q) && bytes_less(q, r) {
                lemma_bytes_transitive(p, q, r);
            }
            if !bytes_less(p, q) && !bytes_less(q, r) {
                lemma_bytes_negative(p, q, r);
            }
        },
        _ => {},
    }
}

proof fn lemma_key(k: SortKey, x: int, y: int, z: int)
    ensures
        !key_before(k, x, x),
        key_before(k, x, y) && key_before(k, y, z) ==> key_before(k, x, z),
        !key_before(k, x, y) && !key_before(k, y, z) ==> !key_before(k, x, z),
{
    lemma_cells(k.0, x, y, z);
    lemma_cells(k.0, z, y, x);
}

proof fn lemma_rows(keys: Seq<SortKey>, i: nat, x: int, y: int, z: int)
    ensures
        !row_before(keys, i, x, x),
        row_before(keys, i, x, y) && row_before(keys, i, y, z) ==> row_before(keys, i, x, z),
        !row_before(keys, i, x, y) && !row_before(keys, i, y, z) ==> !row_before(keys, i, x, z),
    decreases keys.len() - i,
{
    if i < keys.len() {
        let k = keys[i as int];
        lemma_rows(keys, i + 1, x, y, z);
        lemma_key(k, x, y, z);
        lemma_key(k, z, y, x);
        lemma_key(k, x, z, y);
        lemma_key(k, y, z, x);
        lemma_key(k, z, x, y);
        lemma_key(k, y, x, z);
    }
}

/// Rows are put in an order by columns.
pub proof fn rows_order_is_weak(keys: Seq<SortKey>, n: nat)
    ensures
        weak_order(rows_order(keys), n),
{
    let less = rows_order(keys);
    assert forall|a: int| 0 <= a < n implies !#[trigger] less(a, a) by {
        lemma_rows(keys, 0, a, a, a);
    }
    assert forall|a: int, b: int, c: int|
        0 <= a < n && 0 <= b < n && 0 <= c < n && #[trigger] less(a, b) && #[trigger] less(b, c) implies less(a, c) by {
        lemma_rows(keys, 0, a, b, c);
    }
    assert forall|a: int, b: int, c: int|
        0 <= a < n && 0 <= b < n && 0 <= c < n && !#[trigger] less(a, b) && !#[trigger] less(b, c) implies !less(a, c) by {
        lemma_rows(keys, 0, a, b, c);
    }
}

// ── Sorting ─────────────────────────────────────────────────────────────────

fn is_cell_less(c: &Column, a: usize, b: usize) -> (yes: bool)
    requires
        a < col_len(c@),
        b < col_len(c@),
    ensures
        yes == cell_less(c@, a as int, b as int),
{
    match c {
        Column::Int8(x) => x.values[a] < x.values[b],
        Column::Int32(x) => x.values[a] < x.values[b],
        Column::Int64(x) => x.values[a] < x.values[b],
        Column::UInt64(x) => x.values[a] < x.values[b],
        Column::Float64(x) => total_less(x.values[a], x.values[b]),
        Column::Utf8(x) => bytes_before(
            x.values[a].as_str().as_bytes(),
            x.values[b].as_str().as_bytes(),
        ),
        Column::Binary(x) => bytes_before(x.values[a].as_slice(), x.values[b].as_slice()),
        Column::Boolean(x) => !x.values[a] && x.values[b],
    }
}

fn is_key_before(c: &Column, descending: bool, a: usize, b: usize) -> (yes: bool)
    requires
        col_wf(c@),
        a < col_len(c@),
        b < col_len(c@),
    ensures
        yes == key_before((c@, descending), a as int, b as int),
{
    let valid = c.validity();
    if valid[a] && valid[b] {
        if descending {
            is_cell_less(c, b, a)
        } else {
            is_cell_less(c, a, b)
        }
    } else {
        valid[a] && !valid[b]
    }
}

/// The rows of a batch under an order: places of columns, and whether they descend.
struct SortedBy<'a> {
    batch: &'a Batch,
    columns: Vec<(usize, bool)>,
}

spec fn keys_of(b: BatchModel, columns: Seq<(usize, bool)>) -> Seq<SortKey> {
    columns.map_values(|c: (usize, bool)| (b.columns[c.0 as int], c.1))
}

impl<'a> SortedBy<'a> {
    spec fn wf(&self) -> bool {
        batch_wf(self.batch@) && forall|i: int|
            0 <= i < self.columns@.len() ==> (#[trigger] self.columns@[i]).0
                < self.batch@.columns.len()
    }
}

impl<'a> RowOrder for SortedBy<'a> {
    closed spec fn size(&self) -> nat {
        if self.wf() {
            self.batch@.rows
        } else {
            0
        }
    }

    closed spec fn order(&self) -> Less {
        rows_order(keys_of(self.batch@, self.columns@))
    }

    proof fn is_weak_order(&self) {
        rows_order_is_weak(keys_of(self.batch@, self.columns@), self.size());
    }

    fn is_less(&self, a: usize, b: usize) -> (yes: bool) {
        let ghost keys = keys_of(self.batch@, self.columns@);
        let n: usize = self.columns.len();
        for i in 0..n
            invariant
                self.wf(),
                n == self.columns@.len(),
                keys == keys_of(self.batch@, self.columns@),
                a < self.batch@.rows,
                b < self.batch@.rows,
                row_before(keys, 0, a as int, b as int) == row_before(
                    keys,
                    i as nat,
                    a as int,
                    b as int,
                ),
        {
            let (at, descending) = self.columns[i];
            let c = &self.batch.columns[at];
            assert(self.batch@.columns[at as int] == c@);
            assert(column_fits(
                self.batch@.columns[at as int],
                self.batch@.schema[at as int],
                self.batch@.rows,
            ));
            assert(keys[i as int] == (c@, descending));
            if is_key_before(c, descending, a, b) {
                return true;
            }
            if is_key_before(c, descending, b, a) {
                return false;
            }
        }
        false
    }
}

/// The places of the columns to sort by.
fn key_places(b: &Batch, items: &Vec<OrderByItem>) -> (out: Vec<(usize, bool)>)
    requires
        batch_wf(b@),
    ensures
        keys_of(b@, out@) == sort_keys(b@, order_views(items@)),
        forall|i: int| 0 <= i < out@.len() ==> (#[trigger] out@[i]).0 < b@.columns.len(),
{
    let ghost all = order_views(items@);
    let mut out: Vec<(usize, bool)> = Vec::new();
    assert(keys_of(b@, out@) =~= Seq::empty());
    assert(all.take(0) =~= Seq::empty());
    for i in 0..items.len()
        invariant
            batch_wf(b@),
            all == order_views(items@),
            keys_of(b@, out@) == sort_keys(b@, all.take(i as int)),
            forall|k: int| 0 <= k < out@.len() ==> (#[trigger] out@[k]).0 < b@.columns.len(),
    {
        assert(all.take(i + 1).drop_last() =~= all.take(i as int));
        assert(all.take(i + 1).last() == items@[i as int]@);
        let ghost before = keys_of(b@, out@);
        match &items[i].expr {
            Expr::Column { table, name } => match b.schema.index_of(name.as_str()) {
                Some(at) => {
                    out.push((at, !items[i].asc));
                    assert(keys_of(b@, out@) =~= before.push(
                        (b@.columns[at as int], !items@[i as int].asc),
                    ));
                },
                None => {},
            },
            _ => {},
        }
    }
    assert(all.take(all.len() as int) =~= all);
    out
}

/// Puts the rows of a batch in order.
pub fn sort_batch(b: Batch, items: &Vec<OrderByItem>) -> (out: Batch)
    requires
        batch_wf(b@),
    ensures
        out@ == batch_sorted(b@, order_views(items@)),
        batch_wf(out@),
        out@.schema == b@.schema,
{
    let columns = key_places(&b, items);
    assert(keys_of(b@, columns@).len() == columns@.len());
    if columns.len() == 0 {
        return b;
    }
    let rows = SortedBy { batch: &b, columns };
    let order = sort_rows(&rows, b.rows);
    assert(rows_below(order@, b@.rows));
    b.at(&order)
}

/// Puts the rows of all batches behind each other.
pub fn concat_batches(batches: Vec<Batch>) -> (out: Batch)
    requires
        batches@.len() > 0,
        batches_fit(batch_views(batches@), batches@[0]@.schema),
        rows_total(batch_views(batches@)) <= usize::MAX,
    ensures
        out@ == batches_joined(batch_views(batches@)),
        batch_wf(out@),
        out@.schema == batches@[0]@.schema,
{
    let ghost all = batch_views(batches@);
    let ghost schema = batches@[0]@.schema;
    let mut rest = batches;
    assert(all.len() == rest@.len());
    let mut out = rest.remove(0);
    assert(out@ == all[0]);
    assert(batch_wf(all[0]));
    assert(batch_views(rest@) =~= all.skip(1));
    assert(batches_joined(all.take(1)) == all[0]);
    let ghost mut n: int = 1;
    while rest.len() > 0
        invariant
            0 < n <= all.len(),
            batch_views(rest@) == all.skip(n),
            batches_fit(all, schema),
            rows_total(all) <= usize::MAX,
            out@ == batches_joined(all.take(n)),
            batch_wf(out@),
            out@.schema == schema,
        decreases rest@.len(),
    {
        let ghost front = all.take(n);
        assert(batch_views(rest@).len() == rest@.len());
        let ghost before = rest@;
        let b = rest.remove(0);
        assert(b@ == batch_views(before)[0]);
        assert(b@ == all[n]);
        assert(batch_views(rest@) =~= all.skip(n).skip(1));
        assert(batch_views(rest@) =~= all.skip(n + 1));
        assert(batch_wf(all[n]) && all[n].schema == schema);
        assert(all.take(n + 1).drop_last() =~= front);
        assert(all.take(n + 1).last() == all[n]);
        proof {
            assert(batches_fit(front, schema));
            batches_joined_is_well_formed(front, schema);
            crate::query::executor::aggregate::lemma_total_grows(all, n + 1);
            n = n + 1;
        }
        out.append(b);
    }
    assert(batch_views(rest@).len() == 0);
    assert(all.take(all.len() as int) =~= all);
    out
}

/// Puts the rows of all batches in order, in one batch.
pub fn sort_batches(batches: Vec<Batch>, items: &Vec<OrderByItem>) -> (out: Result<
    Vec<Batch>,
    QueryError,
>)
    requires
        batches@.len() > 0 ==> batches_fit(batch_views(batches@), batches@[0]@.schema),
    ensures
        match (out, sort_result(batch_views(batches@), order_views(items@))) {
            (Ok(v), Ok(m)) => batch_views(v@) == m && (batches@.len() > 0 ==> batches_fit(
                batch_views(v@),
                batches@[0]@.schema,
            )),
            (Err(e), Err(f)) => reports_eval(e, f),
            _ => false,
        },
{
    let ghost all = batch_views(batches@);
    assert(all.len() == batches@.len());
    if batches.len() == 0 {
        assert(batch_views(batches@) =~= Seq::empty());
        return Ok(batches);
    }
    if total_rows(&batches).is_none() {
        return Err(abort("attempt to add with overflow"));
    }
    let joined = concat_batches(batches);
    let sorted = sort_batch(joined, items);
    let ghost m = sorted@;
    let mut out: Vec<Batch> = Vec::new();
    out.push(sorted);
    assert(batch_views(out@) =~= seq![m]);
    Ok(out)
}

// ── Laws ────────────────────────────────────────────────────────────────────

/// Sorting keeps every row and makes none up, and what comes later does not belong
/// earlier.
pub proof fn sorted_rows_are_ordered(keys: Seq<SortKey>, n: nat, order: Seq<usize>)
    requires
        crate::query::order::is_sorted_range(rows_order(keys), order, 0, n as int),
    ensures
        order.len() == n,
        order.no_duplicates(),
        forall|r: usize| r < n ==> #[trigger] order.contains(r),
        forall|i: int, j: int|
            0 <= i < j < n ==> !row_before(
                keys,
                0,
                #[trigger] order[j] as int,
                #[trigger] order[i] as int,
            ),
{
    rows_order_is_weak(keys, n);
    let less = rows_order(keys);
    assert forall|i: int, j: int| 0 <= i < j < n implies !row_before(
        keys,
        0,
        #[trigger] order[j] as int,
        #[trigger] order[i] as int,
    ) && order[i] != order[j] by {
        let (a, b) = (order[i] as int, order[j] as int);
        assert(crate::query::order::comes_before(less, a, b));
        if less(a, b) && less(b, a) {
            assert(less(a, a));
        }
        assert(!less(a, a));
    }
}

// ── What the order is ───────────────────────────────────────────────────────

/// Descending is the opposite of ascending where both rows have a value, and a row without
/// one comes last in either direction.
pub proof fn directions_are_opposite(c: ColumnModel, a: int, b: int, descending: bool)
    ensures
        col_valid(c)[a] && col_valid(c)[b] ==> key_before((c, true), a, b) == key_before(
            (c, false),
            b,
            a,
        ),
        col_valid(c)[a] && !col_valid(c)[b] ==> key_before((c, descending), a, b) && !key_before(
            (c, descending),
            b,
            a,
        ),
        !col_valid(c)[a] && !col_valid(c)[b] ==> !key_before((c, descending), a, b),
{
}

/// Ascending goes by the values: numbers by size, floating-point numbers in their total
/// order, texts and bytes byte by byte, and false before true.
pub proof fn ascending_goes_by_value(c: ColumnModel, a: int, b: int)
    requires
        col_valid(c)[a],
        col_valid(c)[b],
    ensures
        match c {
            ColumnModel::Int8(x) => key_before((c, false), a, b) == (x.values[a] < x.values[b]),
            ColumnModel::Int32(x) => key_before((c, false), a, b) == (x.values[a] < x.values[b]),
            ColumnModel::Int64(x) => key_before((c, false), a, b) == (x.values[a] < x.values[b]),
            ColumnModel::UInt64(x) => key_before((c, false), a, b) == (x.values[a] < x.values[b]),
            ColumnModel::Float64(x) => key_before((c, false), a, b) == (total_key(x.values[a])
                < total_key(x.values[b])),
            ColumnModel::Utf8(x) => key_before((c, false), a, b) == bytes_less(
                vstd::utf8::encode_utf8(x.values[a]),
                vstd::utf8::encode_utf8(x.values[b]),
            ),
            ColumnModel::Binary(x) => key_before((c, false), a, b) == bytes_less(
                x.values[a],
                x.values[b],
            ),
            ColumnModel::Boolean(x) => key_before((c, false), a, b) == (!x.values[a] && x.values[b]),
        },
{
}

/// Whether key `k` is the first of those from `i` on that tells two rows apart, with row `a`
/// first.
pub open spec fn decides(keys: Seq<SortKey>, i: int, k: int, a: int, b: int) -> bool {
    &&& i <= k < keys.len()
    &&& key_before(keys[k], a, b)
    &&& forall|j: int|
        i <= j < k ==> !key_before(#[trigger] keys[j], a, b) && !key_before(keys[j], b, a)
}

/// A row comes before another if and only if a key puts it first and all keys before that one
/// leave the two equal.
pub proof fn first_difference_decides(keys: Seq<SortKey>, i: nat, a: int, b: int)
    requires
        i <= keys.len(),
        forall|j: int|
            0 <= j < keys.len() ==> !(key_before(#[trigger] keys[j], a, b) && key_before(
                keys[j],
                b,
                a,
            )),
    ensures
        row_before(keys, i, a, b) <==> exists|k: int| #[trigger] decides(keys, i as int, k, a, b),
    decreases keys.len() - i,
{
    if i < keys.len() {
        first_difference_decides(keys, i + 1, a, b);
        let x = keys[i as int];
        if row_before(keys, i, a, b) {
            if key_before(x, a, b) {
                assert(decides(keys, i as int, i as int, a, b));
            } else {
                let k = choose|k: int| #[trigger] decides(keys, (i + 1) as int, k, a, b);
                assert(decides(keys, i as int, k, a, b));
            }
        }
        if exists|k: int| #[trigger] decides(keys, i as int, k, a, b) {
            let k = choose|k: int| #[trigger] decides(keys, i as int, k, a, b);
            if k > i {
                assert(!key_before(keys[i as int], a, b) && !key_before(keys[i as int], b, a));
                assert(decides(keys, (i + 1) as int, k, a, b));
            } else {
                assert(key_before(keys[i as int], a, b));
            }
        }
    }
}

/// Whether an ordering names a column of a batch.
pub open spec fn orders_column(b: BatchModel, x: OrderModel) -> bool {
    x.expr matches ExprModel::Column { table, name } && index_of(b.schema, name) is Some
}

/// How many keys an ordering gives.
pub open spec fn keys_in(b: BatchModel) -> spec_fn(OrderModel) -> nat {
    |x: OrderModel|
        if orders_column(b, x) {
            1
        } else {
            0
        }
}

/// Every ordering that names a column of the batch gives its key, in order: the column, and
/// descending if and only if the ordering does not ascend. No other gives one.
pub proof fn every_named_column_is_a_key(b: BatchModel, items: Seq<OrderModel>, i: int)
    requires
        0 <= i < items.len(),
    ensures
        sort_keys(b, items).len() == crate::common::lists::total(items, keys_in(b), items.len()),
        orders_column(b, items[i]) ==> {
            let at = crate::common::lists::total(items, keys_in(b), i as nat);
            &&& at < sort_keys(b, items).len()
            &&& sort_keys(b, items)[at as int].0 == b.columns[index_of(
                b.schema,
                items[i].expr->Column_name,
            )->Some_0]
            &&& sort_keys(b, items)[at as int].1 == !items[i].asc
        },
{
    let all = |m: nat| sort_keys(b, items.take(m as int));
    let own = |x: OrderModel| sort_keys(b, seq![x]);
    assert forall|m: nat| 0 < m <= items.len() implies #[trigger] crate::common::lists::adds(
        items,
        all,
        own,
        keys_in(b),
        m,
    ) by {
        let x = items[m - 1];
        assert(items.take(m as int).drop_last() =~= items.take(m - 1));
        assert(items.take(m as int).last() == x);
        assert(seq![x].drop_last() =~= Seq::empty());
        assert(sort_keys(b, seq![x].drop_last()) =~= Seq::empty());
        assert(seq![x].last() == x);
        assert(all(m) =~= all((m - 1) as nat) + own(x));
    }
    crate::common::lists::lists_stand_in_order(items, all, own, keys_in(b), items.len(), i, 0);
    assert(items.take(items.len() as int) =~= items);
    let x = items[i];
    assert(seq![x].drop_last() =~= Seq::empty());
    assert(sort_keys(b, seq![x].drop_last()) =~= Seq::empty());
    assert(seq![x].last() == x);
}

} // verus!
