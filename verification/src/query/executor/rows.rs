//! Laws on the rows that operators give.

use crate::columnar::batch::{
    batch_at, batch_join, batch_wf, batches_fit, batches_joined, batches_joined_is_well_formed,
    column_fits, rows_total, span, BatchModel,
};
use crate::columnar::column::{row_numbers, ColumnModel};
use crate::columnar::rows::CellModel;
use crate::common::schema::FieldModel;
use crate::query::ast::{order_views, OrderModel};
use crate::query::executor::operator::{
    behind_first, limited_stream, op_wf, given_schema, stream_fits_schema, stream_of, LimitOperator,
    Operator, SortOperator, Stream,
};
use crate::query::executor::sort::{
    row_before, rows_order, rows_order_is_weak, sort_keys, sorted_rows_are_ordered,
};
use crate::query::order::{sorted_rows, sorted_rows_exist};
use vstd::prelude::*;

verus! {

/// The value of a column in a row.
pub open spec fn cell_at(c: ColumnModel, i: int) -> CellModel {
    match c {
        ColumnModel::Int8(x) => CellModel::Int8(
            if x.valid[i] {
                Some(x.values[i])
            } else {
                None
            },
        ),
        ColumnModel::Int32(x) => CellModel::Int32(
            if x.valid[i] {
                Some(x.values[i])
            } else {
                None
            },
        ),
        ColumnModel::Int64(x) => CellModel::Int64(
            if x.valid[i] {
                Some(x.values[i])
            } else {
                None
            },
        ),
        ColumnModel::UInt64(x) => CellModel::UInt64(
            if x.valid[i] {
                Some(x.values[i])
            } else {
                None
            },
        ),
        ColumnModel::Float64(x) => CellModel::Float64(
            if x.valid[i] {
                Some(x.values[i])
            } else {
                None
            },
        ),
        ColumnModel::Utf8(x) => CellModel::Utf8(
            if x.valid[i] {
                Some(x.values[i])
            } else {
                None
            },
        ),
        ColumnModel::Binary(x) => CellModel::Binary(
            if x.valid[i] {
                Some(x.values[i])
            } else {
                None
            },
        ),
        ColumnModel::Boolean(x) => CellModel::Boolean(
            if x.valid[i] {
                Some(x.values[i])
            } else {
                None
            },
        ),
    }
}

/// The rows of a batch.
pub open spec fn rows_in(b: BatchModel) -> Seq<Seq<CellModel>> {
    Seq::new(b.rows, |i: int| Seq::new(b.columns.len(), |c: int| cell_at(b.columns[c], i)))
}

/// The rows of batches, one batch behind the other.
pub open spec fn all_rows(v: Seq<BatchModel>) -> Seq<Seq<CellModel>>
    decreases v.len(),
{
    if v.len() == 0 {
        Seq::empty()
    } else {
        all_rows(v.drop_last()) + rows_in(v.last())
    }
}

/// The rows of a first batch come first.
pub proof fn first_rows_come_first(b: BatchModel, rest: Seq<BatchModel>)
    ensures
        all_rows(seq![b] + rest) == rows_in(b) + all_rows(rest),
    decreases rest.len(),
{
    let v = seq![b] + rest;
    if rest.len() == 0 {
        assert(v.drop_last().len() == 0);
        assert(all_rows(v.drop_last()) =~= Seq::empty());
        assert(v.last() == b);
        assert(all_rows(v) =~= rows_in(b) + all_rows(rest));
    } else {
        first_rows_come_first(b, rest.drop_last());
        assert(v.drop_last() =~= seq![b] + rest.drop_last());
        assert(v.last() == rest.last());
        assert(all_rows(v) =~= rows_in(b) + all_rows(rest));
    }
}

proof fn lemma_all_rows_len(v: Seq<BatchModel>)
    ensures
        all_rows(v).len() == rows_total(v),
    decreases v.len(),
{
    if v.len() > 0 {
        lemma_all_rows_len(v.drop_last());
    }
}

/// The rows of a batch at given places are those rows of it.
pub proof fn rows_at_places(b: BatchModel, rows: Seq<int>)
    requires
        batch_wf(b),
        forall|i: int| 0 <= i < rows.len() ==> 0 <= #[trigger] rows[i] < b.rows,
    ensures
        rows_in(batch_at(b, rows)).len() == rows.len(),
        forall|i: int|
            0 <= i < rows.len() ==> #[trigger] rows_in(batch_at(b, rows))[i] == rows_in(b)[rows[i]],
{
    let out = batch_at(b, rows);
    assert forall|i: int| 0 <= i < rows.len() implies #[trigger] rows_in(out)[i] == rows_in(
        b,
    )[rows[i]] by {
        assert forall|c: int| 0 <= c < b.columns.len() implies cell_at(out.columns[c], i)
            == cell_at(b.columns[c], rows[i]) by {
            assert(column_fits(b.columns[c], b.schema[c], b.rows));
        }
        assert(rows_in(out)[i] =~= rows_in(b)[rows[i]]);
    }
}

/// The least of two numbers.
pub open spec fn least(a: int, b: int) -> int {
    if a < b {
        a
    } else {
        b
    }
}

/// The rows from `offset` on, at most `limit` of them.
pub open spec fn window(rows: Seq<Seq<CellModel>>, limit: nat, offset: nat) -> Seq<
    Seq<CellModel>,
> {
    rows.subrange(
        least(offset as int, rows.len() as int),
        least((offset + limit) as int, rows.len() as int),
    )
}

proof fn lemma_limited_rows(s: Stream, limit: nat, offset: nat, schema: Seq<FieldModel>)
    requires
        s.fault is None,
        batches_fit(s.batches, schema),
    ensures
        ({
            let out = limited_stream(s, limit, offset);
            &&& out.fault is None
            &&& all_rows(out.batches) == window(all_rows(s.batches), limit, offset)
            &&& forall|i: int| 0 <= i < out.batches.len() ==> (#[trigger] out.batches[i]).rows > 0
        }),
    decreases s.batches.len(),
{
    let out = limited_stream(s, limit, offset);
    let all = all_rows(s.batches);
    if limit == 0 || s.batches.len() == 0 {
        assert(out.batches.len() == 0);
        assert(all_rows(out.batches) =~= window(all, limit, offset));
    } else {
        let b = s.batches[0];
        let rest = behind_first(s);
        assert(batch_wf(b));
        assert(s.batches =~= seq![b] + rest.batches);
        first_rows_come_first(b, rest.batches);
        assert(batches_fit(rest.batches, schema)) by {
            assert forall|i: int| 0 <= i < rest.batches.len() implies batch_wf(
                #[trigger] rest.batches[i],
            ) && rest.batches[i].schema == schema by {
                assert(rest.batches[i] == s.batches[i + 1]);
            }
        }
        let later = all_rows(rest.batches);
        assert(rows_in(b).len() == b.rows);
        if offset >= b.rows {
            lemma_limited_rows(rest, limit, (offset - b.rows) as nat, schema);
            assert(window(all, limit, offset) =~= window(later, limit, (offset - b.rows) as nat));
        } else {
            let take = if b.rows - offset < limit {
                (b.rows - offset) as nat
            } else {
                limit
            };
            let left = (limit - take) as nat;
            lemma_limited_rows(rest, left, 0, schema);
            let rows = span(offset as int, (offset + take) as int);
            let first = batch_at(b, rows);
            let behind = limited_stream(rest, left, 0);
            rows_at_places(b, rows);
            first_rows_come_first(first, behind.batches);
            assert(rows_in(first) =~= rows_in(b).subrange(offset as int, (offset + take) as int));
            assert(window(all, limit, offset) =~= rows_in(first) + window(later, left, 0));
            assert forall|i: int| 0 <= i < out.batches.len() implies (#[trigger] out.batches[i]).rows
                > 0 by {
                if i > 0 {
                    assert(out.batches[i] == behind.batches[i - 1]);
                }
            }
        }
    }
}

/// A limit gives exactly the rows from its offset on, as many as are asked for and there
/// are, in order, in batches that are not empty.
pub proof fn limit_gives_the_asked_rows(l: LimitOperator, now_ns: i64)
    requires
        op_wf(Operator::Limit(l)),
        stream_of(*l.child, now_ns).fault is None,
    ensures
        ({
            let input = stream_of(*l.child, now_ns);
            let out = stream_of(Operator::Limit(l), now_ns);
            &&& out.fault is None
            &&& all_rows(out.batches) == window(
                all_rows(input.batches),
                l.remaining as nat,
                l.skip as nat,
            )
            &&& forall|i: int| 0 <= i < out.batches.len() ==> (#[trigger] out.batches[i]).rows > 0
        }),
{
    stream_fits_schema(*l.child, now_ns);
    lemma_limited_rows(
        stream_of(*l.child, now_ns),
        l.remaining as nat,
        l.skip as nat,
        given_schema(*l.child, now_ns),
    );
}

proof fn lemma_rows_join(a: BatchModel, b: BatchModel, schema: Seq<FieldModel>)
    requires
        batch_wf(a),
        batch_wf(b),
        a.schema == schema,
        b.schema == schema,
    ensures
        rows_in(batch_join(a, b)) == rows_in(a) + rows_in(b),
{
    let out = batch_join(a, b);
    assert forall|i: int| 0 <= i < out.rows implies rows_in(out)[i] == (rows_in(a) + rows_in(
        b,
    ))[i] by {
        assert forall|c: int| 0 <= c < out.columns.len() implies #[trigger] rows_in(out)[i][c]
            == (rows_in(a) + rows_in(b))[i][c] by {
            assert(column_fits(a.columns[c], a.schema[c], a.rows));
            assert(column_fits(b.columns[c], b.schema[c], b.rows));
        }
        assert(rows_in(out)[i] =~= (rows_in(a) + rows_in(b))[i]);
    }
    assert(rows_in(out) =~= rows_in(a) + rows_in(b));
}

proof fn lemma_rows_joined(v: Seq<BatchModel>, schema: Seq<FieldModel>)
    requires
        v.len() > 0,
        batches_fit(v, schema),
    ensures
        rows_in(batches_joined(v)) == all_rows(v),
    decreases v.len(),
{
    if v.len() == 1 {
        assert(v.drop_last().len() == 0);
        assert(all_rows(v.drop_last()) =~= Seq::empty());
        assert(all_rows(v) =~= rows_in(v[0]));
    } else {
        let front = v.drop_last();
        assert(batches_fit(front, schema)) by {
            assert forall|i: int| 0 <= i < front.len() implies batch_wf(#[trigger] front[i])
                && front[i].schema == schema by {
                assert(front[i] == v[i]);
            }
        }
        lemma_rows_joined(front, schema);
        batches_joined_is_well_formed(front, schema);
        assert(batch_wf(v[v.len() - 1]));
        lemma_rows_join(batches_joined(front), v.last(), schema);
    }
}

/// Whether `order` names each of `n` rows once.
pub open spec fn is_permutation(order: Seq<usize>, n: nat) -> bool {
    order.len() == n && order.no_duplicates() && forall|r: usize| r < n ==> #[trigger] order.contains(r)
}

/// Whether the rows of `b` are the rows of all batches, each once, with none before a row
/// that comes before it by the columns to sort by.
pub open spec fn holds_rows_in_order(
    b: BatchModel,
    input: Seq<BatchModel>,
    items: Seq<OrderModel>,
    order: Seq<usize>,
) -> bool {
    let all = all_rows(input);
    let keys = sort_keys(batches_joined(input), items);
    &&& is_permutation(order, all.len())
    &&& rows_in(b).len() == all.len()
    &&& forall|i: int|
        0 <= i < order.len() ==> #[trigger] order[i] < all.len() && rows_in(b)[i]
            == all[order[i] as int]
    &&& forall|i: int, j: int|
        0 <= i < j < order.len() ==> !row_before(
            keys,
            0,
            #[trigger] order[j] as int,
            #[trigger] order[i] as int,
        )
}

/// Whether the rows of `b` are the rows of all batches, each once, in order by the columns to
/// sort by.
pub open spec fn is_sorted_output(
    b: BatchModel,
    input: Seq<BatchModel>,
    items: Seq<OrderModel>,
) -> bool {
    exists|order: Seq<usize>| #[trigger] holds_rows_in_order(b, input, items, order)
}

/// A sort gives one batch: all rows of its input, each once, in order by the columns to sort
/// by. Then it ends. It fails only where the rows cannot be counted.
pub proof fn sort_gives_all_rows_in_order(s: SortOperator, now_ns: i64)
    requires
        op_wf(Operator::Sort(s)),
        s.child is Some,
        stream_of(*s.child->Some_0, now_ns).fault is None,
        stream_of(*s.child->Some_0, now_ns).batches.len() > 0,
    ensures
        ({
            let input = stream_of(*s.child->Some_0, now_ns).batches;
            let out = stream_of(Operator::Sort(s), now_ns);
            if rows_total(input) <= usize::MAX {
                &&& out.fault is None
                &&& out.batches.len() == 1
                &&& is_sorted_output(out.batches[0], input, order_views(s.keys@))
            } else {
                out.fault is Some && out.batches.len() == 0
            }
        }),
{
    let child = *s.child->Some_0;
    let input = stream_of(child, now_ns).batches;
    let out = stream_of(Operator::Sort(s), now_ns);
    let items = order_views(s.keys@);
    stream_fits_schema(child, now_ns);
    batches_joined_is_well_formed(input, given_schema(child, now_ns));
    lemma_rows_joined(input, given_schema(child, now_ns));
    lemma_all_rows_len(input);
    if rows_total(input) <= usize::MAX {
        let joined = batches_joined(input);
        let keys = sort_keys(joined, items);
        let less = rows_order(keys);
        let order = sorted_rows(less, joined.rows);
        rows_order_is_weak(keys, joined.rows);
        sorted_rows_exist(less, joined.rows);
        sorted_rows_are_ordered(keys, joined.rows, order);
        if keys.len() == 0 {
            let same = Seq::new(joined.rows, |i: int| i as usize);
            assert(is_permutation(same, joined.rows)) by {
                assert forall|r: usize| r < joined.rows implies #[trigger] same.contains(r) by {
                    assert(same[r as int] == r);
                }
            }
            assert(holds_rows_in_order(out.batches[0], input, items, same));
        } else {
            rows_at_places(joined, row_numbers(order));
            assert(holds_rows_in_order(out.batches[0], input, items, order));
        }
    }
}

} // verus!
