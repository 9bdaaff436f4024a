//! What aggregates are of the rows that they are made from.

use crate::common::lists::{adds, lists_stand_in_order, total};
use crate::common::schema::{index_of, DataType};
use crate::columnar::batch::{rows_total, BatchModel};
use crate::columnar::column::ColumnModel;
use crate::float::{
    float_less, float_result, is_nan, real_key, signed_bits, unsigned_bits, FloatOp, INFINITY,
    NEG_INFINITY,
};
use crate::query::ast::ExprModel;
use crate::query::executor::aggregate::{
    aggregate_value, all_numbers, folded_value, found_group_has_the_name, given_columns, group_columns, group_index,
    group_key, groups_of, groups_partition_rows, groups_with_row, groups_with_rows, names_differ,
    new_group, row_is_counted_once, row_number, scalar_column, seen_row, summed_numbers, GroupModel,
    Groups,
};
use crate::query::functions::compute::EvalFault;
use crate::query::planner::AggModel;
use crate::text::decimal;
use vstd::prelude::*;

verus! {

// ── The numbers of a column ─────────────────────────────────────────────────

/// The floating-point number that a row of a column of signed or floating-point numbers
/// holds.
pub open spec fn number_in(c: ColumnModel, i: int) -> u64 {
    match c {
        ColumnModel::Float64(a) => a.values[i],
        ColumnModel::Int64(a) => signed_bits(a.values[i]),
        _ => arbitrary(),
    }
}

/// How many rows of a column an aggregate over all rows reads: all of a column of signed or
/// floating-point numbers, none of another.
pub open spec fn numbers_in(c: ColumnModel) -> nat {
    match c {
        ColumnModel::Float64(a) => a.values.len(),
        ColumnModel::Int64(a) => a.values.len(),
        _ => 0,
    }
}

/// The column of a batch with a name.
pub open spec fn column_named(b: BatchModel, name: Seq<char>) -> ColumnModel {
    b.columns[index_of(b.schema, name)->Some_0]
}

/// How many numbers a batch has under a name.
pub open spec fn numbers_under(name: Seq<char>) -> spec_fn(BatchModel) -> nat {
    |b: BatchModel| numbers_in(column_named(b, name))
}

/// Whether every batch has a column with a name.
pub open spec fn all_have(batches: Seq<BatchModel>, name: Seq<char>) -> bool {
    forall|b: int| 0 <= b < batches.len() ==> index_of((#[trigger] batches[b]).schema, name) is Some
}

proof fn lemma_numbers(batches: Seq<BatchModel>, name: Seq<char>, n: nat)
    requires
        n <= batches.len(),
        all_have(batches, name),
    ensures
        all_numbers(batches.take(n as int), name) is Ok,
    decreases n,
{
    if n > 0 {
        let m = (n - 1) as nat;
        lemma_numbers(batches, name, m);
        let b = batches[m as int];
        assert(batches.take(n as int).drop_last() =~= batches.take(m as int));
        assert(batches.take(n as int).last() == b);
    }
}

/// An aggregate over all rows folds over one number for each row of a column of signed or
/// floating-point numbers: number `i` of batch `b` is the floating-point value of its row
/// `i`, behind the numbers of the batches before it. A column of any other type has none.
pub proof fn every_row_is_folded(batches: Seq<BatchModel>, name: Seq<char>, b: int, i: int)
    requires
        all_have(batches, name),
        0 <= b < batches.len(),
        0 <= i < numbers_in(column_named(batches[b], name)),
    ensures
        ({
            let all = all_numbers(batches, name);
            let at = total(batches, numbers_under(name), b as nat) + i;
            &&& all is Ok
            &&& all->Ok_0.len() == total(batches, numbers_under(name), batches.len())
            &&& at < all->Ok_0.len()
            &&& all->Ok_0[at] == number_in(column_named(batches[b], name), i)
        }),
{
    let all = |m: nat| all_numbers(batches.take(m as int), name)->Ok_0;
    let own = |x: BatchModel|
        Seq::new(numbers_in(column_named(x, name)), |k: int| number_in(column_named(x, name), k));
    assert forall|m: nat| 0 < m <= batches.len() implies #[trigger] adds(
        batches,
        all,
        own,
        numbers_under(name),
        m,
    ) by {
        lemma_numbers(batches, name, m);
        lemma_numbers(batches, name, (m - 1) as nat);
        let b = batches[m - 1];
        assert(batches.take(m as int).drop_last() =~= batches.take(m - 1));
        let c = column_named(b, name);
        assert(summed_numbers(c) =~= own(b));
    }
    lists_stand_in_order(batches, all, own, numbers_under(name), batches.len(), b, i);
    lemma_numbers(batches, name, batches.len());
    assert(batches.take(batches.len() as int) =~= batches);
}

proof fn lemma_one_fault(batches: Seq<BatchModel>, name: Seq<char>)
    ensures
        all_numbers(batches, name) matches Err(f) ==> f == EvalFault::Execution(
            "column '"@ + name + "' not found"@,
        ),
    decreases batches.len(),
{
    if batches.len() > 0 {
        lemma_one_fault(batches.drop_last(), name);
    }
}

/// A column that a batch lacks is reported by its name.
pub proof fn missing_column_is_reported(batches: Seq<BatchModel>, name: Seq<char>, b: int)
    requires
        0 <= b < batches.len(),
        index_of(batches[b].schema, name) is None,
    ensures
        all_numbers(batches, name) == Err::<Seq<u64>, EvalFault>(
            EvalFault::Execution("column '"@ + name + "' not found"@),
        ),
    decreases batches.len(),
{
    lemma_one_fault(batches, name);
    if b < batches.len() - 1 {
        missing_column_is_reported(batches.drop_last(), name, b);
    }
}

// ── Aggregates of numbers ───────────────────────────────────────────────────

/// Whether a value is one of the numbers, and none is greater.
pub open spec fn is_greatest(x: u64, v: Seq<u64>) -> bool {
    v.contains(x) && forall|i: int| 0 <= i < v.len() ==> !float_less(x, #[trigger] v[i])
}

/// Whether a value is one of the numbers, and none is less.
pub open spec fn is_least(x: u64, v: Seq<u64>) -> bool {
    v.contains(x) && forall|i: int| 0 <= i < v.len() ==> !float_less(#[trigger] v[i], x)
}

/// Whether no value of a list is a not-a-number value.
pub open spec fn all_numeric(v: Seq<u64>) -> bool {
    forall|i: int| 0 <= i < v.len() ==> !is_nan(#[trigger] v[i])
}

proof fn lemma_infinities(x: u64)
    requires
        !is_nan(x),
    ensures
        real_key(NEG_INFINITY) <= real_key(x) <= real_key(INFINITY),
        real_key(x) == real_key(NEG_INFINITY) ==> x == NEG_INFINITY,
        real_key(x) == real_key(INFINITY) ==> x == INFINITY,
        !is_nan(INFINITY),
        !is_nan(NEG_INFINITY),
{
}

/// The greatest of numbers is one of them, and none is greater.
pub proof fn maximum_is_greatest(v: Seq<u64>)
    requires
        v.len() > 0,
        all_numeric(v),
    ensures
        is_greatest(aggregate_value("max"@, v), v),
    decreases v.len(),
{
    lemma_names();
    let front = v.drop_last();
    assert(forall|i: int| 0 <= i < front.len() ==> front[i] == v[i]);
    assert(v.last() == v[v.len() - 1]);
    lemma_infinities(v.last());
    if front.len() > 0 {
        maximum_is_greatest(front);
        let x = folded_value("max"@, front);
        let k = choose|k: int| 0 <= k < front.len() && front[k] == x;
        assert(v[k] == x);
        assert forall|i: int| 0 <= i < v.len() implies !float_less(
            aggregate_value("max"@, v),
            #[trigger] v[i],
        ) by {
            if i < front.len() {
                assert(!float_less(x, front[i]));
            }
        }
    } else {
        assert(folded_value("max"@, front) == NEG_INFINITY);
    }
}

/// The least of numbers is one of them, and none is less.
pub proof fn minimum_is_least(v: Seq<u64>)
    requires
        v.len() > 0,
        all_numeric(v),
    ensures
        is_least(aggregate_value("min"@, v), v),
    decreases v.len(),
{
    lemma_names();
    let front = v.drop_last();
    assert(forall|i: int| 0 <= i < front.len() ==> front[i] == v[i]);
    assert(v.last() == v[v.len() - 1]);
    lemma_infinities(v.last());
    if front.len() > 0 {
        minimum_is_least(front);
        let x = folded_value("min"@, front);
        let k = choose|k: int| 0 <= k < front.len() && front[k] == x;
        assert(v[k] == x);
        assert forall|i: int| 0 <= i < v.len() implies !float_less(
            #[trigger] v[i],
            aggregate_value("min"@, v),
        ) by {
            if i < front.len() {
                assert(!float_less(front[i], x));
            }
        }
    } else {
        assert(folded_value("min"@, front) == INFINITY);
    }
}

/// A sum starts at zero and takes in each number, and a mean is the sum by the number of
/// numbers.
pub proof fn sums_take_in_each_number(v: Seq<u64>, x: u64)
    requires
        v.len() < u64::MAX,
    ensures
        aggregate_value("sum"@, Seq::empty()) == 0,
        aggregate_value("avg"@, Seq::empty()) == 0,
        aggregate_value("sum"@, v.push(x)) == float_result(
            FloatOp::Plus,
            aggregate_value("sum"@, v),
            x,
        ),
        aggregate_value("avg"@, v.push(x)) == float_result(
            FloatOp::Over,
            aggregate_value("sum"@, v.push(x)),
            unsigned_bits((v.len() + 1) as u64),
        ),
{
    lemma_names();
    assert(v.push(x).drop_last() =~= v);
    lemma_same_sum(v.push(x));
}

proof fn lemma_same_sum(v: Seq<u64>)
    ensures
        folded_value("avg"@, v) == folded_value("sum"@, v),
    decreases v.len(),
{
    lemma_names();
    if v.len() > 0 {
        lemma_same_sum(v.drop_last());
    }
}

proof fn lemma_names()
    ensures
        "sum"@ != "min"@,
        "sum"@ != "max"@,
        "sum"@ != "avg"@,
        "sum"@ != "count"@,
        "avg"@ != "min"@,
        "avg"@ != "max"@,
        "avg"@ != "count"@,
        "min"@ != "max"@,
        "min"@ != "count"@,
        "max"@ != "count"@,
{
    reveal_strlit("sum");
    reveal_strlit("avg");
    reveal_strlit("min");
    reveal_strlit("max");
    reveal_strlit("count");
    assert("sum"@[0] == 's' && "avg"@[0] == 'a' && "min"@[1] == 'i' && "max"@[1] == 'a');
    assert("min"@[0] == 'm' && "max"@[0] == 'm');
    assert("count"@.len() == 5);
}

/// The aggregates over all rows of a column: the numbers that they are of, one for each row,
/// and a count of all rows of all batches, whatever the column holds.
pub proof fn aggregates_over_all_rows(batches: Seq<BatchModel>, name: Seq<char>, a: AggModel)
    requires
        all_have(batches, name),
        a.arg matches Some(ExprModel::Column { table, name: n }) && n == name,
        all_numbers(batches, name)->Ok_0.len() > 0,
        all_numeric(all_numbers(batches, name)->Ok_0),
    ensures
        ({
            let v = all_numbers(batches, name)->Ok_0;
            let out = scalar_column(batches, a);
            &&& a.func == "max"@ ==> (out matches Ok(ColumnModel::Float64(c)) && c.values.len() == 1
                && c.valid == seq![true] && is_greatest(c.values[0], v))
            &&& a.func == "min"@ ==> (out matches Ok(ColumnModel::Float64(c)) && c.values.len() == 1
                && c.valid == seq![true] && is_least(c.values[0], v))
            &&& a.func == "sum"@ ==> (out matches Ok(ColumnModel::Float64(c)) && c.values
                =~= seq![aggregate_value("sum"@, v)] && c.valid =~= seq![true])
            &&& a.func == "avg"@ ==> (out matches Ok(ColumnModel::Float64(c)) && c.values
                =~= seq![
                float_result(
                    FloatOp::Over,
                    aggregate_value("sum"@, v),
                    unsigned_bits(v.len() as u64),
                ),
            ] && c.valid =~= seq![true])
            &&& a.func == "count"@ ==> (out matches Ok(ColumnModel::Int64(c)) && c.values
                =~= seq![rows_total(batches) as i64] && c.valid =~= seq![true])
        }),
{
    lemma_names();
    lemma_numbers(batches, name, batches.len());
    assert(batches.take(batches.len() as int) =~= batches);
    let v = all_numbers(batches, name)->Ok_0;
    maximum_is_greatest(v);
    minimum_is_least(v);
    lemma_same_sum(v);
    match scalar_column(batches, a) {
        Ok(ColumnModel::Float64(c)) => {
            assert(c.valid =~= seq![true]);
        },
        _ => {},
    }
}

// ── Aggregates by group ─────────────────────────────────────────────────────

/// The number that a row of a column holds, if it is a column of numbers.
pub open spec fn grouped_number(c: ColumnModel, i: int) -> Option<u64> {
    match c {
        ColumnModel::Float64(a) => Some(a.values[i]),
        ColumnModel::Int64(a) => Some(signed_bits(a.values[i])),
        ColumnModel::UInt64(a) => Some(unsigned_bits(a.values[i])),
        _ => None,
    }
}

/// Whether every batch has a column of numbers with a name.
pub open spec fn numeric_in_all(batches: Seq<BatchModel>, name: Seq<char>) -> bool {
    forall|b: int|
        0 <= b < batches.len() ==> index_of((#[trigger] batches[b]).schema, name) is Some && (
        column_named(batches[b], name) is Float64 || column_named(batches[b], name) is Int64
            || column_named(batches[b], name) is UInt64)
}

/// The numbers that the first `n` rows of a batch hold for a group, in order.
pub open spec fn group_numbers_in(b: BatchModel, n: nat, key: Seq<char>, name: Seq<char>) -> Seq<u64>
    decreases n,
{
    if n == 0 {
        Seq::empty()
    } else if group_key(b, n - 1) == key {
        group_numbers_in(b, (n - 1) as nat, key, name).push(
            grouped_number(column_named(b, name), n - 1)->Some_0,
        )
    } else {
        group_numbers_in(b, (n - 1) as nat, key, name)
    }
}

/// The numbers that the rows of all batches hold for a group, in order.
pub open spec fn group_numbers(batches: Seq<BatchModel>, key: Seq<char>, name: Seq<char>) -> Seq<u64>
    decreases batches.len(),
{
    if batches.len() == 0 {
        Seq::empty()
    } else {
        group_numbers(batches.drop_last(), key, name) + group_numbers_in(
            batches.last(),
            batches.last().rows,
            key,
            name,
        )
    }
}

/// Whether a group is what an aggregate makes of its numbers.
pub open spec fn is_group_of(g: GroupModel, func: Seq<char>, v: Seq<u64>) -> bool {
    &&& g.count == v.len()
    &&& (func == "sum"@ || func == "avg"@) ==> g.sum == aggregate_value("sum"@, v)
    &&& func == "min"@ && all_numeric(v) ==> is_least(g.min, v)
    &&& func == "max"@ && all_numeric(v) ==> is_greatest(g.max, v)
}

/// Whether groups are what an aggregate makes of the numbers of a group.
pub open spec fn group_is_of(groups: Groups, key: Seq<char>, func: Seq<char>, v: Seq<u64>) -> bool {
    match group_index(groups, key) {
        Some(i) => v.len() > 0 && is_group_of(groups[i].1, func, v),
        None => v.len() == 0,
    }
}

proof fn lemma_group_takes_row(
    groups: Groups,
    b: BatchModel,
    row: int,
    a: AggModel,
    name: Seq<char>,
    key: Seq<char>,
    v: Seq<u64>,
)
    requires
        names_differ(groups),
        group_is_of(groups, key, a.func, v),
        a.arg matches Some(ExprModel::Column { table, name: n }) && n == name,
        index_of(b.schema, name) is Some,
        grouped_number(column_named(b, name), row) is Some,
    ensures
        group_is_of(
            groups_with_row(groups, b, row, seq![a]),
            key,
            a.func,
            if group_key(b, row) == key {
                v.push(grouped_number(column_named(b, name), row)->Some_0)
            } else {
                v
            },
        ),
{
    lemma_names();
    let aggs = seq![a];
    let mine = group_key(b, row);
    let after = groups_with_row(groups, b, row, aggs);
    let x = grouped_number(column_named(b, name), row)->Some_0;
    found_group_has_the_name(groups, mine);
    found_group_has_the_name(groups, key);
    found_group_has_the_name(after, key);
    assert(row_number(b, row, a.arg) == Some(x));
    if mine == key {
        let g = match group_index(groups, key) {
            Some(i) => groups[i].1,
            None => new_group(),
        };
        reveal_with_fuel(seen_row, 2);
        assert(aggs[0] == a);
        assert(seen_row(g, b, row, aggs, 0) == g);
        let w = v.push(x);
        assert(w.drop_last() =~= v);
        assert(w[w.len() - 1] == x);
        match group_index(groups, key) {
            Some(i) => {
                assert(after[i].0 == key);
                let j = group_index(after, key)->Some_0;
                if j != i {
                    assert(after[j] == groups[j]);
                    if i < j {
                        assert(groups[i].0 != groups[j].0);
                    } else {
                        assert(groups[j].0 != groups[i].0);
                    }
                }
                assert(j == i);
                let h = after[i].1;
                if all_numeric(w) {
                    assert forall|k: int| 0 <= k < v.len() implies !is_nan(#[trigger] v[k]) by {
                        assert(w[k] == v[k]);
                    }
                    if a.func == "min"@ {
                        let k = choose|k: int| 0 <= k < v.len() && v[k] == g.min;
                        assert(w[k] == g.min);
                        assert forall|m: int| 0 <= m < w.len() implies !float_less(
                            #[trigger] w[m],
                            h.min,
                        ) by {
                            if m < v.len() {
                                assert(!float_less(v[m], g.min));
                            }
                        }
                    }
                    if a.func == "max"@ {
                        let k = choose|k: int| 0 <= k < v.len() && v[k] == g.max;
                        assert(w[k] == g.max);
                        assert forall|m: int| 0 <= m < w.len() implies !float_less(
                            h.max,
                            #[trigger] w[m],
                        ) by {
                            if m < v.len() {
                                assert(!float_less(g.max, v[m]));
                            }
                        }
                    }
                }
            },
            None => {
                assert(after[groups.len() as int].0 == key);
                let j = group_index(after, key)->Some_0;
                if j < groups.len() {
                    assert(after[j] == groups[j]);
                }
                assert(j == groups.len());
                assert(v =~= Seq::empty());
                assert(w =~= seq![x]);
                assert(w[0] == x && w.contains(x));
                assert(folded_value("sum"@, v) == 0);
                assert(is_group_of(after[j].1, a.func, w));
            },
        }
    } else {
        match group_index(groups, key) {
            Some(i) => {
                assert(after[i] == groups[i]);
                let j = group_index(after, key)->Some_0;
                if j < groups.len() && j != i {
                    if Some(j) != group_index(groups, mine) {
                        assert(after[j] == groups[j]);
                    }
                    if i < j {
                        assert(groups[i].0 != groups[j].0);
                    } else {
                        assert(groups[j].0 != groups[i].0);
                    }
                }
                assert(j == i);
            },
            None => {
                match group_index(after, key) {
                    Some(j) => {
                        if j < groups.len() && Some(j) != group_index(groups, mine) {
                            assert(after[j] == groups[j]);
                        }
                    },
                    None => {},
                }
            },
        }
    }
}

proof fn lemma_group_takes_rows(
    groups: Groups,
    b: BatchModel,
    n: nat,
    a: AggModel,
    name: Seq<char>,
    key: Seq<char>,
    v: Seq<u64>,
)
    requires
        names_differ(groups),
        group_is_of(groups, key, a.func, v),
        a.arg matches Some(ExprModel::Column { table, name: n }) && n == name,
        index_of(b.schema, name) is Some,
        column_named(b, name) is Float64 || column_named(b, name) is Int64 || column_named(b, name)
            is UInt64,
    ensures
        names_differ(groups_with_rows(groups, b, n, seq![a])),
        group_is_of(
            groups_with_rows(groups, b, n, seq![a]),
            key,
            a.func,
            v + group_numbers_in(b, n, key, name),
        ),
    decreases n,
{
    if n == 0 {
        assert(v + group_numbers_in(b, n, key, name) =~= v);
    } else {
        let m = (n - 1) as nat;
        lemma_group_takes_rows(groups, b, m, a, name, key, v);
        let before = groups_with_rows(groups, b, m, seq![a]);
        let w = v + group_numbers_in(b, m, key, name);
        row_is_counted_once(before, b, n - 1, seq![a]);
        lemma_group_takes_row(before, b, n - 1, a, name, key, w);
        assert(v + group_numbers_in(b, n, key, name) =~= if group_key(b, n - 1) == key {
            w.push(grouped_number(column_named(b, name), n - 1)->Some_0)
        } else {
            w
        });
    }
}

/// Rows are grouped by their key: where one aggregate reads a column of numbers, there is a
/// group for a key if and only if a row has it, it counts the rows that have it, and its sum,
/// least and greatest number are those of the numbers in just these rows.
pub proof fn group_is_of_its_rows(
    batches: Seq<BatchModel>,
    a: AggModel,
    name: Seq<char>,
    key: Seq<char>,
)
    requires
        a.arg matches Some(ExprModel::Column { table, name: n }) && n == name,
        numeric_in_all(batches, name),
    ensures
        group_is_of(groups_of(batches, seq![a]), key, a.func, group_numbers(batches, key, name)),
    decreases batches.len(),
{
    if batches.len() > 0 {
        let front = batches.drop_last();
        assert forall|b: int| 0 <= b < front.len() implies index_of(
            (#[trigger] front[b]).schema,
            name,
        ) is Some && (column_named(front[b], name) is Float64 || column_named(front[b], name) is Int64
            || column_named(front[b], name) is UInt64) by {
            assert(front[b] == batches[b]);
        }
        group_is_of_its_rows(front, a, name, key);
        groups_partition_rows(front, seq![a]);
        assert(batches.last() == batches[batches.len() - 1]);
        lemma_group_takes_rows(
            groups_of(front, seq![a]),
            batches.last(),
            batches.last().rows,
            a,
            name,
            key,
            group_numbers(front, key, name),
        );
    }
}

/// A row is grouped by its number in a first column of unsigned numbers: two rows are in one
/// group if they have the same number. Where the first column holds anything else, all rows
/// are one group.
pub proof fn rows_with_one_key_are_one_group(b: BatchModel, x: int, y: int)
    ensures
        b.columns[0] matches ColumnModel::UInt64(c) ==> (c.values[x] == c.values[y] <==> group_key(
            b,
            x,
        ) == group_key(b, y)) && group_key(b, x) == decimal(c.values[x] as nat),
        !(b.columns[0] is UInt64) ==> group_key(b, x) == group_key(b, y),
{
    match b.columns[0] {
        ColumnModel::UInt64(c) => {
            crate::text::decimal_reads_back(c.values[x] as nat);
            crate::text::decimal_reads_back(c.values[y] as nat);
        },
        _ => {},
    }
}

/// The columns of grouped rows: the names of the groups, and for each aggregate its value in
/// each group. A mean is the sum by the number of rows.
pub proof fn group_columns_hold_the_aggregates(
    groups: Groups,
    keys: nat,
    aggs: Seq<AggModel>,
    i: int,
    g: int,
)
    requires
        keys > 0,
        0 <= i < aggs.len(),
        0 <= g < groups.len(),
    ensures
        group_columns(groups, keys, aggs).len() == keys + aggs.len(),
        group_columns(groups, keys, aggs)[0] matches ColumnModel::Utf8(c) && c.values.len()
            == groups.len() && c.values[g] == groups[g].0 && c.valid[g],
        ({
            let out = group_columns(groups, keys, aggs)[keys + i];
            let func = aggs[i].func;
            let x = groups[g].1;
            &&& func == "count"@ ==> (out matches ColumnModel::Int64(c) && c.values.len()
                == groups.len() && c.values[g] == x.count as i64 && c.valid[g])
            &&& func != "count"@ ==> (out matches ColumnModel::Float64(c) && c.values.len()
                == groups.len() && c.valid[g])
            &&& func == "sum"@ ==> (out matches ColumnModel::Float64(c) && c.values[g] == x.sum)
            &&& func == "min"@ ==> (out matches ColumnModel::Float64(c) && c.values[g] == x.min)
            &&& func == "max"@ ==> (out matches ColumnModel::Float64(c) && c.values[g] == x.max)
            &&& func == "avg"@ && x.count > 0 ==> (out matches ColumnModel::Float64(c) && c.values[g]
                == float_result(FloatOp::Over, x.sum, unsigned_bits(x.count as u64)))
        }),
{
    lemma_names();
}

/// The columns of an aggregation: one for each grouping expression, named after its column or
/// `key`, and one for each aggregate under its name, of whole numbers for a count and of
/// floating-point numbers for all else. The groups come out as texts.
pub proof fn aggregates_come_out_under_their_names(
    keys: Seq<ExprModel>,
    aggs: Seq<AggModel>,
    batches: nat,
    k: int,
    i: int,
)
    ensures
        given_columns(batches, keys, aggs).len() == keys.len() + aggs.len(),
        0 <= k < keys.len() ==> {
            let f = given_columns(batches, keys, aggs)[k];
            &&& f.nullable
            &&& keys[k] matches ExprModel::Column { table, name } ==> f.name == name
            &&& !(keys[k] is Column) ==> f.name == "key"@
            &&& batches > 0 ==> f.data_type == DataType::Utf8
        },
        0 <= i < aggs.len() ==> {
            let f = given_columns(batches, keys, aggs)[keys.len() + i];
            &&& f.name == aggs[i].alias
            &&& !f.nullable
            &&& f.data_type == DataType::Int64 <==> aggs[i].func == "count"@
            &&& f.data_type == DataType::Int64 || f.data_type == DataType::Float64
        },
{
}

} // verus!
