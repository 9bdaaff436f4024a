//! Operators that are asked for one batch after the other.

use crate::common::schema::{FieldModel, Schema};
use crate::query::ast::{expr_views, order_views, Expr, ExprModel, OrderByItem};
use crate::columnar::batch::{
    batch_at, batch_at_is_well_formed, batch_filtered, batch_views, batch_wf, batches_fit,
    batches_joined, batches_joined_is_well_formed, rows_total, span, Batch, BatchModel,
};
use crate::query::error::QueryError;
use crate::query::executor::aggregate::{
    aggregate, aggregation, given_columns, output_schema, result_schema,
};
use crate::query::executor::rows::{is_sorted_output, sort_gives_all_rows_in_order};
use crate::query::executor::sort::{sort_batches, sort_result};
use crate::query::functions::compute::{reports_eval, EvalFault};
use crate::query::functions::eval::{eval_filter, filter_of};
use crate::query::planner::{agg_views, AggExpr};
use vstd::prelude::*;

verus! {

// ── Operators ───────────────────────────────────────────────────────────────

/// Gives out batches that were read.
pub struct ScanOperator {
    pub schema: Schema,
    pub batches: Vec<Batch>,
    pub batch_size: usize,
}

/// Keeps the rows for which a condition holds.
pub struct FilterOperator {
    pub child: Box<Operator>,
    pub predicate: Expr,
}

/// Aggregates all rows. Once that is done it has no child any more.
pub struct AggregateOperator {
    pub child: Option<Box<Operator>>,
    pub group_by_keys: Vec<Expr>,
    pub aggregates: Vec<AggExpr>,
    pub out_schema: Schema,
    pub result: Option<Batch>,
}

/// Sorts all rows. Once that is done it has no child any more.
pub struct SortOperator {
    pub child: Option<Box<Operator>>,
    pub keys: Vec<OrderByItem>,
    pub result: Vec<Batch>,
}

/// Leaves out the first rows, and ends after a number of rows.
pub struct LimitOperator {
    pub child: Box<Operator>,
    pub remaining: u64,
    pub skip: u64,
}

/// A tree of operators.
pub enum Operator {
    Scan(ScanOperator),
    Filter(FilterOperator),
    Aggregate(AggregateOperator),
    Sort(SortOperator),
    Limit(LimitOperator),
}

// ── Streams ─────────────────────────────────────────────────────────────────

/// What an operator gives: batches, then an end or a fault.
pub struct Stream {
    pub batches: Seq<BatchModel>,
    pub fault: Option<EvalFault>,
}

/// A stream that ends at once.
pub open spec fn ended() -> Stream {
    Stream { batches: Seq::empty(), fault: None }
}

/// A stream that fails at once.
pub open spec fn failed(f: EvalFault) -> Stream {
    Stream { batches: Seq::empty(), fault: Some(f) }
}

/// A stream with a batch in front.
pub open spec fn with_first(b: BatchModel, s: Stream) -> Stream {
    Stream { batches: seq![b] + s.batches, fault: s.fault }
}

/// A stream without its first batch.
pub open spec fn behind_first(s: Stream) -> Stream {
    Stream { batches: s.batches.skip(1), fault: s.fault }
}

/// A stream with only the rows for which a condition holds. Batches without such rows
/// are left out. The first condition that cannot be computed ends it.
pub open spec fn filtered_stream(s: Stream, predicate: ExprModel, now_ns: i64) -> Stream
    decreases s.batches.len(),
{
    if s.batches.len() == 0 {
        s
    } else {
        match filter_of(s.batches[0], predicate, now_ns) {
            Err(f) => failed(f),
            Ok(mask) => match batch_filtered(s.batches[0], mask) {
                Err(t) => failed(EvalFault::Arrow(t)),
                Ok(b) => if b.rows > 0 {
                    with_first(b, filtered_stream(behind_first(s), predicate, now_ns))
                } else {
                    filtered_stream(behind_first(s), predicate, now_ns)
                },
            },
        }
    }
}

/// A stream without its first `skip` rows and with at most `remaining` rows. What would
/// come behind them, a fault too, is not asked for.
pub open spec fn limited_stream(s: Stream, remaining: nat, skip: nat) -> Stream
    decreases s.batches.len(),
{
    if remaining == 0 {
        ended()
    } else if s.batches.len() == 0 {
        s
    } else {
        let b = s.batches[0];
        if skip >= b.rows {
            limited_stream(behind_first(s), remaining, (skip - b.rows) as nat)
        } else {
            let take = if b.rows - skip < remaining {
                (b.rows - skip) as nat
            } else {
                remaining
            };
            with_first(
                batch_at(b, span(skip as int, (skip + take) as int)),
                limited_stream(behind_first(s), (remaining - take) as nat, 0),
            )
        }
    }
}

/// A stream of the batches of a list.
pub open spec fn stream_of_list(v: Seq<BatchModel>) -> Stream {
    Stream { batches: v, fault: None }
}

/// What an operator gives, at the time `now_ns`.
pub open spec fn stream_of(op: Operator, now_ns: i64) -> Stream
    decreases op,
{
    match op {
        Operator::Scan(s) => stream_of_list(batch_views(s.batches@)),
        Operator::Filter(f) => filtered_stream(stream_of(*f.child, now_ns), f.predicate@, now_ns),
        Operator::Limit(l) => limited_stream(
            stream_of(*l.child, now_ns),
            l.remaining as nat,
            l.skip as nat,
        ),
        Operator::Sort(s) => match s.child {
            None => stream_of_list(batch_views(s.result@)),
            Some(child) => {
                let input = stream_of(*child, now_ns);
                match input.fault {
                    Some(f) => failed(f),
                    None => match sort_result(input.batches, order_views(s.keys@)) {
                        Err(f) => failed(f),
                        Ok(v) => stream_of_list(v),
                    },
                }
            },
        },
        Operator::Aggregate(a) => match a.child {
            None => match a.result {
                Some(b) => stream_of_list(seq![b@]),
                None => ended(),
            },
            Some(child) => {
                let input = stream_of(*child, now_ns);
                match input.fault {
                    Some(f) => failed(f),
                    None => match aggregation(
                        input.batches,
                        expr_views(a.group_by_keys@),
                        agg_views(a.aggregates@),
                    ) {
                        Err(f) => failed(f),
                        Ok(b) => stream_of_list(seq![b]),
                    },
                }
            },
        },
    }
}

/// The columns that an operator announces.
pub open spec fn schema_of(op: Operator) -> Seq<FieldModel>
    decreases op,
{
    match op {
        Operator::Scan(s) => s.schema@,
        Operator::Filter(f) => schema_of(*f.child),
        Operator::Limit(l) => schema_of(*l.child),
        Operator::Sort(s) => match s.child {
            Some(child) => schema_of(*child),
            None => if s.result@.len() > 0 {
                s.result@[0]@.schema
            } else {
                Seq::empty()
            },
        },
        Operator::Aggregate(a) => a.out_schema@,
    }
}

/// The columns of the batches that an operator gives. They are those that it announces, save
/// that the groups of an aggregation come out as texts.
pub open spec fn given_schema(op: Operator, now_ns: i64) -> Seq<FieldModel>
    decreases op,
{
    match op {
        Operator::Scan(s) => s.schema@,
        Operator::Filter(f) => given_schema(*f.child, now_ns),
        Operator::Limit(l) => given_schema(*l.child, now_ns),
        Operator::Sort(s) => match s.child {
            Some(child) => given_schema(*child, now_ns),
            None => schema_of(op),
        },
        Operator::Aggregate(a) => match a.child {
            Some(child) => given_columns(
                stream_of(*child, now_ns).batches.len(),
                expr_views(a.group_by_keys@),
                agg_views(a.aggregates@),
            ),
            None => match a.result {
                Some(b) => b@.schema,
                None => a.out_schema@,
            },
        },
    }
}

/// Whether the batches inside a tree of operators fit their schemas.
pub open spec fn op_wf(op: Operator) -> bool
    decreases op,
{
    match op {
        Operator::Scan(s) => batches_fit(batch_views(s.batches@), s.schema@),
        Operator::Filter(f) => op_wf(*f.child),
        Operator::Limit(l) => op_wf(*l.child),
        Operator::Sort(s) => match s.child {
            Some(child) => op_wf(*child),
            None => batches_fit(batch_views(s.result@), schema_of(op)),
        },
        Operator::Aggregate(a) => {
            &&& a.out_schema@ == result_schema(expr_views(a.group_by_keys@), agg_views(a.aggregates@))
            &&& match a.child {
                Some(child) => op_wf(*child),
                None => a.result matches Some(b) ==> batch_wf(b@),
            }
        },
    }
}

/// The height of a tree of operators.
pub open spec fn height(op: Operator) -> nat
    decreases op,
{
    match op {
        Operator::Scan(s) => 0,
        Operator::Filter(f) => 1 + height(*f.child),
        Operator::Limit(l) => 1 + height(*l.child),
        Operator::Sort(s) => match s.child {
            Some(child) => 1 + height(*child),
            None => 0,
        },
        Operator::Aggregate(a) => match a.child {
            Some(child) => 1 + height(*child),
            None => 0,
        },
    }
}

// ── Lemmas ──────────────────────────────────────────────────────────────────

proof fn lemma_filtered_fits(s: Stream, predicate: ExprModel, now_ns: i64, schema: Seq<FieldModel>)
    requires
        batches_fit(s.batches, schema),
    ensures
        batches_fit(filtered_stream(s, predicate, now_ns).batches, schema),
    decreases s.batches.len(),
{
    if s.batches.len() > 0 {
        let rest = behind_first(s);
        assert forall|i: int| 0 <= i < rest.batches.len() implies batch_wf(
            #[trigger] rest.batches[i],
        ) && rest.batches[i].schema == schema by {
            assert(rest.batches[i] == s.batches[i + 1]);
        }
        lemma_filtered_fits(rest, predicate, now_ns, schema);
        let b = s.batches[0];
        assert(batch_wf(b) && b.schema == schema);
        match filter_of(b, predicate, now_ns) {
            Ok(mask) => {
                batch_at_is_well_formed(
                    b,
                    crate::columnar::batch::rows_where(mask, mask.values.len()),
                );
            },
            Err(_) => {},
        }
    }
}

proof fn lemma_limited_fits(s: Stream, remaining: nat, skip: nat, schema: Seq<FieldModel>)
    requires
        batches_fit(s.batches, schema),
    ensures
        batches_fit(limited_stream(s, remaining, skip).batches, schema),
    decreases s.batches.len(),
{
    if s.batches.len() > 0 && remaining > 0 {
        let rest = behind_first(s);
        assert forall|i: int| 0 <= i < rest.batches.len() implies batch_wf(
            #[trigger] rest.batches[i],
        ) && rest.batches[i].schema == schema by {
            assert(rest.batches[i] == s.batches[i + 1]);
        }
        let b = s.batches[0];
        assert(batch_wf(b) && b.schema == schema);
        if skip >= b.rows {
            lemma_limited_fits(rest, remaining, (skip - b.rows) as nat, schema);
        } else {
            let take = if b.rows - skip < remaining {
                (b.rows - skip) as nat
            } else {
                remaining
            };
            lemma_limited_fits(rest, (remaining - take) as nat, 0, schema);
            batch_at_is_well_formed(b, span(skip as int, (skip + take) as int));
        }
    }
}

proof fn lemma_sorted_fits(
    batches: Seq<BatchModel>,
    items: Seq<crate::query::ast::OrderModel>,
    schema: Seq<FieldModel>,
)
    requires
        batches_fit(batches, schema),
    ensures
        sort_result(batches, items) matches Ok(v) ==> batches_fit(v, schema),
{
    if batches.len() > 0 {
        batches_joined_is_well_formed(batches, schema);
        let b = batches_joined(batches);
        let keys = crate::query::executor::sort::sort_keys(b, items);
        batch_at_is_well_formed(
            b,
            crate::columnar::column::row_numbers(
                crate::query::order::sorted_rows(
                    crate::query::executor::sort::rows_order(keys),
                    b.rows,
                ),
            ),
        );
    }
}

/// What an operator gives are well-formed batches of its columns.
pub proof fn stream_fits_schema(op: Operator, now_ns: i64)
    requires
        op_wf(op),
    ensures
        batches_fit(stream_of(op, now_ns).batches, given_schema(op, now_ns)),
    decreases op,
{
    match op {
        Operator::Scan(s) => {},
        Operator::Filter(f) => {
            stream_fits_schema(*f.child, now_ns);
            lemma_filtered_fits(
                stream_of(*f.child, now_ns),
                f.predicate@,
                now_ns,
                given_schema(*f.child, now_ns),
            );
        },
        Operator::Limit(l) => {
            stream_fits_schema(*l.child, now_ns);
            lemma_limited_fits(
                stream_of(*l.child, now_ns),
                l.remaining as nat,
                l.skip as nat,
                given_schema(*l.child, now_ns),
            );
        },
        Operator::Sort(s) => {
            match s.child {
                Some(child) => {
                    stream_fits_schema(*child, now_ns);
                    lemma_sorted_fits(
                        stream_of(*child, now_ns).batches,
                        order_views(s.keys@),
                        given_schema(*child, now_ns),
                    );
                },
                None => {},
            }
        },
        Operator::Aggregate(a) => {
            match a.child {
                Some(child) => {
                    crate::query::executor::aggregate::aggregation_is_well_formed(
                        stream_of(*child, now_ns).batches,
                        expr_views(a.group_by_keys@),
                        agg_views(a.aggregates@),
                    );
                },
                None => {},
            }
        },
    }
}

// ── Asking for batches ──────────────────────────────────────────────────────

/// Whether `out` is the first thing that `before` gives, and `after` what then is left.
pub open spec fn is_next(
    out: Result<Option<Batch>, QueryError>,
    before: Stream,
    after: Stream,
) -> bool {
    match out {
        Ok(Some(b)) => before.batches.len() > 0 && b@ == before.batches[0] && batch_wf(b@) && after
            == behind_first(before),
        Ok(None) => before == ended() && after == ended(),
        Err(e) => before.batches.len() == 0 && (before.fault matches Some(f) && reports_eval(e, f)),
    }
}

impl Operator {
    /// The columns that the operator announces.
    pub fn schema(&self) -> (out: Schema)
        ensures
            out@ == schema_of(*self),
        decreases self,
    {
        match self {
            Operator::Scan(s) => s.schema.duplicate(),
            Operator::Filter(f) => f.child.schema(),
            Operator::Limit(l) => l.child.schema(),
            Operator::Sort(s) => match &s.child {
                Some(child) => child.schema(),
                None => if s.result.len() > 0 {
                    s.result[0].schema.duplicate()
                } else {
                    let none = Schema { fields: Vec::new() };
                    assert(none@ =~= Seq::empty());
                    none
                },
            },
            Operator::Aggregate(a) => a.out_schema.duplicate(),
        }
    }

    /// The next batch; `None` at the end. Behind an error there is nothing to ask for.
    pub fn poll_next(&mut self, now_ns: i64) -> (out: Result<Option<Batch>, QueryError>)
        requires
            op_wf(*old(self)),
        ensures
            is_next(out, stream_of(*old(self), now_ns), stream_of(*final(self), now_ns)),
            out is Ok ==> op_wf(*final(self)),
            height(*final(self)) <= height(*old(self)),
            (*old(self) matches Operator::Limit(l) && l.remaining == 0) ==> (out matches Ok(None))
                && *final(self) == *old(self),
        decreases height(*old(self)), 2nat,
    {
        match self {
            Operator::Scan(s) => s.poll_next(Ghost(now_ns)),
            Operator::Filter(f) => f.poll_next(now_ns),
            Operator::Limit(l) => l.poll_next(now_ns),
            Operator::Sort(s) => s.next_batch(now_ns),
            Operator::Aggregate(a) => a.poll_next(now_ns),
        }
    }

    /// All batches.
    pub fn collect(&mut self, now_ns: i64) -> (out: Result<Vec<Batch>, QueryError>)
        requires
            op_wf(*old(self)),
        ensures
            ({
                let all = stream_of(*old(self), now_ns);
                match (out, all.fault) {
                    (Ok(v), None) => batch_views(v@) == all.batches && batches_fit(
                        batch_views(v@),
                        given_schema(*old(self), now_ns),
                    ),
                    (Err(e), Some(f)) => reports_eval(e, f),
                    _ => false,
                }
            }),
        decreases height(*old(self)), 3nat,
    {
        let ghost all = stream_of(*self, now_ns);
        proof {
            stream_fits_schema(*self, now_ns);
        }
        let mut out: Vec<Batch> = Vec::new();
        assert(batch_views(out@) =~= Seq::empty());
        assert(all.batches.skip(0) =~= all.batches);
        loop
            invariant
                op_wf(*self),
                height(*self) <= height(*old(self)),
                all == stream_of(*old(self), now_ns),
                batches_fit(all.batches, given_schema(*old(self), now_ns)),
                out@.len() <= all.batches.len(),
                batch_views(out@) == all.batches.take(out@.len() as int),
                stream_of(*self, now_ns).batches == all.batches.skip(out@.len() as int),
                stream_of(*self, now_ns).fault == all.fault,
            decreases all.batches.len() - out@.len(),
        {
            let ghost before = stream_of(*self, now_ns);
            let ghost n = out@.len() as int;
            assert(before.batches.len() == all.batches.len() - n);
            match self.poll_next(now_ns) {
                Ok(Some(b)) => {
                    let ghost m = b@;
                    assert(m == all.batches[n]);
                    out.push(b);
                    assert(batch_views(out@) =~= all.batches.take(n + 1));
                    assert(all.batches.skip(n).skip(1) =~= all.batches.skip(n + 1));
                },
                Ok(None) => {
                    assert(all.batches.take(n) =~= all.batches);
                    return Ok(out);
                },
                Err(e) => {
                    return Err(e);
                },
            }
        }
    }
}

impl ScanOperator {
    fn poll_next(&mut self, Ghost(now_ns): Ghost<i64>) -> (out: Result<Option<Batch>, QueryError>)
        requires
            op_wf(Operator::Scan(*old(self))),
        ensures
            is_next(
                out,
                stream_of(Operator::Scan(*old(self)), now_ns),
                stream_of(Operator::Scan(*final(self)), now_ns),
            ),
            op_wf(Operator::Scan(*final(self))),
    {
        let ghost all = batch_views(self.batches@);
        assert(all.len() == self.batches@.len());
        if self.batches.len() == 0 {
            assert(all =~= Seq::empty());
            return Ok(None);
        }
        let b = self.batches.remove(0);
        assert(b@ == all[0]);
        assert(batch_views(self.batches@) =~= all.skip(1));
        Ok(Some(b))
    }
}

impl FilterOperator {
    /// A filter above an operator.
    pub fn new(child: Box<Operator>, predicate: Expr) -> (f: FilterOperator)
        ensures
            f.child == child,
            f.predicate == predicate,
    {
        FilterOperator { child, predicate }
    }

    /// The next batch; `None` at the end.
    pub fn poll_next(&mut self, now_ns: i64) -> (out: Result<Option<Batch>, QueryError>)
        requires
            op_wf(Operator::Filter(*old(self))),
        ensures
            is_next(
                out,
                stream_of(Operator::Filter(*old(self)), now_ns),
                stream_of(Operator::Filter(*final(self)), now_ns),
            ),
            out is Ok ==> op_wf(Operator::Filter(*final(self))),
            height(Operator::Filter(*final(self))) <= height(Operator::Filter(*old(self))),
        decreases height(Operator::Filter(*old(self))), 0nat,
    {
        let ghost all = stream_of(Operator::Filter(*self), now_ns);
        loop
            invariant
                op_wf(*self.child),
                self.predicate == old(self).predicate,
                height(*self.child) <= height(*old(self).child),
                all == stream_of(Operator::Filter(*old(self)), now_ns),
                all == filtered_stream(
                    stream_of(*self.child, now_ns),
                    self.predicate@,
                    now_ns,
                ),
            decreases stream_of(*self.child, now_ns).batches.len(),
        {
            let ghost before = stream_of(*self.child, now_ns);
            match self.child.poll_next(now_ns) {
                Ok(None) => {
                    return Ok(None);
                },
                Ok(Some(batch)) => {
                    let mask = match eval_filter(&batch, &self.predicate, now_ns) {
                        Ok(m) => m,
                        Err(e) => return Err(e),
                    };
                    let out = match batch.filter(&mask) {
                        Ok(b) => b,
                        Err(t) => return Err(QueryError::Arrow(t)),
                    };
                    if out.rows > 0 {
                        let ghost rest = filtered_stream(
                            behind_first(before),
                            self.predicate@,
                            now_ns,
                        );
                        assert(behind_first(with_first(out@, rest)).batches =~= rest.batches);
                        return Ok(Some(out));
                    }
                },
                Err(e) => {
                    return Err(e);
                },
            }
        }
    }
}

impl LimitOperator {
    /// A limit above an operator.
    pub fn new(child: Box<Operator>, limit: u64, offset: u64) -> (l: LimitOperator)
        ensures
            l.child == child,
            l.remaining == limit,
            l.skip == offset,
    {
        LimitOperator { child, remaining: limit, skip: offset }
    }

    /// The next batch; `None` at the end. Once the asked rows are out, the child is not asked
    /// any more.
    pub fn poll_next(&mut self, now_ns: i64) -> (out: Result<Option<Batch>, QueryError>)
        requires
            op_wf(Operator::Limit(*old(self))),
        ensures
            is_next(
                out,
                stream_of(Operator::Limit(*old(self)), now_ns),
                stream_of(Operator::Limit(*final(self)), now_ns),
            ),
            out is Ok ==> op_wf(Operator::Limit(*final(self))),
            height(Operator::Limit(*final(self))) <= height(Operator::Limit(*old(self))),
            old(self).remaining == 0 ==> (out matches Ok(None)) && *final(self) == *old(self),
        decreases height(Operator::Limit(*old(self))), 0nat,
    {
        let ghost all = stream_of(Operator::Limit(*self), now_ns);
        if self.remaining == 0 {
            return Ok(None);
        }
        loop
            invariant
                op_wf(*self.child),
                self.remaining > 0,
                old(self).remaining > 0,
                height(*self.child) <= height(*old(self).child),
                all == stream_of(Operator::Limit(*old(self)), now_ns),
                all == limited_stream(
                    stream_of(*self.child, now_ns),
                    self.remaining as nat,
                    self.skip as nat,
                ),
            decreases stream_of(*self.child, now_ns).batches.len(),
        {
            let ghost before = stream_of(*self.child, now_ns);
            match self.child.poll_next(now_ns) {
                Ok(None) => {
                    return Ok(None);
                },
                Ok(Some(batch)) => {
                    let rows: u64 = batch.rows as u64;
                    if self.skip >= rows {
                        self.skip = self.skip - rows;
                    } else {
                        let start: usize = self.skip as usize;
                        let left: u64 = rows - self.skip;
                        let take: u64 = if left < self.remaining {
                            left
                        } else {
                            self.remaining
                        };
                        self.skip = 0;
                        self.remaining = self.remaining - take;
                        let out = batch.slice(start, take as usize);
                        let ghost rest = limited_stream(
                            behind_first(before),
                            self.remaining as nat,
                            0,
                        );
                        assert(behind_first(with_first(out@, rest)).batches =~= rest.batches);
                        return Ok(Some(out));
                    }
                },
                Err(e) => {
                    return Err(e);
                },
            }
        }
    }
}

impl SortOperator {
    /// A sort above an operator.
    pub fn new(child: Box<Operator>, keys: Vec<OrderByItem>) -> (s: SortOperator)
        ensures
            s.child == Some(child),
            s.keys == keys,
    {
        SortOperator { child: Some(child), keys, result: Vec::new() }
    }

    fn materialize(&mut self, now_ns: i64) -> (out: Result<(), QueryError>)
        requires
            op_wf(Operator::Sort(*old(self))),
            old(self).child is Some,
        ensures
            match out {
                Ok(()) => final(self).child is None && op_wf(Operator::Sort(*final(self)))
                    && stream_of(Operator::Sort(*final(self)), now_ns) == stream_of(
                    Operator::Sort(*old(self)),
                    now_ns,
                ),
                Err(e) => {
                    let s = stream_of(Operator::Sort(*old(self)), now_ns);
                    s.batches.len() == 0 && (s.fault matches Some(f) && reports_eval(e, f))
                },
            },
            height(Operator::Sort(*final(self))) <= height(Operator::Sort(*old(self))),
        decreases height(Operator::Sort(*old(self))), 0nat,
    {
        if let Some(child) = self.child.take() {
            let mut op = *child;
            let ghost schema = given_schema(op, now_ns);
            let batches = match op.collect(now_ns) {
                Ok(v) => v,
                Err(e) => return Err(e),
            };
            assert(batches@.len() > 0 ==> batches@[0]@.schema == schema) by {
                if batches@.len() > 0 {
                    assert(batch_views(batches@)[0] == batches@[0]@);
                }
            }
            match sort_batches(batches, &self.keys) {
                Ok(v) => {
                    self.result = v;
                    proof {
                        if v@.len() > 0 {
                            assert(batch_views(v@)[0] == v@[0]@);
                        }
                        assert(batch_views(v@).len() == v@.len());
                    }
                },
                Err(e) => return Err(e),
            }
        }
        Ok(())
    }

    /// Whether `out` is what the first call has to give, if this was it and the child gives
    /// batches and does not fail: all rows in order. Then nothing is left for later calls.
    pub open spec fn gives_sorted_rows(
        &self,
        out: Result<Option<Batch>, QueryError>,
        after: SortOperator,
        now_ns: i64,
    ) -> bool {
        match self.child {
            Some(child) => {
                let input = stream_of(*child, now_ns);
                input.fault is None && input.batches.len() > 0 && rows_total(input.batches)
                    <= usize::MAX ==> {
                    &&& out matches Ok(Some(b)) && is_sorted_output(
                        b@,
                        input.batches,
                        order_views(self.keys@),
                    )
                    &&& stream_of(Operator::Sort(after), now_ns) == ended()
                }
            },
            None => true,
        }
    }

    /// The next batch; `None` at the end. The first call gives all rows in order.
    pub fn poll_next(&mut self, now_ns: i64) -> (out: Result<Option<Batch>, QueryError>)
        requires
            op_wf(Operator::Sort(*old(self))),
        ensures
            is_next(
                out,
                stream_of(Operator::Sort(*old(self)), now_ns),
                stream_of(Operator::Sort(*final(self)), now_ns),
            ),
            out is Ok ==> op_wf(Operator::Sort(*final(self))),
            old(self).gives_sorted_rows(out, *final(self), now_ns),
    {
        let ghost before = *self;
        let out = self.next_batch(now_ns);
        proof {
            before.lemma_gives_sorted_rows(out, *self, now_ns);
        }
        out
    }

    proof fn lemma_gives_sorted_rows(
        &self,
        out: Result<Option<Batch>, QueryError>,
        after: SortOperator,
        now_ns: i64,
    )
        requires
            op_wf(Operator::Sort(*self)),
            is_next(
                out,
                stream_of(Operator::Sort(*self), now_ns),
                stream_of(Operator::Sort(after), now_ns),
            ),
        ensures
            self.gives_sorted_rows(out, after, now_ns),
    {
        if let Some(child) = self.child {
            let input = stream_of(*child, now_ns);
            if input.fault is None && input.batches.len() > 0 && rows_total(input.batches)
                <= usize::MAX {
                sort_gives_all_rows_in_order(*self, now_ns);
                let all = stream_of(Operator::Sort(*self), now_ns);
                assert(behind_first(all).batches =~= Seq::empty());
            }
        }
    }

    fn next_batch(&mut self, now_ns: i64) -> (out: Result<Option<Batch>, QueryError>)
        requires
            op_wf(Operator::Sort(*old(self))),
        ensures
            is_next(
                out,
                stream_of(Operator::Sort(*old(self)), now_ns),
                stream_of(Operator::Sort(*final(self)), now_ns),
            ),
            out is Ok ==> op_wf(Operator::Sort(*final(self))),
            height(Operator::Sort(*final(self))) <= height(Operator::Sort(*old(self))),
        decreases height(Operator::Sort(*old(self))), 1nat,
    {
        if self.child.is_some() {
            match self.materialize(now_ns) {
                Ok(()) => {},
                Err(e) => return Err(e),
            }
        }
        let ghost all = batch_views(self.result@);
        assert(all.len() == self.result@.len());
        if self.result.len() == 0 {
            assert(all =~= Seq::empty());
            return Ok(None);
        }
        let ghost schema = schema_of(Operator::Sort(*self));
        let b = self.result.remove(0);
        assert(b@ == all[0]);
        assert(batch_views(self.result@) =~= all.skip(1));
        assert(self.result@.len() > 0 ==> self.result@[0]@.schema == schema) by {
            if self.result@.len() > 0 {
                assert(all[1] == self.result@[0]@);
            }
        }
        Ok(Some(b))
    }
}

impl AggregateOperator {
    /// An aggregation above an operator.
    pub fn new(child: Box<Operator>, keys: Vec<Expr>, aggregates: Vec<AggExpr>) -> (a: AggregateOperator)
        ensures
            a.child == Some(child),
            a.group_by_keys == keys,
            a.aggregates == aggregates,
            a.out_schema@ == result_schema(expr_views(keys@), agg_views(aggregates@)),
    {
        let out_schema = output_schema(&keys, &aggregates);
        AggregateOperator {
            child: Some(child),
            group_by_keys: keys,
            aggregates,
            out_schema,
            result: None,
        }
    }

    fn compute(&mut self, now_ns: i64) -> (out: Result<(), QueryError>)
        requires
            op_wf(Operator::Aggregate(*old(self))),
            old(self).child is Some,
        ensures
            match out {
                Ok(()) => final(self).child is None && op_wf(Operator::Aggregate(*final(self)))
                    && stream_of(Operator::Aggregate(*final(self)), now_ns) == stream_of(
                    Operator::Aggregate(*old(self)),
                    now_ns,
                ),
                Err(e) => {
                    let s = stream_of(Operator::Aggregate(*old(self)), now_ns);
                    s.batches.len() == 0 && (s.fault matches Some(f) && reports_eval(e, f))
                },
            },
            height(Operator::Aggregate(*final(self))) <= height(Operator::Aggregate(*old(self))),
        decreases height(Operator::Aggregate(*old(self))), 0nat,
    {
        if let Some(child) = self.child.take() {
            let mut op = *child;
            let batches = match op.collect(now_ns) {
                Ok(v) => v,
                Err(e) => return Err(e),
            };
            assert forall|i: int| 0 <= i < batches@.len() implies batch_wf(
                (#[trigger] batches@[i])@,
            ) by {
                assert(batch_views(batches@)[i] == batches@[i]@);
            }
            proof {
                crate::query::executor::aggregate::aggregation_is_well_formed(
                    batch_views(batches@),
                    expr_views(self.group_by_keys@),
                    agg_views(self.aggregates@),
                );
            }
            match aggregate(&batches, &self.group_by_keys, &self.aggregates) {
                Ok(b) => {
                    self.result = Some(b);
                },
                Err(e) => return Err(e),
            }
        }
        Ok(())
    }

    /// The next batch; `None` at the end.
    pub fn poll_next(&mut self, now_ns: i64) -> (out: Result<Option<Batch>, QueryError>)
        requires
            op_wf(Operator::Aggregate(*old(self))),
        ensures
            is_next(
                out,
                stream_of(Operator::Aggregate(*old(self)), now_ns),
                stream_of(Operator::Aggregate(*final(self)), now_ns),
            ),
            out is Ok ==> op_wf(Operator::Aggregate(*final(self))),
            height(Operator::Aggregate(*final(self))) <= height(Operator::Aggregate(*old(self))),
        decreases height(Operator::Aggregate(*old(self))), 1nat,
    {
        if self.child.is_some() {
            match self.compute(now_ns) {
                Ok(()) => {},
                Err(e) => return Err(e),
            }
        }
        let out = self.result.take();
        proof {
            match &out {
                Some(b) => {
                    assert(seq![b@].skip(1) =~= Seq::empty());
                },
                None => {},
            }
        }
        Ok(out)
    }
}

// ── Laws ────────────────────────────────────────────────────────────────────

pub(crate) proof fn lemma_rows_first(b: BatchModel, v: Seq<BatchModel>)
    ensures
        rows_total(seq![b] + v) == b.rows + rows_total(v),
    decreases v.len(),
{
    let all = seq![b] + v;
    if v.len() > 0 {
        lemma_rows_first(b, v.drop_last());
        assert(all.drop_last() =~= seq![b] + v.drop_last());
    } else {
        assert(all.drop_last() =~= Seq::empty());
        assert(all.last() == b);
        reveal_with_fuel(rows_total, 2);
    }
}

/// A limit gives out at most as many rows as it says. Where nothing fails, these are all
/// rows behind those that were left out, as far as they go.
pub proof fn limit_counts_rows(s: Stream, remaining: nat, skip: nat)
    ensures
        rows_total(limited_stream(s, remaining, skip).batches) <= remaining,
        limited_stream(s, remaining, skip).fault is None ==> rows_total(
            limited_stream(s, remaining, skip).batches,
        ) == ({
            let left = if rows_total(s.batches) < skip {
                0
            } else {
                rows_total(s.batches) - skip
            };
            if left < remaining {
                left
            } else {
                remaining as int
            }
        }),
    decreases s.batches.len(),
{
    if remaining > 0 && s.batches.len() > 0 {
        let b = s.batches[0];
        let rest = behind_first(s);
        assert(s.batches =~= seq![b] + rest.batches);
        lemma_rows_first(b, rest.batches);
        if skip >= b.rows {
            limit_counts_rows(rest, remaining, (skip - b.rows) as nat);
        } else {
            let take = if b.rows - skip < remaining {
                (b.rows - skip) as nat
            } else {
                remaining
            };
            limit_counts_rows(rest, (remaining - take) as nat, 0);
            let first = batch_at(b, span(skip as int, (skip + take) as int));
            lemma_rows_first(first, limited_stream(rest, (remaining - take) as nat, 0).batches);
        }
    }
}

} // verus!
