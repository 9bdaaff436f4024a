//! Planner: from statements to logical plans, and from those to physical plans.

use crate::query::ast::{
    expr_view_lists, expr_views, join_views, opt_expr, order_views, projection_views, Expr,
    ExprModel, JoinKind, JoinModel, OrderByItem, OrderModel, Projection, ProjectionModel,
    SelectModel, SelectStatement, Statement,
};
use crate::query::catalog::{table_named, Catalog, DescModel};
use crate::query::error::QueryError;
use crate::query::optimizer::cost::{checked_rows, choose_join_strategy, strategy_for, total_rows};
use crate::text::{lowercase, str_eq, to_lowercase, views};
use vstd::prelude::*;

verus! {

// ── Plans ───────────────────────────────────────────────────────────────────

/// A scan of a table.
#[derive(Debug)]
pub struct ScanOp {
    pub table: String,
    pub predicate: Option<Expr>,
    pub projection: Option<Vec<String>>,
    /// Keys of the partitions to read; all partitions where it is `None`.
    pub partition_filter: Option<Vec<u64>>,
    pub limit: Option<u64>,
}

#[derive(Debug, Clone, Copy, PartialEq, Eq, Structural)]
pub enum JoinStrategy {
    NestedLoop,
    Hash,
    SortMerge,
}

/// An aggregate function over a column, and the name of its result.
#[derive(Debug)]
pub struct AggExpr {
    pub func: String,
    pub arg: Option<Expr>,
    pub alias: String,
}

#[derive(Debug)]
#[allow(inconsistent_fields)]
pub enum LogicalPlan {
    Scan(ScanOp),
    Filter { predicate: Expr, input: Box<LogicalPlan> },
    Project { columns: Vec<String>, input: Box<LogicalPlan> },
    Aggregate { keys: Vec<Expr>, aggregates: Vec<AggExpr>, input: Box<LogicalPlan> },
    Sort { keys: Vec<OrderByItem>, input: Box<LogicalPlan> },
    Limit { n: u64, offset: u64, input: Box<LogicalPlan> },
    Join { kind: JoinKind, left: Box<LogicalPlan>, right: Box<LogicalPlan>, condition: Expr },
}

/// A plan that can be executed.
#[derive(Debug)]
pub struct PhysicalPlan {
    pub logical: LogicalPlan,
    pub join_strategy: Option<JoinStrategy>,
    pub batch_size: usize,
}

/// The rows per batch of a physical plan.
pub const BATCH_SIZE: usize = 8192;

// ── Model ───────────────────────────────────────────────────────────────────

/// A scan as mathematical values.
pub struct ScanModel {
    pub table: Seq<char>,
    pub predicate: Option<ExprModel>,
    pub projection: Option<Seq<Seq<char>>>,
    pub partition_filter: Option<Seq<u64>>,
    pub limit: Option<u64>,
}

/// An aggregate as mathematical values.
pub struct AggModel {
    pub func: Seq<char>,
    pub arg: Option<ExprModel>,
    pub alias: Seq<char>,
}

/// A plan as a mathematical value.
#[allow(inconsistent_fields)]
pub enum PlanModel {
    Scan(ScanModel),
    Filter { predicate: ExprModel, input: Box<PlanModel> },
    Project { columns: Seq<Seq<char>>, input: Box<PlanModel> },
    Aggregate { keys: Seq<ExprModel>, aggregates: Seq<AggModel>, input: Box<PlanModel> },
    Sort { keys: Seq<OrderModel>, input: Box<PlanModel> },
    Limit { n: u64, offset: u64, input: Box<PlanModel> },
    Join { kind: JoinKind, left: Box<PlanModel>, right: Box<PlanModel>, condition: ExprModel },
}

/// An optional list of names as a mathematical value.
pub open spec fn opt_names(v: Option<Vec<String>>) -> Option<Seq<Seq<char>>> {
    match v {
        Some(names) => Some(views(names@)),
        None => None,
    }
}

/// An optional list of keys as a mathematical value.
pub open spec fn opt_keys(v: Option<Vec<u64>>) -> Option<Seq<u64>> {
    match v {
        Some(keys) => Some(keys@),
        None => None,
    }
}

impl View for ScanOp {
    type V = ScanModel;

    open spec fn view(&self) -> ScanModel {
        ScanModel {
            table: self.table@,
            predicate: opt_expr(self.predicate),
            projection: opt_names(self.projection),
            partition_filter: opt_keys(self.partition_filter),
            limit: self.limit,
        }
    }
}

impl View for AggExpr {
    type V = AggModel;

    open spec fn view(&self) -> AggModel {
        AggModel { func: self.func@, arg: opt_expr(self.arg), alias: self.alias@ }
    }
}

/// The views of a list of aggregates.
pub open spec fn agg_views(v: Seq<AggExpr>) -> Seq<AggModel> {
    v.map_values(|a: AggExpr| a@)
}

/// What a plan stands for.
pub open spec fn plan_view(p: LogicalPlan) -> PlanModel
    decreases p,
{
    match p {
        LogicalPlan::Scan(s) => PlanModel::Scan(s@),
        LogicalPlan::Filter { predicate, input } => PlanModel::Filter {
            predicate: predicate@,
            input: Box::new(plan_view(*input)),
        },
        LogicalPlan::Project { columns, input } => PlanModel::Project {
            columns: views(columns@),
            input: Box::new(plan_view(*input)),
        },
        LogicalPlan::Aggregate { keys, aggregates, input } => PlanModel::Aggregate {
            keys: expr_views(keys@),
            aggregates: agg_views(aggregates@),
            input: Box::new(plan_view(*input)),
        },
        LogicalPlan::Sort { keys, input } => PlanModel::Sort {
            keys: order_views(keys@),
            input: Box::new(plan_view(*input)),
        },
        LogicalPlan::Limit { n, offset, input } => PlanModel::Limit {
            n,
            offset,
            input: Box::new(plan_view(*input)),
        },
        LogicalPlan::Join { kind, left, right, condition } => PlanModel::Join {
            kind,
            left: Box::new(plan_view(*left)),
            right: Box::new(plan_view(*right)),
            condition: condition@,
        },
    }
}

impl View for LogicalPlan {
    type V = PlanModel;

    open spec fn view(&self) -> PlanModel {
        plan_view(*self)
    }
}

// ── From statements to plans ────────────────────────────────────────────────

/// A scan of a whole table.
pub open spec fn scan_of(table: Seq<char>, limit: Option<u64>) -> PlanModel {
    PlanModel::Scan(
        ScanModel {
            table,
            predicate: None,
            projection: None,
            partition_filter: None,
            limit,
        },
    )
}

/// A plan joined with each table in turn.
pub open spec fn joined(plan: PlanModel, joins: Seq<JoinModel>) -> PlanModel
    decreases joins.len(),
{
    if joins.len() == 0 {
        plan
    } else {
        let j = joins.last();
        PlanModel::Join {
            kind: j.kind,
            left: Box::new(joined(plan, joins.drop_last())),
            right: Box::new(scan_of(j.table.name, None)),
            condition: j.condition,
        }
    }
}

/// A plan behind a filter, if there is a condition.
pub open spec fn filtered(plan: PlanModel, condition: Option<ExprModel>) -> PlanModel {
    match condition {
        Some(predicate) => PlanModel::Filter { predicate, input: Box::new(plan) },
        None => plan,
    }
}

/// Whether a function in small letters is an aggregate.
pub open spec fn is_aggregate(name: Seq<char>) -> bool {
    name == "count"@ || name == "sum"@ || name == "avg"@ || name == "min"@ || name == "max"@
}

/// The aggregate that a projection asks for.
pub open spec fn aggregate_of(p: ProjectionModel) -> Option<AggModel> {
    match p {
        ProjectionModel::Expr { expr: ExprModel::Function { name, args }, alias } => if is_aggregate(
            lowercase(name),
        ) {
            Some(
                AggModel {
                    func: lowercase(name),
                    arg: if args.len() > 0 {
                        Some(args[0])
                    } else {
                        None
                    },
                    alias: match alias {
                        Some(a) => a,
                        None => name,
                    },
                },
            )
        } else {
            None
        },
        _ => None,
    }
}

/// The aggregates that projections ask for, in order.
pub open spec fn aggregates_of(ps: Seq<ProjectionModel>) -> Seq<AggModel>
    decreases ps.len(),
{
    if ps.len() == 0 {
        Seq::empty()
    } else {
        match aggregate_of(ps.last()) {
            Some(a) => aggregates_of(ps.drop_last()).push(a),
            None => aggregates_of(ps.drop_last()),
        }
    }
}

/// The name under which a projection comes out; only columns and projections with an
/// alias have one.
pub open spec fn output_name(p: ProjectionModel) -> Option<Seq<char>> {
    match p {
        ProjectionModel::Star => None,
        ProjectionModel::Expr { expr, alias } => match alias {
            Some(a) => Some(a),
            None => match expr {
                ExprModel::Column { table, name } => Some(name),
                _ => None,
            },
        },
    }
}

/// The names under which projections come out, in order.
pub open spec fn output_names(ps: Seq<ProjectionModel>) -> Seq<Seq<char>>
    decreases ps.len(),
{
    if ps.len() == 0 {
        Seq::empty()
    } else {
        match output_name(ps.last()) {
            Some(n) => output_names(ps.drop_last()).push(n),
            None => output_names(ps.drop_last()),
        }
    }
}

/// A plan behind an aggregation, if there is anything to aggregate or to group by.
pub open spec fn aggregated(
    plan: PlanModel,
    keys: Seq<ExprModel>,
    aggregates: Seq<AggModel>,
) -> PlanModel {
    if aggregates.len() > 0 || keys.len() > 0 {
        PlanModel::Aggregate { keys, aggregates, input: Box::new(plan) }
    } else {
        plan
    }
}

/// A plan behind a projection, if any column comes out by name.
pub open spec fn projected(plan: PlanModel, columns: Seq<Seq<char>>) -> PlanModel {
    if columns.len() > 0 {
        PlanModel::Project { columns, input: Box::new(plan) }
    } else {
        plan
    }
}

/// A plan behind a sort, if an order is asked for.
pub open spec fn sorted(plan: PlanModel, keys: Seq<OrderModel>) -> PlanModel {
    if keys.len() > 0 {
        PlanModel::Sort { keys, input: Box::new(plan) }
    } else {
        plan
    }
}

/// A plan behind a limit, if there is one. An offset counts only with a limit.
pub open spec fn limited(plan: PlanModel, limit: Option<u64>, offset: Option<u64>) -> PlanModel {
    match limit {
        Some(n) => PlanModel::Limit {
            n,
            offset: match offset {
                Some(k) => k,
                None => 0,
            },
            input: Box::new(plan),
        },
        None => plan,
    }
}

/// How many rows the scan of a select has to give: as many as are asked for, where the rows
/// come out as the scan gives them, and otherwise all.
pub open spec fn scan_limit(s: SelectModel) -> Option<u64> {
    if s.joins.len() == 0 && s.group_by.len() == 0 && aggregates_of(s.projections).len() == 0
        && s.having is None && s.order_by.len() == 0 && s.offset is None {
        s.limit
    } else {
        None
    }
}

/// The plan of a select: scan, joins, filter, aggregation, filter on groups, projection,
/// sort and limit, from the inside out.
pub open spec fn select_plan(s: SelectModel) -> PlanModel {
    let rows = filtered(joined(scan_of(s.from.name, scan_limit(s)), s.joins), s.filter);
    let groups = filtered(
        aggregated(rows, s.group_by, aggregates_of(s.projections)),
        s.having,
    );
    limited(sorted(projected(groups, output_names(s.projections)), s.order_by), s.limit, s.offset)
}

/// The table that a plan scans, below filters and projections.
pub open spec fn scan_table(p: PlanModel) -> Option<Seq<char>>
    decreases p,
{
    match p {
        PlanModel::Scan(s) => Some(s.table),
        PlanModel::Filter { predicate, input } => scan_table(*input),
        PlanModel::Project { columns, input } => scan_table(*input),
        _ => None,
    }
}

/// The rows of the table that a plan scans; the most there can be if that is not known.
pub open spec fn plan_rows(p: PlanModel, tables: Seq<DescModel>) -> nat {
    match scan_table(p) {
        Some(name) => match table_named(tables, name) {
            Some(t) => total_rows(t.stats),
            None => u64::MAX as nat,
        },
        None => u64::MAX as nat,
    }
}

/// The strategy for a join; none for a plan that is no join.
pub open spec fn join_strategy_of(p: PlanModel, tables: Seq<DescModel>) -> Option<JoinStrategy> {
    match p {
        PlanModel::Join { kind, left, right, condition } => Some(
            strategy_for(plan_rows(*left, tables), plan_rows(*right, tables)),
        ),
        _ => None,
    }
}

/// Whether the rows of the tables of a join can be counted in 64 bits.
pub open spec fn rows_countable(p: PlanModel, tables: Seq<DescModel>) -> bool {
    p matches PlanModel::Join { kind, left, right, condition } ==> plan_rows(*left, tables)
        <= u64::MAX && plan_rows(*right, tables) <= u64::MAX
}

// ── Planner ─────────────────────────────────────────────────────────────────

/// Makes plans for the tables of a catalog.
pub struct Planner<'a> {
    pub catalog: &'a Catalog,
}

impl<'a> Planner<'a> {
    /// A planner for the tables of a catalog.
    pub fn new(catalog: &'a Catalog) -> (p: Planner<'a>)
        ensures
            p.catalog == catalog,
    {
        Planner { catalog }
    }

    /// The plan of a statement. It never fails.
    pub fn plan_statement(&self, stmt: Statement) -> (out: Result<LogicalPlan, QueryError>)
        ensures
            out matches Ok(p) && p@ == select_plan(stmt@),
    {
        match stmt {
            Statement::Select(sel) => self.plan_select(sel),
        }
    }

    fn plan_select(&self, sel: SelectStatement) -> (out: Result<LogicalPlan, QueryError>)
        ensures
            out matches Ok(p) && p@ == select_plan(sel@),
    {
        let ghost s = sel@;
        let ghost base = scan_of(s.from.name, scan_limit(s));
        let SelectStatement {
            projections,
            from,
            joins,
            filter,
            group_by,
            having,
            order_by,
            limit,
            offset,
        } = sel;
        let (aggregates, _plain) = extract_aggregates(&projections);
        assert(agg_views(aggregates@).len() == aggregates@.len());
        assert(expr_views(group_by@).len() == group_by@.len());
        assert(order_views(order_by@).len() == order_by@.len());
        assert(join_views(joins@).len() == joins@.len());
        let as_scanned: bool = joins.len() == 0 && group_by.len() == 0 && aggregates.len() == 0
            && having.is_none() && order_by.len() == 0 && offset.is_none();
        let scanned: Option<u64> = if as_scanned {
            limit
        } else {
            None
        };
        let mut plan = whole_scan(from.name.as_str(), scanned);
        let ghost all_joins = join_views(joins@);
        assert(all_joins.take(0) =~= Seq::empty());
        for i in 0..joins.len()
            invariant
                all_joins == join_views(joins@),
                plan@ == joined(base, all_joins.take(i as int)),
        {
            assert(all_joins.take(i + 1).drop_last() =~= all_joins.take(i as int));
            assert(all_joins.take(i + 1).last() == joins@[i as int]@);
            let right = whole_scan(joins[i].table.name.as_str(), None);
            plan = LogicalPlan::Join {
                kind: joins[i].kind,
                left: Box::new(plan),
                right: Box::new(right),
                condition: joins[i].condition.duplicate(),
            };
        }
        assert(all_joins.take(all_joins.len() as int) =~= all_joins);
        if let Some(predicate) = filter {
            plan = LogicalPlan::Filter { predicate, input: Box::new(plan) };
        }
        let ghost rows = filtered(joined(base, all_joins), s.filter);
        assert(plan@ == rows);
        if aggregates.len() > 0 || group_by.len() > 0 {
            plan = LogicalPlan::Aggregate {
                keys: group_by,
                aggregates,
                input: Box::new(plan),
            };
        }
        assert(plan@ == aggregated(rows, s.group_by, aggregates_of(s.projections)));
        if let Some(predicate) = having {
            plan = LogicalPlan::Filter { predicate, input: Box::new(plan) };
        }
        let ghost groups = filtered(
            aggregated(rows, s.group_by, aggregates_of(s.projections)),
            s.having,
        );
        assert(plan@ == groups);
        let columns = named_outputs(&projections);
        assert(views(columns@).len() == columns@.len());
        if columns.len() > 0 {
            plan = LogicalPlan::Project { columns, input: Box::new(plan) };
        }
        assert(plan@ == projected(groups, output_names(s.projections)));
        if order_by.len() > 0 {
            plan = LogicalPlan::Sort { keys: order_by, input: Box::new(plan) };
        }
        assert(plan@ == sorted(projected(groups, output_names(s.projections)), s.order_by));
        if let Some(n) = limit {
            let offset: u64 = match offset {
                Some(k) => k,
                None => 0,
            };
            plan = LogicalPlan::Limit { n, offset, input: Box::new(plan) };
        }
        Ok(plan)
    }

    /// The physical plan of a logical one, unless the rows of the tables of a join cannot
    /// be counted.
    pub fn to_physical(&self, logical: LogicalPlan) -> (out: Result<PhysicalPlan, QueryError>)
        ensures
            match out {
                Ok(p) => rows_countable(logical@, self.catalog@) && p.logical == logical
                    && p.join_strategy == join_strategy_of(logical@, self.catalog@) && p.batch_size
                    == BATCH_SIZE,
                Err(e) => !rows_countable(logical@, self.catalog@) && (e matches QueryError::Abort(
                    t,
                ) && t@ == "attempt to add with overflow"@),
            },
    {
        match self.pick_join_strategy(&logical) {
            Ok(join_strategy) => Ok(
                PhysicalPlan { logical, join_strategy, batch_size: BATCH_SIZE },
            ),
            Err(e) => Err(e),
        }
    }

    fn pick_join_strategy(&self, plan: &LogicalPlan) -> (out: Result<
        Option<JoinStrategy>,
        QueryError,
    >)
        ensures
            match out {
                Ok(s) => rows_countable(plan@, self.catalog@) && s == join_strategy_of(
                    plan@,
                    self.catalog@,
                ),
                Err(e) => !rows_countable(plan@, self.catalog@) && (e matches QueryError::Abort(t)
                    && t@ == "attempt to add with overflow"@),
            },
    {
        match plan {
            LogicalPlan::Join { kind, left, right, condition } => {
                match (self.rows_of(left), self.rows_of(right)) {
                    (Some(l), Some(r)) => Ok(Some(choose_join_strategy(l, r))),
                    _ => Err(QueryError::Abort("attempt to add with overflow".to_string())),
                }
            },
            _ => Ok(None),
        }
    }

    /// The rows of the table that a plan scans, where they can be counted in 64 bits.
    fn rows_of(&self, plan: &LogicalPlan) -> (out: Option<u64>)
        ensures
            match out {
                Some(n) => n == plan_rows(plan@, self.catalog@),
                None => plan_rows(plan@, self.catalog@) > u64::MAX,
            },
    {
        match extract_scan_table(plan) {
            Some(name) => match self.catalog.get_table(name) {
                Ok(t) => checked_rows(&t.stats),
                Err(_) => Some(u64::MAX),
            },
            None => Some(u64::MAX),
        }
    }
}

fn whole_scan(table: &str, limit: Option<u64>) -> (p: LogicalPlan)
    ensures
        p@ == scan_of(table@, limit),
{
    LogicalPlan::Scan(
        ScanOp {
            table: table.to_string(),
            predicate: None,
            projection: None,
            partition_filter: None,
            limit,
        },
    )
}

fn extract_scan_table(plan: &LogicalPlan) -> (out: Option<&str>)
    ensures
        match out {
            Some(s) => scan_table(plan@) == Some(s@),
            None => scan_table(plan@) is None,
        },
    decreases plan,
{
    match plan {
        LogicalPlan::Scan(s) => Some(s.table.as_str()),
        LogicalPlan::Filter { predicate, input } => extract_scan_table(input),
        LogicalPlan::Project { columns, input } => extract_scan_table(input),
        _ => None,
    }
}

/// The columns that are projected as they are, without an alias.
pub open spec fn plain_columns(ps: Seq<ProjectionModel>) -> Seq<Seq<char>>
    decreases ps.len(),
{
    if ps.len() == 0 {
        Seq::empty()
    } else {
        let front = plain_columns(ps.drop_last());
        match ps.last() {
            ProjectionModel::Expr { expr: ExprModel::Column { table, name }, alias: None } =>
                front.push(name),
            _ => front,
        }
    }
}

fn is_aggregate_name(name: &str) -> (yes: bool)
    ensures
        yes == is_aggregate(name@),
{
    str_eq(name, "count") || str_eq(name, "sum") || str_eq(name, "avg") || str_eq(name, "min")
        || str_eq(name, "max")
}

/// The aggregates among projections, and the columns projected as they are.
fn extract_aggregates(projections: &Vec<Projection>) -> (out: (Vec<AggExpr>, Vec<String>))
    ensures
        agg_views(out.0@) == aggregates_of(projection_views(projections@)),
        views(out.1@) == plain_columns(projection_views(projections@)),
{
    let ghost ps = projection_views(projections@);
    let mut aggs: Vec<AggExpr> = Vec::new();
    let mut plain: Vec<String> = Vec::new();
    assert(ps.take(0) =~= Seq::empty());
    assert(agg_views(aggs@) =~= Seq::empty());
    assert(views(plain@) =~= Seq::empty());
    for i in 0..projections.len()
        invariant
            ps == projection_views(projections@),
            agg_views(aggs@) == aggregates_of(ps.take(i as int)),
            views(plain@) == plain_columns(ps.take(i as int)),
    {
        let ghost a0 = agg_views(aggs@);
        let ghost p0 = views(plain@);
        assert(ps.take(i + 1).drop_last() =~= ps.take(i as int));
        assert(ps.take(i + 1).last() == projections@[i as int]@);
        match &projections[i] {
            Projection::Expr { expr: Expr::Function { name, args }, alias } => {
                proof {
                    expr_view_lists(projections@[i as int]->Expr_expr);
                }
                let lname = to_lowercase(name.as_str());
                if is_aggregate_name(lname.as_str()) {
                    let arg: Option<Expr> = if args.len() > 0 {
                        Some(args[0].duplicate())
                    } else {
                        None
                    };
                    let out_alias = match alias {
                        Some(a) => a.clone(),
                        None => name.clone(),
                    };
                    let agg = AggExpr { func: lname, arg, alias: out_alias };
                    let ghost m = agg@;
                    aggs.push(agg);
                    assert(agg_views(aggs@) =~= a0.push(m));
                }
            },
            Projection::Expr { expr: Expr::Column { table, name }, alias: None } => {
                plain.push(name.clone());
                assert(views(plain@) =~= p0.push(name@));
            },
            _ => {},
        }
    }
    assert(ps.take(ps.len() as int) =~= ps);
    (aggs, plain)
}

/// The names under which projections come out.
fn named_outputs(projections: &Vec<Projection>) -> (out: Vec<String>)
    ensures
        views(out@) == output_names(projection_views(projections@)),
{
    let ghost ps = projection_views(projections@);
    let mut out: Vec<String> = Vec::new();
    assert(ps.take(0) =~= Seq::empty());
    assert(views(out@) =~= Seq::empty());
    for i in 0..projections.len()
        invariant
            ps == projection_views(projections@),
            views(out@) == output_names(ps.take(i as int)),
    {
        let ghost before = views(out@);
        assert(ps.take(i + 1).drop_last() =~= ps.take(i as int));
        assert(ps.take(i + 1).last() == projections@[i as int]@);
        match &projections[i] {
            Projection::Expr { expr, alias: Some(a) } => {
                out.push(a.clone());
                assert(views(out@) =~= before.push(a@));
            },
            Projection::Expr { expr: Expr::Column { table, name }, alias: None } => {
                out.push(name.clone());
                assert(views(out@) =~= before.push(name@));
            },
            _ => {},
        }
    }
    assert(ps.take(ps.len() as int) =~= ps);
    out
}

} // verus!
