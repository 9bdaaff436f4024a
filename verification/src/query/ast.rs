//! Syntax tree of the query language.
//!
//! A floating-point number is held as the bits of its IEEE 754 representation.

use crate::storage::zone_map::opt_text;
use vstd::prelude::*;

verus! {

// ── Statements ──────────────────────────────────────────────────────────────

#[derive(Debug)]
pub enum Statement {
    Select(SelectStatement),
}

#[derive(Debug)]
pub struct SelectStatement {
    pub projections: Vec<Projection>,
    pub from: TableRef,
    pub joins: Vec<JoinClause>,
    pub filter: Option<Expr>,
    pub group_by: Vec<Expr>,
    pub having: Option<Expr>,
    pub order_by: Vec<OrderByItem>,
    pub limit: Option<u64>,
    pub offset: Option<u64>,
}

#[derive(Debug)]
pub struct TableRef {
    pub name: String,
    pub alias: Option<String>,
}

#[derive(Debug)]
pub struct JoinClause {
    pub kind: JoinKind,
    pub table: TableRef,
    pub condition: Expr,
}

#[derive(Debug, Clone, Copy, PartialEq, Eq, Structural)]
pub enum JoinKind {
    Inner,
    Left,
    Right,
}

#[derive(Debug)]
pub enum Projection {
    Star,
    Expr { expr: Expr, alias: Option<String> },
}

#[derive(Debug)]
pub struct OrderByItem {
    pub expr: Expr,
    pub asc: bool,
}

// ── Expressions ─────────────────────────────────────────────────────────────

#[derive(Debug)]
#[allow(inconsistent_fields)]
pub enum Expr {
    // Leaves
    Column { table: Option<String>, name: String },
    Literal(Literal),
    Star,
    // Operators
    BinOp { op: BinOp, left: Box<Expr>, right: Box<Expr> },
    UnaryOp { op: UnaryOp, operand: Box<Expr> },
    // Predicates
    IsNull(Box<Expr>),
    IsNotNull(Box<Expr>),
    Between { expr: Box<Expr>, low: Box<Expr>, high: Box<Expr> },
    In { expr: Box<Expr>, list: Vec<Expr> },
    Like { expr: Box<Expr>, pattern: String, negated: bool },
    // Function calls
    Function { name: String, args: Vec<Expr> },
    // Temporal functions, resolved from calls
    TimeBucket { width_ns: i64, ts_expr: Box<Expr> },
    Rate { value_expr: Box<Expr>, window_ns: i64 },
    Delta { value_expr: Box<Expr>, window_ns: i64 },
    HistogramQuantile { q: u64, value_expr: Box<Expr>, buckets: u32 },
    Now,
    Interval(i64),
}

#[derive(Debug, Clone, Copy, PartialEq, Eq, Structural)]
pub enum BinOp {
    Add,
    Sub,
    Mul,
    Div,
    Mod,
    Eq,
    NotEq,
    Lt,
    LtEq,
    Gt,
    GtEq,
    And,
    Or,
}

#[derive(Debug, Clone, Copy, PartialEq, Eq, Structural)]
pub enum UnaryOp {
    Neg,
    Not,
}

#[derive(Debug)]
pub enum Literal {
    Int(i64),
    Float(u64),
    Str(String),
    Bool(bool),
    Null,
    IntervalNs(i64),
}

// ── Model ───────────────────────────────────────────────────────────────────

/// A literal as a mathematical value.
pub enum LiteralModel {
    Int(i64),
    Float(u64),
    Str(Seq<char>),
    Bool(bool),
    Null,
    IntervalNs(i64),
}

/// An expression as a mathematical value.
#[allow(inconsistent_fields)]
pub enum ExprModel {
    Column { table: Option<Seq<char>>, name: Seq<char> },
    Literal(LiteralModel),
    Star,
    BinOp { op: BinOp, left: Box<ExprModel>, right: Box<ExprModel> },
    UnaryOp { op: UnaryOp, operand: Box<ExprModel> },
    IsNull(Box<ExprModel>),
    IsNotNull(Box<ExprModel>),
    Between { expr: Box<ExprModel>, low: Box<ExprModel>, high: Box<ExprModel> },
    In { expr: Box<ExprModel>, list: Seq<ExprModel> },
    Like { expr: Box<ExprModel>, pattern: Seq<char>, negated: bool },
    Function { name: Seq<char>, args: Seq<ExprModel> },
    TimeBucket { width_ns: i64, ts_expr: Box<ExprModel> },
    Rate { value_expr: Box<ExprModel>, window_ns: i64 },
    Delta { value_expr: Box<ExprModel>, window_ns: i64 },
    HistogramQuantile { q: u64, value_expr: Box<ExprModel>, buckets: u32 },
    Now,
    Interval(i64),
}

impl View for Literal {
    type V = LiteralModel;

    open spec fn view(&self) -> LiteralModel {
        match self {
            Literal::Int(n) => LiteralModel::Int(*n),
            Literal::Float(b) => LiteralModel::Float(*b),
            Literal::Str(s) => LiteralModel::Str(s@),
            Literal::Bool(b) => LiteralModel::Bool(*b),
            Literal::Null => LiteralModel::Null,
            Literal::IntervalNs(n) => LiteralModel::IntervalNs(*n),
        }
    }
}

/// What an expression stands for.
pub open spec fn expr_view(e: Expr) -> ExprModel
    decreases e,
{
    match e {
        Expr::Column { table, name } => ExprModel::Column { table: opt_text(table), name: name@ },
        Expr::Literal(l) => ExprModel::Literal(l@),
        Expr::Star => ExprModel::Star,
        Expr::BinOp { op, left, right } => ExprModel::BinOp {
            op,
            left: Box::new(expr_view(*left)),
            right: Box::new(expr_view(*right)),
        },
        Expr::UnaryOp { op, operand } => ExprModel::UnaryOp {
            op,
            operand: Box::new(expr_view(*operand)),
        },
        Expr::IsNull(x) => ExprModel::IsNull(Box::new(expr_view(*x))),
        Expr::IsNotNull(x) => ExprModel::IsNotNull(Box::new(expr_view(*x))),
        Expr::Between { expr, low, high } => ExprModel::Between {
            expr: Box::new(expr_view(*expr)),
            low: Box::new(expr_view(*low)),
            high: Box::new(expr_view(*high)),
        },
        Expr::In { expr, list } => ExprModel::In {
            expr: Box::new(expr_view(*expr)),
            list: Seq::new(
                list@.len(),
                |i: int|
                    if 0 <= i < list@.len() {
                        expr_view(list@[i])
                    } else {
                        arbitrary()
                    },
            ),
        },
        Expr::Like { expr, pattern, negated } => ExprModel::Like {
            expr: Box::new(expr_view(*expr)),
            pattern: pattern@,
            negated,
        },
        Expr::Function { name, args } => ExprModel::Function {
            name: name@,
            args: Seq::new(
                args@.len(),
                |i: int|
                    if 0 <= i < args@.len() {
                        expr_view(args@[i])
                    } else {
                        arbitrary()
                    },
            ),
        },
        Expr::TimeBucket { width_ns, ts_expr } => ExprModel::TimeBucket {
            width_ns,
            ts_expr: Box::new(expr_view(*ts_expr)),
        },
        Expr::Rate { value_expr, window_ns } => ExprModel::Rate {
            value_expr: Box::new(expr_view(*value_expr)),
            window_ns,
        },
        Expr::Delta { value_expr, window_ns } => ExprModel::Delta {
            value_expr: Box::new(expr_view(*value_expr)),
            window_ns,
        },
        Expr::HistogramQuantile { q, value_expr, buckets } => ExprModel::HistogramQuantile {
            q,
            value_expr: Box::new(expr_view(*value_expr)),
            buckets,
        },
        Expr::Now => ExprModel::Now,
        Expr::Interval(n) => ExprModel::Interval(n),
    }
}

impl View for Expr {
    type V = ExprModel;

    open spec fn view(&self) -> ExprModel {
        expr_view(*self)
    }
}

/// A list of expressions as mathematical values.
pub open spec fn expr_views(v: Seq<Expr>) -> Seq<ExprModel> {
    Seq::new(v.len(), |i: int| expr_view(v[i]))
}

/// The lists inside an expression, in the form of `expr_views`.
pub proof fn expr_view_lists(e: Expr)
    ensures
        e matches Expr::In { expr, list } ==> e@ == (ExprModel::In {
            expr: Box::new(expr@),
            list: expr_views(list@),
        }),
        e matches Expr::Function { name, args } ==> e@ == (ExprModel::Function {
            name: name@,
            args: expr_views(args@),
        }),
{
    match e {
        Expr::In { expr, list } => {
            assert(e@->In_list =~= expr_views(list@));
        },
        Expr::Function { name, args } => {
            assert(e@->Function_args =~= expr_views(args@));
        },
        _ => {},
    }
}

/// An optional expression as a mathematical value.
pub open spec fn opt_expr(e: Option<Expr>) -> Option<ExprModel> {
    match e {
        Some(x) => Some(x@),
        None => None,
    }
}

/// A table reference as mathematical values.
pub struct TableModel {
    pub name: Seq<char>,
    pub alias: Option<Seq<char>>,
}

impl View for TableRef {
    type V = TableModel;

    open spec fn view(&self) -> TableModel {
        TableModel { name: self.name@, alias: opt_text(self.alias) }
    }
}

/// A join as mathematical values.
pub struct JoinModel {
    pub kind: JoinKind,
    pub table: TableModel,
    pub condition: ExprModel,
}

impl View for JoinClause {
    type V = JoinModel;

    open spec fn view(&self) -> JoinModel {
        JoinModel { kind: self.kind, table: self.table@, condition: self.condition@ }
    }
}

/// A projection as a mathematical value.
pub enum ProjectionModel {
    Star,
    Expr { expr: ExprModel, alias: Option<Seq<char>> },
}

impl View for Projection {
    type V = ProjectionModel;

    open spec fn view(&self) -> ProjectionModel {
        match self {
            Projection::Star => ProjectionModel::Star,
            Projection::Expr { expr, alias } => ProjectionModel::Expr {
                expr: expr@,
                alias: opt_text(*alias),
            },
        }
    }
}

/// An ordering as mathematical values.
pub struct OrderModel {
    pub expr: ExprModel,
    pub asc: bool,
}

impl View for OrderByItem {
    type V = OrderModel;

    open spec fn view(&self) -> OrderModel {
        OrderModel { expr: self.expr@, asc: self.asc }
    }
}

/// A select statement as mathematical values.
pub struct SelectModel {
    pub projections: Seq<ProjectionModel>,
    pub from: TableModel,
    pub joins: Seq<JoinModel>,
    pub filter: Option<ExprModel>,
    pub group_by: Seq<ExprModel>,
    pub having: Option<ExprModel>,
    pub order_by: Seq<OrderModel>,
    pub limit: Option<u64>,
    pub offset: Option<u64>,
}

/// The views of a list of projections.
pub open spec fn projection_views(v: Seq<Projection>) -> Seq<ProjectionModel> {
    v.map_values(|p: Projection| p@)
}

/// The views of a list of joins.
pub open spec fn join_views(v: Seq<JoinClause>) -> Seq<JoinModel> {
    v.map_values(|j: JoinClause| j@)
}

/// The views of a list of orderings.
pub open spec fn order_views(v: Seq<OrderByItem>) -> Seq<OrderModel> {
    v.map_values(|o: OrderByItem| o@)
}

impl View for SelectStatement {
    type V = SelectModel;

    open spec fn view(&self) -> SelectModel {
        SelectModel {
            projections: projection_views(self.projections@),
            from: self.from@,
            joins: join_views(self.joins@),
            filter: opt_expr(self.filter),
            group_by: expr_views(self.group_by@),
            having: opt_expr(self.having),
            order_by: order_views(self.order_by@),
            limit: self.limit,
            offset: self.offset,
        }
    }
}

impl View for Statement {
    type V = SelectModel;

    open spec fn view(&self) -> SelectModel {
        match self {
            Statement::Select(s) => s@,
        }
    }
}

// ── Copies ──────────────────────────────────────────────────────────────────

/// A copy of an optional text.
pub fn duplicate_text(s: &Option<String>) -> (out: Option<String>)
    ensures
        opt_text(out) == opt_text(*s),
{
    match s {
        Some(t) => Some(t.clone()),
        None => None,
    }
}

impl Literal {
    /// A copy of this literal.
    pub fn duplicate(&self) -> (out: Literal)
        ensures
            out@ == self@,
    {
        match self {
            Literal::Int(n) => Literal::Int(*n),
            Literal::Float(b) => Literal::Float(*b),
            Literal::Str(s) => Literal::Str(s.clone()),
            Literal::Bool(b) => Literal::Bool(*b),
            Literal::Null => Literal::Null,
            Literal::IntervalNs(n) => Literal::IntervalNs(*n),
        }
    }
}

impl Expr {
    /// A copy of this expression.
    pub fn duplicate(&self) -> (out: Expr)
        ensures
            out@ == self@,
        decreases self,
    {
        let out = match self {
            Expr::Column { table, name } => Expr::Column {
                table: duplicate_text(table),
                name: name.clone(),
            },
            Expr::Literal(l) => Expr::Literal(l.duplicate()),
            Expr::Star => Expr::Star,
            Expr::BinOp { op, left, right } => Expr::BinOp {
                op: *op,
                left: Box::new(left.duplicate()),
                right: Box::new(right.duplicate()),
            },
            Expr::UnaryOp { op, operand } => Expr::UnaryOp {
                op: *op,
                operand: Box::new(operand.duplicate()),
            },
            Expr::IsNull(x) => Expr::IsNull(Box::new(x.duplicate())),
            Expr::IsNotNull(x) => Expr::IsNotNull(Box::new(x.duplicate())),
            Expr::Between { expr, low, high } => Expr::Between {
                expr: Box::new(expr.duplicate()),
                low: Box::new(low.duplicate()),
                high: Box::new(high.duplicate()),
            },
            Expr::In { expr, list } => {
                let mut copy: Vec<Expr> = Vec::new();
                for i in 0..list.len()
                    invariant
                        self matches Expr::In { expr: e, list: l } && list == &l,
                        copy@.len() == i,
                        forall|j: int| 0 <= j < i ==> (#[trigger] copy@[j])@ == list@[j]@,
                {
                    copy.push(list[i].duplicate());
                }
                assert(expr_views(copy@) =~= expr_views(list@));
                Expr::In { expr: Box::new(expr.duplicate()), list: copy }
            },
            Expr::Like { expr, pattern, negated } => Expr::Like {
                expr: Box::new(expr.duplicate()),
                pattern: pattern.clone(),
                negated: *negated,
            },
            Expr::Function { name, args } => {
                let mut copy: Vec<Expr> = Vec::new();
                for i in 0..args.len()
                    invariant
                        self matches Expr::Function { name: n, args: a } && args == &a,
                        copy@.len() == i,
                        forall|j: int| 0 <= j < i ==> (#[trigger] copy@[j])@ == args@[j]@,
                {
                    copy.push(args[i].duplicate());
                }
                assert(expr_views(copy@) =~= expr_views(args@));
                Expr::Function { name: name.clone(), args: copy }
            },
            Expr::TimeBucket { width_ns, ts_expr } => Expr::TimeBucket {
                width_ns: *width_ns,
                ts_expr: Box::new(ts_expr.duplicate()),
            },
            Expr::Rate { value_expr, window_ns } => Expr::Rate {
                value_expr: Box::new(value_expr.duplicate()),
                window_ns: *window_ns,
            },
            Expr::Delta { value_expr, window_ns } => Expr::Delta {
                value_expr: Box::new(value_expr.duplicate()),
                window_ns: *window_ns,
            },
            Expr::HistogramQuantile { q, value_expr, buckets } => Expr::HistogramQuantile {
                q: *q,
                value_expr: Box::new(value_expr.duplicate()),
                buckets: *buckets,
            },
            Expr::Now => Expr::Now,
            Expr::Interval(n) => Expr::Interval(*n),
        };
        proof {
            expr_view_lists(*self);
            expr_view_lists(out);
        }
        out
    }
}

/// A copy of a list of expressions.
pub fn duplicate_exprs(v: &Vec<Expr>) -> (out: Vec<Expr>)
    ensures
        expr_views(out@) == expr_views(v@),
{
    let mut out: Vec<Expr> = Vec::new();
    for i in 0..v.len()
        invariant
            out@.len() == i,
            forall|j: int| 0 <= j < i ==> (#[trigger] out@[j])@ == v@[j]@,
    {
        out.push(v[i].duplicate());
    }
    assert(expr_views(out@) =~= expr_views(v@));
    out
}

// ── Texts ───────────────────────────────────────────────────────────────────

/// An operator as it is written.
pub open spec fn op_text(op: BinOp) -> Seq<char> {
    match op {
        BinOp::Add => "+"@,
        BinOp::Sub => "-"@,
        BinOp::Mul => "*"@,
        BinOp::Div => "/"@,
        BinOp::Mod => "%"@,
        BinOp::Eq => "="@,
        BinOp::NotEq => "!="@,
        BinOp::Lt => "<"@,
        BinOp::LtEq => "<="@,
        BinOp::Gt => ">"@,
        BinOp::GtEq => ">="@,
        BinOp::And => "AND"@,
        BinOp::Or => "OR"@,
    }
}

impl BinOp {
    /// The operator as it is written.
    pub fn text(&self) -> (out: &'static str)
        ensures
            out@ == op_text(*self),
    {
        match self {
            BinOp::Add => "+",
            BinOp::Sub => "-",
            BinOp::Mul => "*",
            BinOp::Div => "/",
            BinOp::Mod => "%",
            BinOp::Eq => "=",
            BinOp::NotEq => "!=",
            BinOp::Lt => "<",
            BinOp::LtEq => "<=",
            BinOp::Gt => ">",
            BinOp::GtEq => ">=",
            BinOp::And => "AND",
            BinOp::Or => "OR",
        }
    }
}

impl TableRef {
    /// The table as it is written in a query.
    pub fn text(&self) -> (out: String)
        ensures
            out@ == match self.alias {
                Some(a) => self.name@ + " AS "@ + a@,
                None => self.name@,
            },
    {
        let mut out = self.name.clone();
        match &self.alias {
            Some(a) => {
                out.append(" AS ");
                out.append(a.as_str());
            },
            None => {},
        }
        out
    }
}

} // verus!
