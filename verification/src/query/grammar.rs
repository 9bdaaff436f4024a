//! Grammar of the query language.
//!
//! Each function says what stands in a list of tokens at a position: the phrase and the
//! position behind it, or the fault that is reported. A phrase is read from left to
//! right and never taken back. Operators bind, from the loosest to the tightest, as
//! `OR`, `AND`, `NOT`, comparisons and predicates, sums, products, signs.
//!
//! Every phrase takes at least one token; `ahead` says so where reading goes on behind
//! a phrase, which shows that it ends.

use crate::query::ast::{
    BinOp, ExprModel, JoinKind, JoinModel, LiteralModel, OrderModel, ProjectionModel, SelectModel,
    TableModel, UnaryOp,
};
use crate::query::interval::{interval_of, IntervalFault};
use crate::query::lexer::TokenModel;
use crate::text::lowercase;
use vstd::prelude::*;

verus! {

/// Why tokens are no statement.
pub enum ParseFault {
    ExpectedSelect(TokenModel),
    Expected { want: TokenModel, got: TokenModel },
    ExpectedIdent(TokenModel),
    ExpectedInt(TokenModel),
    ExpectedString(TokenModel),
    ExpectedInOrLike,
    Unexpected(TokenModel),
    Interval(IntervalFault),
}

/// A phrase and the position behind it, or a fault.
pub type Parsed<T> = Result<(T, nat), ParseFault>;

/// The token at `p`; behind the last one there are only end marks.
pub open spec fn tok(t: Seq<TokenModel>, p: nat) -> TokenModel {
    if p < t.len() {
        t[p as int]
    } else {
        TokenModel::Eof
    }
}

/// Whether `q` lies behind `p` and not behind the tokens.
pub open spec fn ahead(t: Seq<TokenModel>, p: nat, q: nat) -> bool {
    p < q && q <= t.len()
}

/// The token `want` at `p`.
pub open spec fn want_at(t: Seq<TokenModel>, p: nat, want: TokenModel) -> Parsed<()> {
    if tok(t, p) == want {
        Ok(((), p + 1))
    } else {
        Err(ParseFault::Expected { want, got: tok(t, p) })
    }
}

/// A name at `p`.
pub open spec fn ident_at(t: Seq<TokenModel>, p: nat) -> Parsed<Seq<char>> {
    match tok(t, p) {
        TokenModel::Ident(s) => Ok((s, p + 1)),
        other => Err(ParseFault::ExpectedIdent(other)),
    }
}

/// A whole number at `p`.
pub open spec fn int_at(t: Seq<TokenModel>, p: nat) -> Parsed<i64> {
    match tok(t, p) {
        TokenModel::IntLit(n) => Ok((n, p + 1)),
        other => Err(ParseFault::ExpectedInt(other)),
    }
}

/// A string at `p`.
pub open spec fn string_at(t: Seq<TokenModel>, p: nat) -> Parsed<Seq<char>> {
    match tok(t, p) {
        TokenModel::StrLit(s) => Ok((s, p + 1)),
        other => Err(ParseFault::ExpectedString(other)),
    }
}

pub open spec fn bin(op: BinOp, left: ExprModel, right: ExprModel) -> ExprModel {
    ExprModel::BinOp { op, left: Box::new(left), right: Box::new(right) }
}

pub open spec fn un(op: UnaryOp, operand: ExprModel) -> ExprModel {
    ExprModel::UnaryOp { op, operand: Box::new(operand) }
}

// ── Expressions ─────────────────────────────────────────────────────────────

/// An expression at `p`: disjuncts, from the left.
pub open spec fn expr_at(t: Seq<TokenModel>, p: nat) -> Parsed<ExprModel>
    decreases t.len() - p, 9nat,
{
    match and_at(t, p) {
        Err(f) => Err(f),
        Ok((left, q)) => if ahead(t, p, q) {
            or_rest(t, q, left)
        } else {
            Ok((left, q))
        },
    }
}

/// The disjuncts behind `left`.
pub open spec fn or_rest(t: Seq<TokenModel>, p: nat, left: ExprModel) -> Parsed<ExprModel>
    decreases t.len() - p, 9nat,
{
    if tok(t, p) is Or {
        match and_at(t, p + 1) {
            Err(f) => Err(f),
            Ok((right, q)) => if ahead(t, p, q) {
                or_rest(t, q, bin(BinOp::Or, left, right))
            } else {
                Ok((left, q))
            },
        }
    } else {
        Ok((left, p))
    }
}

/// Conjuncts at `p`, from the left.
pub open spec fn and_at(t: Seq<TokenModel>, p: nat) -> Parsed<ExprModel>
    decreases t.len() - p, 8nat,
{
    match not_at(t, p) {
        Err(f) => Err(f),
        Ok((left, q)) => if ahead(t, p, q) {
            and_rest(t, q, left)
        } else {
            Ok((left, q))
        },
    }
}

/// The conjuncts behind `left`.
pub open spec fn and_rest(t: Seq<TokenModel>, p: nat, left: ExprModel) -> Parsed<ExprModel>
    decreases t.len() - p, 8nat,
{
    if tok(t, p) is And {
        match not_at(t, p + 1) {
            Err(f) => Err(f),
            Ok((right, q)) => if ahead(t, p, q) {
                and_rest(t, q, bin(BinOp::And, left, right))
            } else {
                Ok((left, q))
            },
        }
    } else {
        Ok((left, p))
    }
}

/// A condition at `p`, with any number of negations in front.
pub open spec fn not_at(t: Seq<TokenModel>, p: nat) -> Parsed<ExprModel>
    decreases t.len() - p, 7nat,
{
    if tok(t, p) is Not {
        match not_at(t, p + 1) {
            Err(f) => Err(f),
            Ok((operand, q)) => Ok((un(UnaryOp::Not, operand), q)),
        }
    } else {
        comparison_at(t, p)
    }
}

/// The comparison that a token stands for.
pub open spec fn comparison_op(t: TokenModel) -> Option<BinOp> {
    match t {
        TokenModel::Eq => Some(BinOp::Eq),
        TokenModel::NotEq => Some(BinOp::NotEq),
        TokenModel::Lt => Some(BinOp::Lt),
        TokenModel::LtEq => Some(BinOp::LtEq),
        TokenModel::Gt => Some(BinOp::Gt),
        TokenModel::GtEq => Some(BinOp::GtEq),
        _ => None,
    }
}

/// An operand at `p`, and one comparison or predicate behind it, if there is one.
pub open spec fn comparison_at(t: Seq<TokenModel>, p: nat) -> Parsed<ExprModel>
    decreases t.len() - p, 6nat,
{
    match sum_at(t, p) {
        Err(f) => Err(f),
        Ok((left, q)) => if ahead(t, p, q) {
            predicate_at(t, q, left)
        } else {
            Ok((left, q))
        },
    }
}

/// The comparison or predicate of `left` at `p`, if there is one.
pub open spec fn predicate_at(t: Seq<TokenModel>, p: nat, left: ExprModel) -> Parsed<ExprModel>
    decreases t.len() - p, 6nat,
{
    match comparison_op(tok(t, p)) {
        Some(op) => match sum_at(t, p + 1) {
            Err(f) => Err(f),
            Ok((right, q)) => Ok((bin(op, left, right), q)),
        },
        None => match tok(t, p) {
            TokenModel::Is => null_test_at(t, p + 1, left),
            TokenModel::Between => between_at(t, p + 1, left),
            TokenModel::Not => negated_at(t, p + 1, left),
            TokenModel::In => in_at(t, p + 1, left),
            TokenModel::Like => like_at(t, p + 1, left, false),
            _ => Ok((left, p)),
        },
    }
}

/// What follows `IS` at `p`: `NULL`, with or without `NOT` in front.
pub open spec fn null_test_at(t: Seq<TokenModel>, p: nat, left: ExprModel) -> Parsed<ExprModel> {
    let negated = tok(t, p) is Not;
    match want_at(t, if negated { p + 1 } else { p }, TokenModel::Null) {
        Err(f) => Err(f),
        Ok((_, q)) => Ok(
            (
                if negated {
                    ExprModel::IsNotNull(Box::new(left))
                } else {
                    ExprModel::IsNull(Box::new(left))
                },
                q,
            ),
        ),
    }
}

/// The bounds of a `BETWEEN` at `p`.
pub open spec fn between_at(t: Seq<TokenModel>, p: nat, left: ExprModel) -> Parsed<ExprModel>
    decreases t.len() - p, 6nat,
{
    match sum_at(t, p) {
        Err(f) => Err(f),
        Ok((low, q)) => match want_at(t, q, TokenModel::And) {
            Err(f) => Err(f),
            Ok((_, r)) => if ahead(t, p, r) {
                match sum_at(t, r) {
                    Err(f) => Err(f),
                    Ok((high, s)) => Ok(
                        (
                            ExprModel::Between {
                                expr: Box::new(left),
                                low: Box::new(low),
                                high: Box::new(high),
                            },
                            s,
                        ),
                    ),
                }
            } else {
                Ok((left, r))
            },
        },
    }
}

/// What follows `NOT` behind an operand, at `p`: `IN` or `LIKE`.
pub open spec fn negated_at(t: Seq<TokenModel>, p: nat, left: ExprModel) -> Parsed<ExprModel>
    decreases t.len() - p, 6nat,
{
    match tok(t, p) {
        TokenModel::In => match in_at(t, p + 1, left) {
            Err(f) => Err(f),
            Ok((inside, q)) => Ok((un(UnaryOp::Not, inside), q)),
        },
        TokenModel::Like => like_at(t, p + 1, left, true),
        _ => Err(ParseFault::ExpectedInOrLike),
    }
}

/// The list of an `IN` at `p`.
pub open spec fn in_at(t: Seq<TokenModel>, p: nat, left: ExprModel) -> Parsed<ExprModel>
    decreases t.len() - p, 12nat,
{
    match in_list_at(t, p) {
        Err(f) => Err(f),
        Ok((list, q)) => Ok((ExprModel::In { expr: Box::new(left), list }, q)),
    }
}

/// The pattern of a `LIKE` at `p`.
pub open spec fn like_at(t: Seq<TokenModel>, p: nat, left: ExprModel, negated: bool) -> Parsed<
    ExprModel,
> {
    match string_at(t, p) {
        Err(f) => Err(f),
        Ok((pattern, q)) => Ok((ExprModel::Like { expr: Box::new(left), pattern, negated }, q)),
    }
}

/// A list of expressions in brackets at `p`.
pub open spec fn in_list_at(t: Seq<TokenModel>, p: nat) -> Parsed<Seq<ExprModel>>
    decreases t.len() - p, 11nat,
{
    match want_at(t, p, TokenModel::LParen) {
        Err(f) => Err(f),
        Ok((_, q)) => match list_at(t, q) {
            Err(f) => Err(f),
            Ok((list, r)) => match want_at(t, r, TokenModel::RParen) {
                Err(f) => Err(f),
                Ok((_, s)) => Ok((list, s)),
            },
        },
    }
}

/// Expressions at `p`, with commas between.
pub open spec fn list_at(t: Seq<TokenModel>, p: nat) -> Parsed<Seq<ExprModel>>
    decreases t.len() - p, 10nat,
{
    match expr_at(t, p) {
        Err(f) => Err(f),
        Ok((e, q)) => if ahead(t, p, q) {
            list_rest(t, q, seq![e])
        } else {
            Ok((seq![e], q))
        },
    }
}

/// The expressions of a list behind `items`.
pub open spec fn list_rest(t: Seq<TokenModel>, p: nat, items: Seq<ExprModel>) -> Parsed<
    Seq<ExprModel>,
>
    decreases t.len() - p, 10nat,
{
    if tok(t, p) is Comma {
        match expr_at(t, p + 1) {
            Err(f) => Err(f),
            Ok((e, q)) => if ahead(t, p, q) {
                list_rest(t, q, items.push(e))
            } else {
                Ok((items, q))
            },
        }
    } else {
        Ok((items, p))
    }
}

/// A sum at `p`, from the left.
pub open spec fn sum_at(t: Seq<TokenModel>, p: nat) -> Parsed<ExprModel>
    decreases t.len() - p, 5nat,
{
    match product_at(t, p) {
        Err(f) => Err(f),
        Ok((left, q)) => if ahead(t, p, q) {
            sum_rest(t, q, left)
        } else {
            Ok((left, q))
        },
    }
}

pub open spec fn sum_op(t: TokenModel) -> Option<BinOp> {
    match t {
        TokenModel::Plus => Some(BinOp::Add),
        TokenModel::Minus => Some(BinOp::Sub),
        _ => None,
    }
}

/// The terms behind `left`.
pub open spec fn sum_rest(t: Seq<TokenModel>, p: nat, left: ExprModel) -> Parsed<ExprModel>
    decreases t.len() - p, 5nat,
{
    match sum_op(tok(t, p)) {
        None => Ok((left, p)),
        Some(op) => match product_at(t, p + 1) {
            Err(f) => Err(f),
            Ok((right, q)) => if ahead(t, p, q) {
                sum_rest(t, q, bin(op, left, right))
            } else {
                Ok((left, q))
            },
        },
    }
}

/// A product at `p`, from the left.
pub open spec fn product_at(t: Seq<TokenModel>, p: nat) -> Parsed<ExprModel>
    decreases t.len() - p, 4nat,
{
    match unary_at(t, p) {
        Err(f) => Err(f),
        Ok((left, q)) => if ahead(t, p, q) {
            product_rest(t, q, left)
        } else {
            Ok((left, q))
        },
    }
}

pub open spec fn product_op(t: TokenModel) -> Option<BinOp> {
    match t {
        TokenModel::Star => Some(BinOp::Mul),
        TokenModel::Slash => Some(BinOp::Div),
        TokenModel::Percent => Some(BinOp::Mod),
        _ => None,
    }
}

/// The factors behind `left`.
pub open spec fn product_rest(t: Seq<TokenModel>, p: nat, left: ExprModel) -> Parsed<ExprModel>
    decreases t.len() - p, 4nat,
{
    match product_op(tok(t, p)) {
        None => Ok((left, p)),
        Some(op) => match unary_at(t, p + 1) {
            Err(f) => Err(f),
            Ok((right, q)) => if ahead(t, p, q) {
                product_rest(t, q, bin(op, left, right))
            } else {
                Ok((left, q))
            },
        },
    }
}

/// An operand at `p`, with any number of minus signs in front.
pub open spec fn unary_at(t: Seq<TokenModel>, p: nat) -> Parsed<ExprModel>
    decreases t.len() - p, 3nat,
{
    if tok(t, p) is Minus {
        match unary_at(t, p + 1) {
            Err(f) => Err(f),
            Ok((operand, q)) => Ok((un(UnaryOp::Neg, operand), q)),
        }
    } else {
        primary_at(t, p)
    }
}

/// A literal, a column, a call, a length of time or an expression in brackets at `p`.
pub open spec fn primary_at(t: Seq<TokenModel>, p: nat) -> Parsed<ExprModel>
    decreases t.len() - p, 2nat,
{
    match tok(t, p) {
        TokenModel::IntLit(n) => Ok((ExprModel::Literal(LiteralModel::Int(n)), p + 1)),
        TokenModel::FloatLit(b) => Ok((ExprModel::Literal(LiteralModel::Float(b)), p + 1)),
        TokenModel::StrLit(s) => Ok((ExprModel::Literal(LiteralModel::Str(s)), p + 1)),
        TokenModel::True => Ok((ExprModel::Literal(LiteralModel::Bool(true)), p + 1)),
        TokenModel::False => Ok((ExprModel::Literal(LiteralModel::Bool(false)), p + 1)),
        TokenModel::Null => Ok((ExprModel::Literal(LiteralModel::Null), p + 1)),
        TokenModel::Star => Ok((ExprModel::Star, p + 1)),
        TokenModel::LParen => match expr_at(t, p + 1) {
            Err(f) => Err(f),
            Ok((e, q)) => match want_at(t, q, TokenModel::RParen) {
                Err(f) => Err(f),
                Ok((_, r)) => Ok((e, r)),
            },
        },
        TokenModel::Interval => match string_at(t, p + 1) {
            Err(f) => Err(f),
            Ok((s, q)) => match interval_of(s) {
                Err(f) => Err(ParseFault::Interval(f)),
                Ok(ns) => Ok((ExprModel::Interval(ns), q)),
            },
        },
        TokenModel::Ident(name) => name_at(t, p + 1, name),
        other => Err(ParseFault::Unexpected(other)),
    }
}

/// What follows the name `name` at `p`: the column of a table, the arguments of a call,
/// or nothing, which makes the name a column.
pub open spec fn name_at(t: Seq<TokenModel>, p: nat, name: Seq<char>) -> Parsed<ExprModel>
    decreases t.len() - p, 12nat,
{
    match tok(t, p) {
        TokenModel::Dot => match ident_at(t, p + 1) {
            Err(f) => Err(f),
            Ok((column, q)) => Ok((ExprModel::Column { table: Some(name), name: column }, q)),
        },
        TokenModel::LParen => match args_at(t, p + 1) {
            Err(f) => Err(f),
            Ok((args, q)) => Ok((ExprModel::Function { name: lowercase(name), args }, q)),
        },
        _ => Ok((ExprModel::Column { table: None, name }, p)),
    }
}

/// The arguments of a call at `p`, behind its opening bracket, and the closing one.
pub open spec fn args_at(t: Seq<TokenModel>, p: nat) -> Parsed<Seq<ExprModel>>
    decreases t.len() - p, 11nat,
{
    if tok(t, p) is RParen {
        Ok((Seq::empty(), p + 1))
    } else {
        match list_at(t, p) {
            Err(f) => Err(f),
            Ok((args, q)) => match want_at(t, q, TokenModel::RParen) {
                Err(f) => Err(f),
                Ok((_, r)) => Ok((args, r)),
            },
        }
    }
}

// ── Statements ──────────────────────────────────────────────────────────────

/// An alias at `p`, with or without `AS`.
#[verifier::opaque]
pub open spec fn alias_at(t: Seq<TokenModel>, p: nat) -> Parsed<Option<Seq<char>>> {
    match tok(t, p) {
        TokenModel::As => match ident_at(t, p + 1) {
            Err(f) => Err(f),
            Ok((s, q)) => Ok((Some(s), q)),
        },
        TokenModel::Ident(s) => Ok((Some(s), p + 1)),
        _ => Ok((None, p)),
    }
}

/// A projection at `p`.
#[verifier::opaque]
pub open spec fn projection_at(t: Seq<TokenModel>, p: nat) -> Parsed<ProjectionModel> {
    if tok(t, p) is Star {
        Ok((ProjectionModel::Star, p + 1))
    } else {
        match expr_at(t, p) {
            Err(f) => Err(f),
            Ok((expr, q)) => match alias_at(t, q) {
                Err(f) => Err(f),
                Ok((alias, r)) => Ok((ProjectionModel::Expr { expr, alias }, r)),
            },
        }
    }
}

/// Projections at `p`, with commas between, behind `items`.
#[verifier::opaque]
pub open spec fn projections_at(t: Seq<TokenModel>, p: nat, items: Seq<ProjectionModel>) -> Parsed<
    Seq<ProjectionModel>,
>
    decreases t.len() - p,
{
    match projection_at(t, p) {
        Err(f) => Err(f),
        Ok((item, q)) => if tok(t, q) is Comma && ahead(t, p, q) {
            projections_at(t, q + 1, items.push(item))
        } else {
            Ok((items.push(item), q))
        },
    }
}

/// A table at `p`.
#[verifier::opaque]
pub open spec fn table_at(t: Seq<TokenModel>, p: nat) -> Parsed<TableModel> {
    match ident_at(t, p) {
        Err(f) => Err(f),
        Ok((name, q)) => match alias_at(t, q) {
            Err(f) => Err(f),
            Ok((alias, r)) => Ok((TableModel { name, alias }, r)),
        },
    }
}

/// The words that start a join at `p`; `None` if no join starts there.
#[verifier::opaque]
pub open spec fn join_kind_at(t: Seq<TokenModel>, p: nat) -> Option<Parsed<JoinKind>> {
    match tok(t, p) {
        TokenModel::Join => Some(Ok((JoinKind::Inner, p + 1))),
        TokenModel::Inner => Some(
            match want_at(t, p + 1, TokenModel::Join) {
                Err(f) => Err(f),
                Ok((_, q)) => Ok((JoinKind::Inner, q)),
            },
        ),
        TokenModel::Left => Some(outer_join_at(t, p + 1, JoinKind::Left)),
        TokenModel::Right => Some(outer_join_at(t, p + 1, JoinKind::Right)),
        _ => None,
    }
}

/// What follows `LEFT` or `RIGHT`: `JOIN`, with or without `INNER` in front.
pub open spec fn outer_join_at(t: Seq<TokenModel>, p: nat, kind: JoinKind) -> Parsed<JoinKind> {
    match want_at(t, if tok(t, p) is Inner { p + 1 } else { p }, TokenModel::Join) {
        Err(f) => Err(f),
        Ok((_, q)) => Ok((kind, q)),
    }
}

/// The table and the condition of a join at `p`.
pub open spec fn join_body_at(t: Seq<TokenModel>, p: nat, kind: JoinKind) -> Parsed<JoinModel> {
    match table_at(t, p) {
        Err(f) => Err(f),
        Ok((table, q)) => match want_at(t, q, TokenModel::On) {
            Err(f) => Err(f),
            Ok((_, r)) => match expr_at(t, r) {
                Err(f) => Err(f),
                Ok((condition, s)) => Ok((JoinModel { kind, table, condition }, s)),
            },
        },
    }
}

/// The joins at `p`, behind `items`.
#[verifier::opaque]
pub open spec fn joins_at(t: Seq<TokenModel>, p: nat, items: Seq<JoinModel>) -> Parsed<
    Seq<JoinModel>,
>
    decreases t.len() - p,
{
    match join_kind_at(t, p) {
        None => Ok((items, p)),
        Some(Err(f)) => Err(f),
        Some(Ok((kind, q))) => match join_body_at(t, q, kind) {
            Err(f) => Err(f),
            Ok((item, r)) => if ahead(t, p, r) {
                joins_at(t, r, items.push(item))
            } else {
                Ok((items, r))
            },
        },
    }
}

/// A condition at `p` behind the word `word`, if that stands there.
#[verifier::opaque]
pub open spec fn condition_at(t: Seq<TokenModel>, p: nat, word: TokenModel) -> Parsed<
    Option<ExprModel>,
> {
    if tok(t, p) == word {
        match expr_at(t, p + 1) {
            Err(f) => Err(f),
            Ok((e, q)) => Ok((Some(e), q)),
        }
    } else {
        Ok((None, p))
    }
}

/// The groups at `p`, none if there is no `GROUP BY`.
#[verifier::opaque]
pub open spec fn group_at(t: Seq<TokenModel>, p: nat) -> Parsed<Seq<ExprModel>> {
    if tok(t, p) is Group {
        match want_at(t, p + 1, TokenModel::By) {
            Err(f) => Err(f),
            Ok((_, q)) => list_at(t, q),
        }
    } else {
        Ok((Seq::empty(), p))
    }
}

/// An ordering at `p`; ascending unless it says otherwise.
#[verifier::opaque]
pub open spec fn order_item_at(t: Seq<TokenModel>, p: nat) -> Parsed<OrderModel> {
    match expr_at(t, p) {
        Err(f) => Err(f),
        Ok((expr, q)) => match tok(t, q) {
            TokenModel::Asc => Ok((OrderModel { expr, asc: true }, q + 1)),
            TokenModel::Desc => Ok((OrderModel { expr, asc: false }, q + 1)),
            _ => Ok((OrderModel { expr, asc: true }, q)),
        },
    }
}

/// Orderings at `p`, with commas between, behind `items`.
#[verifier::opaque]
pub open spec fn order_items_at(t: Seq<TokenModel>, p: nat, items: Seq<OrderModel>) -> Parsed<
    Seq<OrderModel>,
>
    decreases t.len() - p,
{
    match order_item_at(t, p) {
        Err(f) => Err(f),
        Ok((item, q)) => if tok(t, q) is Comma && ahead(t, p, q) {
            order_items_at(t, q + 1, items.push(item))
        } else {
            Ok((items.push(item), q))
        },
    }
}

/// The orderings at `p`, none if there is no `ORDER BY`.
#[verifier::opaque]
pub open spec fn order_at(t: Seq<TokenModel>, p: nat) -> Parsed<Seq<OrderModel>> {
    if tok(t, p) is Order {
        match want_at(t, p + 1, TokenModel::By) {
            Err(f) => Err(f),
            Ok((_, q)) => order_items_at(t, q, Seq::empty()),
        }
    } else {
        Ok((Seq::empty(), p))
    }
}

/// A number of rows at `p` behind the word `word`, if that stands there. A negative
/// number counts from the end of the range of 64 bits.
#[verifier::opaque]
pub open spec fn count_at(t: Seq<TokenModel>, p: nat, word: TokenModel) -> Parsed<Option<u64>> {
    if tok(t, p) == word {
        match int_at(t, p + 1) {
            Err(f) => Err(f),
            Ok((n, q)) => Ok((Some(n as u64), q)),
        }
    } else {
        Ok((None, p))
    }
}

/// What comes behind the joins of a select.
#[verifier::opaque]
pub open spec fn tail_at(
    t: Seq<TokenModel>,
    p: nat,
    projections: Seq<ProjectionModel>,
    from: TableModel,
    joins: Seq<JoinModel>,
) -> Parsed<SelectModel> {
    match condition_at(t, p, TokenModel::Where) {
        Err(f) => Err(f),
        Ok((filter, p1)) => match group_at(t, p1) {
            Err(f) => Err(f),
            Ok((group_by, p2)) => match condition_at(t, p2, TokenModel::Having) {
                Err(f) => Err(f),
                Ok((having, p3)) => match order_at(t, p3) {
                    Err(f) => Err(f),
                    Ok((order_by, p4)) => match count_at(t, p4, TokenModel::Limit) {
                        Err(f) => Err(f),
                        Ok((limit, p5)) => match count_at(t, p5, TokenModel::Offset) {
                            Err(f) => Err(f),
                            Ok((offset, p6)) => Ok(
                                (
                                    SelectModel {
                                        projections,
                                        from,
                                        joins,
                                        filter,
                                        group_by,
                                        having,
                                        order_by,
                                        limit,
                                        offset,
                                    },
                                    p6,
                                ),
                            ),
                        },
                    },
                },
            },
        },
    }
}

/// A select at `p`, which stands on its first word.
#[verifier::opaque]
pub open spec fn select_at(t: Seq<TokenModel>, p: nat) -> Parsed<SelectModel> {
    match want_at(t, p, TokenModel::Select) {
        Err(f) => Err(f),
        Ok((_, p1)) => {
            let p2 = if tok(t, p1) is Distinct {
                p1 + 1
            } else {
                p1
            };
            match projections_at(t, p2, Seq::empty()) {
                Err(f) => Err(f),
                Ok((projections, p3)) => match want_at(t, p3, TokenModel::From) {
                    Err(f) => Err(f),
                    Ok((_, p4)) => match table_at(t, p4) {
                        Err(f) => Err(f),
                        Ok((from, p5)) => match joins_at(t, p5, Seq::empty()) {
                            Err(f) => Err(f),
                            Ok((joins, p6)) => tail_at(t, p6, projections, from, joins),
                        },
                    },
                },
            }
        },
    }
}

/// The statement that tokens from `p` on make: a select, and a semicolon or none, up to
/// the end mark.
pub open spec fn statement_of(t: Seq<TokenModel>, p: nat) -> Result<SelectModel, ParseFault> {
    if !(tok(t, p) is Select) {
        Err(ParseFault::ExpectedSelect(tok(t, p)))
    } else {
        match select_at(t, p) {
            Err(f) => Err(f),
            Ok((s, q)) => {
                let r = if tok(t, q) is Semicolon {
                    q + 1
                } else {
                    q
                };
                match want_at(t, r, TokenModel::Eof) {
                    Err(f) => Err(f),
                    Ok(_) => Ok(s),
                }
            },
        }
    }
}

} // verus!
