//! Recursive-descent parser of the query language.

use crate::query::ast::{
    expr_view_lists, expr_views, join_views, opt_expr, order_views, projection_views, BinOp, Expr,
    ExprModel, JoinClause, JoinKind, JoinModel, Literal, OrderByItem, OrderModel, Projection,
    SelectStatement, Statement, TableRef, UnaryOp,
};
use crate::query::error::{ParseError, QueryError};
use crate::query::grammar::{
    alias_at, and_at, and_rest, args_at, between_at, bin, comparison_at, condition_at, count_at,
    expr_at, group_at, in_at, in_list_at, int_at, join_kind_at, joins_at, like_at, list_at,
    list_rest, name_at, negated_at, not_at, null_test_at, or_rest, order_at, order_item_at,
    order_items_at, predicate_at, primary_at, product_at, product_op, product_rest, projection_at,
    projections_at, select_at, statement_of, string_at, sum_at, sum_op, sum_rest, table_at, tail_at,
    tok, unary_at, want_at, ParseFault, Parsed,
};
use crate::query::interval::{parse_interval, reports_interval};
use crate::query::lexer::{token_views, Token, TokenModel};
use crate::storage::zone_map::opt_text;
use crate::text::to_lowercase;
use vstd::prelude::*;

verus! {

/// Whether `e` reports the fault `f`.
pub open spec fn reports_parse(e: QueryError, f: ParseFault) -> bool {
    match f {
        ParseFault::ExpectedSelect(t) => e matches QueryError::Parse(ParseError::ExpectedSelect(u))
            && t == u@,
        ParseFault::Expected { want, got } => e matches QueryError::Parse(
            ParseError::Expected { want: w, got: g },
        ) && want == w@ && got == g@,
        ParseFault::ExpectedIdent(t) => e matches QueryError::Parse(ParseError::ExpectedIdent(u))
            && t == u@,
        ParseFault::ExpectedInt(t) => e matches QueryError::Parse(ParseError::ExpectedInt(u)) && t
            == u@,
        ParseFault::ExpectedString(t) => e matches QueryError::Parse(ParseError::ExpectedString(u))
            && t == u@,
        ParseFault::ExpectedInOrLike => e matches QueryError::Parse(ParseError::ExpectedInOrLike),
        ParseFault::Unexpected(t) => e matches QueryError::Parse(ParseError::Unexpected(u)) && t
            == u@,
        ParseFault::Interval(i) => reports_interval(e, i),
    }
}

/// Reads a statement off a list of tokens.
pub struct Parser {
    tokens: Vec<Token>,
    pos: usize,
}

/// Whether tokens can be read: the last one is the end mark.
pub open spec fn readable(t: Seq<TokenModel>) -> bool {
    t.len() > 0 && t.last() is Eof
}

/// Whether a phrase was read as the grammar says, from `from` to `to`.
spec fn got_expr(
    out: Result<Expr, QueryError>,
    from: nat,
    to: nat,
    len: nat,
    want: Parsed<ExprModel>,
) -> bool {
    match (out, want) {
        (Ok(e), Ok((m, q))) => e@ == m && to == q && from < q && q < len,
        (Err(e), Err(f)) => reports_parse(e, f),
        _ => false,
    }
}

/// Whether a phrase was read as the grammar says, from `from` to `to`.
spec fn got_list(
    out: Result<Vec<Expr>, QueryError>,
    from: nat,
    to: nat,
    len: nat,
    want: Parsed<Seq<ExprModel>>,
) -> bool {
    match (out, want) {
        (Ok(e), Ok((m, q))) => expr_views(e@) == m && to == q && from < q && q < len,
        (Err(e), Err(f)) => reports_parse(e, f),
        _ => false,
    }
}

/// Whether a phrase was read as the grammar says, from `from` to `to`.
spec fn got_text(
    out: Result<String, QueryError>,
    from: nat,
    to: nat,
    len: nat,
    want: Parsed<Seq<char>>,
) -> bool {
    match (out, want) {
        (Ok(e), Ok((m, q))) => e@ == m && to == q && from < q && q < len,
        (Err(e), Err(f)) => reports_parse(e, f),
        _ => false,
    }
}

/// Whether what may follow a phrase was read as the grammar says.
spec fn got_rest(
    out: Result<Expr, QueryError>,
    from: nat,
    to: nat,
    len: nat,
    want: Parsed<ExprModel>,
) -> bool {
    match (out, want) {
        (Ok(e), Ok((m, q))) => e@ == m && to == q && from <= q && q < len,
        (Err(e), Err(f)) => reports_parse(e, f),
        _ => false,
    }
}

/// Whether a phrase that may be absent was read as the grammar says.
spec fn got_alias(
    out: Result<Option<String>, QueryError>,
    from: nat,
    to: nat,
    len: nat,
    want: Parsed<Option<Seq<char>>>,
) -> bool {
    match (out, want) {
        (Ok(e), Ok((m, q))) => opt_text(e) == m && to == q && from <= q && q < len,
        (Err(e), Err(f)) => reports_parse(e, f),
        _ => false,
    }
}

/// Whether a phrase that may be absent was read as the grammar says.
spec fn got_condition(
    out: Result<Option<Expr>, QueryError>,
    from: nat,
    to: nat,
    len: nat,
    want: Parsed<Option<ExprModel>>,
) -> bool {
    match (out, want) {
        (Ok(e), Ok((m, q))) => opt_expr(e) == m && to == q && from <= q && q < len,
        (Err(e), Err(f)) => reports_parse(e, f),
        _ => false,
    }
}

/// Whether a phrase that may be absent was read as the grammar says.
spec fn got_groups(
    out: Result<Vec<Expr>, QueryError>,
    from: nat,
    to: nat,
    len: nat,
    want: Parsed<Seq<ExprModel>>,
) -> bool {
    match (out, want) {
        (Ok(e), Ok((m, q))) => expr_views(e@) == m && to == q && from <= q && q < len,
        (Err(e), Err(f)) => reports_parse(e, f),
        _ => false,
    }
}

/// Whether a phrase that may be absent was read as the grammar says.
spec fn got_orders(
    out: Result<Vec<OrderByItem>, QueryError>,
    from: nat,
    to: nat,
    len: nat,
    want: Parsed<Seq<OrderModel>>,
) -> bool {
    match (out, want) {
        (Ok(e), Ok((m, q))) => order_views(e@) == m && to == q && from <= q && q < len,
        (Err(e), Err(f)) => reports_parse(e, f),
        _ => false,
    }
}

/// Whether a phrase that may be absent was read as the grammar says.
spec fn got_joins(
    out: Result<Vec<JoinClause>, QueryError>,
    from: nat,
    to: nat,
    len: nat,
    want: Parsed<Seq<JoinModel>>,
) -> bool {
    match (out, want) {
        (Ok(e), Ok((m, q))) => join_views(e@) == m && to == q && from <= q && q < len,
        (Err(e), Err(f)) => reports_parse(e, f),
        _ => false,
    }
}

/// Whether a phrase that may be absent was read as the grammar says.
spec fn got_count(
    out: Result<Option<u64>, QueryError>,
    from: nat,
    to: nat,
    len: nat,
    want: Parsed<Option<u64>>,
) -> bool {
    match (out, want) {
        (Ok(e), Ok((m, q))) => e == m && to == q && from <= q && q < len,
        (Err(e), Err(f)) => reports_parse(e, f),
        _ => false,
    }
}

impl Parser {
    /// The tokens.
    pub closed spec fn input(&self) -> Seq<TokenModel> {
        token_views(self.tokens@)
    }

    /// Where reading goes on.
    pub closed spec fn position(&self) -> nat {
        self.pos as nat
    }

    spec fn t(&self) -> Seq<TokenModel> {
        token_views(self.tokens@)
    }

    spec fn ready(&self) -> bool {
        readable(self.t()) && self.pos < self.tokens@.len()
    }

    /// A parser at the start of a list of tokens.
    pub fn new(tokens: Vec<Token>) -> (p: Parser)
        ensures
            p.input() == token_views(tokens@),
            p.position() == 0,
    {
        Parser { tokens, pos: 0 }
    }

    /// Reads a whole statement.
    pub fn parse_statement(&mut self) -> (out: Result<Statement, QueryError>)
        requires
            readable(old(self).input()),
            old(self).position() < old(self).input().len(),
        ensures
            final(self).input() == old(self).input(),
            match (out, statement_of(old(self).input(), old(self).position())) {
                (Ok(s), Ok(m)) => s@ == m,
                (Err(e), Err(f)) => reports_parse(e, f),
                _ => false,
            },
    {
        if !self.at(&Token::Select) {
            return Err(QueryError::Parse(ParseError::ExpectedSelect(self.peek().duplicate())));
        }
        let s = match self.parse_select() {
            Ok(s) => s,
            Err(e) => return Err(e),
        };
        self.eat_optional(Token::Semicolon);
        match self.expect(Token::Eof) {
            Ok(()) => Ok(Statement::Select(s)),
            Err(e) => Err(e),
        }
    }

    fn peek(&self) -> (out: &Token)
        requires
            self.pos < self.tokens@.len(),
        ensures
            out@ == tok(self.t(), self.pos as nat),
            self.t().len() == self.tokens@.len(),
    {
        &self.tokens[self.pos]
    }

    /// Whether the next token is `token`.
    fn at(&self, token: &Token) -> (yes: bool)
        requires
            self.pos < self.tokens@.len(),
        ensures
            yes == (tok(self.t(), self.pos as nat) == token@),
            self.t().len() == self.tokens@.len(),
    {
        self.tokens[self.pos].same(token)
    }

    fn advance(&mut self)
        requires
            old(self).ready(),
        ensures
            final(self).ready(),
            final(self).tokens == old(self).tokens,
            !(tok(old(self).t(), old(self).pos as nat) is Eof) ==> final(self).pos == old(self).pos + 1,
    {
        if self.tokens.len() - self.pos > 1 {
            self.pos = self.pos + 1;
        } else {
            assert(self.t().last() == self.t()[self.pos as int]);
        }
    }

    fn eat_optional(&mut self, token: Token) -> (yes: bool)
        requires
            old(self).ready(),
            !(token@ is Eof),
        ensures
            final(self).ready(),
            final(self).tokens == old(self).tokens,
            yes == (tok(old(self).t(), old(self).pos as nat) == token@),
            final(self).pos == old(self).pos + (if yes { 1int } else { 0 }),
    {
        if self.at(&token) {
            self.advance();
            true
        } else {
            false
        }
    }

    fn expect(&mut self, token: Token) -> (out: Result<(), QueryError>)
        requires
            old(self).ready(),
        ensures
            final(self).ready(),
            final(self).tokens == old(self).tokens,
            match (out, want_at(old(self).t(), old(self).pos as nat, token@)) {
                (Ok(_), Ok((_, q))) => token@ is Eof || final(self).pos == q,
                (Err(e), Err(f)) => reports_parse(e, f),
                _ => false,
            },
    {
        if self.at(&token) {
            self.advance();
            Ok(())
        } else {
            Err(QueryError::Parse(ParseError::Expected { want: token, got: self.peek().duplicate() }))
        }
    }

    fn expect_ident(&mut self) -> (out: Result<String, QueryError>)
        requires
            old(self).ready(),
        ensures
            final(self).ready(),
            final(self).tokens == old(self).tokens,
            got_text(out, old(self).pos as nat, final(self).pos as nat, old(self).t().len(), crate::query::grammar::ident_at(old(self).t(), old(self).pos as nat)),
    {
        let token = self.peek().duplicate();
        self.advance();
        match token {
            Token::Ident(s) => Ok(s),
            other => Err(QueryError::Parse(ParseError::ExpectedIdent(other))),
        }
    }

    fn expect_int(&mut self) -> (out: Result<i64, QueryError>)
        requires
            old(self).ready(),
        ensures
            final(self).ready(),
            final(self).tokens == old(self).tokens,
            match (out, int_at(old(self).t(), old(self).pos as nat)) {
                (Ok(n), Ok((m, q))) => n == m && final(self).pos == q && old(self).pos < q,
                (Err(e), Err(f)) => reports_parse(e, f),
                _ => false,
            },
    {
        let token = self.peek().duplicate();
        self.advance();
        match token {
            Token::IntLit(n) => Ok(n),
            other => Err(QueryError::Parse(ParseError::ExpectedInt(other))),
        }
    }

    fn expect_string(&mut self) -> (out: Result<String, QueryError>)
        requires
            old(self).ready(),
        ensures
            final(self).ready(),
            final(self).tokens == old(self).tokens,
            got_text(out, old(self).pos as nat, final(self).pos as nat, old(self).t().len(), string_at(old(self).t(), old(self).pos as nat)),
    {
        let token = self.peek().duplicate();
        self.advance();
        match token {
            Token::StrLit(s) => Ok(s),
            other => Err(QueryError::Parse(ParseError::ExpectedString(other))),
        }
    }

    /// An expression.
    fn parse_expr(&mut self) -> (out: Result<Expr, QueryError>)
        requires
            old(self).ready(),
        ensures
            final(self).ready(),
            final(self).tokens == old(self).tokens,
            got_expr(
                out,
                old(self).pos as nat,
                final(self).pos as nat,
                old(self).t().len(),
                expr_at(old(self).t(), old(self).pos as nat),
            ),
        decreases old(self).tokens@.len() - old(self).pos, 10nat,
    {
        self.parse_or()
    }

    fn parse_or(&mut self) -> (out: Result<Expr, QueryError>)
        requires
            old(self).ready(),
        ensures
            final(self).ready(),
            final(self).tokens == old(self).tokens,
            got_expr(
                out,
                old(self).pos as nat,
                final(self).pos as nat,
                old(self).t().len(),
                expr_at(old(self).t(), old(self).pos as nat),
            ),
        decreases old(self).tokens@.len() - old(self).pos, 9nat,
    {
        let ghost t = self.t();
        let ghost want = expr_at(t, self.pos as nat);
        let mut left = match self.parse_and() {
            Ok(e) => e,
            Err(e) => return Err(e),
        };
        while self.at(&Token::Or)
            invariant
                self.ready(),
                self.tokens == old(self).tokens,
                t == self.t(),
                t == old(self).t(),
                old(self).pos < self.pos,
                want == expr_at(old(self).t(), old(self).pos as nat),
                want == or_rest(t, self.pos as nat, left@),
            decreases t.len() - self.pos,
        {
            let ghost before = left@;
            self.advance();
            let right = match self.parse_and() {
                Ok(e) => e,
                Err(e) => return Err(e),
            };
            left = Expr::BinOp { op: BinOp::Or, left: Box::new(left), right: Box::new(right) };
            assert(left@ == bin(BinOp::Or, before, right@));
        }
        Ok(left)
    }

    fn parse_and(&mut self) -> (out: Result<Expr, QueryError>)
        requires
            old(self).ready(),
        ensures
            final(self).ready(),
            final(self).tokens == old(self).tokens,
            got_expr(
                out,
                old(self).pos as nat,
                final(self).pos as nat,
                old(self).t().len(),
                and_at(old(self).t(), old(self).pos as nat),
            ),
        decreases old(self).tokens@.len() - old(self).pos, 8nat,
    {
        let ghost t = self.t();
        let ghost want = and_at(t, self.pos as nat);
        let mut left = match self.parse_not() {
            Ok(e) => e,
            Err(e) => return Err(e),
        };
        while self.at(&Token::And)
            invariant
                self.ready(),
                self.tokens == old(self).tokens,
                t == self.t(),
                t == old(self).t(),
                old(self).pos < self.pos,
                want == and_at(old(self).t(), old(self).pos as nat),
                want == and_rest(t, self.pos as nat, left@),
            decreases t.len() - self.pos,
        {
            let ghost before = left@;
            self.advance();
            let right = match self.parse_not() {
                Ok(e) => e,
                Err(e) => return Err(e),
            };
            left = Expr::BinOp { op: BinOp::And, left: Box::new(left), right: Box::new(right) };
            assert(left@ == bin(BinOp::And, before, right@));
        }
        Ok(left)
    }

    fn parse_not(&mut self) -> (out: Result<Expr, QueryError>)
        requires
            old(self).ready(),
        ensures
            final(self).ready(),
            final(self).tokens == old(self).tokens,
            got_expr(
                out,
                old(self).pos as nat,
                final(self).pos as nat,
                old(self).t().len(),
                not_at(old(self).t(), old(self).pos as nat),
            ),
        decreases old(self).tokens@.len() - old(self).pos, 7nat,
    {
        if self.at(&Token::Not) {
            self.advance();
            let operand = match self.parse_not() {
                Ok(e) => e,
                Err(e) => return Err(e),
            };
            return Ok(Expr::UnaryOp { op: UnaryOp::Not, operand: Box::new(operand) });
        }
        self.parse_comparison()
    }

    fn parse_comparison(&mut self) -> (out: Result<Expr, QueryError>)
        requires
            old(self).ready(),
        ensures
            final(self).ready(),
            final(self).tokens == old(self).tokens,
            got_expr(
                out,
                old(self).pos as nat,
                final(self).pos as nat,
                old(self).t().len(),
                comparison_at(old(self).t(), old(self).pos as nat),
            ),
        decreases old(self).tokens@.len() - old(self).pos, 6nat,
    {
        let left = match self.parse_addition() {
            Ok(e) => e,
            Err(e) => return Err(e),
        };
        self.parse_predicate(left)
    }

    /// The comparison or predicate behind an operand, if there is one.
    fn parse_predicate(&mut self, left: Expr) -> (out: Result<Expr, QueryError>)
        requires
            old(self).ready(),
        ensures
            final(self).ready(),
            final(self).tokens == old(self).tokens,
            got_rest(
                out,
                old(self).pos as nat,
                final(self).pos as nat,
                old(self).t().len(),
                predicate_at(old(self).t(), old(self).pos as nat, left@),
            ),
        decreases old(self).tokens@.len() - old(self).pos, 6nat,
    {
        let op = match self.peek() {
            Token::Eq => BinOp::Eq,
            Token::NotEq => BinOp::NotEq,
            Token::Lt => BinOp::Lt,
            Token::LtEq => BinOp::LtEq,
            Token::Gt => BinOp::Gt,
            Token::GtEq => BinOp::GtEq,
            Token::Is => {
                self.advance();
                return self.parse_null_test(left);
            },
            Token::Between => {
                self.advance();
                return self.parse_bounds(left);
            },
            Token::Not => {
                self.advance();
                return self.parse_negated(left);
            },
            Token::In => {
                self.advance();
                return self.parse_in(left);
            },
            Token::Like => {
                self.advance();
                return self.parse_like(left, false);
            },
            _ => return Ok(left),
        };
        self.advance();
        let right = match self.parse_addition() {
            Ok(e) => e,
            Err(e) => return Err(e),
        };
        Ok(Expr::BinOp { op, left: Box::new(left), right: Box::new(right) })
    }

    /// What follows `IS`.
    fn parse_null_test(&mut self, left: Expr) -> (out: Result<Expr, QueryError>)
        requires
            old(self).ready(),
        ensures
            final(self).ready(),
            final(self).tokens == old(self).tokens,
            got_expr(
                out,
                old(self).pos as nat,
                final(self).pos as nat,
                old(self).t().len(),
                null_test_at(old(self).t(), old(self).pos as nat, left@),
            ),
    {
        let negated = self.eat_optional(Token::Not);
        match self.expect(Token::Null) {
            Err(e) => Err(e),
            Ok(()) => if negated {
                Ok(Expr::IsNotNull(Box::new(left)))
            } else {
                Ok(Expr::IsNull(Box::new(left)))
            },
        }
    }

    /// The bounds of a `BETWEEN`.
    fn parse_bounds(&mut self, left: Expr) -> (out: Result<Expr, QueryError>)
        requires
            old(self).ready(),
        ensures
            final(self).ready(),
            final(self).tokens == old(self).tokens,
            got_expr(
                out,
                old(self).pos as nat,
                final(self).pos as nat,
                old(self).t().len(),
                between_at(old(self).t(), old(self).pos as nat, left@),
            ),
        decreases old(self).tokens@.len() - old(self).pos, 6nat,
    {
        let low = match self.parse_addition() {
            Ok(e) => e,
            Err(e) => return Err(e),
        };
        match self.expect(Token::And) {
            Ok(()) => {},
            Err(e) => return Err(e),
        }
        let high = match self.parse_addition() {
            Ok(e) => e,
            Err(e) => return Err(e),
        };
        Ok(Expr::Between { expr: Box::new(left), low: Box::new(low), high: Box::new(high) })
    }

    /// What follows `NOT` behind an operand.
    fn parse_negated(&mut self, left: Expr) -> (out: Result<Expr, QueryError>)
        requires
            old(self).ready(),
        ensures
            final(self).ready(),
            final(self).tokens == old(self).tokens,
            got_expr(
                out,
                old(self).pos as nat,
                final(self).pos as nat,
                old(self).t().len(),
                negated_at(old(self).t(), old(self).pos as nat, left@),
            ),
        decreases old(self).tokens@.len() - old(self).pos, 6nat,
    {
        if self.at(&Token::In) {
            self.advance();
            return match self.parse_in(left) {
                Err(e) => Err(e),
                Ok(inner) => Ok(Expr::UnaryOp { op: UnaryOp::Not, operand: Box::new(inner) }),
            };
        }
        if self.at(&Token::Like) {
            self.advance();
            return self.parse_like(left, true);
        }
        Err(QueryError::Parse(ParseError::ExpectedInOrLike))
    }

    /// The pattern of a `LIKE`.
    fn parse_like(&mut self, left: Expr, negated: bool) -> (out: Result<Expr, QueryError>)
        requires
            old(self).ready(),
        ensures
            final(self).ready(),
            final(self).tokens == old(self).tokens,
            got_expr(
                out,
                old(self).pos as nat,
                final(self).pos as nat,
                old(self).t().len(),
                like_at(old(self).t(), old(self).pos as nat, left@, negated),
            ),
    {
        match self.expect_string() {
            Err(e) => Err(e),
            Ok(pattern) => Ok(Expr::Like { expr: Box::new(left), pattern, negated }),
        }
    }

    /// The list of an `IN`.
    fn parse_in(&mut self, left: Expr) -> (out: Result<Expr, QueryError>)
        requires
            old(self).ready(),
        ensures
            final(self).ready(),
            final(self).tokens == old(self).tokens,
            got_expr(
                out,
                old(self).pos as nat,
                final(self).pos as nat,
                old(self).t().len(),
                in_at(old(self).t(), old(self).pos as nat, left@),
            ),
        decreases old(self).tokens@.len() - old(self).pos, 13nat,
    {
        let list = match self.parse_in_list() {
            Ok(l) => l,
            Err(e) => return Err(e),
        };
        let out = Expr::In { expr: Box::new(left), list };
        proof {
            expr_view_lists(out);
        }
        Ok(out)
    }

    fn parse_in_list(&mut self) -> (out: Result<Vec<Expr>, QueryError>)
        requires
            old(self).ready(),
        ensures
            final(self).ready(),
            final(self).tokens == old(self).tokens,
            got_list(
                out,
                old(self).pos as nat,
                final(self).pos as nat,
                old(self).t().len(),
                in_list_at(old(self).t(), old(self).pos as nat),
            ),
        decreases old(self).tokens@.len() - old(self).pos, 12nat,
    {
        match self.expect(Token::LParen) {
            Ok(()) => {},
            Err(e) => return Err(e),
        }
        let list = match self.parse_expr_list() {
            Ok(l) => l,
            Err(e) => return Err(e),
        };
        match self.expect(Token::RParen) {
            Ok(()) => Ok(list),
            Err(e) => Err(e),
        }
    }

    /// Expressions with commas between.
    fn parse_expr_list(&mut self) -> (out: Result<Vec<Expr>, QueryError>)
        requires
            old(self).ready(),
        ensures
            final(self).ready(),
            final(self).tokens == old(self).tokens,
            got_list(
                out,
                old(self).pos as nat,
                final(self).pos as nat,
                old(self).t().len(),
                list_at(old(self).t(), old(self).pos as nat),
            ),
        decreases old(self).tokens@.len() - old(self).pos, 11nat,
    {
        let ghost t = self.t();
        let ghost want = list_at(t, self.pos as nat);
        let first = match self.parse_expr() {
            Ok(e) => e,
            Err(e) => return Err(e),
        };
        let mut items: Vec<Expr> = Vec::new();
        let ghost m = first@;
        items.push(first);
        assert(expr_views(items@) =~= seq![m]);
        while self.at(&Token::Comma)
            invariant
                self.ready(),
                self.tokens == old(self).tokens,
                t == self.t(),
                t == old(self).t(),
                old(self).pos < self.pos,
                want == list_at(old(self).t(), old(self).pos as nat),
                want == list_rest(t, self.pos as nat, expr_views(items@)),
            decreases t.len() - self.pos,
        {
            let ghost before = expr_views(items@);
            self.advance();
            let item = match self.parse_expr() {
                Ok(e) => e,
                Err(e) => return Err(e),
            };
            let ghost m = item@;
            items.push(item);
            assert(expr_views(items@) =~= before.push(m));
        }
        Ok(items)
    }

    fn parse_addition(&mut self) -> (out: Result<Expr, QueryError>)
        requires
            old(self).ready(),
        ensures
            final(self).ready(),
            final(self).tokens == old(self).tokens,
            got_expr(
                out,
                old(self).pos as nat,
                final(self).pos as nat,
                old(self).t().len(),
                sum_at(old(self).t(), old(self).pos as nat),
            ),
        decreases old(self).tokens@.len() - old(self).pos, 5nat,
    {
        let ghost t = self.t();
        let ghost want = sum_at(t, self.pos as nat);
        let mut left = match self.parse_multiplication() {
            Ok(e) => e,
            Err(e) => return Err(e),
        };
        loop
            invariant
                self.ready(),
                self.tokens == old(self).tokens,
                t == self.t(),
                t == old(self).t(),
                old(self).pos < self.pos,
                want == sum_at(old(self).t(), old(self).pos as nat),
                want == sum_rest(t, self.pos as nat, left@),
            ensures
                self.ready(),
                self.tokens == old(self).tokens,
                sum_op(tok(t, self.pos as nat)) is None,
            decreases t.len() - self.pos,
        {
            let op = if self.at(&Token::Plus) {
                BinOp::Add
            } else if self.at(&Token::Minus) {
                BinOp::Sub
            } else {
                break;
            };
            let ghost before = left@;
            self.advance();
            let right = match self.parse_multiplication() {
                Ok(e) => e,
                Err(e) => return Err(e),
            };
            left = Expr::BinOp { op, left: Box::new(left), right: Box::new(right) };
            assert(left@ == bin(op, before, right@));
        }
        Ok(left)
    }

    fn parse_multiplication(&mut self) -> (out: Result<Expr, QueryError>)
        requires
            old(self).ready(),
        ensures
            final(self).ready(),
            final(self).tokens == old(self).tokens,
            got_expr(
                out,
                old(self).pos as nat,
                final(self).pos as nat,
                old(self).t().len(),
                product_at(old(self).t(), old(self).pos as nat),
            ),
        decreases old(self).tokens@.len() - old(self).pos, 4nat,
    {
        let ghost t = self.t();
        let ghost want = product_at(t, self.pos as nat);
        let mut left = match self.parse_unary() {
            Ok(e) => e,
            Err(e) => return Err(e),
        };
        loop
            invariant
                self.ready(),
                self.tokens == old(self).tokens,
                t == self.t(),
                t == old(self).t(),
                old(self).pos < self.pos,
                want == product_at(old(self).t(), old(self).pos as nat),
                want == product_rest(t, self.pos as nat, left@),
            ensures
                self.ready(),
                self.tokens == old(self).tokens,
                product_op(tok(t, self.pos as nat)) is None,
            decreases t.len() - self.pos,
        {
            let op = if self.at(&Token::Star) {
                BinOp::Mul
            } else if self.at(&Token::Slash) {
                BinOp::Div
            } else if self.at(&Token::Percent) {
                BinOp::Mod
            } else {
                break;
            };
            let ghost before = left@;
            self.advance();
            let right = match self.parse_unary() {
                Ok(e) => e,
                Err(e) => return Err(e),
            };
            left = Expr::BinOp { op, left: Box::new(left), right: Box::new(right) };
            assert(left@ == bin(op, before, right@));
        }
        Ok(left)
    }

    fn parse_unary(&mut self) -> (out: Result<Expr, QueryError>)
        requires
            old(self).ready(),
        ensures
            final(self).ready(),
            final(self).tokens == old(self).tokens,
            got_expr(
                out,
                old(self).pos as nat,
                final(self).pos as nat,
                old(self).t().len(),
                unary_at(old(self).t(), old(self).pos as nat),
            ),
        decreases old(self).tokens@.len() - old(self).pos, 3nat,
    {
        if self.at(&Token::Minus) {
            self.advance();
            let operand = match self.parse_unary() {
                Ok(e) => e,
                Err(e) => return Err(e),
            };
            return Ok(Expr::UnaryOp { op: UnaryOp::Neg, operand: Box::new(operand) });
        }
        self.parse_primary()
    }

    fn parse_primary(&mut self) -> (out: Result<Expr, QueryError>)
        requires
            old(self).ready(),
        ensures
            final(self).ready(),
            final(self).tokens == old(self).tokens,
            got_expr(
                out,
                old(self).pos as nat,
                final(self).pos as nat,
                old(self).t().len(),
                primary_at(old(self).t(), old(self).pos as nat),
            ),
        decreases old(self).tokens@.len() - old(self).pos, 2nat,
    {
        let ghost t = self.t();
        let token = self.peek().duplicate();
        match token {
            Token::IntLit(n) => {
                self.advance();
                Ok(Expr::Literal(Literal::Int(n)))
            },
            Token::FloatLit(b) => {
                self.advance();
                Ok(Expr::Literal(Literal::Float(b)))
            },
            Token::StrLit(s) => {
                self.advance();
                Ok(Expr::Literal(Literal::Str(s)))
            },
            Token::True => {
                self.advance();
                Ok(Expr::Literal(Literal::Bool(true)))
            },
            Token::False => {
                self.advance();
                Ok(Expr::Literal(Literal::Bool(false)))
            },
            Token::Null => {
                self.advance();
                Ok(Expr::Literal(Literal::Null))
            },
            Token::Star => {
                self.advance();
                Ok(Expr::Star)
            },
            Token::LParen => {
                self.advance();
                let e = match self.parse_expr() {
                    Ok(e) => e,
                    Err(e) => return Err(e),
                };
                match self.expect(Token::RParen) {
                    Ok(()) => Ok(e),
                    Err(e) => Err(e),
                }
            },
            Token::Interval => {
                self.advance();
                let s = match self.expect_string() {
                    Ok(s) => s,
                    Err(e) => return Err(e),
                };
                match parse_interval(s.as_str()) {
                    Ok(ns) => Ok(Expr::Interval(ns)),
                    Err(e) => Err(e),
                }
            },
            Token::Ident(name) => {
                self.advance();
                self.parse_name(name)
            },
            other => Err(QueryError::Parse(ParseError::Unexpected(other))),
        }
    }

    /// What follows a name.
    fn parse_name(&mut self, name: String) -> (out: Result<Expr, QueryError>)
        requires
            old(self).ready(),
        ensures
            final(self).ready(),
            final(self).tokens == old(self).tokens,
            got_rest(
                out,
                old(self).pos as nat,
                final(self).pos as nat,
                old(self).t().len(),
                name_at(old(self).t(), old(self).pos as nat, name@),
            ),
        decreases old(self).tokens@.len() - old(self).pos, 13nat,
    {
        if self.at(&Token::Dot) {
            self.advance();
            return match self.expect_ident() {
                Ok(column) => Ok(Expr::Column { table: Some(name), name: column }),
                Err(e) => Err(e),
            };
        }
        if self.at(&Token::LParen) {
            self.advance();
            let args = match self.parse_args() {
                Ok(a) => a,
                Err(e) => return Err(e),
            };
            let call = Expr::Function { name: to_lowercase(name.as_str()), args };
            proof {
                expr_view_lists(call);
            }
            return Ok(call);
        }
        Ok(Expr::Column { table: None, name })
    }

    /// The arguments of a call, and its closing bracket.
    fn parse_args(&mut self) -> (out: Result<Vec<Expr>, QueryError>)
        requires
            old(self).ready(),
        ensures
            final(self).ready(),
            final(self).tokens == old(self).tokens,
            got_list(
                out,
                old(self).pos as nat,
                final(self).pos as nat,
                old(self).t().len(),
                args_at(old(self).t(), old(self).pos as nat),
            ),
        decreases old(self).tokens@.len() - old(self).pos, 12nat,
    {
        if self.at(&Token::RParen) {
            self.advance();
            let none: Vec<Expr> = Vec::new();
            assert(expr_views(none@) =~= Seq::empty());
            return Ok(none);
        }
        let args = match self.parse_expr_list() {
            Ok(a) => a,
            Err(e) => return Err(e),
        };
        match self.expect(Token::RParen) {
            Ok(()) => Ok(args),
            Err(e) => Err(e),
        }
    }

    /// An alias, if there is one.
    fn parse_alias(&mut self) -> (out: Result<Option<String>, QueryError>)
        requires
            old(self).ready(),
        ensures
            final(self).ready(),
            final(self).tokens == old(self).tokens,
            got_alias(
                out,
                old(self).pos as nat,
                final(self).pos as nat,
                old(self).t().len(),
                alias_at(old(self).t(), old(self).pos as nat),
            ),
    {
        proof {
            reveal_with_fuel(alias_at, 1);
        }
        if self.at(&Token::As) {
            self.advance();
            return match self.expect_ident() {
                Ok(s) => Ok(Some(s)),
                Err(e) => Err(e),
            };
        }
        match self.peek() {
            Token::Ident(_) => match self.expect_ident() {
                Ok(s) => Ok(Some(s)),
                Err(e) => Err(e),
            },
            _ => Ok(None),
        }
    }

    fn parse_projection(&mut self) -> (out: Result<Projection, QueryError>)
        requires
            old(self).ready(),
        ensures
            final(self).ready(),
            final(self).tokens == old(self).tokens,
            match (out, projection_at(old(self).t(), old(self).pos as nat)) {
                (Ok(e), Ok((m, q))) => e@ == m && final(self).pos == q && old(self).pos < q,
                (Err(e), Err(f)) => reports_parse(e, f),
                _ => false,
            },
    {
        proof {
            reveal_with_fuel(projection_at, 1);
        }
        if self.at(&Token::Star) {
            self.advance();
            return Ok(Projection::Star);
        }
        let expr = match self.parse_expr() {
            Ok(e) => e,
            Err(e) => return Err(e),
        };
        let alias = match self.parse_alias() {
            Ok(a) => a,
            Err(e) => return Err(e),
        };
        Ok(Projection::Expr { expr, alias })
    }

    fn parse_projections(&mut self) -> (out: Result<Vec<Projection>, QueryError>)
        requires
            old(self).ready(),
        ensures
            final(self).ready(),
            final(self).tokens == old(self).tokens,
            match (out, projections_at(old(self).t(), old(self).pos as nat, Seq::empty())) {
                (Ok(e), Ok((m, q))) => projection_views(e@) == m && final(self).pos == q
                    && old(self).pos < q,
                (Err(e), Err(f)) => reports_parse(e, f),
                _ => false,
            },
    {
        proof {
            reveal_with_fuel(projections_at, 1);
        }
        let ghost t = self.t();
        let ghost want = projections_at(t, self.pos as nat, Seq::empty());
        let mut items: Vec<Projection> = Vec::new();
        assert(projection_views(items@) =~= Seq::empty());
        loop
            invariant
                self.ready(),
                self.tokens == old(self).tokens,
                t == self.t(),
                t == old(self).t(),
                old(self).pos <= self.pos,
                want == projections_at(old(self).t(), old(self).pos as nat, Seq::empty()),
                want == projections_at(t, self.pos as nat, projection_views(items@)),
            decreases t.len() - self.pos,
        {
            proof {
                reveal_with_fuel(projections_at, 1);
            }
            let ghost before = projection_views(items@);
            let item = match self.parse_projection() {
                Ok(p) => p,
                Err(e) => return Err(e),
            };
            let ghost m = item@;
            items.push(item);
            assert(projection_views(items@) =~= before.push(m));
            if !self.eat_optional(Token::Comma) {
                return Ok(items);
            }
        }
    }

    fn parse_table_ref(&mut self) -> (out: Result<TableRef, QueryError>)
        requires
            old(self).ready(),
        ensures
            final(self).ready(),
            final(self).tokens == old(self).tokens,
            match (out, table_at(old(self).t(), old(self).pos as nat)) {
                (Ok(e), Ok((m, q))) => e@ == m && final(self).pos == q && old(self).pos < q,
                (Err(e), Err(f)) => reports_parse(e, f),
                _ => false,
            },
    {
        proof {
            reveal_with_fuel(table_at, 1);
        }
        let name = match self.expect_ident() {
            Ok(s) => s,
            Err(e) => return Err(e),
        };
        let alias = match self.parse_alias() {
            Ok(a) => a,
            Err(e) => return Err(e),
        };
        Ok(TableRef { name, alias })
    }

    /// The words that start a join, if one starts here.
    fn parse_join_kind(&mut self) -> (out: Result<Option<JoinKind>, QueryError>)
        requires
            old(self).ready(),
        ensures
            final(self).ready(),
            final(self).tokens == old(self).tokens,
            match (out, join_kind_at(old(self).t(), old(self).pos as nat)) {
                (Ok(None), None) => final(self).pos == old(self).pos,
                (Ok(Some(k)), Some(Ok((m, q)))) => k == m && final(self).pos == q && old(self).pos
                    < q,
                (Err(e), Some(Err(f))) => reports_parse(e, f),
                _ => false,
            },
    {
        proof {
            reveal_with_fuel(join_kind_at, 1);
        }
        if self.eat_optional(Token::Join) {
            return Ok(Some(JoinKind::Inner));
        }
        if self.eat_optional(Token::Inner) {
            return match self.expect(Token::Join) {
                Ok(()) => Ok(Some(JoinKind::Inner)),
                Err(e) => Err(e),
            };
        }
        if self.eat_optional(Token::Left) {
            self.eat_optional(Token::Inner);
            return match self.expect(Token::Join) {
                Ok(()) => Ok(Some(JoinKind::Left)),
                Err(e) => Err(e),
            };
        }
        if self.eat_optional(Token::Right) {
            self.eat_optional(Token::Inner);
            return match self.expect(Token::Join) {
                Ok(()) => Ok(Some(JoinKind::Right)),
                Err(e) => Err(e),
            };
        }
        Ok(None)
    }

    fn parse_joins(&mut self) -> (out: Result<Vec<JoinClause>, QueryError>)
        requires
            old(self).ready(),
        ensures
            final(self).ready(),
            final(self).tokens == old(self).tokens,
            got_joins(
                out,
                old(self).pos as nat,
                final(self).pos as nat,
                old(self).t().len(),
                joins_at(old(self).t(), old(self).pos as nat, Seq::empty()),
            ),
    {
        proof {
            reveal_with_fuel(joins_at, 1);
        }
        let ghost t = self.t();
        let ghost want = joins_at(t, self.pos as nat, Seq::empty());
        let mut joins: Vec<JoinClause> = Vec::new();
        assert(join_views(joins@) =~= Seq::empty());
        loop
            invariant
                self.ready(),
                self.tokens == old(self).tokens,
                t == self.t(),
                t == old(self).t(),
                old(self).pos <= self.pos,
                want == joins_at(old(self).t(), old(self).pos as nat, Seq::empty()),
                want == joins_at(t, self.pos as nat, join_views(joins@)),
            decreases t.len() - self.pos,
        {
            proof {
                reveal_with_fuel(joins_at, 1);
            }
            let ghost before = join_views(joins@);
            let kind = match self.parse_join_kind() {
                Ok(Some(k)) => k,
                Ok(None) => return Ok(joins),
                Err(e) => return Err(e),
            };
            let table = match self.parse_table_ref() {
                Ok(x) => x,
                Err(e) => return Err(e),
            };
            match self.expect(Token::On) {
                Ok(()) => {},
                Err(e) => return Err(e),
            }
            let condition = match self.parse_expr() {
                Ok(e) => e,
                Err(e) => return Err(e),
            };
            let item = JoinClause { kind, table, condition };
            let ghost m = item@;
            joins.push(item);
            assert(join_views(joins@) =~= before.push(m));
        }
    }

    fn parse_order_by_item(&mut self) -> (out: Result<OrderByItem, QueryError>)
        requires
            old(self).ready(),
        ensures
            final(self).ready(),
            final(self).tokens == old(self).tokens,
            match (out, order_item_at(old(self).t(), old(self).pos as nat)) {
                (Ok(e), Ok((m, q))) => e@ == m && final(self).pos == q && old(self).pos < q,
                (Err(e), Err(f)) => reports_parse(e, f),
                _ => false,
            },
    {
        proof {
            reveal_with_fuel(order_item_at, 1);
        }
        let expr = match self.parse_expr() {
            Ok(e) => e,
            Err(e) => return Err(e),
        };
        if self.eat_optional(Token::Asc) {
            return Ok(OrderByItem { expr, asc: true });
        }
        if self.eat_optional(Token::Desc) {
            return Ok(OrderByItem { expr, asc: false });
        }
        Ok(OrderByItem { expr, asc: true })
    }

    /// The orderings, if there are any.
    fn parse_order_by(&mut self) -> (out: Result<Vec<OrderByItem>, QueryError>)
        requires
            old(self).ready(),
        ensures
            final(self).ready(),
            final(self).tokens == old(self).tokens,
            got_orders(
                out,
                old(self).pos as nat,
                final(self).pos as nat,
                old(self).t().len(),
                order_at(old(self).t(), old(self).pos as nat),
            ),
    {
        proof {
            reveal_with_fuel(order_at, 1);
            reveal_with_fuel(order_items_at, 1);
        }
        let ghost t = self.t();
        let mut items: Vec<OrderByItem> = Vec::new();
        assert(order_views(items@) =~= Seq::empty());
        if !self.eat_optional(Token::Order) {
            return Ok(items);
        }
        match self.expect(Token::By) {
            Ok(()) => {},
            Err(e) => return Err(e),
        }
        let ghost want = order_items_at(t, self.pos as nat, Seq::empty());
        loop
            invariant
                self.ready(),
                self.tokens == old(self).tokens,
                t == self.t(),
                t == old(self).t(),
                old(self).pos <= self.pos,
                want == order_at(old(self).t(), old(self).pos as nat),
                want == order_items_at(t, self.pos as nat, order_views(items@)),
            decreases t.len() - self.pos,
        {
            proof {
                reveal_with_fuel(order_at, 1);
                reveal_with_fuel(order_items_at, 1);
            }
            let ghost before = order_views(items@);
            let item = match self.parse_order_by_item() {
                Ok(x) => x,
                Err(e) => return Err(e),
            };
            let ghost m = item@;
            items.push(item);
            assert(order_views(items@) =~= before.push(m));
            if !self.eat_optional(Token::Comma) {
                return Ok(items);
            }
        }
    }

    /// The groups, if there are any.
    fn parse_group_by(&mut self) -> (out: Result<Vec<Expr>, QueryError>)
        requires
            old(self).ready(),
        ensures
            final(self).ready(),
            final(self).tokens == old(self).tokens,
            got_groups(
                out,
                old(self).pos as nat,
                final(self).pos as nat,
                old(self).t().len(),
                group_at(old(self).t(), old(self).pos as nat),
            ),
    {
        proof {
            reveal_with_fuel(group_at, 1);
        }
        if !self.eat_optional(Token::Group) {
            let none: Vec<Expr> = Vec::new();
            assert(expr_views(none@) =~= Seq::empty());
            return Ok(none);
        }
        match self.expect(Token::By) {
            Ok(()) => {},
            Err(e) => return Err(e),
        }
        self.parse_expr_list()
    }

    /// A condition behind a word, if the word stands here.
    fn parse_condition(&mut self, word: Token) -> (out: Result<Option<Expr>, QueryError>)
        requires
            old(self).ready(),
            !(word@ is Eof),
        ensures
            final(self).ready(),
            final(self).tokens == old(self).tokens,
            got_condition(
                out,
                old(self).pos as nat,
                final(self).pos as nat,
                old(self).t().len(),
                condition_at(old(self).t(), old(self).pos as nat, word@),
            ),
    {
        proof {
            reveal_with_fuel(condition_at, 1);
        }
        if !self.eat_optional(word) {
            return Ok(None);
        }
        match self.parse_expr() {
            Ok(e) => Ok(Some(e)),
            Err(e) => Err(e),
        }
    }

    /// A number of rows behind a word, if the word stands here.
    fn parse_count(&mut self, word: Token) -> (out: Result<Option<u64>, QueryError>)
        requires
            old(self).ready(),
            !(word@ is Eof),
        ensures
            final(self).ready(),
            final(self).tokens == old(self).tokens,
            got_count(
                out,
                old(self).pos as nat,
                final(self).pos as nat,
                old(self).t().len(),
                count_at(old(self).t(), old(self).pos as nat, word@),
            ),
    {
        proof {
            reveal_with_fuel(count_at, 1);
        }
        if !self.eat_optional(word) {
            return Ok(None);
        }
        match self.expect_int() {
            Ok(n) => Ok(Some(n as u64)),
            Err(e) => Err(e),
        }
    }

    fn parse_select(&mut self) -> (out: Result<SelectStatement, QueryError>)
        requires
            old(self).ready(),
        ensures
            final(self).ready(),
            final(self).tokens == old(self).tokens,
            match (out, select_at(old(self).t(), old(self).pos as nat)) {
                (Ok(s), Ok((m, q))) => s@ == m && final(self).pos == q,
                (Err(e), Err(f)) => reports_parse(e, f),
                _ => false,
            },
    {
        proof {
            reveal_with_fuel(select_at, 1);
            reveal_with_fuel(tail_at, 1);
        }
        match self.expect(Token::Select) {
            Ok(()) => {},
            Err(e) => return Err(e),
        }
        self.eat_optional(Token::Distinct);
        let projections = match self.parse_projections() {
            Ok(x) => x,
            Err(e) => return Err(e),
        };
        match self.expect(Token::From) {
            Ok(()) => {},
            Err(e) => return Err(e),
        }
        let from = match self.parse_table_ref() {
            Ok(x) => x,
            Err(e) => return Err(e),
        };
        let joins = match self.parse_joins() {
            Ok(x) => x,
            Err(e) => return Err(e),
        };
        let filter = match self.parse_condition(Token::Where) {
            Ok(x) => x,
            Err(e) => return Err(e),
        };
        let group_by = match self.parse_group_by() {
            Ok(x) => x,
            Err(e) => return Err(e),
        };
        let having = match self.parse_condition(Token::Having) {
            Ok(x) => x,
            Err(e) => return Err(e),
        };
        let order_by = match self.parse_order_by() {
            Ok(x) => x,
            Err(e) => return Err(e),
        };
        let limit = match self.parse_count(Token::Limit) {
            Ok(x) => x,
            Err(e) => return Err(e),
        };
        let offset = match self.parse_count(Token::Offset) {
            Ok(x) => x,
            Err(e) => return Err(e),
        };
        Ok(
            SelectStatement {
                projections,
                from,
                joins,
                filter,
                group_by,
                having,
                order_by,
                limit,
                offset,
            },
        )
    }
}

} // verus!
