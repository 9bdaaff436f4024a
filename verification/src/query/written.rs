//! Statements written as tokens, and read back.
//!
//! An expression is written with no more brackets than the strength of its operators asks
//! for, so that reading it back shows how strongly each binds and that operators of one
//! strength are taken from the left.

use crate::query::ast::{
    BinOp, ExprModel, JoinKind, JoinModel, LiteralModel, OrderModel, ProjectionModel, SelectModel,
    TableModel, UnaryOp,
};
use crate::query::grammar::{
    alias_at, and_at, and_rest, args_at, bin, comparison_at, comparison_op, condition_at, count_at,
    expr_at, group_at, in_list_at, join_body_at, join_kind_at, joins_at, list_at, list_rest, not_at,
    or_rest, order_at, order_item_at, order_items_at, predicate_at, primary_at, product_at,
    product_op, product_rest, projection_at, projections_at, select_at, statement_of, sum_at,
    sum_op, sum_rest, table_at, tail_at, tok, un, unary_at, ParseFault, Parsed,
};
use crate::query::interval::interval_of;
use crate::query::lexer::TokenModel;
use crate::text::lowercase;
use vstd::prelude::*;

verus! {

// ── Writing expressions ─────────────────────────────────────────────────────

/// How strongly an operator binds.
pub open spec fn op_strength(op: BinOp) -> nat {
    match op {
        BinOp::Or => 0,
        BinOp::And => 1,
        BinOp::Eq | BinOp::NotEq | BinOp::Lt | BinOp::LtEq | BinOp::Gt | BinOp::GtEq => 3,
        BinOp::Add | BinOp::Sub => 4,
        BinOp::Mul | BinOp::Div | BinOp::Mod => 5,
    }
}

/// How strongly an expression holds together: that of its outermost operator.
pub open spec fn strength(e: ExprModel) -> nat {
    match e {
        ExprModel::BinOp { op, left, right } => op_strength(op),
        ExprModel::UnaryOp { op: UnaryOp::Not, operand } => 2,
        ExprModel::UnaryOp { op: UnaryOp::Neg, operand } => 6,
        ExprModel::IsNull(_) | ExprModel::IsNotNull(_) | ExprModel::Between { .. } => 3,
        ExprModel::In { .. } | ExprModel::Like { .. } => 3,
        _ => 7,
    }
}

/// The token of an operator.
pub open spec fn op_token(op: BinOp) -> TokenModel {
    match op {
        BinOp::Or => TokenModel::Or,
        BinOp::And => TokenModel::And,
        BinOp::Eq => TokenModel::Eq,
        BinOp::NotEq => TokenModel::NotEq,
        BinOp::Lt => TokenModel::Lt,
        BinOp::LtEq => TokenModel::LtEq,
        BinOp::Gt => TokenModel::Gt,
        BinOp::GtEq => TokenModel::GtEq,
        BinOp::Add => TokenModel::Plus,
        BinOp::Sub => TokenModel::Minus,
        BinOp::Mul => TokenModel::Star,
        BinOp::Div => TokenModel::Slash,
        BinOp::Mod => TokenModel::Percent,
    }
}

/// How strong the left operand of an operator has to be. Comparisons do not chain.
pub open spec fn left_strength(op: BinOp) -> nat {
    if op_strength(op) == 3 {
        4
    } else {
        op_strength(op)
    }
}

/// A text of a length of time.
pub open spec fn interval_text(ns: i64) -> Seq<char> {
    choose|s: Seq<char>| interval_of(s) == Ok::<i64, crate::query::interval::IntervalFault>(ns)
}

/// Whether an expression can be written. Calls have names in small letters, and lengths of
/// time are those that a text can give.
pub open spec fn can_be_written(e: ExprModel) -> bool
    decreases e,
{
    match e {
        ExprModel::Column { .. } | ExprModel::Star => true,
        ExprModel::Literal(l) => !(l is IntervalNs),
        ExprModel::BinOp { op, left, right } => can_be_written(*left) && can_be_written(*right),
        ExprModel::UnaryOp { op, operand } => can_be_written(*operand),
        ExprModel::IsNull(x) => can_be_written(*x),
        ExprModel::IsNotNull(x) => can_be_written(*x),
        ExprModel::Between { expr, low, high } => can_be_written(*expr) && can_be_written(*low)
            && can_be_written(*high),
        ExprModel::In { expr, list } => can_be_written(*expr) && list.len() > 0 && forall|i: int|
            0 <= i < list.len() ==> can_be_written(#[trigger] list[i]),
        ExprModel::Like { expr, pattern, negated } => can_be_written(*expr),
        ExprModel::Function { name, args } => lowercase(name) == name && forall|i: int|
            0 <= i < args.len() ==> can_be_written(#[trigger] args[i]),
        ExprModel::Interval(ns) => exists|s: Seq<char>| #[trigger]
            interval_of(s) == Ok::<i64, crate::query::interval::IntervalFault>(ns),
        _ => false,
    }
}

/// One token, and others behind it.
pub open spec fn follow(x: TokenModel, rest: Seq<TokenModel>) -> Seq<TokenModel> {
    seq![x] + rest
}

/// The tokens of an expression, without brackets around it.
pub open spec fn bare(e: ExprModel) -> Seq<TokenModel>
    decreases e, 0nat,
{
    match e {
        ExprModel::Column { table: None, name } => seq![TokenModel::Ident(name)],
        ExprModel::Column { table: Some(t), name } => seq![
            TokenModel::Ident(t),
            TokenModel::Dot,
            TokenModel::Ident(name),
        ],
        ExprModel::Literal(LiteralModel::Int(n)) => seq![TokenModel::IntLit(n)],
        ExprModel::Literal(LiteralModel::Float(b)) => seq![TokenModel::FloatLit(b)],
        ExprModel::Literal(LiteralModel::Str(s)) => seq![TokenModel::StrLit(s)],
        ExprModel::Literal(LiteralModel::Bool(true)) => seq![TokenModel::True],
        ExprModel::Literal(LiteralModel::Bool(false)) => seq![TokenModel::False],
        ExprModel::Literal(LiteralModel::Null) => seq![TokenModel::Null],
        ExprModel::Star => seq![TokenModel::Star],
        ExprModel::Interval(ns) => seq![
            TokenModel::Interval,
            TokenModel::StrLit(interval_text(ns)),
        ],
        ExprModel::BinOp { op, left, right } => written(*left, left_strength(op)) + follow(
            op_token(op),
            written(*right, op_strength(op) + 1),
        ),
        ExprModel::UnaryOp { op: UnaryOp::Not, operand } => follow(
            TokenModel::Not,
            written(*operand, 2),
        ),
        ExprModel::UnaryOp { op: UnaryOp::Neg, operand } => follow(
            TokenModel::Minus,
            written(*operand, 6),
        ),
        ExprModel::IsNull(x) => written(*x, 4) + seq![TokenModel::Is, TokenModel::Null],
        ExprModel::IsNotNull(x) => written(*x, 4) + seq![
            TokenModel::Is,
            TokenModel::Not,
            TokenModel::Null,
        ],
        ExprModel::Between { expr, low, high } => written(*expr, 4) + follow(
            TokenModel::Between,
            written(*low, 4) + follow(TokenModel::And, written(*high, 4)),
        ),
        ExprModel::In { expr, list } => written(*expr, 4) + follow(
            TokenModel::In,
            follow(TokenModel::LParen, written_list(list, list.len()) + seq![TokenModel::RParen]),
        ),
        ExprModel::Like { expr, pattern, negated } => written(*expr, 4) + if negated {
            seq![TokenModel::Not, TokenModel::Like, TokenModel::StrLit(pattern)]
        } else {
            seq![TokenModel::Like, TokenModel::StrLit(pattern)]
        },
        ExprModel::Function { name, args } => follow(
            TokenModel::Ident(name),
            follow(TokenModel::LParen, written_list(args, args.len()) + seq![TokenModel::RParen]),
        ),
        _ => Seq::empty(),
    }
}

/// The tokens of an expression where one of strength `k` is asked for: in brackets if it is
/// weaker.
pub open spec fn written(e: ExprModel, k: nat) -> Seq<TokenModel>
    decreases e, 1nat,
{
    if strength(e) >= k {
        bare(e)
    } else {
        follow(TokenModel::LParen, bare(e) + seq![TokenModel::RParen])
    }
}

/// The tokens of the first `n` expressions of a list, with commas between.
pub open spec fn written_list(list: Seq<ExprModel>, n: nat) -> Seq<TokenModel>
    decreases list, n,
{
    if n == 0 || n > list.len() {
        Seq::empty()
    } else if n == 1 {
        written(list[0], 0)
    } else {
        written_list(list, (n - 1) as nat) + follow(TokenModel::Comma, written(list[n - 1], 0))
    }
}

// ── Reading expressions back ────────────────────────────────────────────────

/// Whether tokens stand at `p`.
pub open spec fn stands_at(t: Seq<TokenModel>, p: nat, w: Seq<TokenModel>) -> bool {
    p + w.len() <= t.len() && w == t.subrange(p as int, (p + w.len()) as int)
}

proof fn lemma_split(t: Seq<TokenModel>, p: nat, a: Seq<TokenModel>, b: Seq<TokenModel>)
    requires
        stands_at(t, p, a + b),
    ensures
        stands_at(t, p, a),
        stands_at(t, p + a.len(), b),
        (a + b).len() == a.len() + b.len(),
{
    let w = a + b;
    assert(w.take(a.len() as int) =~= a);
    assert(w.skip(a.len() as int) =~= b);
    assert(t.subrange(p as int, (p + w.len()) as int).take(a.len() as int) =~= t.subrange(
        p as int,
        (p + a.len()) as int,
    ));
    assert(t.subrange(p as int, (p + w.len()) as int).skip(a.len() as int) =~= t.subrange(
        (p + a.len()) as int,
        (p + w.len()) as int,
    ));
}

proof fn lemma_token(t: Seq<TokenModel>, p: nat, w: Seq<TokenModel>, i: nat)
    requires
        stands_at(t, p, w),
        i < w.len(),
    ensures
        tok(t, p + i) == w[i as int],
        p + i < t.len(),
{
    assert(t.subrange(p as int, (p + w.len()) as int)[i as int] == t[(p + i) as int]);
}

proof fn lemma_follow(t: Seq<TokenModel>, p: nat, x: TokenModel, rest: Seq<TokenModel>)
    requires
        stands_at(t, p, follow(x, rest)),
    ensures
        tok(t, p) == x,
        p < t.len(),
        stands_at(t, p + 1, rest),
        follow(x, rest).len() == rest.len() + 1,
{
    lemma_token(t, p, follow(x, rest), 0);
    lemma_split(t, p, seq![x], rest);
}

/// Whether a token goes on with no phrase of strength `k` or more.
pub open spec fn closes(k: nat, x: TokenModel) -> bool {
    &&& !(x is Dot)
    &&& !(x is LParen)
    &&& k <= 5 ==> !(x is Star || x is Slash || x is Percent)
    &&& k <= 4 ==> !(x is Plus || x is Minus)
    &&& k <= 3 ==> !(x is Eq || x is NotEq || x is Lt || x is LtEq || x is Gt || x is GtEq || x is Is
        || x is Between || x is Not || x is In || x is Like)
    &&& k <= 1 ==> !(x is And)
    &&& k == 0 ==> !(x is Or)
}

/// The phrase of strength `k` at `p`.
pub open spec fn phrase_at(k: nat, t: Seq<TokenModel>, p: nat) -> Parsed<ExprModel> {
    if k == 0 {
        expr_at(t, p)
    } else if k == 1 {
        and_at(t, p)
    } else if k == 2 {
        not_at(t, p)
    } else if k == 3 {
        comparison_at(t, p)
    } else if k == 4 {
        sum_at(t, p)
    } else if k == 5 {
        product_at(t, p)
    } else if k == 6 {
        unary_at(t, p)
    } else {
        primary_at(t, p)
    }
}

/// Whether the phrase of strength `k` at `p` begins with `e`, up to `q`: where phrases of
/// that strength are taken from the left, what follows is added to `e`.
#[verifier::opaque]
spec fn begins(k: nat, t: Seq<TokenModel>, p: nat, q: nat, e: ExprModel) -> bool {
    if k == 0 {
        closes(1, tok(t, q)) ==> expr_at(t, p) == or_rest(t, q, e)
    } else if k == 1 {
        closes(2, tok(t, q)) ==> and_at(t, p) == and_rest(t, q, e)
    } else if k == 4 {
        closes(5, tok(t, q)) ==> sum_at(t, p) == sum_rest(t, q, e)
    } else if k == 5 {
        closes(6, tok(t, q)) ==> product_at(t, p) == product_rest(t, q, e)
    } else {
        closes(k, tok(t, q)) ==> phrase_at(k, t, p) == Ok::<(ExprModel, nat), ParseFault>((e, q))
    }
}

proof fn lemma_ends(k: nat, t: Seq<TokenModel>, p: nat, q: nat, e: ExprModel)
    requires
        k <= 7,
        begins(k, t, p, q, e),
        closes(k, tok(t, q)),
    ensures
        phrase_at(k, t, p) == Ok::<(ExprModel, nat), ParseFault>((e, q)),
{
    reveal(begins);
}

proof fn lemma_weaker(k: nat, t: Seq<TokenModel>, p: nat, q: nat, e: ExprModel)
    requires
        k < 7,
        begins(k + 1, t, p, q, e),
        p < q <= t.len(),
        k == 2 ==> !(tok(t, p) is Not),
        k == 6 ==> !(tok(t, p) is Minus),
    ensures
        begins(k, t, p, q, e),
{
    reveal(begins);
}

proof fn lemma_weaken(l: nat, k: nat, t: Seq<TokenModel>, p: nat, q: nat, e: ExprModel)
    requires
        k <= l <= 7,
        begins(l, t, p, q, e),
        p < q <= t.len(),
        l > 2 ==> !(tok(t, p) is Not),
        l > 6 ==> !(tok(t, p) is Minus),
    ensures
        begins(k, t, p, q, e),
    decreases l - k,
{
    if k < l {
        lemma_weaker((l - 1) as nat, t, p, q, e);
        lemma_weaken((l - 1) as nat, k, t, p, q, e);
    }
}

proof fn lemma_first(e: ExprModel)
    requires
        can_be_written(e),
    ensures
        bare(e).len() > 0,
        strength(e) > 2 ==> !(bare(e)[0] is Not),
        strength(e) > 6 ==> !(bare(e)[0] is Minus),
    decreases e,
{
    match e {
        ExprModel::BinOp { op, left, right } => {
            lemma_first(*left);
            lemma_first_written(*left, left_strength(op));
        },
        ExprModel::IsNull(x) => {
            lemma_first(*x);
            lemma_first_written(*x, 4);
        },
        ExprModel::IsNotNull(x) => {
            lemma_first(*x);
            lemma_first_written(*x, 4);
        },
        ExprModel::Between { expr, low, high } => {
            lemma_first(*expr);
            lemma_first_written(*expr, 4);
        },
        ExprModel::In { expr, list } => {
            lemma_first(*expr);
            lemma_first_written(*expr, 4);
        },
        ExprModel::Like { expr, pattern, negated } => {
            lemma_first(*expr);
            lemma_first_written(*expr, 4);
        },
        _ => {},
    }
}

proof fn lemma_first_written(e: ExprModel, k: nat)
    requires
        bare(e).len() > 0,
        strength(e) > 2 ==> !(bare(e)[0] is Not),
        strength(e) > 6 ==> !(bare(e)[0] is Minus),
        k <= 7,
    ensures
        written(e, k).len() > 0,
        k > 2 ==> !(written(e, k)[0] is Not),
        k > 6 ==> !(written(e, k)[0] is Minus),
{
    if strength(e) < k {
        assert(written(e, k)[0] == TokenModel::LParen);
    }
}

proof fn lemma_op(op: BinOp)
    ensures
        comparison_op(op_token(op)) == if op_strength(op) == 3 {
            Some(op)
        } else {
            None
        },
        sum_op(op_token(op)) == if op_strength(op) == 4 {
            Some(op)
        } else {
            None
        },
        product_op(op_token(op)) == if op_strength(op) == 5 {
            Some(op)
        } else {
            None
        },
        closes(op_strength(op) + 1, op_token(op)),
{
}

proof fn lemma_reads_operator(
    t: Seq<TokenModel>,
    p: nat,
    m: nat,
    q: nat,
    op: BinOp,
    left: ExprModel,
    right: ExprModel,
)
    requires
        p < m,
        m + 1 < q <= t.len(),
        tok(t, m) == op_token(op),
        begins(left_strength(op), t, p, m, left),
        begins(op_strength(op) + 1, t, m + 1, q, right),
    ensures
        begins(op_strength(op), t, p, q, bin(op, left, right)),
{
    lemma_op(op);
    if op_strength(op) == 3 {
        lemma_ends(4, t, p, m, left);
    }
    if closes(op_strength(op) + 1, tok(t, q)) {
        lemma_ends(op_strength(op) + 1, t, m + 1, q, right);
    }
    reveal(begins);
}

proof fn lemma_reads_negation(t: Seq<TokenModel>, p: nat, q: nat, op: UnaryOp, x: ExprModel)
    requires
        tok(t, p) == if op == UnaryOp::Not {
            TokenModel::Not
        } else {
            TokenModel::Minus
        },
        begins(
            if op == UnaryOp::Not {
                2
            } else {
                6
            },
            t,
            p + 1,
            q,
            x,
        ),
    ensures
        begins(
            if op == UnaryOp::Not {
                2
            } else {
                6
            },
            t,
            p,
            q,
            un(op, x),
        ),
{
    reveal(begins);
}

proof fn lemma_reads_null_test(t: Seq<TokenModel>, p: nat, m: nat, x: ExprModel, negated: bool)
    requires
        p < m < t.len(),
        begins(4, t, p, m, x),
        tok(t, m) is Is,
        if negated {
            tok(t, m + 1) is Not && tok(t, m + 2) is Null
        } else {
            tok(t, m + 1) is Null
        },
    ensures
        begins(
            3,
            t,
            p,
            if negated {
                m + 3
            } else {
                m + 2
            },
            if negated {
                ExprModel::IsNotNull(Box::new(x))
            } else {
                ExprModel::IsNull(Box::new(x))
            },
        ),
{
    lemma_ends(4, t, p, m, x);
    assert(comparison_at(t, p) == predicate_at(t, m, x));
    reveal(begins);
}

proof fn lemma_reads_between(
    t: Seq<TokenModel>,
    p: nat,
    m: nat,
    n: nat,
    q: nat,
    x: ExprModel,
    low: ExprModel,
    high: ExprModel,
)
    requires
        p < m,
        m + 1 < n,
        n + 1 < q <= t.len(),
        begins(4, t, p, m, x),
        begins(4, t, m + 1, n, low),
        begins(4, t, n + 1, q, high),
        tok(t, m) is Between,
        tok(t, n) is And,
    ensures
        begins(
            3,
            t,
            p,
            q,
            ExprModel::Between { expr: Box::new(x), low: Box::new(low), high: Box::new(high) },
        ),
{
    lemma_ends(4, t, p, m, x);
    lemma_ends(4, t, m + 1, n, low);
    assert(comparison_at(t, p) == predicate_at(t, m, x));
    if closes(3, tok(t, q)) {
        lemma_ends(4, t, n + 1, q, high);
    }
    reveal(begins);
}

proof fn lemma_reads_in(
    t: Seq<TokenModel>,
    p: nat,
    m: nat,
    n: nat,
    x: ExprModel,
    list: Seq<ExprModel>,
)
    requires
        p < m < t.len(),
        begins(4, t, p, m, x),
        tok(t, m) is In,
        tok(t, m + 1) is LParen,
        list_at(t, m + 2) == Ok::<(Seq<ExprModel>, nat), ParseFault>((list, n)),
        tok(t, n) is RParen,
    ensures
        begins(3, t, p, n + 1, ExprModel::In { expr: Box::new(x), list }),
{
    lemma_ends(4, t, p, m, x);
    assert(comparison_at(t, p) == predicate_at(t, m, x));
    assert(in_list_at(t, m + 1) == Ok::<(Seq<ExprModel>, nat), ParseFault>((list, n + 1)));
    reveal(begins);
}

proof fn lemma_reads_like(
    t: Seq<TokenModel>,
    p: nat,
    m: nat,
    x: ExprModel,
    pattern: Seq<char>,
    negated: bool,
)
    requires
        p < m < t.len(),
        begins(4, t, p, m, x),
        if negated {
            tok(t, m) is Not && tok(t, m + 1) is Like && tok(t, m + 2) == TokenModel::StrLit(pattern)
        } else {
            tok(t, m) is Like && tok(t, m + 1) == TokenModel::StrLit(pattern)
        },
    ensures
        begins(
            3,
            t,
            p,
            if negated {
                m + 3
            } else {
                m + 2
            },
            ExprModel::Like { expr: Box::new(x), pattern, negated },
        ),
{
    lemma_ends(4, t, p, m, x);
    assert(comparison_at(t, p) == predicate_at(t, m, x));
    reveal(begins);
}

proof fn lemma_reads_call(t: Seq<TokenModel>, p: nat, n: nat, name: Seq<char>, args: Seq<ExprModel>)
    requires
        tok(t, p) == TokenModel::Ident(name),
        tok(t, p + 1) is LParen,
        tok(t, n) is RParen,
        lowercase(name) == name,
        if args.len() == 0 {
            n == p + 2
        } else {
            !(tok(t, p + 2) is RParen) && list_at(t, p + 2) == Ok::<
                (Seq<ExprModel>, nat),
                ParseFault,
            >((args, n))
        },
    ensures
        begins(7, t, p, n + 1, ExprModel::Function { name, args }),
{
    if args.len() == 0 {
        assert(args =~= Seq::empty());
    }
    assert(args_at(t, p + 2) == Ok::<(Seq<ExprModel>, nat), ParseFault>((args, n + 1)));
    reveal(begins);
}

proof fn lemma_reads_bracketed(t: Seq<TokenModel>, p: nat, r: nat, e: ExprModel)
    requires
        tok(t, p) is LParen,
        tok(t, r) is RParen,
        begins(0, t, p + 1, r, e),
    ensures
        begins(7, t, p, r + 1, e),
{
    lemma_ends(0, t, p + 1, r, e);
    reveal(begins);
}

proof fn lemma_reads_leaf(t: Seq<TokenModel>, p: nat, e: ExprModel)
    requires
        can_be_written(e),
        e is Column || e is Literal || e is Star || e is Interval,
        stands_at(t, p, bare(e)),
    ensures
        begins(7, t, p, p + bare(e).len(), e),
{
    lemma_token(t, p, bare(e), 0);
    match e {
        ExprModel::Column { table: Some(_), name } => {
            lemma_token(t, p, bare(e), 1);
            lemma_token(t, p, bare(e), 2);
        },
        ExprModel::Interval(ns) => {
            lemma_token(t, p, bare(e), 1);
        },
        _ => {},
    }
    reveal(begins);
}

proof fn lemma_reads(t: Seq<TokenModel>, p: nat, e: ExprModel, k: nat)
    requires
        can_be_written(e),
        k <= 7,
        stands_at(t, p, written(e, k)),
    ensures
        written(e, k).len() > 0,
        begins(k, t, p, p + written(e, k).len(), e),
    decreases e, 1nat, 0nat,
{
    lemma_first(e);
    let q = p + written(e, k).len();
    if strength(e) >= k {
        lemma_token(t, p, bare(e), 0);
        lemma_reads_bare(t, p, e);
        lemma_weaken(strength(e), k, t, p, q, e);
    } else {
        lemma_follow(t, p, TokenModel::LParen, bare(e) + seq![TokenModel::RParen]);
        lemma_split(t, p + 1, bare(e), seq![TokenModel::RParen]);
        let r = p + 1 + bare(e).len();
        lemma_token(t, r, seq![TokenModel::RParen], 0);
        lemma_token(t, p + 1, bare(e), 0);
        lemma_reads_bare(t, p + 1, e);
        lemma_weaken(strength(e), 0, t, p + 1, r, e);
        lemma_reads_bracketed(t, p, r, e);
        lemma_weaken(7, k, t, p, q, e);
    }
}

#[verifier::rlimit(40)]
proof fn lemma_reads_bare(t: Seq<TokenModel>, p: nat, e: ExprModel)
    requires
        can_be_written(e),
        stands_at(t, p, bare(e)),
    ensures
        begins(strength(e), t, p, p + bare(e).len(), e),
    decreases e, 0nat, 1nat,
{
    let q = p + bare(e).len();
    match e {
        ExprModel::BinOp { op, left, right } => {
            let l = left_strength(op);
            let k = op_strength(op);
            let a = written(*left, l);
            let b = written(*right, k + 1);
            lemma_split(t, p, a, follow(op_token(op), b));
            let m = p + a.len();
            lemma_follow(t, m, op_token(op), b);
            lemma_reads(t, p, *left, l);
            lemma_reads(t, m + 1, *right, k + 1);
            lemma_reads_operator(t, p, m, q, op, *left, *right);
        },
        ExprModel::UnaryOp { op: UnaryOp::Not, operand } => {
            lemma_follow(t, p, TokenModel::Not, written(*operand, 2));
            lemma_reads(t, p + 1, *operand, 2);
            lemma_reads_negation(t, p, q, UnaryOp::Not, *operand);
        },
        ExprModel::UnaryOp { op: UnaryOp::Neg, operand } => {
            lemma_follow(t, p, TokenModel::Minus, written(*operand, 6));
            lemma_reads(t, p + 1, *operand, 6);
            lemma_reads_negation(t, p, q, UnaryOp::Neg, *operand);
        },
        ExprModel::IsNull(_) | ExprModel::IsNotNull(_) | ExprModel::Like { .. } => {
            lemma_reads_test(t, p, e);
        },
        ExprModel::Between { .. } => {
            lemma_reads_range(t, p, e);
        },
        ExprModel::In { .. } => {
            lemma_reads_choice(t, p, e);
        },
        ExprModel::Function { .. } => {
            lemma_reads_function(t, p, e);
        },
        _ => {
            lemma_reads_leaf(t, p, e);
        },
    }
}

#[verifier::rlimit(40)]
proof fn lemma_reads_test(t: Seq<TokenModel>, p: nat, e: ExprModel)
    requires
        can_be_written(e),
        e is IsNull || e is IsNotNull || e is Like,
        stands_at(t, p, bare(e)),
    ensures
        begins(3, t, p, p + bare(e).len(), e),
    decreases e, 0nat, 0nat,
{
    let q = p + bare(e).len();
    match e {
        ExprModel::IsNull(x) => {
            let w = seq![TokenModel::Is, TokenModel::Null];
            lemma_split(t, p, written(*x, 4), w);
            let m = p + written(*x, 4).len();
            lemma_token(t, m, w, 0);
            lemma_token(t, m, w, 1);
            lemma_reads(t, p, *x, 4);
            lemma_reads_null_test(t, p, m, *x, false);
        },
        ExprModel::IsNotNull(x) => {
            let w = seq![TokenModel::Is, TokenModel::Not, TokenModel::Null];
            lemma_split(t, p, written(*x, 4), w);
            let m = p + written(*x, 4).len();
            lemma_token(t, m, w, 0);
            lemma_token(t, m, w, 1);
            lemma_token(t, m, w, 2);
            lemma_reads(t, p, *x, 4);
            lemma_reads_null_test(t, p, m, *x, true);
        },
        ExprModel::Like { expr, pattern, negated } => {
            let w = if negated {
                seq![TokenModel::Not, TokenModel::Like, TokenModel::StrLit(pattern)]
            } else {
                seq![TokenModel::Like, TokenModel::StrLit(pattern)]
            };
            lemma_split(t, p, written(*expr, 4), w);
            let m = p + written(*expr, 4).len();
            lemma_token(t, m, w, 0);
            lemma_token(t, m, w, 1);
            if negated {
                lemma_token(t, m, w, 2);
            }
            lemma_reads(t, p, *expr, 4);
            lemma_reads_like(t, p, m, *expr, pattern, negated);
        },
        _ => {},
    }
}

#[verifier::rlimit(40)]
proof fn lemma_reads_range(t: Seq<TokenModel>, p: nat, e: ExprModel)
    requires
        can_be_written(e),
        e is Between,
        stands_at(t, p, bare(e)),
    ensures
        begins(3, t, p, p + bare(e).len(), e),
    decreases e, 0nat, 0nat,
{
    let q = p + bare(e).len();
    match e {
        ExprModel::Between { expr, low, high } => {
            let c = follow(TokenModel::And, written(*high, 4));
            let w = follow(TokenModel::Between, written(*low, 4) + c);
            lemma_split(t, p, written(*expr, 4), w);
            let m = p + written(*expr, 4).len();
            lemma_follow(t, m, TokenModel::Between, written(*low, 4) + c);
            lemma_split(t, m + 1, written(*low, 4), c);
            let n = m + 1 + written(*low, 4).len();
            lemma_follow(t, n, TokenModel::And, written(*high, 4));
            lemma_reads(t, p, *expr, 4);
            lemma_reads(t, m + 1, *low, 4);
            lemma_reads(t, n + 1, *high, 4);
            lemma_reads_between(t, p, m, n, q, *expr, *low, *high);
        },
        _ => {},
    }
}

#[verifier::rlimit(40)]
proof fn lemma_reads_choice(t: Seq<TokenModel>, p: nat, e: ExprModel)
    requires
        can_be_written(e),
        e is In,
        stands_at(t, p, bare(e)),
    ensures
        begins(3, t, p, p + bare(e).len(), e),
    decreases e, 0nat, 0nat,
{
    let q = p + bare(e).len();
    match e {
        ExprModel::In { expr, list } => {
            let c = written_list(list, list.len()) + seq![TokenModel::RParen];
            let w = follow(TokenModel::In, follow(TokenModel::LParen, c));
            lemma_split(t, p, written(*expr, 4), w);
            let m = p + written(*expr, 4).len();
            lemma_follow(t, m, TokenModel::In, follow(TokenModel::LParen, c));
            lemma_follow(t, m + 1, TokenModel::LParen, c);
            lemma_split(t, m + 2, written_list(list, list.len()), seq![TokenModel::RParen]);
            let n = m + 2 + written_list(list, list.len()).len();
            lemma_token(t, n, seq![TokenModel::RParen], 0);
            lemma_reads(t, p, *expr, 4);
            lemma_reads_list(t, m + 2, list, list.len());
            assert(list.take(list.len() as int) =~= list);
            lemma_reads_in(t, p, m, n, *expr, list);
        },
        _ => {},
    }
}

#[verifier::rlimit(40)]
proof fn lemma_reads_function(t: Seq<TokenModel>, p: nat, e: ExprModel)
    requires
        can_be_written(e),
        e is Function,
        stands_at(t, p, bare(e)),
    ensures
        begins(7, t, p, p + bare(e).len(), e),
    decreases e, 0nat, 0nat,
{
    let q = p + bare(e).len();
    match e {
        ExprModel::Function { name, args } => {
            let c = written_list(args, args.len()) + seq![TokenModel::RParen];
            lemma_follow(t, p, TokenModel::Ident(name), follow(TokenModel::LParen, c));
            lemma_follow(t, p + 1, TokenModel::LParen, c);
            lemma_split(t, p + 2, written_list(args, args.len()), seq![TokenModel::RParen]);
            let n = p + 2 + written_list(args, args.len()).len();
            lemma_token(t, n, seq![TokenModel::RParen], 0);
            if args.len() > 0 {
                lemma_reads_list(t, p + 2, args, args.len());
                assert(args.take(args.len() as int) =~= args);
            }
            lemma_reads_call(t, p, n, name, args);
        },
        _ => {},
    }
}

#[verifier::rlimit(40)]
proof fn lemma_reads_list(t: Seq<TokenModel>, p: nat, list: Seq<ExprModel>, n: nat)
    requires
        0 < n <= list.len(),
        stands_at(t, p, written_list(list, n)),
        forall|i: int| 0 <= i < list.len() ==> can_be_written(#[trigger] list[i]),
    ensures
        written_list(list, n).len() > 0,
        !(tok(t, p) is RParen),
        ({
            let q = p + written_list(list, n).len();
            &&& closes(0, tok(t, q)) ==> list_at(t, p) == list_rest(t, q, list.take(n as int))
            &&& closes(0, tok(t, q)) && !(tok(t, q) is Comma) ==> list_at(t, p) == Ok::<
                (Seq<ExprModel>, nat),
                ParseFault,
            >((list.take(n as int), q))
        }),
    decreases list, n, 0nat,
{
    let q = p + written_list(list, n).len();
    let e = list[n - 1];
    assert(can_be_written(e));
    if n == 1 {
        lemma_reads(t, p, e, 0);
        lemma_first(e);
        lemma_token(t, p, bare(e), 0);
        lemma_no_bracket(e);
        if closes(0, tok(t, q)) {
            lemma_ends(0, t, p, q, e);
            assert(list.take(1) =~= seq![e]);
        }
    } else {
        let m = (n - 1) as nat;
        let w = written_list(list, m);
        lemma_split(t, p, w, follow(TokenModel::Comma, written(e, 0)));
        lemma_reads_list(t, p, list, m);
        let r = p + w.len();
        lemma_follow(t, r, TokenModel::Comma, written(e, 0));
        lemma_reads(t, r + 1, e, 0);
        if closes(0, tok(t, q)) {
            lemma_ends(0, t, r + 1, q, e);
            assert(list.take(n as int) =~= list.take(m as int).push(e));
        }
    }
}

proof fn lemma_no_bracket(e: ExprModel)
    requires
        can_be_written(e),
    ensures
        bare(e).len() > 0,
        !(bare(e)[0] is RParen),
    decreases e,
{
    lemma_first(e);
    match e {
        ExprModel::BinOp { op, left, right } => {
            lemma_no_bracket(*left);
        },
        ExprModel::IsNull(x) => {
            lemma_no_bracket(*x);
        },
        ExprModel::IsNotNull(x) => {
            lemma_no_bracket(*x);
        },
        ExprModel::Between { expr, low, high } => {
            lemma_no_bracket(*expr);
        },
        ExprModel::In { expr, list } => {
            lemma_no_bracket(*expr);
        },
        ExprModel::Like { expr, pattern, negated } => {
            lemma_no_bracket(*expr);
        },
        _ => {},
    }
}

/// An expression that is written reads back as itself, wherever it stands and whatever does
/// not go on with it follows.
pub proof fn written_expression_reads_back(t: Seq<TokenModel>, p: nat, e: ExprModel)
    requires
        can_be_written(e),
        stands_at(t, p, written(e, 0)),
        closes(0, tok(t, p + written(e, 0).len())),
    ensures
        expr_at(t, p) == Ok::<(ExprModel, nat), ParseFault>((e, p + written(e, 0).len())),
{
    lemma_reads(t, p, e, 0);
    lemma_ends(0, t, p, p + written(e, 0).len(), e);
}

// ── Writing statements ──────────────────────────────────────────────────────

/// The tokens of an alias, if there is one.
pub open spec fn written_alias(a: Option<Seq<char>>) -> Seq<TokenModel> {
    match a {
        Some(s) => seq![TokenModel::As, TokenModel::Ident(s)],
        None => Seq::empty(),
    }
}

/// The tokens of an expression in a projection. One that starts with a star stands in
/// brackets, for a star alone is all columns.
pub open spec fn written_projected(e: ExprModel) -> Seq<TokenModel> {
    if written(e, 0)[0] is Star {
        follow(TokenModel::LParen, written(e, 0) + seq![TokenModel::RParen])
    } else {
        written(e, 0)
    }
}

/// The tokens of a projection.
pub open spec fn written_projection(p: ProjectionModel) -> Seq<TokenModel> {
    match p {
        ProjectionModel::Star => seq![TokenModel::Star],
        ProjectionModel::Expr { expr, alias } => written_projected(expr) + written_alias(alias),
    }
}

/// The tokens of the projections from `i` on, with commas between.
pub open spec fn written_projections(v: Seq<ProjectionModel>, i: nat) -> Seq<TokenModel>
    decreases v.len() - i,
{
    if i >= v.len() {
        Seq::empty()
    } else if i + 1 == v.len() {
        written_projection(v[i as int])
    } else {
        written_projection(v[i as int]) + follow(TokenModel::Comma, written_projections(v, i + 1))
    }
}

/// The tokens of a table.
pub open spec fn written_table(x: TableModel) -> Seq<TokenModel> {
    follow(TokenModel::Ident(x.name), written_alias(x.alias))
}

/// The tokens of a kind of join.
pub open spec fn written_kind(k: JoinKind) -> Seq<TokenModel> {
    match k {
        JoinKind::Inner => seq![TokenModel::Join],
        JoinKind::Left => seq![TokenModel::Left, TokenModel::Join],
        JoinKind::Right => seq![TokenModel::Right, TokenModel::Join],
    }
}

/// The tokens of a join.
pub open spec fn written_join(j: JoinModel) -> Seq<TokenModel> {
    written_kind(j.kind) + (written_table(j.table) + follow(
        TokenModel::On,
        written(j.condition, 0),
    ))
}

/// The tokens of the joins from `i` on.
pub open spec fn written_joins(v: Seq<JoinModel>, i: nat) -> Seq<TokenModel>
    decreases v.len() - i,
{
    if i >= v.len() {
        Seq::empty()
    } else {
        written_join(v[i as int]) + written_joins(v, i + 1)
    }
}

/// The tokens of a condition behind a word, if there is one.
pub open spec fn written_condition(word: TokenModel, e: Option<ExprModel>) -> Seq<TokenModel> {
    match e {
        Some(x) => follow(word, written(x, 0)),
        None => Seq::empty(),
    }
}

/// The tokens of groups, if there are any.
pub open spec fn written_groups(v: Seq<ExprModel>) -> Seq<TokenModel> {
    if v.len() == 0 {
        Seq::empty()
    } else {
        follow(TokenModel::Group, follow(TokenModel::By, written_list(v, v.len())))
    }
}

/// The tokens of an ordering, with its direction.
pub open spec fn written_order(x: OrderModel) -> Seq<TokenModel> {
    written(x.expr, 0) + seq![
        if x.asc {
            TokenModel::Asc
        } else {
            TokenModel::Desc
        },
    ]
}

/// The tokens of the orderings from `i` on, with commas between.
pub open spec fn written_orders(v: Seq<OrderModel>, i: nat) -> Seq<TokenModel>
    decreases v.len() - i,
{
    if i >= v.len() {
        Seq::empty()
    } else if i + 1 == v.len() {
        written_order(v[i as int])
    } else {
        written_order(v[i as int]) + follow(TokenModel::Comma, written_orders(v, i + 1))
    }
}

/// The tokens of all orderings, if there are any.
pub open spec fn written_ordering(v: Seq<OrderModel>) -> Seq<TokenModel> {
    if v.len() == 0 {
        Seq::empty()
    } else {
        follow(TokenModel::Order, follow(TokenModel::By, written_orders(v, 0)))
    }
}

/// The tokens of a number of rows behind a word, if there is one.
pub open spec fn written_count(word: TokenModel, n: Option<u64>) -> Seq<TokenModel> {
    match n {
        Some(x) => seq![word, TokenModel::IntLit(x as i64)],
        None => Seq::empty(),
    }
}

/// The tokens of a statement, with `end` behind them.
pub open spec fn written_select(s: SelectModel, end: Seq<TokenModel>) -> Seq<TokenModel> {
    follow(
        TokenModel::Select,
        written_projections(s.projections, 0) + follow(
            TokenModel::From,
            written_table(s.from) + (written_joins(s.joins, 0) + written_tail(s, end)),
        ),
    )
}

/// The tokens of what comes behind the joins of a statement, with `end` behind them.
pub open spec fn written_tail(s: SelectModel, end: Seq<TokenModel>) -> Seq<TokenModel> {
    written_condition(TokenModel::Where, s.filter) + (written_groups(s.group_by) + (
    written_condition(TokenModel::Having, s.having) + (written_ordering(s.order_by) + (written_count(
        TokenModel::Limit,
        s.limit,
    ) + (written_count(TokenModel::Offset, s.offset) + end)))))
}

/// Whether a statement can be written: it projects something, its expressions can be
/// written, and its numbers of rows fit in a literal.
pub open spec fn select_can_be_written(s: SelectModel) -> bool {
    &&& s.projections.len() > 0
    &&& forall|i: int|
        0 <= i < s.projections.len() ==> (#[trigger] s.projections[i] matches ProjectionModel::Expr {
            expr,
            alias,
        } ==> can_be_written(expr))
    &&& forall|i: int| 0 <= i < s.joins.len() ==> can_be_written((#[trigger] s.joins[i]).condition)
    &&& s.filter matches Some(e) ==> can_be_written(e)
    &&& forall|i: int| 0 <= i < s.group_by.len() ==> can_be_written(#[trigger] s.group_by[i])
    &&& s.having matches Some(e) ==> can_be_written(e)
    &&& forall|i: int| 0 <= i < s.order_by.len() ==> can_be_written((#[trigger] s.order_by[i]).expr)
    &&& s.limit matches Some(n) ==> n <= i64::MAX
    &&& s.offset matches Some(n) ==> n <= i64::MAX
}

// ── Reading statements back ─────────────────────────────────────────────────

/// Whether a token ends a part of a statement: it goes on with no expression, is no alias, no
/// direction and no comma.
pub open spec fn ends_part(x: TokenModel) -> bool {
    closes(0, x) && !(x is Ident) && !(x is As) && !(x is Comma) && !(x is Asc) && !(x is Desc)
}

/// The place of a word among the parts of a statement.
pub open spec fn part(x: TokenModel) -> Option<nat> {
    match x {
        TokenModel::Join | TokenModel::Left | TokenModel::Right => Some(0),
        TokenModel::Where => Some(1),
        TokenModel::Group => Some(2),
        TokenModel::Having => Some(3),
        TokenModel::Order => Some(4),
        TokenModel::Limit => Some(5),
        TokenModel::Offset => Some(6),
        TokenModel::Semicolon | TokenModel::Eof => Some(7),
        _ => None,
    }
}

/// Whether a token starts one of the parts from `k` on.
pub open spec fn starts_from(k: nat, x: TokenModel) -> bool {
    part(x) matches Some(n) && n >= k
}

proof fn lemma_alias(t: Seq<TokenModel>, p: nat, a: Option<Seq<char>>)
    requires
        stands_at(t, p, written_alias(a)),
        ends_part(tok(t, p + written_alias(a).len())) || tok(t, p + written_alias(a).len()) is Comma,
    ensures
        alias_at(t, p) == Ok::<(Option<Seq<char>>, nat), ParseFault>(
            (a, p + written_alias(a).len()),
        ),
{
    reveal(alias_at);
    if a is Some {
        lemma_token(t, p, written_alias(a), 0);
        lemma_token(t, p, written_alias(a), 1);
    }
}

proof fn lemma_projected(t: Seq<TokenModel>, p: nat, e: ExprModel)
    requires
        can_be_written(e),
        stands_at(t, p, written_projected(e)),
        closes(0, tok(t, p + written_projected(e).len())),
    ensures
        expr_at(t, p) == Ok::<(ExprModel, nat), ParseFault>((e, p + written_projected(e).len())),
        written_projected(e).len() > 0,
        !(tok(t, p) is Star),
{
    lemma_first(e);
    let w = written(e, 0);
    lemma_token(t, p, written_projected(e), 0);
    if w[0] is Star {
        lemma_follow(t, p, TokenModel::LParen, w + seq![TokenModel::RParen]);
        lemma_split(t, p + 1, w, seq![TokenModel::RParen]);
        let r = p + 1 + w.len();
        lemma_token(t, r, seq![TokenModel::RParen], 0);
        lemma_reads(t, p + 1, e, 0);
        lemma_reads_bracketed(t, p, r, e);
        lemma_weaken(7, 0, t, p, r + 1, e);
        lemma_ends(0, t, p, r + 1, e);
    } else {
        written_expression_reads_back(t, p, e);
    }
}

proof fn lemma_projection(t: Seq<TokenModel>, p: nat, x: ProjectionModel)
    requires
        x matches ProjectionModel::Expr { expr, alias } ==> can_be_written(expr),
        stands_at(t, p, written_projection(x)),
        ({
            let next = tok(t, p + written_projection(x).len());
            ends_part(next) || next is Comma
        }),
    ensures
        written_projection(x).len() > 0,
        projection_at(t, p) == Ok::<(ProjectionModel, nat), ParseFault>(
            (x, p + written_projection(x).len()),
        ),
        !(tok(t, p) is Distinct),
{
    reveal(projection_at);
    match x {
        ProjectionModel::Star => {
            lemma_token(t, p, written_projection(x), 0);
        },
        ProjectionModel::Expr { expr, alias } => {
            let w = written_projected(expr);
            lemma_split(t, p, w, written_alias(alias));
            let r = p + w.len();
            if alias is Some {
                lemma_token(t, r, written_alias(alias), 0);
            }
            lemma_projected(t, p, expr);
            lemma_alias(t, r, alias);
            lemma_first(expr);
            lemma_no_word(expr);
            lemma_token(t, p, w, 0);
        },
    }
}

proof fn lemma_no_word(e: ExprModel)
    requires
        can_be_written(e),
    ensures
        bare(e).len() > 0,
        !(bare(e)[0] is Distinct),
    decreases e,
{
    lemma_first(e);
    match e {
        ExprModel::BinOp { op, left, right } => {
            lemma_no_word(*left);
        },
        ExprModel::IsNull(x) => {
            lemma_no_word(*x);
        },
        ExprModel::IsNotNull(x) => {
            lemma_no_word(*x);
        },
        ExprModel::Between { expr, low, high } => {
            lemma_no_word(*expr);
        },
        ExprModel::In { expr, list } => {
            lemma_no_word(*expr);
        },
        ExprModel::Like { expr, pattern, negated } => {
            lemma_no_word(*expr);
        },
        _ => {},
    }
}

proof fn lemma_projections(t: Seq<TokenModel>, p: nat, v: Seq<ProjectionModel>, i: nat)
    requires
        i < v.len(),
        forall|k: int|
            0 <= k < v.len() ==> (#[trigger] v[k] matches ProjectionModel::Expr { expr, alias }
                ==> can_be_written(expr)),
        stands_at(t, p, written_projections(v, i)),
        ends_part(tok(t, p + written_projections(v, i).len())),
    ensures
        written_projections(v, i).len() > 0,
        projections_at(t, p, v.take(i as int)) == Ok::<(Seq<ProjectionModel>, nat), ParseFault>(
            (v, p + written_projections(v, i).len()),
        ),
        !(tok(t, p) is Distinct),
    decreases v.len() - i,
{
    reveal(projections_at);
    let x = v[i as int];
    let w = written_projection(x);
    assert(v.take(i as int).push(x) =~= v.take((i + 1) as int));
    if i + 1 == v.len() {
        lemma_projection(t, p, x);
        assert(v.take((i + 1) as int) =~= v);
    } else {
        let rest = written_projections(v, i + 1);
        lemma_split(t, p, w, follow(TokenModel::Comma, rest));
        let r = p + w.len();
        lemma_follow(t, r, TokenModel::Comma, rest);
        lemma_projection(t, p, x);
        lemma_projections(t, r + 1, v, i + 1);
    }
}

proof fn lemma_table(t: Seq<TokenModel>, p: nat, x: TableModel)
    requires
        stands_at(t, p, written_table(x)),
        ends_part(tok(t, p + written_table(x).len())),
    ensures
        written_table(x).len() > 0,
        table_at(t, p) == Ok::<(TableModel, nat), ParseFault>((x, p + written_table(x).len())),
{
    reveal(table_at);
    lemma_follow(t, p, TokenModel::Ident(x.name), written_alias(x.alias));
    lemma_alias(t, p + 1, x.alias);
}

proof fn lemma_kind(t: Seq<TokenModel>, p: nat, k: JoinKind)
    requires
        stands_at(t, p, written_kind(k)),
    ensures
        written_kind(k).len() > 0,
        starts_from(0, tok(t, p)),
        join_kind_at(t, p) == Some(
            Ok::<(JoinKind, nat), ParseFault>((k, p + written_kind(k).len())),
        ),
{
    reveal(join_kind_at);
    let w = written_kind(k);
    lemma_token(t, p, w, 0);
    if w.len() > 1 {
        lemma_token(t, p, w, 1);
    }
}

proof fn lemma_join_body(t: Seq<TokenModel>, q: nat, r: nat, end: nat, j: JoinModel)
    requires
        table_at(t, q) == Ok::<(TableModel, nat), ParseFault>((j.table, r)),
        tok(t, r) is On,
        expr_at(t, r + 1) == Ok::<(ExprModel, nat), ParseFault>((j.condition, end)),
    ensures
        join_body_at(t, q, j.kind) == Ok::<(JoinModel, nat), ParseFault>((j, end)),
{
}

#[verifier::rlimit(40)]
proof fn lemma_join(t: Seq<TokenModel>, p: nat, j: JoinModel)
    requires
        can_be_written(j.condition),
        stands_at(t, p, written_join(j)),
        closes(0, tok(t, p + written_join(j).len())),
    ensures
        p < p + written_join(j).len() <= t.len(),
        starts_from(0, tok(t, p)),
        join_kind_at(t, p) == Some(
            Ok::<(JoinKind, nat), ParseFault>((j.kind, p + written_kind(j.kind).len())),
        ),
        join_body_at(t, p + written_kind(j.kind).len(), j.kind) == Ok::<
            (JoinModel, nat),
            ParseFault,
        >((j, p + written_join(j).len())),
{
    let k = written_kind(j.kind);
    let w = written(j.condition, 0);
    let c = follow(TokenModel::On, w);
    lemma_split(t, p, k, written_table(j.table) + c);
    let q = p + k.len();
    lemma_kind(t, p, j.kind);
    lemma_split(t, q, written_table(j.table), c);
    let r = q + written_table(j.table).len();
    lemma_follow(t, r, TokenModel::On, w);
    lemma_table(t, q, j.table);
    let end = r + 1 + w.len();
    assert(end == p + written_join(j).len());
    written_expression_reads_back(t, r + 1, j.condition);
    lemma_join_body(t, q, r, end, j);
}

proof fn lemma_joins(t: Seq<TokenModel>, p: nat, v: Seq<JoinModel>, i: nat)
    requires
        i <= v.len(),
        forall|k: int| 0 <= k < v.len() ==> can_be_written((#[trigger] v[k]).condition),
        stands_at(t, p, written_joins(v, i)),
        starts_from(1, tok(t, p + written_joins(v, i).len())),
    ensures
        starts_from(0, tok(t, p)),
        joins_at(t, p, v.take(i as int)) == Ok::<(Seq<JoinModel>, nat), ParseFault>(
            (v, p + written_joins(v, i).len()),
        ),
    decreases v.len() - i,
{
    reveal(joins_at);
    if i == v.len() {
        reveal(join_kind_at);
        assert(v.take(i as int) =~= v);
    } else {
        let j = v[i as int];
        let rest = written_joins(v, i + 1);
        lemma_split(t, p, written_join(j), rest);
        let r = p + written_join(j).len();
        lemma_joins(t, r, v, i + 1);
        lemma_join(t, p, j);
        assert(v.take(i as int).push(j) =~= v.take((i + 1) as int));
    }
}

proof fn lemma_condition(t: Seq<TokenModel>, p: nat, k: nat, word: TokenModel, e: Option<ExprModel>)
    requires
        e matches Some(x) ==> can_be_written(x),
        part(word) == Some(k),
        k != 0 && k != 7,
        stands_at(t, p, written_condition(word, e)),
        starts_from(k + 1, tok(t, p + written_condition(word, e).len())),
    ensures
        starts_from(k, tok(t, p)),
        condition_at(t, p, word) == Ok::<(Option<ExprModel>, nat), ParseFault>(
            (e, p + written_condition(word, e).len()),
        ),
{
    reveal(condition_at);
    match e {
        Some(x) => {
            lemma_follow(t, p, word, written(x, 0));
            written_expression_reads_back(t, p + 1, x);
        },
        None => {},
    }
}

proof fn lemma_groups(t: Seq<TokenModel>, p: nat, v: Seq<ExprModel>)
    requires
        forall|i: int| 0 <= i < v.len() ==> can_be_written(#[trigger] v[i]),
        stands_at(t, p, written_groups(v)),
        starts_from(3, tok(t, p + written_groups(v).len())),
    ensures
        starts_from(2, tok(t, p)),
        group_at(t, p) == Ok::<(Seq<ExprModel>, nat), ParseFault>(
            (v, p + written_groups(v).len()),
        ),
{
    reveal(group_at);
    if v.len() == 0 {
        assert(v =~= Seq::empty());
    } else {
        let w = written_list(v, v.len());
        lemma_follow(t, p, TokenModel::Group, follow(TokenModel::By, w));
        lemma_follow(t, p + 1, TokenModel::By, w);
        lemma_reads_list(t, p + 2, v, v.len());
        assert(v.take(v.len() as int) =~= v);
    }
}

proof fn lemma_order(t: Seq<TokenModel>, p: nat, x: OrderModel)
    requires
        can_be_written(x.expr),
        stands_at(t, p, written_order(x)),
    ensures
        written_order(x).len() > 0,
        order_item_at(t, p) == Ok::<(OrderModel, nat), ParseFault>((x, p + written_order(x).len())),
{
    reveal(order_item_at);
    let d = seq![
        if x.asc {
            TokenModel::Asc
        } else {
            TokenModel::Desc
        },
    ];
    lemma_split(t, p, written(x.expr, 0), d);
    lemma_token(t, p + written(x.expr, 0).len(), d, 0);
    written_expression_reads_back(t, p, x.expr);
}

proof fn lemma_orders(t: Seq<TokenModel>, p: nat, v: Seq<OrderModel>, i: nat)
    requires
        i < v.len(),
        forall|k: int| 0 <= k < v.len() ==> can_be_written((#[trigger] v[k]).expr),
        stands_at(t, p, written_orders(v, i)),
        ends_part(tok(t, p + written_orders(v, i).len())),
    ensures
        order_items_at(t, p, v.take(i as int)) == Ok::<(Seq<OrderModel>, nat), ParseFault>(
            (v, p + written_orders(v, i).len()),
        ),
    decreases v.len() - i,
{
    reveal(order_items_at);
    let x = v[i as int];
    let w = written_order(x);
    assert(v.take(i as int).push(x) =~= v.take((i + 1) as int));
    if i + 1 == v.len() {
        lemma_order(t, p, x);
        assert(v.take((i + 1) as int) =~= v);
    } else {
        let rest = written_orders(v, i + 1);
        lemma_split(t, p, w, follow(TokenModel::Comma, rest));
        let r = p + w.len();
        lemma_follow(t, r, TokenModel::Comma, rest);
        lemma_order(t, p, x);
        lemma_orders(t, r + 1, v, i + 1);
    }
}

proof fn lemma_ordering(t: Seq<TokenModel>, p: nat, v: Seq<OrderModel>)
    requires
        forall|k: int| 0 <= k < v.len() ==> can_be_written((#[trigger] v[k]).expr),
        stands_at(t, p, written_ordering(v)),
        starts_from(5, tok(t, p + written_ordering(v).len())),
    ensures
        starts_from(4, tok(t, p)),
        order_at(t, p) == Ok::<(Seq<OrderModel>, nat), ParseFault>(
            (v, p + written_ordering(v).len()),
        ),
{
    reveal(order_at);
    if v.len() == 0 {
        assert(v =~= Seq::empty());
    } else {
        let w = written_orders(v, 0);
        lemma_follow(t, p, TokenModel::Order, follow(TokenModel::By, w));
        lemma_follow(t, p + 1, TokenModel::By, w);
        lemma_orders(t, p + 2, v, 0);
        assert(v.take(0) =~= Seq::empty());
    }
}

proof fn lemma_count(t: Seq<TokenModel>, p: nat, k: nat, word: TokenModel, n: Option<u64>)
    requires
        n matches Some(x) ==> x <= i64::MAX,
        part(word) == Some(k),
        k != 0 && k != 7,
        stands_at(t, p, written_count(word, n)),
        starts_from(k + 1, tok(t, p + written_count(word, n).len())),
    ensures
        starts_from(k, tok(t, p)),
        count_at(t, p, word) == Ok::<(Option<u64>, nat), ParseFault>(
            (n, p + written_count(word, n).len()),
        ),
{
    reveal(count_at);
    match n {
        Some(x) => {
            lemma_token(t, p, written_count(word, n), 0);
            lemma_token(t, p, written_count(word, n), 1);
        },
        None => {},
    }
}

#[verifier::rlimit(40)]
proof fn lemma_tail(t: Seq<TokenModel>, p: nat, s: SelectModel, end: Seq<TokenModel>)
    requires
        select_can_be_written(s),
        end.len() > 0,
        starts_from(7, end[0]),
        stands_at(t, p, written_tail(s, end)),
    ensures
        starts_from(1, tok(t, p)),
        tail_at(t, p, s.projections, s.from, s.joins) matches Ok((out, q)) && out == s && stands_at(
            t,
            q,
            end,
        ),
{
    reveal(tail_at);
    let w6 = written_count(TokenModel::Offset, s.offset);
    let w5 = written_count(TokenModel::Limit, s.limit);
    let w4 = written_ordering(s.order_by);
    let w3 = written_condition(TokenModel::Having, s.having);
    let w2 = written_groups(s.group_by);
    let w1 = written_condition(TokenModel::Where, s.filter);
    lemma_split(t, p, w1, w2 + (w3 + (w4 + (w5 + (w6 + end)))));
    let p1 = p + w1.len();
    lemma_split(t, p1, w2, w3 + (w4 + (w5 + (w6 + end))));
    let p2 = p1 + w2.len();
    lemma_split(t, p2, w3, w4 + (w5 + (w6 + end)));
    let p3 = p2 + w3.len();
    lemma_split(t, p3, w4, w5 + (w6 + end));
    let p4 = p3 + w4.len();
    lemma_split(t, p4, w5, w6 + end);
    let p5 = p4 + w5.len();
    lemma_split(t, p5, w6, end);
    let p6 = p5 + w6.len();
    lemma_token(t, p6, end, 0);
    lemma_count(t, p5, 6, TokenModel::Offset, s.offset);
    lemma_count(t, p4, 5, TokenModel::Limit, s.limit);
    lemma_ordering(t, p3, s.order_by);
    lemma_condition(t, p2, 3, TokenModel::Having, s.having);
    lemma_groups(t, p1, s.group_by);
    lemma_condition(t, p, 1, TokenModel::Where, s.filter);
}

proof fn lemma_select_parts(t: Seq<TokenModel>, s: SelectModel, p3: nat, p5: nat, p6: nat)
    requires
        tok(t, 0) is Select,
        !(tok(t, 1) is Distinct),
        projections_at(t, 1, Seq::empty()) == Ok::<(Seq<ProjectionModel>, nat), ParseFault>(
            (s.projections, p3),
        ),
        tok(t, p3) is From,
        table_at(t, p3 + 1) == Ok::<(TableModel, nat), ParseFault>((s.from, p5)),
        joins_at(t, p5, Seq::empty()) == Ok::<(Seq<JoinModel>, nat), ParseFault>((s.joins, p6)),
    ensures
        select_at(t, 0) == tail_at(t, p6, s.projections, s.from, s.joins),
{
    reveal(select_at);
}

proof fn lemma_select_places(
    t: Seq<TokenModel>,
    w: Seq<TokenModel>,
    table: Seq<TokenModel>,
    joins: Seq<TokenModel>,
    tail: Seq<TokenModel>,
)
    requires
        t == follow(
            TokenModel::Select,
            w + follow(TokenModel::From, table + (joins + tail)),
        ),
    ensures
        tok(t, 0) is Select,
        stands_at(t, 1, w),
        tok(t, 1 + w.len()) is From,
        stands_at(t, 2 + w.len(), table),
        stands_at(t, 2 + w.len() + table.len(), joins),
        stands_at(t, 2 + w.len() + table.len() + joins.len(), tail),
{
    let f = table + (joins + tail);
    assert(t.subrange(0, t.len() as int) =~= t);
    lemma_follow(t, 0, TokenModel::Select, w + follow(TokenModel::From, f));
    lemma_split(t, 1, w, follow(TokenModel::From, f));
    lemma_follow(t, 1 + w.len(), TokenModel::From, f);
    lemma_split(t, 2 + w.len(), table, joins + tail);
    lemma_split(t, 2 + w.len() + table.len(), joins, tail);
}

#[verifier::rlimit(40)]
proof fn lemma_select_reads(
    t: Seq<TokenModel>,
    s: SelectModel,
    p3: nat,
    p5: nat,
    p6: nat,
)
    requires
        select_can_be_written(s),
        tok(t, 0) is Select,
        stands_at(t, 1, written_projections(s.projections, 0)),
        p3 == 1 + written_projections(s.projections, 0).len(),
        tok(t, p3) is From,
        stands_at(t, p3 + 1, written_table(s.from)),
        p5 == p3 + 1 + written_table(s.from).len(),
        stands_at(t, p5, written_joins(s.joins, 0)),
        p6 == p5 + written_joins(s.joins, 0).len(),
        starts_from(1, tok(t, p6)),
    ensures
        select_at(t, 0) == tail_at(t, p6, s.projections, s.from, s.joins),
{
    lemma_joins(t, p5, s.joins, 0);
    assert(s.joins.take(0) =~= Seq::empty());
    lemma_table(t, p3 + 1, s.from);
    lemma_projections(t, 1, s.projections, 0);
    assert(s.projections.take(0) =~= Seq::empty());
    lemma_select_parts(t, s, p3, p5, p6);
}

#[verifier::rlimit(40)]
proof fn lemma_select(t: Seq<TokenModel>, s: SelectModel, end: Seq<TokenModel>)
    requires
        select_can_be_written(s),
        end.len() > 0,
        starts_from(7, end[0]),
        t == written_select(s, end),
    ensures
        tok(t, 0) is Select,
        select_at(t, 0) matches Ok((out, q)) && out == s && stands_at(t, q, end),
{
    let w = written_projections(s.projections, 0);
    let table = written_table(s.from);
    let joins = written_joins(s.joins, 0);
    lemma_select_places(t, w, table, joins, written_tail(s, end));
    let p3 = 1 + w.len();
    let p5 = p3 + 1 + table.len();
    let p6 = p5 + joins.len();
    lemma_tail(t, p6, s, end);
    lemma_select_reads(t, s, p3, p5, p6);
}

proof fn lemma_statement(t: Seq<TokenModel>, s: SelectModel, q: nat)
    requires
        tok(t, 0) is Select,
        select_at(t, 0) == Ok::<(SelectModel, nat), ParseFault>((s, q)),
        tok(t, q) is Eof || (tok(t, q) is Semicolon && tok(t, q + 1) is Eof),
    ensures
        statement_of(t, 0) == Ok::<SelectModel, ParseFault>(s),
{
}

#[verifier::rlimit(40)]
proof fn lemma_written_statement(s: SelectModel, end: Seq<TokenModel>)
    requires
        select_can_be_written(s),
        end == seq![TokenModel::Eof] || end == seq![TokenModel::Semicolon, TokenModel::Eof],
    ensures
        statement_of(written_select(s, end), 0) == Ok::<SelectModel, ParseFault>(s),
{
    let t = written_select(s, end);
    lemma_select(t, s, end);
    let q = select_at(t, 0)->Ok_0.1;
    lemma_token(t, q, end, 0);
    if end.len() > 1 {
        lemma_token(t, q, end, 1);
    }
    lemma_statement(t, s, q);
}

/// A statement that is written reads back as itself, with or without a semicolon behind it:
/// its projections and their aliases, its tables, joins and conditions, its groups, its
/// orderings in their directions, and its numbers of rows.
pub proof fn written_statement_reads_back(s: SelectModel)
    requires
        select_can_be_written(s),
    ensures
        statement_of(written_select(s, seq![TokenModel::Eof]), 0) == Ok::<SelectModel, ParseFault>(s),
        statement_of(written_select(s, seq![TokenModel::Semicolon, TokenModel::Eof]), 0) == Ok::<
            SelectModel,
            ParseFault,
        >(s),
{
    lemma_written_statement(s, seq![TokenModel::Eof]);
    lemma_written_statement(s, seq![TokenModel::Semicolon, TokenModel::Eof]);
}

/// An ordering without a direction is the one with `ASC`, and that with `DESC` is of the same
/// expression in the opposite direction.
pub proof fn ascending_is_the_default(
    a: Seq<TokenModel>,
    b: Seq<TokenModel>,
    c: Seq<TokenModel>,
    p: nat,
    e: ExprModel,
)
    requires
        can_be_written(e),
        stands_at(a, p, written(e, 0) + seq![TokenModel::Asc]),
        stands_at(b, p, written(e, 0)),
        ends_part(tok(b, p + written(e, 0).len())) || tok(b, p + written(e, 0).len()) is Comma,
        stands_at(c, p, written(e, 0) + seq![TokenModel::Desc]),
    ensures
        ({
            let q = p + written(e, 0).len();
            let up = OrderModel { expr: e, asc: true };
            let down = OrderModel { expr: e, asc: false };
            &&& order_item_at(a, p) == Ok::<(OrderModel, nat), ParseFault>((up, q + 1))
            &&& order_item_at(b, p) == Ok::<(OrderModel, nat), ParseFault>((up, q))
            &&& order_item_at(c, p) == Ok::<(OrderModel, nat), ParseFault>((down, q + 1))
        }),
{
    reveal(order_item_at);
    let w = written(e, 0);
    lemma_split(a, p, w, seq![TokenModel::Asc]);
    lemma_token(a, p + w.len(), seq![TokenModel::Asc], 0);
    lemma_split(c, p, w, seq![TokenModel::Desc]);
    lemma_token(c, p + w.len(), seq![TokenModel::Desc], 0);
    written_expression_reads_back(a, p, e);
    written_expression_reads_back(b, p, e);
    written_expression_reads_back(c, p, e);
}

// ── Other ways to write the same ────────────────────────────────────────────

/// An alias reads the same with `AS` in front of it and without.
pub proof fn aliases_need_no_word(t: Seq<TokenModel>, p: nat, s: Seq<char>)
    requires
        tok(t, p) is As,
        tok(t, p + 1) == TokenModel::Ident(s),
    ensures
        alias_at(t, p) == Ok::<(Option<Seq<char>>, nat), ParseFault>((Some(s), p + 2)),
        alias_at(t, p + 1) == Ok::<(Option<Seq<char>>, nat), ParseFault>((Some(s), p + 2)),
{
    reveal(alias_at);
}

/// An inner join reads the same with `INNER` in front of it and without; an outer join has
/// the side that it names.
pub proof fn joins_have_the_kind_they_name(t: Seq<TokenModel>, p: nat)
    requires
        tok(t, p + 1) is Join,
    ensures
        tok(t, p) is Inner ==> join_kind_at(t, p) == Some(
            Ok::<(JoinKind, nat), ParseFault>((JoinKind::Inner, p + 2)),
        ),
        tok(t, p) is Left ==> join_kind_at(t, p) == Some(
            Ok::<(JoinKind, nat), ParseFault>((JoinKind::Left, p + 2)),
        ),
        tok(t, p) is Right ==> join_kind_at(t, p) == Some(
            Ok::<(JoinKind, nat), ParseFault>((JoinKind::Right, p + 2)),
        ),
        join_kind_at(t, p + 1) == Some(
            Ok::<(JoinKind, nat), ParseFault>((JoinKind::Inner, p + 2)),
        ),
{
    reveal(join_kind_at);
}

/// `x NOT IN (..)` is `NOT x IN (..)`.
pub proof fn negated_choice_is_a_negation(
    t: Seq<TokenModel>,
    p: nat,
    x: ExprModel,
    list: Seq<ExprModel>,
)
    requires
        can_be_written(ExprModel::In { expr: Box::new(x), list }),
        stands_at(
            t,
            p,
            written(x, 4) + follow(
                TokenModel::Not,
                follow(
                    TokenModel::In,
                    follow(
                        TokenModel::LParen,
                        written_list(list, list.len()) + seq![TokenModel::RParen],
                    ),
                ),
            ),
        ),
    ensures
        comparison_at(t, p) == Ok::<(ExprModel, nat), ParseFault>(
            (
                un(UnaryOp::Not, ExprModel::In { expr: Box::new(x), list }),
                p + written(x, 4).len() + 4 + written_list(list, list.len()).len(),
            ),
        ),
{
    let w = written(x, 4);
    let l = written_list(list, list.len());
    let c = l + seq![TokenModel::RParen];
    let o = follow(TokenModel::LParen, c);
    lemma_split(t, p, w, follow(TokenModel::Not, follow(TokenModel::In, o)));
    let m = p + w.len();
    lemma_follow(t, m, TokenModel::Not, follow(TokenModel::In, o));
    lemma_follow(t, m + 1, TokenModel::In, o);
    lemma_follow(t, m + 2, TokenModel::LParen, c);
    lemma_split(t, m + 3, l, seq![TokenModel::RParen]);
    let n = m + 3 + l.len();
    lemma_token(t, n, seq![TokenModel::RParen], 0);
    lemma_reads(t, p, x, 4);
    lemma_ends(4, t, p, m, x);
    lemma_reads_list(t, m + 3, list, list.len());
    assert(list.take(list.len() as int) =~= list);
    lemma_negated_choice(t, p, m, n, x, list);
}

proof fn lemma_negated_choice(
    t: Seq<TokenModel>,
    p: nat,
    m: nat,
    n: nat,
    x: ExprModel,
    list: Seq<ExprModel>,
)
    requires
        p < m < t.len(),
        sum_at(t, p) == Ok::<(ExprModel, nat), ParseFault>((x, m)),
        tok(t, m) is Not,
        tok(t, m + 1) is In,
        tok(t, m + 2) is LParen,
        list_at(t, m + 3) == Ok::<(Seq<ExprModel>, nat), ParseFault>((list, n)),
        tok(t, n) is RParen,
    ensures
        comparison_at(t, p) == Ok::<(ExprModel, nat), ParseFault>(
            (un(UnaryOp::Not, ExprModel::In { expr: Box::new(x), list }), n + 1),
        ),
{
    assert(comparison_at(t, p) == predicate_at(t, m, x));
    assert(in_list_at(t, m + 2) == Ok::<(Seq<ExprModel>, nat), ParseFault>((list, n + 1)));
    assert(crate::query::grammar::in_at(t, m + 2, x) == Ok::<(ExprModel, nat), ParseFault>(
        (ExprModel::In { expr: Box::new(x), list }, n + 1),
    ));
    assert(predicate_at(t, m, x) == crate::query::grammar::negated_at(t, m + 1, x));
}

/// A statement starts with `SELECT`, and behind it comes nothing but a semicolon or none.
pub proof fn nothing_follows_a_statement(t: Seq<TokenModel>, s: SelectModel, q: nat)
    ensures
        !(tok(t, 0) is Select) ==> statement_of(t, 0) == Err::<SelectModel, ParseFault>(
            ParseFault::ExpectedSelect(tok(t, 0)),
        ),
        select_at(t, 0) == Ok::<(SelectModel, nat), ParseFault>((s, q)) && !(tok(t, q) is Semicolon)
            && !(tok(t, q) is Eof) ==> statement_of(t, 0) is Err,
        select_at(t, 0) == Ok::<(SelectModel, nat), ParseFault>((s, q)) && tok(t, q) is Semicolon
            && !(tok(t, q + 1) is Eof) ==> statement_of(t, 0) is Err,
{
}

} // verus!
