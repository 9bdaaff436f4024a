//! Lexer of the query language: from text to tokens.

use crate::query::error::{LexError, QueryError};
use crate::text::{i64_of, is_digit, parse_i64, str_eq, to_uppercase, uppercase};
use arrow::datatypes::{ArrowPrimitiveType, Float64Type};
use vstd::prelude::*;
use vstd::utf8::encode_utf8;

verus! {

/// A token. A number with a fraction is held as the bits of its IEEE 754
/// representation.
#[derive(Debug, PartialEq)]
pub enum Token {
    // Keywords
    Select,
    From,
    Where,
    And,
    Or,
    Not,
    Is,
    Null,
    In,
    Between,
    Like,
    Join,
    Inner,
    Left,
    Right,
    On,
    As,
    Group,
    By,
    Having,
    Order,
    Asc,
    Desc,
    Limit,
    Offset,
    True,
    False,
    Distinct,
    Interval,
    // Identifiers and literals
    Ident(String),
    IntLit(i64),
    FloatLit(u64),
    StrLit(String),
    // Operators
    Plus,
    Minus,
    Star,
    Slash,
    Percent,
    Eq,
    NotEq,
    Lt,
    LtEq,
    Gt,
    GtEq,
    LParen,
    RParen,
    Comma,
    Dot,
    Semicolon,
    // End of the text
    Eof,
}

/// A token as a mathematical value.
pub enum TokenModel {
    Select,
    From,
    Where,
    And,
    Or,
    Not,
    Is,
    Null,
    In,
    Between,
    Like,
    Join,
    Inner,
    Left,
    Right,
    On,
    As,
    Group,
    By,
    Having,
    Order,
    Asc,
    Desc,
    Limit,
    Offset,
    True,
    False,
    Distinct,
    Interval,
    Ident(Seq<char>),
    IntLit(i64),
    FloatLit(u64),
    StrLit(Seq<char>),
    Plus,
    Minus,
    Star,
    Slash,
    Percent,
    Eq,
    NotEq,
    Lt,
    LtEq,
    Gt,
    GtEq,
    LParen,
    RParen,
    Comma,
    Dot,
    Semicolon,
    Eof,
}

impl View for Token {
    type V = TokenModel;

    open spec fn view(&self) -> TokenModel {
        match self {
            Token::Select => TokenModel::Select,
            Token::From => TokenModel::From,
            Token::Where => TokenModel::Where,
            Token::And => TokenModel::And,
            Token::Or => TokenModel::Or,
            Token::Not => TokenModel::Not,
            Token::Is => TokenModel::Is,
            Token::Null => TokenModel::Null,
            Token::In => TokenModel::In,
            Token::Between => TokenModel::Between,
            Token::Like => TokenModel::Like,
            Token::Join => TokenModel::Join,
            Token::Inner => TokenModel::Inner,
            Token::Left => TokenModel::Left,
            Token::Right => TokenModel::Right,
            Token::On => TokenModel::On,
            Token::As => TokenModel::As,
            Token::Group => TokenModel::Group,
            Token::By => TokenModel::By,
            Token::Having => TokenModel::Having,
            Token::Order => TokenModel::Order,
            Token::Asc => TokenModel::Asc,
            Token::Desc => TokenModel::Desc,
            Token::Limit => TokenModel::Limit,
            Token::Offset => TokenModel::Offset,
            Token::True => TokenModel::True,
            Token::False => TokenModel::False,
            Token::Distinct => TokenModel::Distinct,
            Token::Interval => TokenModel::Interval,
            Token::Ident(s) => TokenModel::Ident(s@),
            Token::IntLit(n) => TokenModel::IntLit(*n),
            Token::FloatLit(b) => TokenModel::FloatLit(*b),
            Token::StrLit(s) => TokenModel::StrLit(s@),
            Token::Plus => TokenModel::Plus,
            Token::Minus => TokenModel::Minus,
            Token::Star => TokenModel::Star,
            Token::Slash => TokenModel::Slash,
            Token::Percent => TokenModel::Percent,
            Token::Eq => TokenModel::Eq,
            Token::NotEq => TokenModel::NotEq,
            Token::Lt => TokenModel::Lt,
            Token::LtEq => TokenModel::LtEq,
            Token::Gt => TokenModel::Gt,
            Token::GtEq => TokenModel::GtEq,
            Token::LParen => TokenModel::LParen,
            Token::RParen => TokenModel::RParen,
            Token::Comma => TokenModel::Comma,
            Token::Dot => TokenModel::Dot,
            Token::Semicolon => TokenModel::Semicolon,
            Token::Eof => TokenModel::Eof,
        }
    }
}

/// The views of a list of tokens.
pub open spec fn token_views(v: Seq<Token>) -> Seq<TokenModel> {
    v.map_values(|t: Token| t@)
}

impl Token {
    /// A copy of this token.
    pub fn duplicate(&self) -> (out: Token)
        ensures
            out@ == self@,
    {
        match self {
            Token::Select => Token::Select,
            Token::From => Token::From,
            Token::Where => Token::Where,
            Token::And => Token::And,
            Token::Or => Token::Or,
            Token::Not => Token::Not,
            Token::Is => Token::Is,
            Token::Null => Token::Null,
            Token::In => Token::In,
            Token::Between => Token::Between,
            Token::Like => Token::Like,
            Token::Join => Token::Join,
            Token::Inner => Token::Inner,
            Token::Left => Token::Left,
            Token::Right => Token::Right,
            Token::On => Token::On,
            Token::As => Token::As,
            Token::Group => Token::Group,
            Token::By => Token::By,
            Token::Having => Token::Having,
            Token::Order => Token::Order,
            Token::Asc => Token::Asc,
            Token::Desc => Token::Desc,
            Token::Limit => Token::Limit,
            Token::Offset => Token::Offset,
            Token::True => Token::True,
            Token::False => Token::False,
            Token::Distinct => Token::Distinct,
            Token::Interval => Token::Interval,
            Token::Ident(s) => Token::Ident(s.clone()),
            Token::IntLit(n) => Token::IntLit(*n),
            Token::FloatLit(b) => Token::FloatLit(*b),
            Token::StrLit(s) => Token::StrLit(s.clone()),
            Token::Plus => Token::Plus,
            Token::Minus => Token::Minus,
            Token::Star => Token::Star,
            Token::Slash => Token::Slash,
            Token::Percent => Token::Percent,
            Token::Eq => Token::Eq,
            Token::NotEq => Token::NotEq,
            Token::Lt => Token::Lt,
            Token::LtEq => Token::LtEq,
            Token::Gt => Token::Gt,
            Token::GtEq => Token::GtEq,
            Token::LParen => Token::LParen,
            Token::RParen => Token::RParen,
            Token::Comma => Token::Comma,
            Token::Dot => Token::Dot,
            Token::Semicolon => Token::Semicolon,
            Token::Eof => Token::Eof,
        }
    }

    /// Whether two tokens are the same.
    pub fn same(&self, other: &Token) -> (yes: bool)
        ensures
            yes == (self@ == other@),
    {
        match (self, other) {
            (Token::Ident(a), Token::Ident(b)) => str_eq(a.as_str(), b.as_str()),
            (Token::StrLit(a), Token::StrLit(b)) => str_eq(a.as_str(), b.as_str()),
            (Token::IntLit(a), Token::IntLit(b)) => *a == *b,
            (Token::FloatLit(a), Token::FloatLit(b)) => *a == *b,
            (Token::Select, Token::Select) => true,
            (Token::From, Token::From) => true,
            (Token::Where, Token::Where) => true,
            (Token::And, Token::And) => true,
            (Token::Or, Token::Or) => true,
            (Token::Not, Token::Not) => true,
            (Token::Is, Token::Is) => true,
            (Token::Null, Token::Null) => true,
            (Token::In, Token::In) => true,
            (Token::Between, Token::Between) => true,
            (Token::Like, Token::Like) => true,
            (Token::Join, Token::Join) => true,
            (Token::Inner, Token::Inner) => true,
            (Token::Left, Token::Left) => true,
            (Token::Right, Token::Right) => true,
            (Token::On, Token::On) => true,
            (Token::As, Token::As) => true,
            (Token::Group, Token::Group) => true,
            (Token::By, Token::By) => true,
            (Token::Having, Token::Having) => true,
            (Token::Order, Token::Order) => true,
            (Token::Asc, Token::Asc) => true,
            (Token::Desc, Token::Desc) => true,
            (Token::Limit, Token::Limit) => true,
            (Token::Offset, Token::Offset) => true,
            (Token::True, Token::True) => true,
            (Token::False, Token::False) => true,
            (Token::Distinct, Token::Distinct) => true,
            (Token::Interval, Token::Interval) => true,
            (Token::Plus, Token::Plus) => true,
            (Token::Minus, Token::Minus) => true,
            (Token::Star, Token::Star) => true,
            (Token::Slash, Token::Slash) => true,
            (Token::Percent, Token::Percent) => true,
            (Token::Eq, Token::Eq) => true,
            (Token::NotEq, Token::NotEq) => true,
            (Token::Lt, Token::Lt) => true,
            (Token::LtEq, Token::LtEq) => true,
            (Token::Gt, Token::Gt) => true,
            (Token::GtEq, Token::GtEq) => true,
            (Token::LParen, Token::LParen) => true,
            (Token::RParen, Token::RParen) => true,
            (Token::Comma, Token::Comma) => true,
            (Token::Dot, Token::Dot) => true,
            (Token::Semicolon, Token::Semicolon) => true,
            (Token::Eof, Token::Eof) => true,
            _ => false,
        }
    }
}

// ── Model ───────────────────────────────────────────────────────────────────

/// Why a text has no tokens.
pub enum LexFault {
    /// A `!` that no `=` follows; the position behind it.
    LoneBang(nat),
    /// A byte with which no token starts.
    UnexpectedByte(u8),
    /// A number that does not fit.
    BadNumber(Seq<char>),
    UnterminatedString,
    UnterminatedIdent,
}

/// The byte at `p`, and 0 behind the end.
pub open spec fn byte_at(src: Seq<u8>, p: nat) -> u8 {
    if p < src.len() {
        src[p as int]
    } else {
        0
    }
}

pub open spec fn is_space(b: u8) -> bool {
    b == 32 || b == 9 || b == 10 || b == 13
}

pub open spec fn is_digit_byte(b: u8) -> bool {
    48 <= b <= 57
}

/// Whether a byte can start a name: a letter or `_`.
pub open spec fn starts_word(b: u8) -> bool {
    97 <= b <= 122 || 65 <= b <= 90 || b == 95
}

pub open spec fn in_word(b: u8) -> bool {
    starts_word(b) || is_digit_byte(b)
}

/// The end of the line that `p` lies in: the next line feed, or the end of the text.
pub open spec fn line_end(src: Seq<u8>, p: nat) -> nat
    decreases src.len() - p,
{
    if p >= src.len() || src[p as int] == 10 {
        p
    } else {
        line_end(src, p + 1)
    }
}

/// The first position from `p` on that is neither space nor part of a `--` comment.
pub open spec fn skip_blank(src: Seq<u8>, p: nat) -> nat
    decreases src.len() - p,
{
    if p >= src.len() {
        p
    } else if is_space(src[p as int]) {
        skip_blank(src, p + 1)
    } else if src[p as int] == 45 && byte_at(src, p + 1) == 45 {
        proof {
            line_end_goes_on(src, p + 2);
        }
        skip_blank(src, line_end(src, p + 2))
    } else {
        p
    }
}

/// The end of the digits from `p` on.
pub open spec fn digits_end(src: Seq<u8>, p: nat) -> nat
    decreases src.len() - p,
{
    if p < src.len() && is_digit_byte(src[p as int]) {
        digits_end(src, p + 1)
    } else {
        p
    }
}

/// The end of the word from `p` on.
pub open spec fn word_end(src: Seq<u8>, p: nat) -> nat
    decreases src.len() - p,
{
    if p < src.len() && in_word(src[p as int]) {
        word_end(src, p + 1)
    } else {
        p
    }
}

/// Bytes as characters with the same numbers.
pub open spec fn byte_chars(src: Seq<u8>, from: nat, to: nat) -> Seq<char> {
    Seq::new((to - from) as nat, |i: int| src[from + i] as char)
}

/// What follows the opening quote of a string, with `s` read so far: the string, if it
/// is closed, and the position behind it. Two quotes stand for one. A zero byte ends
/// the text.
pub open spec fn string_from(src: Seq<u8>, p: nat, s: Seq<char>) -> (Option<Seq<char>>, nat)
    decreases src.len() - p,
{
    let b = byte_at(src, p);
    if b == 0 {
        (None, p)
    } else if b == 39 {
        if byte_at(src, p + 1) == 39 {
            string_from(src, p + 2, s.push('\''))
        } else {
            (Some(s), p + 1)
        }
    } else {
        string_from(src, p + 1, s.push(b as char))
    }
}

/// What follows the opening quote of a quoted name, with `s` read so far.
pub open spec fn quoted_from(src: Seq<u8>, p: nat, s: Seq<char>) -> (Option<Seq<char>>, nat)
    decreases src.len() - p,
{
    let b = byte_at(src, p);
    if b == 0 {
        (None, p)
    } else if b == 34 {
        (Some(s), p + 1)
    } else {
        quoted_from(src, p + 1, s.push(b as char))
    }
}

/// The keyword that a word in capitals is.
pub open spec fn keyword_of(word: Seq<char>) -> Option<TokenModel> {
    if word == "SELECT"@ {
        Some(TokenModel::Select)
    } else if word == "FROM"@ {
        Some(TokenModel::From)
    } else if word == "WHERE"@ {
        Some(TokenModel::Where)
    } else if word == "AND"@ {
        Some(TokenModel::And)
    } else if word == "OR"@ {
        Some(TokenModel::Or)
    } else if word == "NOT"@ {
        Some(TokenModel::Not)
    } else if word == "IS"@ {
        Some(TokenModel::Is)
    } else if word == "NULL"@ {
        Some(TokenModel::Null)
    } else if word == "IN"@ {
        Some(TokenModel::In)
    } else if word == "BETWEEN"@ {
        Some(TokenModel::Between)
    } else if word == "LIKE"@ {
        Some(TokenModel::Like)
    } else if word == "JOIN"@ {
        Some(TokenModel::Join)
    } else if word == "INNER"@ {
        Some(TokenModel::Inner)
    } else if word == "LEFT"@ {
        Some(TokenModel::Left)
    } else if word == "RIGHT"@ {
        Some(TokenModel::Right)
    } else if word == "ON"@ {
        Some(TokenModel::On)
    } else if word == "AS"@ {
        Some(TokenModel::As)
    } else if word == "GROUP"@ {
        Some(TokenModel::Group)
    } else if word == "BY"@ {
        Some(TokenModel::By)
    } else if word == "HAVING"@ {
        Some(TokenModel::Having)
    } else if word == "ORDER"@ {
        Some(TokenModel::Order)
    } else if word == "ASC"@ {
        Some(TokenModel::Asc)
    } else if word == "DESC"@ {
        Some(TokenModel::Desc)
    } else if word == "LIMIT"@ {
        Some(TokenModel::Limit)
    } else if word == "OFFSET"@ {
        Some(TokenModel::Offset)
    } else if word == "TRUE"@ {
        Some(TokenModel::True)
    } else if word == "FALSE"@ {
        Some(TokenModel::False)
    } else if word == "DISTINCT"@ {
        Some(TokenModel::Distinct)
    } else if word == "INTERVAL"@ {
        Some(TokenModel::Interval)
    } else {
        None
    }
}

/// Whether a text is made of digits, a point and digits.
pub open spec fn is_fraction(s: Seq<char>) -> bool {
    exists|i: int| #[trigger] has_point_at(s, i)
}

/// Whether a text is made of digits, a point at `i`, and digits.
pub open spec fn has_point_at(s: Seq<char>, i: int) -> bool {
    0 < i < s.len() - 1 && s[i] == '.' && forall|j: int|
        0 <= j < s.len() && j != i ==> is_digit(#[trigger] s[j])
}

/// The bits of the number nearest to the one that a decimal text writes.
pub uninterp spec fn float_of_text(s: Seq<char>) -> Option<u64>;

/// `str::parse` to a 64-bit floating-point number, of a text of digits, a point and digits,
/// as the bits of its result. The number depends on the text alone.
#[verifier::external_body]
fn parse_float(s: &str) -> (out: Option<u64>)
    requires
        is_fraction(s@),
    ensures
        out == float_of_text(s@),
{
    s.parse::<<Float64Type as ArrowPrimitiveType>::Native>().ok().map(|x| x.to_bits())
}

/// The number that starts at `p`, a digit, and the position behind it.
pub open spec fn number_at(src: Seq<u8>, p: nat) -> (Result<TokenModel, LexFault>, nat) {
    let e = digits_end(src, p);
    if byte_at(src, e) == 46 && is_digit_byte(byte_at(src, e + 1)) {
        let f = digits_end(src, e + 1);
        let text = byte_chars(src, p, f);
        match float_of_text(text) {
            Some(b) => (Ok(TokenModel::FloatLit(b)), f),
            None => (Err(LexFault::BadNumber(text)), f),
        }
    } else {
        let text = byte_chars(src, p, e);
        match i64_of(text) {
            Some(n) => (Ok(TokenModel::IntLit(n)), e),
            None => (Err(LexFault::BadNumber(text)), e),
        }
    }
}

/// The token that starts at `p`, and the position behind it.
pub open spec fn token_at(src: Seq<u8>, p: nat) -> (Result<TokenModel, LexFault>, nat) {
    let b = byte_at(src, p);
    let c = byte_at(src, p + 1);
    if b == 43 {
        (Ok(TokenModel::Plus), p + 1)
    } else if b == 45 {
        (Ok(TokenModel::Minus), p + 1)
    } else if b == 42 {
        (Ok(TokenModel::Star), p + 1)
    } else if b == 47 {
        (Ok(TokenModel::Slash), p + 1)
    } else if b == 37 {
        (Ok(TokenModel::Percent), p + 1)
    } else if b == 40 {
        (Ok(TokenModel::LParen), p + 1)
    } else if b == 41 {
        (Ok(TokenModel::RParen), p + 1)
    } else if b == 44 {
        (Ok(TokenModel::Comma), p + 1)
    } else if b == 46 {
        (Ok(TokenModel::Dot), p + 1)
    } else if b == 59 {
        (Ok(TokenModel::Semicolon), p + 1)
    } else if b == 61 {
        (Ok(TokenModel::Eq), p + 1)
    } else if b == 60 {
        if c == 61 {
            (Ok(TokenModel::LtEq), p + 2)
        } else if c == 62 {
            (Ok(TokenModel::NotEq), p + 2)
        } else {
            (Ok(TokenModel::Lt), p + 1)
        }
    } else if b == 62 {
        if c == 61 {
            (Ok(TokenModel::GtEq), p + 2)
        } else {
            (Ok(TokenModel::Gt), p + 1)
        }
    } else if b == 33 {
        if c == 61 {
            (Ok(TokenModel::NotEq), p + 2)
        } else {
            (Err(LexFault::LoneBang(p + 1)), p + 1)
        }
    } else if b == 39 {
        match string_from(src, p + 1, Seq::empty()) {
            (Some(s), e) => (Ok(TokenModel::StrLit(s)), e),
            (None, e) => (Err(LexFault::UnterminatedString), e),
        }
    } else if is_digit_byte(b) {
        number_at(src, p)
    } else if starts_word(b) {
        let e = word_end(src, p);
        let word = byte_chars(src, p, e);
        match keyword_of(uppercase(word)) {
            Some(t) => (Ok(t), e),
            None => (Ok(TokenModel::Ident(word)), e),
        }
    } else if b == 34 {
        match quoted_from(src, p + 1, Seq::empty()) {
            (Some(s), e) => (Ok(TokenModel::Ident(s)), e),
            (None, e) => (Err(LexFault::UnterminatedIdent), e),
        }
    } else {
        (Err(LexFault::UnexpectedByte(b)), p)
    }
}

/// The tokens from `p` on, behind those in `front`, and the position where reading
/// ended.
pub open spec fn tokens_from(src: Seq<u8>, p: nat, front: Seq<TokenModel>) -> (
    Result<Seq<TokenModel>, LexFault>,
    nat,
)
    decreases src.len() - p,
{
    let q = skip_blank(src, p);
    proof {
        skip_blank_goes_on(src, p);
        if q < src.len() {
            token_goes_on(src, q);
        }
    }
    if q >= src.len() {
        (Ok(front.push(TokenModel::Eof)), q)
    } else {
        match token_at(src, q) {
            (Ok(t), e) => tokens_from(src, e, front.push(t)),
            (Err(f), e) => (Err(f), e),
        }
    }
}

/// The tokens of a text.
pub open spec fn tokens_of(text: Seq<char>) -> Result<Seq<TokenModel>, LexFault> {
    tokens_from(encode_utf8(text), 0, Seq::empty()).0
}

// ── Lemmas ──────────────────────────────────────────────────────────────────

/// The end of a line lies behind its start and inside the text.
pub proof fn line_end_goes_on(src: Seq<u8>, p: nat)
    ensures
        line_end(src, p) >= p,
        p <= src.len() ==> line_end(src, p) <= src.len(),
    decreases src.len() - p,
{
    if p < src.len() && src[p as int] != 10 {
        line_end_goes_on(src, p + 1);
    }
}

/// Skipping blanks goes forward and stays inside the text.
pub proof fn skip_blank_goes_on(src: Seq<u8>, p: nat)
    ensures
        skip_blank(src, p) >= p,
        p <= src.len() ==> skip_blank(src, p) <= src.len(),
    decreases src.len() - p,
{
    if p < src.len() {
        if is_space(src[p as int]) {
            skip_blank_goes_on(src, p + 1);
        } else if src[p as int] == 45 && byte_at(src, p + 1) == 45 {
            line_end_goes_on(src, p + 2);
            skip_blank_goes_on(src, line_end(src, p + 2));
        }
    }
}

proof fn lemma_digits_end(src: Seq<u8>, p: nat)
    ensures
        digits_end(src, p) >= p,
        p <= src.len() ==> digits_end(src, p) <= src.len(),
        forall|i: int| p <= i < digits_end(src, p) ==> is_digit_byte(#[trigger] src[i]),
    decreases src.len() - p,
{
    if p < src.len() && is_digit_byte(src[p as int]) {
        lemma_digits_end(src, p + 1);
    }
}

proof fn lemma_word_end(src: Seq<u8>, p: nat)
    ensures
        word_end(src, p) >= p,
        p <= src.len() ==> word_end(src, p) <= src.len(),
    decreases src.len() - p,
{
    if p < src.len() && in_word(src[p as int]) {
        lemma_word_end(src, p + 1);
    }
}

proof fn lemma_string_end(src: Seq<u8>, p: nat, s: Seq<char>)
    ensures
        string_from(src, p, s).1 >= p,
        p <= src.len() ==> string_from(src, p, s).1 <= src.len(),
    decreases src.len() - p,
{
    let b = byte_at(src, p);
    if b == 39 {
        if byte_at(src, p + 1) == 39 {
            lemma_string_end(src, p + 2, s.push('\''));
        }
    } else if b != 0 {
        lemma_string_end(src, p + 1, s.push(b as char));
    }
}

proof fn lemma_quoted_end(src: Seq<u8>, p: nat, s: Seq<char>)
    ensures
        quoted_from(src, p, s).1 >= p,
        p <= src.len() ==> quoted_from(src, p, s).1 <= src.len(),
    decreases src.len() - p,
{
    let b = byte_at(src, p);
    if b != 0 && b != 34 {
        lemma_quoted_end(src, p + 1, s.push(b as char));
    }
}

/// A token takes at least one byte, and ends inside the text.
pub proof fn token_goes_on(src: Seq<u8>, p: nat)
    requires
        p < src.len(),
    ensures
        token_at(src, p).0 is Ok ==> token_at(src, p).1 > p,
        token_at(src, p).1 <= src.len(),
{
    let b = byte_at(src, p);
    lemma_string_end(src, p + 1, Seq::empty());
    lemma_quoted_end(src, p + 1, Seq::empty());
    lemma_digits_end(src, p + 1);
    lemma_word_end(src, p + 1);
    if is_digit_byte(b) {
        let e = digits_end(src, p);
        assert(e == digits_end(src, p + 1));
        lemma_digits_end(src, e + 1);
    }
}

/// The tokens of a text end with the end mark, which occurs nowhere else.
pub proof fn tokens_end_with_eof(src: Seq<u8>, p: nat, front: Seq<TokenModel>)
    requires
        forall|i: int| 0 <= i < front.len() ==> !((#[trigger] front[i]) is Eof),
    ensures
        tokens_from(src, p, front).0 matches Ok(tokens) ==> tokens.len() > 0 && tokens.last() is Eof
            && forall|i: int| 0 <= i < tokens.len() - 1 ==> !((#[trigger] tokens[i]) is Eof),
    decreases src.len() - p,
{
    let q = skip_blank(src, p);
    skip_blank_goes_on(src, p);
    if q < src.len() {
        token_goes_on(src, q);
        match token_at(src, q) {
            (Ok(t), e) => {
                tokens_end_with_eof(src, e, front.push(t));
            },
            (Err(f), e) => {},
        }
    }
}

/// A text as it is written between the quotes of a string: every quote twice.
pub open spec fn doubled(body: Seq<u8>) -> Seq<u8>
    decreases body.len(),
{
    if body.len() == 0 {
        Seq::empty()
    } else {
        let head = if body[0] == 39 {
            seq![39u8, 39u8]
        } else {
            seq![body[0]]
        };
        head + doubled(body.skip(1))
    }
}

proof fn lemma_doubled(pre: Seq<u8>, body: Seq<u8>, rest: Seq<u8>, s: Seq<char>)
    requires
        !body.contains(0),
        rest.len() > 0 ==> rest[0] != 39,
    ensures
        string_from(pre + doubled(body) + seq![39u8] + rest, pre.len(), s) == (
            Some(s + byte_chars(body, 0, body.len())),
            pre.len() + doubled(body).len() + 1,
        ),
    decreases body.len(),
{
    let src = pre + doubled(body) + seq![39u8] + rest;
    let p = pre.len();
    if body.len() == 0 {
        assert(byte_at(src, p) == 39);
        assert(byte_at(src, p + 1) != 39);
        assert(s + byte_chars(body, 0, 0) =~= s);
    } else {
        let tail = body.skip(1);
        let head = if body[0] == 39 {
            seq![39u8, 39u8]
        } else {
            seq![body[0]]
        };
        let next = s.push(body[0] as char);
        assert(doubled(body) == head + doubled(tail));
        assert(src =~= (pre + head) + doubled(tail) + seq![39u8] + rest);
        assert(!tail.contains(0)) by {
            if tail.contains(0) {
                let i = choose|i: int| 0 <= i < tail.len() && tail[i] == 0;
                assert(body[i + 1] == 0);
            }
        }
        assert(body.contains(body[0]));
        lemma_doubled(pre + head, tail, rest, next);
        assert(byte_at(src, p) == body[0]);
        if body[0] == 39 {
            assert(byte_at(src, p + 1) == 39);
            assert(39u8 as char == '\'');
        }
        assert(next + byte_chars(tail, 0, tail.len()) =~= s + byte_chars(body, 0, body.len()));
    }
}

/// A string is read back as it was written, wherever it stands: between quotes, with its own
/// quotes doubled, and no quote behind it. A zero byte would end the text.
pub proof fn written_string_reads_back(pre: Seq<u8>, body: Seq<u8>, rest: Seq<u8>)
    requires
        !body.contains(0),
        rest.len() > 0 ==> rest[0] != 39,
    ensures
        ({
            let written = seq![39u8] + doubled(body) + seq![39u8];
            token_at(pre + written + rest, pre.len()) == (
                Ok::<TokenModel, LexFault>(TokenModel::StrLit(byte_chars(body, 0, body.len()))),
                pre.len() + written.len(),
            )
        }),
{
    let written = seq![39u8] + doubled(body) + seq![39u8];
    let src = pre + written + rest;
    let opened = pre + seq![39u8];
    assert(src =~= opened + doubled(body) + seq![39u8] + rest);
    lemma_doubled(opened, body, rest, Seq::empty());
    assert(byte_at(src, pre.len()) == 39);
    let chars = byte_chars(body, 0, body.len());
    assert(Seq::<char>::empty() + chars =~= chars);
}

/// Whether bytes from `p` on are space and comments, each comment closed by its line's end.
pub open spec fn is_blank_text(src: Seq<u8>, p: nat) -> bool
    decreases src.len() - p,
{
    if p >= src.len() {
        true
    } else if is_space(src[p as int]) {
        is_blank_text(src, p + 1)
    } else if src[p as int] == 45 && byte_at(src, p + 1) == 45 {
        let e = line_end(src, p + 2);
        proof {
            line_end_goes_on(src, p + 2);
        }
        e < src.len() && is_blank_text(src, e)
    } else {
        false
    }
}

proof fn lemma_line_end_shifted(pre: Seq<u8>, src: Seq<u8>, p: nat)
    ensures
        line_end(pre + src, pre.len() + p) == pre.len() + line_end(src, p),
    decreases src.len() - p,
{
    if p < src.len() && src[p as int] != 10 {
        lemma_line_end_shifted(pre, src, p + 1);
    }
}

proof fn lemma_skip_blank_shifted(pre: Seq<u8>, src: Seq<u8>, p: nat)
    ensures
        skip_blank(pre + src, pre.len() + p) == pre.len() + skip_blank(src, p),
    decreases src.len() - p,
{
    if p < src.len() {
        if is_space(src[p as int]) {
            lemma_skip_blank_shifted(pre, src, p + 1);
        } else if src[p as int] == 45 && byte_at(src, p + 1) == 45 {
            lemma_line_end_shifted(pre, src, p + 2);
            line_end_goes_on(src, p + 2);
            lemma_skip_blank_shifted(pre, src, line_end(src, p + 2));
        }
    }
}

proof fn lemma_words_shifted(pre: Seq<u8>, src: Seq<u8>, p: nat)
    ensures
        digits_end(pre + src, pre.len() + p) == pre.len() + digits_end(src, p),
        word_end(pre + src, pre.len() + p) == pre.len() + word_end(src, p),
    decreases src.len() - p,
{
    if p < src.len() {
        lemma_words_shifted(pre, src, p + 1);
    }
}

proof fn lemma_strings_shifted(pre: Seq<u8>, src: Seq<u8>, p: nat, s: Seq<char>)
    ensures
        string_from(pre + src, pre.len() + p, s) == (
            string_from(src, p, s).0,
            pre.len() + string_from(src, p, s).1,
        ),
        quoted_from(pre + src, pre.len() + p, s) == (
            quoted_from(src, p, s).0,
            pre.len() + quoted_from(src, p, s).1,
        ),
    decreases src.len() - p,
{
    let b = byte_at(src, p);
    assert(byte_at(pre + src, pre.len() + p) == b);
    assert(byte_at(pre + src, pre.len() + p + 1) == byte_at(src, p + 1));
    if p < src.len() {
        lemma_strings_shifted(pre, src, p + 1, s.push(b as char));
        if p + 1 < src.len() {
            lemma_strings_shifted(pre, src, p + 2, s.push('\''));
        }
    }
}

proof fn lemma_chars_shifted(pre: Seq<u8>, src: Seq<u8>, from: nat, to: nat)
    requires
        from <= to <= src.len(),
    ensures
        byte_chars(pre + src, pre.len() + from, pre.len() + to) == byte_chars(src, from, to),
{
    assert(byte_chars(pre + src, pre.len() + from, pre.len() + to) =~= byte_chars(src, from, to));
}

proof fn lemma_token_shifted(pre: Seq<u8>, src: Seq<u8>, p: nat)
    requires
        p < src.len(),
        token_at(src, p).0 is Ok,
    ensures
        token_at(pre + src, pre.len() + p) == (token_at(src, p).0, pre.len() + token_at(src, p).1),
{
    let b = byte_at(src, p);
    assert(byte_at(pre + src, pre.len() + p) == b);
    assert(byte_at(pre + src, pre.len() + p + 1) == byte_at(src, p + 1));
    lemma_strings_shifted(pre, src, p + 1, Seq::empty());
    lemma_words_shifted(pre, src, p);
    lemma_digits_end(src, p);
    lemma_word_end(src, p);
    let e = digits_end(src, p);
    assert(byte_at(pre + src, pre.len() + e) == byte_at(src, e));
    assert(byte_at(pre + src, pre.len() + e + 1) == byte_at(src, e + 1));
    lemma_words_shifted(pre, src, e + 1);
    lemma_digits_end(src, e + 1);
    lemma_chars_shifted(pre, src, p, e);
    lemma_chars_shifted(pre, src, p, word_end(src, p));
    if byte_at(src, e) == 46 && is_digit_byte(byte_at(src, e + 1)) {
        lemma_chars_shifted(pre, src, p, digits_end(src, e + 1));
    }
}

proof fn lemma_tokens_shifted(pre: Seq<u8>, src: Seq<u8>, p: nat, front: Seq<TokenModel>)
    requires
        tokens_from(src, p, front).0 is Ok,
    ensures
        tokens_from(pre + src, pre.len() + p, front).0 == tokens_from(src, p, front).0,
    decreases src.len() - p,
{
    let q = skip_blank(src, p);
    skip_blank_goes_on(src, p);
    lemma_skip_blank_shifted(pre, src, p);
    if q < src.len() {
        token_goes_on(src, q);
        lemma_token_shifted(pre, src, q);
        match token_at(src, q) {
            (Ok(t), e) => {
                lemma_tokens_shifted(pre, src, e, front.push(t));
            },
            (Err(f), e) => {},
        }
    }
}

proof fn lemma_blank_before(pre: Seq<u8>, src: Seq<u8>, p: nat)
    requires
        p <= pre.len(),
        is_blank_text(pre, p),
    ensures
        skip_blank(pre + src, p) == skip_blank(pre + src, pre.len()),
    decreases pre.len() - p,
{
    if p < pre.len() {
        if is_space(pre[p as int]) {
            lemma_blank_before(pre, src, p + 1);
        } else {
            let e = line_end(pre, p + 2);
            line_end_goes_on(pre, p + 2);
            lemma_line_end_inside(pre, src, p + 2);
            lemma_blank_before(pre, src, e);
        }
    }
}

proof fn lemma_line_end_inside(pre: Seq<u8>, src: Seq<u8>, p: nat)
    requires
        line_end(pre, p) < pre.len(),
    ensures
        line_end(pre + src, p) == line_end(pre, p),
    decreases pre.len() - p,
{
    if p < pre.len() && pre[p as int] != 10 {
        lemma_line_end_inside(pre, src, p + 1);
    }
}

proof fn lemma_ends_kept(src: Seq<u8>, post: Seq<u8>, p: nat)
    requires
        p <= src.len(),
        post.len() > 0,
        post[0] == 10,
    ensures
        line_end(src + post, p) == line_end(src, p),
        digits_end(src + post, p) == digits_end(src, p),
        word_end(src + post, p) == word_end(src, p),
    decreases src.len() - p,
{
    if p < src.len() {
        lemma_ends_kept(src, post, p + 1);
    } else {
        assert((src + post)[p as int] == 10);
    }
}

proof fn lemma_strings_kept(src: Seq<u8>, post: Seq<u8>, p: nat, s: Seq<char>)
    requires
        post.len() > 0,
        post[0] == 10,
    ensures
        string_from(src, p, s).0 is Some ==> string_from(src + post, p, s) == string_from(
            src,
            p,
            s,
        ),
        quoted_from(src, p, s).0 is Some ==> quoted_from(src + post, p, s) == quoted_from(
            src,
            p,
            s,
        ),
    decreases src.len() - p,
{
    if p < src.len() {
        let b = src[p as int];
        assert(byte_at(src + post, p) == b);
        if p + 1 < src.len() {
            assert(byte_at(src + post, p + 1) == byte_at(src, p + 1));
        } else {
            assert(byte_at(src + post, p + 1) == 10);
        }
        lemma_strings_kept(src, post, p + 1, s.push(b as char));
        if p + 1 < src.len() {
            lemma_strings_kept(src, post, p + 2, s.push('\''));
        }
    }
}

proof fn lemma_token_kept(src: Seq<u8>, post: Seq<u8>, p: nat)
    requires
        p < src.len(),
        post.len() > 0,
        post[0] == 10,
        token_at(src, p).0 is Ok,
    ensures
        token_at(src + post, p) == token_at(src, p),
{
    let all = src + post;
    assert(byte_at(all, p) == byte_at(src, p));
    if p + 1 < src.len() {
        assert(byte_at(all, p + 1) == byte_at(src, p + 1));
    } else {
        assert(byte_at(all, p + 1) == 10);
    }
    lemma_strings_kept(src, post, p + 1, Seq::empty());
    lemma_ends_kept(src, post, p);
    lemma_digits_end(src, p);
    lemma_word_end(src, p);
    let e = digits_end(src, p);
    if e < src.len() {
        assert(byte_at(all, e) == byte_at(src, e));
        if e + 1 < src.len() {
            assert(byte_at(all, e + 1) == byte_at(src, e + 1));
        } else {
            assert(byte_at(all, e + 1) == 10);
        }
        lemma_ends_kept(src, post, e + 1);
        lemma_digits_end(src, e + 1);
    } else {
        assert(byte_at(all, e) == 10);
    }
    assert(byte_chars(all, p, e) =~= byte_chars(src, p, e));
    assert(byte_chars(all, p, word_end(src, p)) =~= byte_chars(src, p, word_end(src, p)));
    if byte_at(src, e) == 46 && is_digit_byte(byte_at(src, e + 1)) {
        let f = digits_end(src, e + 1);
        assert(byte_chars(all, p, f) =~= byte_chars(src, p, f));
    }
}

proof fn lemma_skip_blank_kept(src: Seq<u8>, post: Seq<u8>, p: nat)
    requires
        p <= src.len(),
        post.len() > 0,
        post[0] == 10,
        skip_blank(post, 0) == post.len(),
    ensures
        skip_blank(src, p) < src.len() ==> skip_blank(src + post, p) == skip_blank(src, p),
        skip_blank(src, p) >= src.len() ==> skip_blank(src + post, p) == (src + post).len(),
    decreases src.len() - p,
{
    if p == src.len() {
        lemma_skip_blank_shifted(src, post, 0);
    } else if is_space(src[p as int]) {
        lemma_skip_blank_kept(src, post, p + 1);
    } else if src[p as int] == 45 && byte_at(src, p + 1) == 45 {
        line_end_goes_on(src, p + 2);
        lemma_ends_kept(src, post, p + 2);
        lemma_skip_blank_kept(src, post, line_end(src, p + 2));
    } else if p + 1 == src.len() {
        assert(byte_at(src + post, p + 1) == 10);
    }
}

proof fn lemma_tokens_kept(src: Seq<u8>, post: Seq<u8>, p: nat, front: Seq<TokenModel>)
    requires
        p <= src.len(),
        post.len() > 0,
        post[0] == 10,
        skip_blank(post, 0) == post.len(),
        tokens_from(src, p, front).0 is Ok,
    ensures
        tokens_from(src + post, p, front).0 == tokens_from(src, p, front).0,
    decreases src.len() - p,
{
    let q = skip_blank(src, p);
    skip_blank_goes_on(src, p);
    lemma_skip_blank_kept(src, post, p);
    if q < src.len() {
        token_goes_on(src, q);
        lemma_token_kept(src, post, q);
        match token_at(src, q) {
            (Ok(t), e) => {
                lemma_tokens_kept(src, post, e, front.push(t));
            },
            (Err(f), e) => {},
        }
    }
}

proof fn lemma_encode_concat(a: Seq<char>, b: Seq<char>)
    ensures
        encode_utf8(a + b) == encode_utf8(a) + encode_utf8(b),
    decreases a.len(),
{
    if a.len() == 0 {
        assert(a + b =~= b);
        assert(encode_utf8(a) + encode_utf8(b) =~= encode_utf8(b));
    } else {
        lemma_encode_concat(a.drop_first(), b);
        assert((a + b).drop_first() =~= a.drop_first() + b);
        assert(encode_utf8(a + b) =~= encode_utf8(a) + encode_utf8(b));
    }
}

/// Space and comments in front of a text and, from the next line on, behind it add no token.
pub proof fn blanks_add_no_token(before: Seq<char>, text: Seq<char>, behind: Seq<char>)
    requires
        tokens_of(text) is Ok,
        is_blank_text(encode_utf8(before), 0),
        encode_utf8(behind).len() > 0,
        encode_utf8(behind)[0] == 10,
        skip_blank(encode_utf8(behind), 0) == encode_utf8(behind).len(),
    ensures
        tokens_of(before + text + behind) == tokens_of(text),
{
    let pre = encode_utf8(before);
    let src = encode_utf8(text);
    let post = encode_utf8(behind);
    lemma_encode_concat(before, text);
    lemma_encode_concat(before + text, behind);
    assert(pre + src + post =~= pre + (src + post));
    lemma_tokens_kept(src, post, 0, Seq::empty());
    lemma_tokens_shifted(pre, src + post, 0, Seq::empty());
    lemma_blank_before(pre, src + post, 0);
    assert(pre.len() + 0 == pre.len());
}

// ── Lexer ───────────────────────────────────────────────────────────────────

/// Whether `e` reports the fault `f`.
pub open spec fn reports_lex(e: QueryError, f: LexFault) -> bool {
    match f {
        LexFault::LoneBang(p) => e matches QueryError::Lex(LexError::LoneBang(q)) && p == q,
        LexFault::UnexpectedByte(b) => e matches QueryError::Lex(LexError::UnexpectedByte(c)) && b
            == c,
        LexFault::BadNumber(s) => e matches QueryError::Lex(LexError::BadNumber(t)) && s == t@,
        LexFault::UnterminatedString => e matches QueryError::Lex(LexError::UnterminatedString),
        LexFault::UnterminatedIdent => e matches QueryError::Lex(LexError::UnterminatedIdent),
    }
}

/// Whether the outcome of reading a token is the one that `want` says.
pub open spec fn token_outcome(
    got: Result<Token, QueryError>,
    want: Result<TokenModel, LexFault>,
) -> bool {
    match (got, want) {
        (Ok(t), Ok(m)) => t@ == m,
        (Err(e), Err(f)) => reports_lex(e, f),
        _ => false,
    }
}

/// Reads tokens off a text.
pub struct Lexer<'a> {
    src: &'a [u8],
    pos: usize,
}

impl<'a> Lexer<'a> {
    /// The text in bytes.
    pub closed spec fn source(&self) -> Seq<u8> {
        self.src@
    }

    /// Where reading goes on.
    pub closed spec fn position(&self) -> nat {
        self.pos as nat
    }

    /// A lexer at the start of a text.
    pub fn new(src: &'a str) -> (l: Lexer<'a>)
        ensures
            l.source() == encode_utf8(src@),
            l.position() == 0,
    {
        Lexer { src: src.as_bytes(), pos: 0 }
    }

    /// Reads all tokens from the position on.
    pub fn tokenise(&mut self) -> (out: Result<Vec<Token>, QueryError>)
        requires
            old(self).position() <= old(self).source().len(),
        ensures
            final(self).source() == old(self).source(),
            ({
                let want = tokens_from(old(self).source(), old(self).position(), Seq::empty());
                final(self).position() == want.1 && match (out, want.0) {
                    (Ok(tokens), Ok(models)) => token_views(tokens@) == models,
                    (Err(e), Err(f)) => reports_lex(e, f),
                    _ => false,
                }
            }),
    {
        let mut tokens: Vec<Token> = Vec::new();
        let ghost src = self.src@;
        let ghost want = tokens_from(src, self.pos as nat, Seq::empty());
        assert(token_views(tokens@) =~= Seq::empty());
        loop
            invariant
                src == self.src@,
                src == old(self).source(),
                want == tokens_from(src, old(self).position(), Seq::empty()),
                want == tokens_from(src, self.pos as nat, token_views(tokens@)),
                self.pos <= src.len(),
            decreases src.len() - self.pos,
        {
            proof {
                skip_blank_goes_on(src, self.pos as nat);
            }
            let ghost front = token_views(tokens@);
            self.skip_whitespace_and_comments();
            if self.pos >= self.src.len() {
                tokens.push(Token::Eof);
                assert(token_views(tokens@) =~= front.push(TokenModel::Eof));
                return Ok(tokens);
            }
            proof {
                token_goes_on(src, self.pos as nat);
            }
            match self.next_token() {
                Ok(t) => {
                    let ghost m = t@;
                    tokens.push(t);
                    assert(token_views(tokens@) =~= front.push(m));
                },
                Err(e) => {
                    return Err(e);
                },
            }
        }
    }

    fn peek(&self) -> (b: u8)
        ensures
            b == byte_at(self.src@, self.pos as nat),
            self.src@.len() <= usize::MAX,
    {
        if self.pos < self.src.len() {
            self.src[self.pos]
        } else {
            0
        }
    }

    fn peek2(&self) -> (b: u8)
        requires
            self.pos <= self.src@.len(),
        ensures
            b == byte_at(self.src@, (self.pos + 1) as nat),
            self.src@.len() <= usize::MAX,
    {
        if self.pos < self.src.len() && self.pos + 1 < self.src.len() {
            self.src[self.pos + 1]
        } else {
            0
        }
    }

    fn skip_whitespace_and_comments(&mut self)
        requires
            old(self).pos <= old(self).src@.len(),
        ensures
            final(self).src@ == old(self).src@,
            final(self).pos == skip_blank(old(self).src@, old(self).pos as nat),
    {
        let ghost src = self.src@;
        let ghost want = skip_blank(src, self.pos as nat);
        loop
            invariant
                src == self.src@,
                src == old(self).src@,
                want == skip_blank(src, old(self).pos as nat),
                want == skip_blank(src, self.pos as nat),
                self.pos <= src.len(),
            decreases src.len() - self.pos,
        {
            let b: u8 = self.peek();
            if b == 32 || b == 9 || b == 10 || b == 13 {
                self.pos = self.pos + 1;
            } else if b == 45 && self.peek2() == 45 {
                self.pos = self.pos + 2;
                proof {
                    line_end_goes_on(src, self.pos as nat);
                }
                let ghost end = line_end(src, self.pos as nat);
                while self.pos < self.src.len() && self.src[self.pos] != 10
                    invariant
                        src == self.src@,
                        self.pos <= src.len(),
                        end == line_end(src, self.pos as nat),
                    decreases src.len() - self.pos,
                {
                    self.pos = self.pos + 1;
                }
            } else {
                return;
            }
        }
    }

    fn single(&mut self, token: Token) -> (out: Result<Token, QueryError>)
        requires
            old(self).pos < old(self).src@.len(),
        ensures
            final(self).src@ == old(self).src@,
            final(self).pos == old(self).pos + 1,
            out == Ok::<Token, QueryError>(token),
    {
        assert(self.pos < self.src.len());
        self.pos = self.pos + 1;
        Ok(token)
    }

    fn next_token(&mut self) -> (out: Result<Token, QueryError>)
        requires
            old(self).pos < old(self).src@.len(),
        ensures
            final(self).src@ == old(self).src@,
            final(self).pos == token_at(old(self).src@, old(self).pos as nat).1,
            token_outcome(out, token_at(old(self).src@, old(self).pos as nat).0),
    {
        let b: u8 = self.peek();
        let c: u8 = self.peek2();
        if b == 43 {
            self.single(Token::Plus)
        } else if b == 45 {
            self.single(Token::Minus)
        } else if b == 42 {
            self.single(Token::Star)
        } else if b == 47 {
            self.single(Token::Slash)
        } else if b == 37 {
            self.single(Token::Percent)
        } else if b == 40 {
            self.single(Token::LParen)
        } else if b == 41 {
            self.single(Token::RParen)
        } else if b == 44 {
            self.single(Token::Comma)
        } else if b == 46 {
            self.single(Token::Dot)
        } else if b == 59 {
            self.single(Token::Semicolon)
        } else if b == 61 {
            self.single(Token::Eq)
        } else if b == 60 {
            if c == 61 {
                self.pos = self.pos + 2;
                Ok(Token::LtEq)
            } else if c == 62 {
                self.pos = self.pos + 2;
                Ok(Token::NotEq)
            } else {
                self.single(Token::Lt)
            }
        } else if b == 62 {
            if c == 61 {
                self.pos = self.pos + 2;
                Ok(Token::GtEq)
            } else {
                self.single(Token::Gt)
            }
        } else if b == 33 {
            if c == 61 {
                self.pos = self.pos + 2;
                Ok(Token::NotEq)
            } else {
                self.pos = self.pos + 1;
                Err(QueryError::Lex(LexError::LoneBang(self.pos)))
            }
        } else if b == 39 {
            self.lex_string()
        } else if b >= 48 && b <= 57 {
            self.lex_number()
        } else if (b >= 97 && b <= 122) || (b >= 65 && b <= 90) || b == 95 {
            self.lex_ident_or_keyword()
        } else if b == 34 {
            self.lex_quoted_ident()
        } else {
            Err(QueryError::Lex(LexError::UnexpectedByte(b)))
        }
    }

    fn lex_string(&mut self) -> (out: Result<Token, QueryError>)
        requires
            old(self).pos < old(self).src@.len(),
            old(self).src@[old(self).pos as int] == 39,
        ensures
            final(self).src@ == old(self).src@,
            final(self).pos == token_at(old(self).src@, old(self).pos as nat).1,
            token_outcome(out, token_at(old(self).src@, old(self).pos as nat).0),
    {
        let ghost src = self.src@;
        assert(self.pos < self.src.len());
        self.pos = self.pos + 1;
        let mut s = String::new();
        assert(s@ =~= Seq::empty());
        let ghost want = string_from(src, self.pos as nat, s@);
        loop
            invariant_except_break
                want == string_from(src, self.pos as nat, s@),
            invariant
                src == self.src@,
                src == old(self).src@,
                src[old(self).pos as int] == 39,
                old(self).pos < src.len(),
                self.pos <= src.len(),
                want == string_from(src, (old(self).pos + 1) as nat, Seq::empty()),
            ensures
                src == self.src@,
                want == (Some(s@), self.pos as nat),
            decreases src.len() - self.pos,
        {
            let b: u8 = self.peek();
            if b == 0 {
                return Err(QueryError::Lex(LexError::UnterminatedString));
            }
            if b == 39 {
                let next: u8 = self.peek2();
                self.pos = self.pos + 1;
                if next == 39 {
                    self.pos = self.pos + 1;
                    s.push('\'');
                } else {
                    break;
                }
            } else {
                s.push(b as char);
                self.pos = self.pos + 1;
            }
        }
        Ok(Token::StrLit(s))
    }

    /// Moves behind the digits at the position.
    fn skip_digits(&mut self)
        requires
            old(self).pos <= old(self).src@.len(),
        ensures
            final(self).src@ == old(self).src@,
            final(self).pos == digits_end(old(self).src@, old(self).pos as nat),
            final(self).pos <= final(self).src@.len(),
    {
        let ghost src = self.src@;
        let ghost end = digits_end(src, self.pos as nat);
        while self.pos < self.src.len() && self.src[self.pos] >= 48 && self.src[self.pos] <= 57
            invariant
                src == self.src@,
                self.pos <= src.len(),
                end == digits_end(src, self.pos as nat),
            decreases src.len() - self.pos,
        {
            assert(self.pos < self.src.len());
            self.pos = self.pos + 1;
        }
    }

    /// The text of the bytes in `start..self.pos`.
    fn slice_text(&self, start: usize) -> (out: String)
        requires
            start <= self.pos <= self.src@.len(),
        ensures
            out@ == byte_chars(self.src@, start as nat, self.pos as nat),
    {
        let mut out = String::new();
        assert(out@ =~= byte_chars(self.src@, start as nat, start as nat));
        for i in start..self.pos
            invariant
                start <= self.pos <= self.src@.len(),
                out@ == byte_chars(self.src@, start as nat, i as nat),
        {
            out.push(self.src[i] as char);
            assert(out@ =~= byte_chars(self.src@, start as nat, (i + 1) as nat));
        }
        out
    }

    fn lex_number(&mut self) -> (out: Result<Token, QueryError>)
        requires
            old(self).pos < old(self).src@.len(),
            is_digit_byte(old(self).src@[old(self).pos as int]),
        ensures
            final(self).src@ == old(self).src@,
            final(self).pos == token_at(old(self).src@, old(self).pos as nat).1,
            token_outcome(out, token_at(old(self).src@, old(self).pos as nat).0),
    {
        let start: usize = self.pos;
        proof {
            lemma_digits_end(self.src@, start as nat);
        }
        self.skip_digits();
        let next: u8 = self.peek2();
        if self.peek() == 46 && next >= 48 && next <= 57 {
            let ghost point = self.pos - start;
            self.pos = self.pos + 1;
            proof {
                lemma_digits_end(self.src@, self.pos as nat);
            }
            self.skip_digits();
            let text = self.slice_text(start);
            proof {
                let src = self.src@;
                let e = digits_end(src, start as nat);
                lemma_digits_end(src, start as nat);
                lemma_digits_end(src, start as nat + 1);
                lemma_digits_end(src, e + 1);
                lemma_digits_end(src, e + 2);
                assert(text@ =~= byte_chars(src, start as nat, self.pos as nat));
                assert forall|j: int| 0 <= j < text@.len() && j != point implies is_digit(
                    #[trigger] text@[j],
                ) by {
                    assert(text@[j] == src[start + j] as char);
                    assert(is_digit_byte(src[start + j]));
                }
                assert(text@[point] == src[e as int] as char);
                assert(has_point_at(text@, point));
            }
            return match parse_float(text.as_str()) {
                Some(bits) => Ok(Token::FloatLit(bits)),
                None => Err(QueryError::Lex(LexError::BadNumber(text))),
            };
        }
        let text = self.slice_text(start);
        match parse_i64(text.as_str()) {
            Some(n) => Ok(Token::IntLit(n)),
            None => Err(QueryError::Lex(LexError::BadNumber(text))),
        }
    }

    fn lex_ident_or_keyword(&mut self) -> (out: Result<Token, QueryError>)
        requires
            old(self).pos < old(self).src@.len(),
            starts_word(old(self).src@[old(self).pos as int]),
        ensures
            final(self).src@ == old(self).src@,
            final(self).pos == token_at(old(self).src@, old(self).pos as nat).1,
            token_outcome(out, token_at(old(self).src@, old(self).pos as nat).0),
    {
        let ghost src = self.src@;
        let start: usize = self.pos;
        let ghost end = word_end(src, start as nat);
        loop
            invariant
                src == self.src@,
                start <= self.pos <= src.len(),
                end == word_end(src, self.pos as nat),
            ensures
                src == self.src@,
                start <= self.pos <= src.len(),
                end == self.pos,
            decreases src.len() - self.pos,
        {
            let b: u8 = self.peek();
            if (b >= 97 && b <= 122) || (b >= 65 && b <= 90) || (b >= 48 && b <= 57) || b == 95 {
                self.pos = self.pos + 1;
            } else {
                break;
            }
        }
        let word = self.slice_text(start);
        let upper = to_uppercase(word.as_str());
        match keyword(upper.as_str()) {
            Some(t) => Ok(t),
            None => Ok(Token::Ident(word)),
        }
    }

    fn lex_quoted_ident(&mut self) -> (out: Result<Token, QueryError>)
        requires
            old(self).pos < old(self).src@.len(),
            old(self).src@[old(self).pos as int] == 34,
        ensures
            final(self).src@ == old(self).src@,
            final(self).pos == token_at(old(self).src@, old(self).pos as nat).1,
            token_outcome(out, token_at(old(self).src@, old(self).pos as nat).0),
    {
        let ghost src = self.src@;
        assert(self.pos < self.src.len());
        self.pos = self.pos + 1;
        let mut s = String::new();
        assert(s@ =~= Seq::empty());
        let ghost want = quoted_from(src, self.pos as nat, s@);
        loop
            invariant_except_break
                want == quoted_from(src, self.pos as nat, s@),
            invariant
                src == self.src@,
                src == old(self).src@,
                src[old(self).pos as int] == 34,
                old(self).pos < src.len(),
                self.pos <= src.len(),
                want == quoted_from(src, (old(self).pos + 1) as nat, Seq::empty()),
            ensures
                src == self.src@,
                want == (Some(s@), self.pos as nat),
            decreases src.len() - self.pos,
        {
            let b: u8 = self.peek();
            if b == 0 {
                return Err(QueryError::Lex(LexError::UnterminatedIdent));
            }
            if b == 34 {
                self.pos = self.pos + 1;
                break;
            }
            s.push(b as char);
            self.pos = self.pos + 1;
        }
        Ok(Token::Ident(s))
    }
}

/// The keyword that a word in capitals is.
fn keyword(word: &str) -> (out: Option<Token>)
    ensures
        match out {
            Some(t) => keyword_of(word@) == Some(t@),
            None => keyword_of(word@) is None,
        },
{
    if str_eq(word, "SELECT") {
        Some(Token::Select)
    } else if str_eq(word, "FROM") {
        Some(Token::From)
    } else if str_eq(word, "WHERE") {
        Some(Token::Where)
    } else if str_eq(word, "AND") {
        Some(Token::And)
    } else if str_eq(word, "OR") {
        Some(Token::Or)
    } else if str_eq(word, "NOT") {
        Some(Token::Not)
    } else if str_eq(word, "IS") {
        Some(Token::Is)
    } else if str_eq(word, "NULL") {
        Some(Token::Null)
    } else if str_eq(word, "IN") {
        Some(Token::In)
    } else if str_eq(word, "BETWEEN") {
        Some(Token::Between)
    } else if str_eq(word, "LIKE") {
        Some(Token::Like)
    } else if str_eq(word, "JOIN") {
        Some(Token::Join)
    } else if str_eq(word, "INNER") {
        Some(Token::Inner)
    } else if str_eq(word, "LEFT") {
        Some(Token::Left)
    } else if str_eq(word, "RIGHT") {
        Some(Token::Right)
    } else if str_eq(word, "ON") {
        Some(Token::On)
    } else if str_eq(word, "AS") {
        Some(Token::As)
    } else if str_eq(word, "GROUP") {
        Some(Token::Group)
    } else if str_eq(word, "BY") {
        Some(Token::By)
    } else if str_eq(word, "HAVING") {
        Some(Token::Having)
    } else if str_eq(word, "ORDER") {
        Some(Token::Order)
    } else if str_eq(word, "ASC") {
        Some(Token::Asc)
    } else if str_eq(word, "DESC") {
        Some(Token::Desc)
    } else if str_eq(word, "LIMIT") {
        Some(Token::Limit)
    } else if str_eq(word, "OFFSET") {
        Some(Token::Offset)
    } else if str_eq(word, "TRUE") {
        Some(Token::True)
    } else if str_eq(word, "FALSE") {
        Some(Token::False)
    } else if str_eq(word, "DISTINCT") {
        Some(Token::Distinct)
    } else if str_eq(word, "INTERVAL") {
        Some(Token::Interval)
    } else {
        None
    }
}

} // verus!
