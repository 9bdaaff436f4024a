//! Errors of the query layer.

use crate::query::lexer::Token;
use vstd::prelude::*;

verus! {

/// Why a text has no tokens.
#[derive(Debug)]
pub enum LexError {
    /// A `!` that no `=` follows; the position behind it.
    LoneBang(usize),
    /// A byte with which no token starts.
    UnexpectedByte(u8),
    /// A number that does not fit.
    BadNumber(String),
    UnterminatedString,
    UnterminatedIdent,
}

/// Why tokens are no statement.
#[derive(Debug)]
pub enum ParseError {
    /// Another token than the one that starts a statement.
    ExpectedSelect(Token),
    /// Another token than the one that has to stand here.
    Expected { want: Token, got: Token },
    ExpectedIdent(Token),
    ExpectedInt(Token),
    ExpectedString(Token),
    /// `NOT` behind an operand, and neither `IN` nor `LIKE` behind it.
    ExpectedInOrLike,
    /// A token with which no operand starts.
    Unexpected(Token),
    /// A length of time without a whole number in front; the whole text.
    IntervalNumber(String),
    /// A length of time with an unknown unit.
    IntervalUnit(String),
}

/// What can go wrong with a query. Errors of the storage layer, of the columnar
/// library and of the file system are carried as their messages.
#[derive(Debug)]
pub enum QueryError {
    Lex(LexError),
    Parse(ParseError),
    Bind(String),
    Optimizer(String),
    Execution(String),
    Storage(String),
    Arrow(String),
    Io(String),
    /// The computation cannot go on: a number that does not fit, a row that is not there,
    /// or values that have no order.
    Abort(String),
}

} // verus!
