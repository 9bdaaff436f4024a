//! Tokens spelled as text, and read back.

use crate::query::lexer::{
    byte_at, byte_chars, digits_end, doubled, in_word, is_digit_byte, keyword_of,
    skip_blank, starts_word, token_at, token_goes_on, tokens_from, word_end,
    written_string_reads_back, LexFault, TokenModel,
};
use crate::text::{decimal, decimal_reads_back, integer_of, is_digit, uppercase};
use vstd::prelude::*;

verus! {

/// Characters of one byte each, as bytes.
pub open spec fn char_bytes(s: Seq<char>) -> Seq<u8> {
    s.map_values(|c: char| c as u8)
}

/// The word of a keyword.
pub open spec fn keyword_text(t: TokenModel) -> Option<Seq<char>> {
    match t {
        TokenModel::Select => Some("SELECT"@),
        TokenModel::From => Some("FROM"@),
        TokenModel::Where => Some("WHERE"@),
        TokenModel::And => Some("AND"@),
        TokenModel::Or => Some("OR"@),
        TokenModel::Not => Some("NOT"@),
        TokenModel::Is => Some("IS"@),
        TokenModel::Null => Some("NULL"@),
        TokenModel::In => Some("IN"@),
        TokenModel::Between => Some("BETWEEN"@),
        TokenModel::Like => Some("LIKE"@),
        TokenModel::Join => Some("JOIN"@),
        TokenModel::Inner => Some("INNER"@),
        TokenModel::Left => Some("LEFT"@),
        TokenModel::Right => Some("RIGHT"@),
        TokenModel::On => Some("ON"@),
        TokenModel::As => Some("AS"@),
        TokenModel::Group => Some("GROUP"@),
        TokenModel::By => Some("BY"@),
        TokenModel::Having => Some("HAVING"@),
        TokenModel::Order => Some("ORDER"@),
        TokenModel::Asc => Some("ASC"@),
        TokenModel::Desc => Some("DESC"@),
        TokenModel::Limit => Some("LIMIT"@),
        TokenModel::Offset => Some("OFFSET"@),
        TokenModel::True => Some("TRUE"@),
        TokenModel::False => Some("FALSE"@),
        TokenModel::Distinct => Some("DISTINCT"@),
        TokenModel::Interval => Some("INTERVAL"@),
        _ => None,
    }
}

/// The bytes of an operator or a mark.
pub open spec fn symbol(t: TokenModel) -> Option<Seq<u8>> {
    match t {
        TokenModel::Plus => Some(seq![43u8]),
        TokenModel::Minus => Some(seq![45u8]),
        TokenModel::Star => Some(seq![42u8]),
        TokenModel::Slash => Some(seq![47u8]),
        TokenModel::Percent => Some(seq![37u8]),
        TokenModel::LParen => Some(seq![40u8]),
        TokenModel::RParen => Some(seq![41u8]),
        TokenModel::Comma => Some(seq![44u8]),
        TokenModel::Dot => Some(seq![46u8]),
        TokenModel::Semicolon => Some(seq![59u8]),
        TokenModel::Eq => Some(seq![61u8]),
        TokenModel::Lt => Some(seq![60u8]),
        TokenModel::Gt => Some(seq![62u8]),
        TokenModel::LtEq => Some(seq![60u8, 61u8]),
        TokenModel::NotEq => Some(seq![60u8, 62u8]),
        TokenModel::GtEq => Some(seq![62u8, 61u8]),
        _ => None,
    }
}

/// Whether a text is a name: letters, digits and `_`, no digit first, and no keyword.
pub open spec fn is_name(s: Seq<char>) -> bool {
    &&& s.len() > 0
    &&& forall|i: int| 0 <= i < s.len() ==> (#[trigger] s[i]) as u32 <= 255 && in_word(s[i] as u8)
    &&& starts_word(s[0] as u8)
    &&& keyword_of(uppercase(s)) is None
}

/// Whether a token can be spelled: whole numbers without sign, strings of characters of one
/// byte without the zero byte, names, keywords, operators and marks.
pub open spec fn can_be_spelled(t: TokenModel) -> bool {
    match t {
        TokenModel::Ident(s) => is_name(s),
        TokenModel::IntLit(n) => n >= 0,
        TokenModel::StrLit(s) => forall|i: int|
            0 <= i < s.len() ==> 0 < (#[trigger] s[i]) as u32 <= 255,
        TokenModel::FloatLit(_) | TokenModel::Eof => false,
        _ => true,
    }
}

/// The bytes of a token.
pub open spec fn spelled(t: TokenModel) -> Seq<u8> {
    match t {
        TokenModel::Ident(s) => char_bytes(s),
        TokenModel::IntLit(n) => char_bytes(decimal(n as nat)),
        TokenModel::StrLit(s) => seq![39u8] + doubled(char_bytes(s)) + seq![39u8],
        _ => match keyword_text(t) {
            Some(w) => char_bytes(w),
            None => match symbol(t) {
                Some(b) => b,
                None => Seq::empty(),
            },
        },
    }
}

proof fn lemma_word(pre: Seq<u8>, w: Seq<u8>, rest: Seq<u8>, i: nat)
    requires
        i <= w.len(),
        forall|k: int| 0 <= k < w.len() ==> in_word(#[trigger] w[k]),
        rest.len() == 0 || rest[0] == 32,
    ensures
        word_end(pre + w + rest, pre.len() + i) == pre.len() + w.len(),
    decreases w.len() - i,
{
    let src = pre + w + rest;
    if i < w.len() {
        assert(src[(pre.len() + i) as int] == w[i as int]);
        lemma_word(pre, w, rest, i + 1);
    } else if rest.len() > 0 {
        assert(src[(pre.len() + i) as int] == rest[0]);
    }
}

proof fn lemma_digits(pre: Seq<u8>, w: Seq<u8>, rest: Seq<u8>, i: nat)
    requires
        i <= w.len(),
        forall|k: int| 0 <= k < w.len() ==> is_digit_byte(#[trigger] w[k]),
        rest.len() == 0 || rest[0] == 32,
    ensures
        digits_end(pre + w + rest, pre.len() + i) == pre.len() + w.len(),
    decreases w.len() - i,
{
    let src = pre + w + rest;
    if i < w.len() {
        assert(src[(pre.len() + i) as int] == w[i as int]);
        lemma_digits(pre, w, rest, i + 1);
    } else if rest.len() > 0 {
        assert(src[(pre.len() + i) as int] == rest[0]);
    }
}

proof fn lemma_byte_char(c: char)
    requires
        c as u32 <= 255,
    ensures
        (c as u8) as char == c,
        c as u32 > 0 ==> c as u8 > 0,
{
}

proof fn lemma_chars(pre: Seq<u8>, s: Seq<char>, rest: Seq<u8>)
    requires
        forall|i: int| 0 <= i < s.len() ==> (#[trigger] s[i]) as u32 <= 255,
    ensures
        byte_chars(pre + char_bytes(s) + rest, pre.len(), pre.len() + s.len()) == s,
{
    let src = pre + char_bytes(s) + rest;
    let out = byte_chars(src, pre.len(), pre.len() + s.len());
    assert forall|i: int| 0 <= i < s.len() implies out[i] == s[i] by {
        assert(src[(pre.len() + i) as int] == char_bytes(s)[i]);
        lemma_byte_char(s[i]);
    }
    assert(out =~= s);
}

/// A word is read whole: as its keyword in capitals, or as a name.
pub proof fn words_are_read_whole(pre: Seq<u8>, s: Seq<char>, rest: Seq<u8>)
    requires
        s.len() > 0,
        forall|i: int|
            0 <= i < s.len() ==> (#[trigger] s[i]) as u32 <= 255 && in_word(s[i] as u8),
        starts_word(s[0] as u8),
        rest.len() == 0 || rest[0] == 32,
    ensures
        token_at(pre + char_bytes(s) + rest, pre.len()) == (
            Ok::<TokenModel, LexFault>(
                match keyword_of(uppercase(s)) {
                    Some(t) => t,
                    None => TokenModel::Ident(s),
                },
            ),
            pre.len() + s.len(),
        ),
{
    let src = pre + char_bytes(s) + rest;
    assert(src[pre.len() as int] == s[0] as u8);
    lemma_word(pre, char_bytes(s), rest, 0);
    lemma_chars(pre, s, rest);
}

/// A whole number in decimal is read as itself.
pub proof fn decimals_are_read(pre: Seq<u8>, n: i64, rest: Seq<u8>)
    requires
        n >= 0,
        rest.len() == 0 || rest[0] == 32,
    ensures
        token_at(pre + char_bytes(decimal(n as nat)) + rest, pre.len()) == (
            Ok::<TokenModel, LexFault>(TokenModel::IntLit(n)),
            pre.len() + decimal(n as nat).len(),
        ),
{
    let s = decimal(n as nat);
    decimal_reads_back(n as nat);
    let w = char_bytes(s);
    let src = pre + w + rest;
    assert forall|k: int| 0 <= k < w.len() implies is_digit_byte(#[trigger] w[k]) by {
        assert(is_digit(s[k]));
    }
    assert(is_digit(s[0]));
    assert(src[pre.len() as int] == w[0]);
    lemma_digits(pre, w, rest, 0);
    assert forall|i: int| 0 <= i < s.len() implies (#[trigger] s[i]) as u32 <= 255 by {
        assert(is_digit(s[i]));
    }
    lemma_chars(pre, s, rest);
    let e = pre.len() + w.len();
    assert(byte_at(src, e) == 32 || byte_at(src, e) == 0) by {
        if rest.len() > 0 {
            assert(src[e as int] == rest[0]);
        }
    }
    assert(integer_of(s) == Some(n as int));
}

proof fn lemma_symbols(pre: Seq<u8>, t: TokenModel, rest: Seq<u8>)
    requires
        symbol(t) is Some,
        rest.len() == 0 || rest[0] == 32,
    ensures
        token_at(pre + symbol(t)->Some_0 + rest, pre.len()) == (
            Ok::<TokenModel, LexFault>(t),
            pre.len() + symbol(t)->Some_0.len(),
        ),
{
    let w = symbol(t)->Some_0;
    let src = pre + w + rest;
    assert(src[pre.len() as int] == w[0]);
    if w.len() > 1 {
        assert(src[(pre.len() + 1) as int] == w[1]);
    } else if rest.len() > 0 {
        assert(src[(pre.len() + 1) as int] == rest[0]);
    }
}

proof fn lemma_keywords_first()
    ensures
        keyword_of("SELECT"@) == Some(TokenModel::Select),
        keyword_of("FROM"@) == Some(TokenModel::From),
        keyword_of("WHERE"@) == Some(TokenModel::Where),
        keyword_of("AND"@) == Some(TokenModel::And),
        keyword_of("OR"@) == Some(TokenModel::Or),
        keyword_of("NOT"@) == Some(TokenModel::Not),
{
    reveal_strlit("SELECT");
    reveal_strlit("FROM");
    reveal_strlit("WHERE");
    reveal_strlit("AND");
    reveal_strlit("OR");
    reveal_strlit("NOT");
    assert("SELECT"@.len() == 6);
    assert("FROM"@.len() == 4);
    assert("WHERE"@.len() == 5);
    assert("AND"@.len() == 3);
    assert("OR"@.len() == 2);
    assert("NOT"@.len() == 3);
    assert("NOT"@[0] != "AND"@[0]);
}

proof fn lemma_keywords_second()
    ensures
        keyword_of("IS"@) == Some(TokenModel::Is),
        keyword_of("NULL"@) == Some(TokenModel::Null),
        keyword_of("IN"@) == Some(TokenModel::In),
        keyword_of("BETWEEN"@) == Some(TokenModel::Between),
        keyword_of("LIKE"@) == Some(TokenModel::Like),
        keyword_of("JOIN"@) == Some(TokenModel::Join),
{
    reveal_strlit("SELECT");
    reveal_strlit("FROM");
    reveal_strlit("WHERE");
    reveal_strlit("AND");
    reveal_strlit("OR");
    reveal_strlit("NOT");
    reveal_strlit("IS");
    reveal_strlit("NULL");
    reveal_strlit("IN");
    reveal_strlit("BETWEEN");
    reveal_strlit("LIKE");
    reveal_strlit("JOIN");
    assert("SELECT"@.len() == 6);
    assert("FROM"@.len() == 4);
    assert("WHERE"@.len() == 5);
    assert("AND"@.len() == 3);
    assert("OR"@.len() == 2);
    assert("NOT"@.len() == 3);
    assert("IS"@.len() == 2);
    assert("NULL"@.len() == 4);
    assert("IN"@.len() == 2);
    assert("BETWEEN"@.len() == 7);
    assert("LIKE"@.len() == 4);
    assert("JOIN"@.len() == 4);
    assert("IS"@[0] != "OR"@[0]);
    assert("NULL"@[0] != "FROM"@[0]);
    assert("IN"@[0] != "OR"@[0]);
    assert("IN"@[1] != "IS"@[1]);
    assert("LIKE"@[0] != "FROM"@[0]);
    assert("LIKE"@[0] != "NULL"@[0]);
    assert("JOIN"@[0] != "FROM"@[0]);
    assert("JOIN"@[0] != "NULL"@[0]);
    assert("JOIN"@[0] != "LIKE"@[0]);
}

proof fn lemma_keywords_third()
    ensures
        keyword_of("INNER"@) == Some(TokenModel::Inner),
        keyword_of("LEFT"@) == Some(TokenModel::Left),
        keyword_of("RIGHT"@) == Some(TokenModel::Right),
        keyword_of("ON"@) == Some(TokenModel::On),
        keyword_of("AS"@) == Some(TokenModel::As),
        keyword_of("GROUP"@) == Some(TokenModel::Group),
{
    reveal_strlit("SELECT");
    reveal_strlit("FROM");
    reveal_strlit("WHERE");
    reveal_strlit("AND");
    reveal_strlit("OR");
    reveal_strlit("NOT");
    reveal_strlit("IS");
    reveal_strlit("NULL");
    reveal_strlit("IN");
    reveal_strlit("BETWEEN");
    reveal_strlit("LIKE");
    reveal_strlit("JOIN");
    reveal_strlit("INNER");
    reveal_strlit("LEFT");
    reveal_strlit("RIGHT");
    reveal_strlit("ON");
    reveal_strlit("AS");
    reveal_strlit("GROUP");
    assert("SELECT"@.len() == 6);
    assert("FROM"@.len() == 4);
    assert("WHERE"@.len() == 5);
    assert("AND"@.len() == 3);
    assert("OR"@.len() == 2);
    assert("NOT"@.len() == 3);
    assert("IS"@.len() == 2);
    assert("NULL"@.len() == 4);
    assert("IN"@.len() == 2);
    assert("BETWEEN"@.len() == 7);
    assert("LIKE"@.len() == 4);
    assert("JOIN"@.len() == 4);
    assert("INNER"@.len() == 5);
    assert("LEFT"@.len() == 4);
    assert("RIGHT"@.len() == 5);
    assert("ON"@.len() == 2);
    assert("AS"@.len() == 2);
    assert("GROUP"@.len() == 5);
    assert("INNER"@[0] != "WHERE"@[0]);
    assert("LEFT"@[0] != "FROM"@[0]);
    assert("LEFT"@[0] != "NULL"@[0]);
    assert("LEFT"@[1] != "LIKE"@[1]);
    assert("LEFT"@[0] != "JOIN"@[0]);
    assert("RIGHT"@[0] != "WHERE"@[0]);
    assert("RIGHT"@[0] != "INNER"@[0]);
    assert("ON"@[1] != "OR"@[1]);
    assert("ON"@[0] != "IS"@[0]);
    assert("ON"@[0] != "IN"@[0]);
    assert("AS"@[0] != "OR"@[0]);
    assert("AS"@[0] != "IS"@[0]);
    assert("AS"@[0] != "IN"@[0]);
    assert("AS"@[0] != "ON"@[0]);
    assert("GROUP"@[0] != "WHERE"@[0]);
    assert("GROUP"@[0] != "INNER"@[0]);
    assert("GROUP"@[0] != "RIGHT"@[0]);
}

proof fn lemma_keywords_fourth()
    ensures
        keyword_of("BY"@) == Some(TokenModel::By),
        keyword_of("HAVING"@) == Some(TokenModel::Having),
        keyword_of("ORDER"@) == Some(TokenModel::Order),
        keyword_of("ASC"@) == Some(TokenModel::Asc),
        keyword_of("DESC"@) == Some(TokenModel::Desc),
        keyword_of("LIMIT"@) == Some(TokenModel::Limit),
{
    reveal_strlit("SELECT");
    reveal_strlit("FROM");
    reveal_strlit("WHERE");
    reveal_strlit("AND");
    reveal_strlit("OR");
    reveal_strlit("NOT");
    reveal_strlit("IS");
    reveal_strlit("NULL");
    reveal_strlit("IN");
    reveal_strlit("BETWEEN");
    reveal_strlit("LIKE");
    reveal_strlit("JOIN");
    reveal_strlit("INNER");
    reveal_strlit("LEFT");
    reveal_strlit("RIGHT");
    reveal_strlit("ON");
    reveal_strlit("AS");
    reveal_strlit("GROUP");
    reveal_strlit("BY");
    reveal_strlit("HAVING");
    reveal_strlit("ORDER");
    reveal_strlit("ASC");
    reveal_strlit("DESC");
    reveal_strlit("LIMIT");
    assert("SELECT"@.len() == 6);
    assert("FROM"@.len() == 4);
    assert("WHERE"@.len() == 5);
    assert("AND"@.len() == 3);
    assert("OR"@.len() == 2);
    assert("NOT"@.len() == 3);
    assert("IS"@.len() == 2);
    assert("NULL"@.len() == 4);
    assert("IN"@.len() == 2);
    assert("BETWEEN"@.len() == 7);
    assert("LIKE"@.len() == 4);
    assert("JOIN"@.len() == 4);
    assert("INNER"@.len() == 5);
    assert("LEFT"@.len() == 4);
    assert("RIGHT"@.len() == 5);
    assert("ON"@.len() == 2);
    assert("AS"@.len() == 2);
    assert("GROUP"@.len() == 5);
    assert("BY"@.len() == 2);
    assert("HAVING"@.len() == 6);
    assert("ORDER"@.len() == 5);
    assert("ASC"@.len() == 3);
    assert("DESC"@.len() == 4);
    assert("LIMIT"@.len() == 5);
    assert("BY"@[0] != "OR"@[0]);
    assert("BY"@[0] != "IS"@[0]);
    assert("BY"@[0] != "IN"@[0]);
    assert("BY"@[0] != "ON"@[0]);
    assert("BY"@[0] != "AS"@[0]);
    assert("HAVING"@[0] != "SELECT"@[0]);
    assert("ORDER"@[0] != "WHERE"@[0]);
    assert("ORDER"@[0] != "INNER"@[0]);
    assert("ORDER"@[0] != "RIGHT"@[0]);
    assert("ORDER"@[0] != "GROUP"@[0]);
    assert("ASC"@[1] != "AND"@[1]);
    assert("ASC"@[0] != "NOT"@[0]);
    assert("DESC"@[0] != "FROM"@[0]);
    assert("DESC"@[0] != "NULL"@[0]);
    assert("DESC"@[0] != "LIKE"@[0]);
    assert("DESC"@[0] != "JOIN"@[0]);
    assert("DESC"@[0] != "LEFT"@[0]);
    assert("LIMIT"@[0] != "WHERE"@[0]);
    assert("LIMIT"@[0] != "INNER"@[0]);
    assert("LIMIT"@[0] != "RIGHT"@[0]);
    assert("LIMIT"@[0] != "GROUP"@[0]);
    assert("LIMIT"@[0] != "ORDER"@[0]);
}

proof fn lemma_keywords_fifth()
    ensures
        keyword_of("OFFSET"@) == Some(TokenModel::Offset),
        keyword_of("TRUE"@) == Some(TokenModel::True),
        keyword_of("FALSE"@) == Some(TokenModel::False),
        keyword_of("DISTINCT"@) == Some(TokenModel::Distinct),
        keyword_of("INTERVAL"@) == Some(TokenModel::Interval),
{
    reveal_strlit("SELECT");
    reveal_strlit("FROM");
    reveal_strlit("WHERE");
    reveal_strlit("AND");
    reveal_strlit("OR");
    reveal_strlit("NOT");
    reveal_strlit("IS");
    reveal_strlit("NULL");
    reveal_strlit("IN");
    reveal_strlit("BETWEEN");
    reveal_strlit("LIKE");
    reveal_strlit("JOIN");
    reveal_strlit("INNER");
    reveal_strlit("LEFT");
    reveal_strlit("RIGHT");
    reveal_strlit("ON");
    reveal_strlit("AS");
    reveal_strlit("GROUP");
    reveal_strlit("BY");
    reveal_strlit("HAVING");
    reveal_strlit("ORDER");
    reveal_strlit("ASC");
    reveal_strlit("DESC");
    reveal_strlit("LIMIT");
    reveal_strlit("OFFSET");
    reveal_strlit("TRUE");
    reveal_strlit("FALSE");
    reveal_strlit("DISTINCT");
    reveal_strlit("INTERVAL");
    assert("SELECT"@.len() == 6);
    assert("FROM"@.len() == 4);
    assert("WHERE"@.len() == 5);
    assert("AND"@.len() == 3);
    assert("OR"@.len() == 2);
    assert("NOT"@.len() == 3);
    assert("IS"@.len() == 2);
    assert("NULL"@.len() == 4);
    assert("IN"@.len() == 2);
    assert("BETWEEN"@.len() == 7);
    assert("LIKE"@.len() == 4);
    assert("JOIN"@.len() == 4);
    assert("INNER"@.len() == 5);
    assert("LEFT"@.len() == 4);
    assert("RIGHT"@.len() == 5);
    assert("ON"@.len() == 2);
    assert("AS"@.len() == 2);
    assert("GROUP"@.len() == 5);
    assert("BY"@.len() == 2);
    assert("HAVING"@.len() == 6);
    assert("ORDER"@.len() == 5);
    assert("ASC"@.len() == 3);
    assert("DESC"@.len() == 4);
    assert("LIMIT"@.len() == 5);
    assert("OFFSET"@.len() == 6);
    assert("TRUE"@.len() == 4);
    assert("FALSE"@.len() == 5);
    assert("DISTINCT"@.len() == 8);
    assert("INTERVAL"@.len() == 8);
    assert("OFFSET"@[0] != "SELECT"@[0]);
    assert("OFFSET"@[0] != "HAVING"@[0]);
    assert("TRUE"@[0] != "FROM"@[0]);
    assert("TRUE"@[0] != "NULL"@[0]);
    assert("TRUE"@[0] != "LIKE"@[0]);
    assert("TRUE"@[0] != "JOIN"@[0]);
    assert("TRUE"@[0] != "LEFT"@[0]);
    assert("TRUE"@[0] != "DESC"@[0]);
    assert("FALSE"@[0] != "WHERE"@[0]);
    assert("FALSE"@[0] != "INNER"@[0]);
    assert("FALSE"@[0] != "RIGHT"@[0]);
    assert("FALSE"@[0] != "GROUP"@[0]);
    assert("FALSE"@[0] != "ORDER"@[0]);
    assert("FALSE"@[0] != "LIMIT"@[0]);
    assert("INTERVAL"@[0] != "DISTINCT"@[0]);
}

proof fn lemma_capitals(s: Seq<char>)
    requires
        forall|i: int| 0 <= i < s.len() ==> 'A' <= (#[trigger] s[i]) && s[i] <= 'Z',
    ensures
        uppercase(s) == s,
        forall|i: int|
            0 <= i < s.len() ==> (#[trigger] s[i]) as u32 <= 255 && in_word(s[i] as u8),
        s.len() > 0 ==> starts_word(s[0] as u8),
{
    assert(uppercase(s) =~= s);
}

/// Every keyword is read from its word, in capitals or not.
pub proof fn keywords_are_read_from_their_words(t: TokenModel, s: Seq<char>)
    requires
        keyword_text(t) is Some,
        uppercase(s) == keyword_text(t)->Some_0,
    ensures
        keyword_of(uppercase(s)) == Some(t),
{
    lemma_keywords_first();
    lemma_keywords_second();
    lemma_keywords_third();
    lemma_keywords_fourth();
    lemma_keywords_fifth();
}

proof fn lemma_keyword_text(t: TokenModel)
    requires
        keyword_text(t) is Some,
    ensures
        ({
            let s = keyword_text(t)->Some_0;
            &&& s.len() > 0
            &&& forall|i: int| 0 <= i < s.len() ==> 'A' <= (#[trigger] s[i]) && s[i] <= 'Z'
        }),
{
    reveal_strlit("SELECT");
    reveal_strlit("FROM");
    reveal_strlit("WHERE");
    reveal_strlit("AND");
    reveal_strlit("OR");
    reveal_strlit("NOT");
    reveal_strlit("IS");
    reveal_strlit("NULL");
    reveal_strlit("IN");
    reveal_strlit("BETWEEN");
    reveal_strlit("LIKE");
    reveal_strlit("JOIN");
    reveal_strlit("INNER");
    reveal_strlit("LEFT");
    reveal_strlit("RIGHT");
    reveal_strlit("ON");
    reveal_strlit("AS");
    reveal_strlit("GROUP");
    reveal_strlit("BY");
    reveal_strlit("HAVING");
    reveal_strlit("ORDER");
    reveal_strlit("ASC");
    reveal_strlit("DESC");
    reveal_strlit("LIMIT");
    reveal_strlit("OFFSET");
    reveal_strlit("TRUE");
    reveal_strlit("FALSE");
    reveal_strlit("DISTINCT");
    reveal_strlit("INTERVAL");
}

/// A token that is spelled, with a space or nothing behind it, reads back as itself.
pub proof fn spelled_token_reads_back(pre: Seq<u8>, t: TokenModel, rest: Seq<u8>)
    requires
        can_be_spelled(t),
        rest.len() == 0 || rest[0] == 32,
    ensures
        token_at(pre + spelled(t) + rest, pre.len()) == (
            Ok::<TokenModel, LexFault>(t),
            pre.len() + spelled(t).len(),
        ),
{
    match t {
        TokenModel::Ident(s) => {
            words_are_read_whole(pre, s, rest);
        },
        TokenModel::IntLit(n) => {
            decimals_are_read(pre, n, rest);
        },
        TokenModel::StrLit(s) => {
            let b = char_bytes(s);
            assert forall|i: int| 0 <= i < b.len() implies b[i] != 0 by {
                assert(0 < s[i] as u32 <= 255);
                lemma_byte_char(s[i]);
            }
            written_string_reads_back(pre, b, rest);
            let out = byte_chars(b, 0, b.len());
            assert forall|i: int| 0 <= i < s.len() implies out[i] == s[i] by {
                assert(0 < s[i] as u32 <= 255);
                lemma_byte_char(s[i]);
                assert(b[i] == s[i] as u8);
            }
            assert(out =~= s);
        },
        _ => {
            if keyword_text(t) is Some {
                let s = keyword_text(t)->Some_0;
                lemma_keyword_text(t);
                lemma_capitals(s);
                keywords_are_read_from_their_words(t, s);
                words_are_read_whole(pre, s, rest);
            } else {
                lemma_symbols(pre, t, rest);
            }
        },
    }
}

/// The bytes of tokens from `i` on, with a space behind each.
pub open spec fn spelled_list(v: Seq<TokenModel>, i: nat) -> Seq<u8>
    decreases v.len() - i,
{
    if i >= v.len() {
        Seq::empty()
    } else {
        spelled(v[i as int]) + seq![32u8] + spelled_list(v, i + 1)
    }
}

proof fn lemma_starts(t: TokenModel)
    requires
        can_be_spelled(t),
    ensures
        spelled(t).len() > 0,
        ({
            let b = spelled(t)[0];
            b != 32 && b != 9 && b != 10 && b != 13
        }),
        spelled(t)[0] == 45 ==> spelled(t).len() == 1,
{
    match t {
        TokenModel::IntLit(n) => {
            decimal_reads_back(n as nat);
            assert(is_digit(decimal(n as nat)[0]));
        },
        TokenModel::Ident(s) => {
            assert(in_word(s[0] as u8));
        },
        _ => {
            if keyword_text(t) is Some {
                lemma_keyword_text(t);
                let s = keyword_text(t)->Some_0;
                assert('A' <= s[0] && s[0] <= 'Z');
            }
        },
    }
}

/// Tokens that are spelled with spaces between them read back as themselves, in order, and
/// the end mark behind them.
pub proof fn spelled_tokens_read_back(pre: Seq<u8>, v: Seq<TokenModel>, i: nat)
    requires
        i <= v.len(),
        forall|k: int| 0 <= k < v.len() ==> can_be_spelled(#[trigger] v[k]),
    ensures
        tokens_from(pre + spelled_list(v, i), pre.len(), v.take(i as int)).0 == Ok::<
            Seq<TokenModel>,
            LexFault,
        >(v.push(TokenModel::Eof)),
    decreases v.len() - i,
{
    let src = pre + spelled_list(v, i);
    if i == v.len() {
        assert(v.take(i as int) =~= v);
        assert(skip_blank(src, pre.len()) == pre.len());
    } else {
        let t = v[i as int];
        let rest = seq![32u8] + spelled_list(v, i + 1);
        assert(can_be_spelled(t));
        lemma_starts(t);
        spelled_token_reads_back(pre, t, rest);
        assert(src =~= pre + spelled(t) + rest);
        assert(src[pre.len() as int] == spelled(t)[0]);
        if spelled(t)[0] == 45 {
            assert(src[(pre.len() + 1) as int] == 32);
        }
        assert(skip_blank(src, pre.len()) == pre.len());
        token_goes_on(src, pre.len());
        let before = pre + spelled(t);
        let next = before + seq![32u8];
        assert(src =~= next + spelled_list(v, i + 1));
        assert(v.take(i as int).push(t) =~= v.take((i + 1) as int));
        spelled_tokens_read_back(next, v, i + 1);
        lemma_space(src, before.len(), v.take((i + 1) as int));
        assert(next.len() == before.len() + 1);
    }
}

proof fn lemma_space(src: Seq<u8>, p: nat, front: Seq<TokenModel>)
    requires
        p < src.len(),
        src[p as int] == 32,
    ensures
        tokens_from(src, p, front) == tokens_from(src, p + 1, front),
{
    assert(skip_blank(src, p) == skip_blank(src, p + 1));
}

} // verus!
