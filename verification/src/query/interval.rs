//! Lengths of time as they are written in queries.

use crate::query::error::{ParseError, QueryError};
use crate::text::{
    chars_of, decimal, decimal_reads_back, i64_of, is_digit, is_white, lowercase, parse_i64,
    signed_decimal, str_eq, string_of, string_of_range, to_lowercase, trim, trim_chars, trim_end,
    trim_start, trimmed,
};
use vstd::prelude::*;

verus! {

/// Whether a character outside ASCII is alphabetic in Unicode.
pub uninterp spec fn is_alphabetic(c: char) -> bool;

/// Whether a character is a letter of ASCII.
pub open spec fn is_ascii_letter(c: char) -> bool {
    ('a' <= c && c <= 'z') || ('A' <= c && c <= 'Z')
}

/// Whether a character is alphabetic: of the ASCII characters, exactly the letters are.
pub open spec fn starts_unit(c: char) -> bool {
    if (c as u32) < 128 {
        is_ascii_letter(c)
    } else {
        is_alphabetic(c)
    }
}

/// `char::is_alphabetic`. It depends on the character alone; of the ASCII characters
/// exactly the letters are alphabetic.
#[verifier::external_body]
fn alphabetic(c: char) -> (yes: bool)
    ensures
        yes == if (c as u32) < 128 {
            is_ascii_letter(c)
        } else {
            is_alphabetic(c)
        },
{
    c.is_alphabetic()
}

/// The position of the first alphabetic character from `i` on, or the length.
pub open spec fn first_alphabetic(s: Seq<char>, i: nat) -> nat
    decreases s.len() - i,
{
    if i >= s.len() {
        s.len()
    } else if starts_unit(s[i as int]) {
        i
    } else {
        first_alphabetic(s, i + 1)
    }
}

/// The nanoseconds of a unit of time, in small letters.
pub open spec fn unit_ns(unit: Seq<char>) -> Option<i64> {
    if unit == "us"@ || unit == "microsecond"@ || unit == "microseconds"@ {
        Some(1_000)
    } else if unit == "ms"@ || unit == "millisecond"@ || unit == "milliseconds"@ || unit
        == "millisec"@ {
        Some(1_000_000)
    } else if unit == "s"@ || unit == "sec"@ || unit == "second"@ || unit == "seconds"@ {
        Some(1_000_000_000)
    } else if unit == "m"@ || unit == "min"@ || unit == "minute"@ || unit == "minutes"@ {
        Some(60_000_000_000)
    } else if unit == "h"@ || unit == "hr"@ || unit == "hour"@ || unit == "hours"@ {
        Some(3_600_000_000_000)
    } else if unit == "d"@ || unit == "day"@ || unit == "days"@ {
        Some(86_400_000_000_000)
    } else {
        None
    }
}

/// Why a text is no length of time.
pub enum IntervalFault {
    /// There is no whole number in front of the unit; the text without outer blanks.
    Number(Seq<char>),
    /// The unit is not known.
    Unit(Seq<char>),
    /// The length does not fit in 64 bits.
    Overflow,
}

/// The nanoseconds that a trimmed text, whose unit starts at `split`, writes.
pub open spec fn interval_at(s: Seq<char>, split: nat) -> Result<i64, IntervalFault> {
    let unit = lowercase(trimmed(s.skip(split as int)));
    match i64_of(trimmed(s.take(split as int))) {
        None => Err(IntervalFault::Number(s)),
        Some(n) => match unit_ns(unit) {
            None => Err(IntervalFault::Unit(unit)),
            Some(ns) => if i64::MIN <= n * ns <= i64::MAX {
                Ok((n * ns) as i64)
            } else {
                Err(IntervalFault::Overflow)
            },
        },
    }
}

/// The nanoseconds that a text such as `5 minutes` or `1h` writes: a whole number, and
/// a unit that starts with the first alphabetic character.
pub open spec fn interval_of(text: Seq<char>) -> Result<i64, IntervalFault> {
    let s = trimmed(text);
    interval_at(s, first_alphabetic(s, 0))
}

/// Whether `e` reports the fault `f`.
pub open spec fn reports_interval(e: QueryError, f: IntervalFault) -> bool {
    match f {
        IntervalFault::Number(s) => e matches QueryError::Parse(ParseError::IntervalNumber(t)) && s
            == t@,
        IntervalFault::Unit(s) => e matches QueryError::Parse(ParseError::IntervalUnit(t)) && s
            == t@,
        IntervalFault::Overflow => e matches QueryError::Abort(t) && t@
            == "attempt to multiply with overflow"@,
    }
}

fn unit_nanos(unit: &str) -> (out: Option<i64>)
    ensures
        out == unit_ns(unit@),
{
    if str_eq(unit, "us") || str_eq(unit, "microsecond") || str_eq(unit, "microseconds") {
        Some(1_000)
    } else if str_eq(unit, "ms") || str_eq(unit, "millisecond") || str_eq(unit, "milliseconds")
        || str_eq(unit, "millisec") {
        Some(1_000_000)
    } else if str_eq(unit, "s") || str_eq(unit, "sec") || str_eq(unit, "second") || str_eq(
        unit,
        "seconds",
    ) {
        Some(1_000_000_000)
    } else if str_eq(unit, "m") || str_eq(unit, "min") || str_eq(unit, "minute") || str_eq(
        unit,
        "minutes",
    ) {
        Some(60_000_000_000)
    } else if str_eq(unit, "h") || str_eq(unit, "hr") || str_eq(unit, "hour") || str_eq(
        unit,
        "hours",
    ) {
        Some(3_600_000_000_000)
    } else if str_eq(unit, "d") || str_eq(unit, "day") || str_eq(unit, "days") {
        Some(86_400_000_000_000)
    } else {
        None
    }
}

/// Reads a trimmed text, whose unit starts at `split`.
pub fn split_interval(chars: &Vec<char>, split: usize) -> (out: Result<i64, QueryError>)
    requires
        split <= chars@.len(),
    ensures
        match (out, interval_at(chars@, split as nat)) {
            (Ok(n), Ok(want)) => n == want,
            (Err(e), Err(f)) => reports_interval(e, f),
            _ => false,
        },
{
    let num_text = string_of_range(chars, 0, split);
    assert(num_text@ =~= chars@.take(split as int));
    let num = trim(num_text.as_str());
    let unit_text = string_of_range(chars, split, chars.len());
    assert(unit_text@ =~= chars@.skip(split as int));
    let unit_trimmed = trim(unit_text.as_str());
    let unit = to_lowercase(unit_trimmed.as_str());
    match parse_i64(num.as_str()) {
        None => Err(QueryError::Parse(ParseError::IntervalNumber(string_of(chars.as_slice())))),
        Some(n) => match unit_nanos(unit.as_str()) {
            None => Err(QueryError::Parse(ParseError::IntervalUnit(unit))),
            Some(ns) => match n.checked_mul(ns) {
                Some(v) => Ok(v),
                None => Err(QueryError::Abort("attempt to multiply with overflow".to_string())),
            },
        },
    }
}

/// Reads a length of time such as `5 minutes`, `1h`, `30s` or `1 day`, in nanoseconds.
pub fn parse_interval(s: &str) -> (out: Result<i64, QueryError>)
    ensures
        match (out, interval_of(s@)) {
            (Ok(n), Ok(want)) => n == want,
            (Err(e), Err(f)) => reports_interval(e, f),
            _ => false,
        },
{
    let all = chars_of(s);
    let chars = trim_chars(&all);
    let mut split: usize = 0;
    while split < chars.len() && !alphabetic(chars[split])
        invariant
            chars@ == trimmed(s@),
            split <= chars@.len(),
            first_alphabetic(chars@, 0) == first_alphabetic(chars@, split as nat),
        decreases chars@.len() - split,
    {
        split = split + 1;
    }
    split_interval(&chars, split)
}

// ── Laws ────────────────────────────────────────────────────────────────────

/// Whether a text consists of blanks of ASCII.
pub open spec fn is_blank(s: Seq<char>) -> bool {
    forall|i: int| 0 <= i < s.len() ==> is_white(#[trigger] s[i]) && (s[i] as u32) < 128
}

/// Whether a text consists of letters of ASCII.
pub open spec fn is_word(s: Seq<char>) -> bool {
    forall|i: int| 0 <= i < s.len() ==> is_ascii_letter(#[trigger] s[i])
}

proof fn lemma_trim_start(a: Seq<char>, s: Seq<char>)
    requires
        is_blank(a),
        s.len() > 0,
        !is_white(s[0]),
    ensures
        trim_start(a + s) == s,
    decreases a.len(),
{
    if a.len() == 0 {
        assert(a + s =~= s);
    } else {
        let rest = a.skip(1);
        assert(is_blank(rest)) by {
            assert forall|i: int| 0 <= i < rest.len() implies is_white(#[trigger] rest[i]) && (
            rest[i] as u32) < 128 by {
                assert(is_white(a[i + 1]));
            }
        }
        lemma_trim_start(rest, s);
        assert((a + s).skip(1) =~= rest + s);
        assert(is_white(a[0]));
    }
}

proof fn lemma_trim_end(s: Seq<char>, c: Seq<char>)
    requires
        is_blank(c),
        s.len() > 0,
        !is_white(s.last()),
    ensures
        trim_end(s + c) == s,
    decreases c.len(),
{
    if c.len() == 0 {
        assert(s + c =~= s);
    } else {
        let rest = c.drop_last();
        assert(is_blank(rest)) by {
            assert forall|i: int| 0 <= i < rest.len() implies is_white(#[trigger] rest[i]) && (
            rest[i] as u32) < 128 by {
                assert(is_white(c[i]));
            }
        }
        lemma_trim_end(s, rest);
        assert((s + c).drop_last() =~= s + rest);
        assert(is_white(c[c.len() - 1]));
    }
}

proof fn lemma_first_letter(s: Seq<char>, i: nat, k: nat)
    requires
        i <= k < s.len(),
        forall|j: int| i <= j < k ==> !starts_unit(#[trigger] s[j]),
        starts_unit(s[k as int]),
    ensures
        first_alphabetic(s, i) == k,
    decreases k - i,
{
    if i < k {
        assert(!starts_unit(s[i as int]));
        lemma_first_letter(s, i + 1, k);
    }
}

proof fn lemma_written_number(n: i64)
    ensures
        i64_of(signed_decimal(n as int)) == Some(n),
        signed_decimal(n as int).len() > 0,
        forall|i: int|
            0 <= i < signed_decimal(n as int).len() ==> !is_white(
                #[trigger] signed_decimal(n as int)[i],
            ) && !starts_unit(signed_decimal(n as int)[i]),
{
    let t = signed_decimal(n as int);
    if n < 0 {
        let d = decimal((-n) as nat);
        decimal_reads_back((-n) as nat);
        assert(t.skip(1) =~= d);
        assert forall|i: int| 0 <= i < t.len() implies !is_white(#[trigger] t[i]) && !starts_unit(
            t[i],
        ) by {
            if i > 0 {
                assert(t[i] == d[i - 1]);
                assert(is_digit(d[i - 1]));
            }
        }
    } else {
        decimal_reads_back(n as nat);
        assert(is_digit(t[0]));
        assert forall|i: int| 0 <= i < t.len() implies !is_white(#[trigger] t[i]) && !starts_unit(
            t[i],
        ) by {
            assert(is_digit(t[i]));
        }
    }
}

/// A whole number and a unit, in letters of either case, are read as that many units,
/// whatever blanks stand around and between them.
pub proof fn written_interval_reads_back(
    before: Seq<char>,
    n: i64,
    between: Seq<char>,
    unit: Seq<char>,
    behind: Seq<char>,
)
    requires
        is_blank(before),
        is_blank(between),
        is_blank(behind),
        is_word(unit),
        unit_ns(lowercase(unit)) matches Some(ns) && i64::MIN <= n * ns <= i64::MAX,
    ensures
        interval_of(before + signed_decimal(n as int) + between + unit + behind) == Ok::<
            i64,
            IntervalFault,
        >((n * unit_ns(lowercase(unit))->Some_0) as i64),
{
    let number = signed_decimal(n as int);
    let text = before + number + between + unit + behind;
    let s = number + between + unit;
    lemma_written_number(n);
    assert(unit.len() > 0) by {
        lemma_no_empty_unit();
        if unit.len() == 0 {
            assert(lowercase(unit) =~= Seq::empty());
        }
    }
    assert(is_ascii_letter(unit[0]) && is_ascii_letter(unit[unit.len() - 1]));
    assert(text =~= before + (s + behind));
    assert((s + behind)[0] == number[0]);
    lemma_trim_start(before, s + behind);
    assert(s.last() == unit[unit.len() - 1]);
    lemma_trim_end(s, behind);
    assert(trimmed(text) == s);
    let split = number.len() + between.len();
    assert forall|j: int| 0 <= j < split implies !starts_unit(#[trigger] s[j]) by {
        if j < number.len() {
            assert(s[j] == number[j]);
        } else {
            assert(s[j] == between[j - number.len()]);
            assert(is_white(between[j - number.len()]));
        }
    }
    assert(s[split as int] == unit[0]);
    lemma_first_letter(s, 0, split);
    assert(s.take(split as int) =~= number + between);
    assert(s.skip(split as int) =~= unit);
    let none = Seq::<char>::empty();
    assert(none + (number + between) =~= number + between);
    assert((number + between)[0] == number[0]);
    lemma_trim_start(none, number + between);
    assert(number.last() == number[number.len() - 1]);
    lemma_trim_end(number, between);
    lemma_trim_start(none, unit);
    lemma_trim_end(unit, none);
    assert(none + unit =~= unit);
    assert(unit + none =~= unit);
}

proof fn lemma_no_empty_unit()
    ensures
        unit_ns(Seq::empty()) is None,
{
    reveal_strlit("us");
    reveal_strlit("microsecond");
    reveal_strlit("microseconds");
    reveal_strlit("ms");
    reveal_strlit("millisecond");
    reveal_strlit("milliseconds");
    reveal_strlit("millisec");
    reveal_strlit("s");
    reveal_strlit("sec");
    reveal_strlit("second");
    reveal_strlit("seconds");
    reveal_strlit("m");
    reveal_strlit("min");
    reveal_strlit("minute");
    reveal_strlit("minutes");
    reveal_strlit("h");
    reveal_strlit("hr");
    reveal_strlit("hour");
    reveal_strlit("hours");
    reveal_strlit("d");
    reveal_strlit("day");
    reveal_strlit("days");
    let none = Seq::<char>::empty();
    assert("us"@.len() != none.len());
    assert("microsecond"@.len() != none.len());
    assert("microseconds"@.len() != none.len());
    assert("ms"@.len() != none.len());
    assert("millisecond"@.len() != none.len());
    assert("milliseconds"@.len() != none.len());
    assert("millisec"@.len() != none.len());
    assert("s"@.len() != none.len());
    assert("sec"@.len() != none.len());
    assert("second"@.len() != none.len());
    assert("seconds"@.len() != none.len());
    assert("m"@.len() != none.len());
    assert("min"@.len() != none.len());
    assert("minute"@.len() != none.len());
    assert("minutes"@.len() != none.len());
    assert("h"@.len() != none.len());
    assert("hr"@.len() != none.len());
    assert("hour"@.len() != none.len());
    assert("hours"@.len() != none.len());
    assert("d"@.len() != none.len());
    assert("day"@.len() != none.len());
    assert("days"@.len() != none.len());
}

/// A text without a unit, with an unknown one, or without a whole number in front of it, is
/// no length of time.
pub proof fn interval_needs_a_number_and_a_unit(text: Seq<char>)
    ensures
        ({
            let s = trimmed(text);
            let split = first_alphabetic(s, 0) as int;
            let unit = lowercase(trimmed(s.skip(split)));
            &&& i64_of(trimmed(s.take(split))) is None ==> interval_of(text) == Err::<
                i64,
                IntervalFault,
            >(IntervalFault::Number(s))
            &&& i64_of(trimmed(s.take(split))) is Some && unit_ns(unit) is None ==> interval_of(
                text,
            ) == Err::<i64, IntervalFault>(IntervalFault::Unit(unit))
            &&& split == s.len() ==> interval_of(text) is Err && !(interval_of(text)->Err_0
                is Overflow)
        }),
{
    let s = trimmed(text);
    lemma_no_empty_unit();
    assert(s.skip(s.len() as int) =~= Seq::<char>::empty());
    assert(trimmed(Seq::<char>::empty()) =~= Seq::<char>::empty());
    assert(lowercase(Seq::<char>::empty()) =~= Seq::<char>::empty());
}

/// The units of time, in each of their spellings: each is as many of the next smaller as is
/// usual, and a spelling that is not known is no unit.
pub proof fn units_are_those_of_time()
    ensures
        unit_ns("us"@) == Some(1_000i64),
        unit_ns("microsecond"@) == unit_ns("us"@),
        unit_ns("microseconds"@) == unit_ns("us"@),
        unit_ns("ms"@) == Some(1_000_000i64),
        unit_ns("millisecond"@) == unit_ns("ms"@),
        unit_ns("milliseconds"@) == unit_ns("ms"@),
        unit_ns("s"@) == Some(1_000_000_000i64),
        unit_ns("sec"@) == unit_ns("s"@),
        unit_ns("second"@) == unit_ns("s"@),
        unit_ns("seconds"@) == unit_ns("s"@),
        unit_ns("m"@) == Some(60_000_000_000i64),
        unit_ns("min"@) == unit_ns("m"@),
        unit_ns("minute"@) == unit_ns("m"@),
        unit_ns("minutes"@) == unit_ns("m"@),
        unit_ns("h"@) == Some(3_600_000_000_000i64),
        unit_ns("hr"@) == unit_ns("h"@),
        unit_ns("hour"@) == unit_ns("h"@),
        unit_ns("hours"@) == unit_ns("h"@),
        unit_ns("d"@) == Some(86_400_000_000_000i64),
        unit_ns("day"@) == unit_ns("d"@),
        unit_ns("days"@) == unit_ns("d"@),
{
    reveal_strlit("us");
    reveal_strlit("microsecond");
    reveal_strlit("microseconds");
    reveal_strlit("ms");
    reveal_strlit("millisecond");
    reveal_strlit("milliseconds");
    reveal_strlit("millisec");
    reveal_strlit("s");
    reveal_strlit("sec");
    reveal_strlit("second");
    reveal_strlit("seconds");
    reveal_strlit("m");
    reveal_strlit("min");
    reveal_strlit("minute");
    reveal_strlit("minutes");
    reveal_strlit("h");
    reveal_strlit("hr");
    reveal_strlit("hour");
    reveal_strlit("hours");
    reveal_strlit("d");
    reveal_strlit("day");
    reveal_strlit("days");
    assert("us"@.len() == 2);
    assert("microsecond"@.len() == 11);
    assert("microseconds"@.len() == 12);
    assert("ms"@.len() == 2);
    assert("millisecond"@.len() == 11);
    assert("milliseconds"@.len() == 12);
    assert("millisec"@.len() == 8);
    assert("s"@.len() == 1);
    assert("sec"@.len() == 3);
    assert("second"@.len() == 6);
    assert("seconds"@.len() == 7);
    assert("m"@.len() == 1);
    assert("min"@.len() == 3);
    assert("minute"@.len() == 6);
    assert("minutes"@.len() == 7);
    assert("h"@.len() == 1);
    assert("hr"@.len() == 2);
    assert("hour"@.len() == 4);
    assert("hours"@.len() == 5);
    assert("d"@.len() == 1);
    assert("day"@.len() == 3);
    assert("days"@.len() == 4);
    assert("us"@[0] != "ms"@[0]);
    assert("microsecond"@[2] != "millisecond"@[2]);
    assert("microseconds"@[2] != "milliseconds"@[2]);
    assert("s"@[0] != "m"@[0]);
    assert("sec"@[0] != "min"@[0]);
    assert("second"@[0] != "minute"@[0]);
    assert("seconds"@[0] != "minutes"@[0]);
    assert("s"@[0] != "h"@[0]);
    assert("m"@[0] != "h"@[0]);
    assert("us"@[0] != "hr"@[0]);
    assert("ms"@[0] != "hr"@[0]);
    assert("s"@[0] != "d"@[0]);
    assert("m"@[0] != "d"@[0]);
    assert("h"@[0] != "d"@[0]);
    assert("sec"@[0] != "day"@[0]);
    assert("min"@[0] != "day"@[0]);
    assert("hour"@[0] != "days"@[0]);
}

} // verus!
