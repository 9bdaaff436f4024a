//! Identifiers in hexadecimal digits.

use crate::text::{chars_of, hex_char, is_white, trim_chars, trim_end, trim_start, trimmed};
use vstd::prelude::*;

verus! {

/// The value of a hexadecimal digit.
pub open spec fn hex_digit(c: char) -> Option<u8> {
    if '0' <= c && c <= '9' {
        Some((c as u32 - 48) as u8)
    } else if 'a' <= c && c <= 'f' {
        Some((c as u32 - 87) as u8)
    } else if 'A' <= c && c <= 'F' {
        Some((c as u32 - 55) as u8)
    } else {
        None
    }
}

/// The byte that two characters write: two digits, or a plus sign and a digit.
pub open spec fn hex_pair(a: char, b: char) -> Option<u8> {
    match (hex_digit(a), hex_digit(b)) {
        (Some(x), Some(y)) => Some((16 * x + y) as u8),
        (None, Some(y)) => if a == '+' {
            Some(y)
        } else {
            None
        },
        _ => None,
    }
}

/// The bytes that pairs of characters write, if all of them do.
pub open spec fn hex_pairs(s: Seq<char>, n: nat) -> Option<Seq<u8>>
    decreases n,
{
    if n == 0 {
        Some(Seq::empty())
    } else {
        match (hex_pairs(s, (n - 1) as nat), hex_pair(s[2 * (n - 1)], s[2 * (n - 1) + 1])) {
            (Some(front), Some(b)) => Some(front.push(b)),
            _ => None,
        }
    }
}

/// The `n` bytes that a text writes in hexadecimal digits; blanks around it do not count.
pub open spec fn hex_bytes(s: Seq<char>, n: nat) -> Option<Seq<u8>> {
    let t = trimmed(s);
    if t.len() != 2 * n {
        None
    } else {
        hex_pairs(t, n)
    }
}

fn digit(c: char) -> (out: Option<u8>)
    ensures
        out == hex_digit(c),
        out matches Some(d) ==> d < 16,
{
    let n: u32 = c as u32;
    if '0' <= c && c <= '9' {
        Some((n - 48) as u8)
    } else if 'a' <= c && c <= 'f' {
        Some((n - 87) as u8)
    } else if 'A' <= c && c <= 'F' {
        Some((n - 55) as u8)
    } else {
        None
    }
}

fn pair(a: char, b: char) -> (out: Option<u8>)
    ensures
        out == hex_pair(a, b),
{
    match (digit(a), digit(b)) {
        (Some(x), Some(y)) => Some(16 * x + y),
        (None, Some(y)) => if a == '+' {
            Some(y)
        } else {
            None
        },
        _ => None,
    }
}

proof fn lemma_pairs_fail(s: Seq<char>, n: nat, m: nat)
    requires
        n <= m,
        hex_pairs(s, n) is None,
    ensures
        hex_pairs(s, m) is None,
    decreases m - n,
{
    if n < m {
        lemma_pairs_fail(s, n, (m - 1) as nat);
    }
}

/// The `n` bytes that a text writes in hexadecimal digits.
pub fn read_hex(s: &str, n: usize) -> (out: Option<Vec<u8>>)
    requires
        n <= 64,
    ensures
        match out {
            Some(v) => hex_bytes(s@, n as nat) == Some(v@) && v@.len() == n,
            None => hex_bytes(s@, n as nat) is None,
        },
{
    let all = chars_of(s);
    let t = trim_chars(&all);
    if t.len() != 2 * n {
        return None;
    }
    let mut out: Vec<u8> = Vec::new();
    assert(out@ =~= Seq::empty());
    for i in 0..n
        invariant
            t@ == trimmed(s@),
            n <= 64,
            t@.len() == 2 * n,
            out@.len() == i,
            hex_pairs(t@, i as nat) == Some(out@),
    {
        match pair(t[2 * i], t[2 * i + 1]) {
            Some(b) => {
                out.push(b);
            },
            None => {
                proof {
                    lemma_pairs_fail(t@, (i + 1) as nat, n as nat);
                }
                return None;
            },
        }
    }
    Some(out)
}

/// Sixteen bytes as an array.
pub fn array16(b: &[u8]) -> (out: Option<[u8; 16]>)
    ensures
        match out {
            Some(a) => b@.len() == 16 && a@ == b@,
            None => b@.len() != 16,
        },
{
    if b.len() != 16 {
        return None;
    }
    let a: [u8; 16] = [
        b[0],
        b[1],
        b[2],
        b[3],
        b[4],
        b[5],
        b[6],
        b[7],
        b[8],
        b[9],
        b[10],
        b[11],
        b[12],
        b[13],
        b[14],
        b[15],
    ];
    assert(a@ =~= b@);
    Some(a)
}

/// Eight bytes as an array.
pub fn array8(b: &[u8]) -> (out: Option<[u8; 8]>)
    ensures
        match out {
            Some(a) => b@.len() == 8 && a@ == b@,
            None => b@.len() != 8,
        },
{
    if b.len() != 8 {
        return None;
    }
    let a: [u8; 8] = [b[0], b[1], b[2], b[3], b[4], b[5], b[6], b[7]];
    assert(a@ =~= b@);
    Some(a)
}

/// A trace identifier in hexadecimal digits.
pub fn hex_to_16(s: &str) -> (out: Option<[u8; 16]>)
    ensures
        crate::common::model::id16_view(out) == hex_bytes(s@, 16),
{
    match read_hex(s, 16) {
        Some(v) => array16(v.as_slice()),
        None => None,
    }
}

/// A span identifier in hexadecimal digits.
pub fn hex_to_8(s: &str) -> (out: Option<[u8; 8]>)
    ensures
        crate::common::model::id8_view(out) == hex_bytes(s@, 8),
{
    match read_hex(s, 8) {
        Some(v) => array8(v.as_slice()),
        None => None,
    }
}

// ── Laws ────────────────────────────────────────────────────────────────────

/// Bytes as hexadecimal digits, two for each.
pub open spec fn hex_text(v: Seq<u8>) -> Seq<char>
    decreases v.len(),
{
    if v.len() == 0 {
        Seq::empty()
    } else {
        let b = v.last() as nat;
        hex_text(v.drop_last()) + seq![hex_char(b / 16), hex_char(b % 16)]
    }
}

proof fn lemma_hex_char(d: nat)
    requires
        d < 16,
    ensures
        hex_digit(hex_char(d)) == Some(d as u8),
        !is_white(hex_char(d)),
{
}

proof fn lemma_pairs_prefix(s: Seq<char>, t: Seq<char>, n: nat)
    requires
        2 * n <= s.len(),
        2 * n <= t.len(),
        forall|i: int| 0 <= i < 2 * n ==> s[i] == t[i],
    ensures
        hex_pairs(s, n) == hex_pairs(t, n),
    decreases n,
{
    if n > 0 {
        lemma_pairs_prefix(s, t, (n - 1) as nat);
    }
}

proof fn lemma_hex_text(v: Seq<u8>)
    ensures
        hex_text(v).len() == 2 * v.len(),
        forall|i: int| 0 <= i < hex_text(v).len() ==> !is_white(#[trigger] hex_text(v)[i]),
        hex_pairs(hex_text(v), v.len()) == Some(v),
    decreases v.len(),
{
    if v.len() > 0 {
        let front = v.drop_last();
        let b = v.last() as nat;
        lemma_hex_text(front);
        lemma_hex_char(b / 16);
        lemma_hex_char(b % 16);
        lemma_pairs_prefix(hex_text(v), hex_text(front), front.len());
        assert(hex_text(v)[2 * (v.len() - 1)] == hex_char(b / 16));
        assert(hex_text(v)[2 * (v.len() - 1) + 1] == hex_char(b % 16));
        assert(16 * (b / 16) + b % 16 == b);
        assert(front.push(v.last()) =~= v);
    } else {
        assert(v =~= Seq::empty());
    }
}

/// An identifier in hexadecimal digits is read back.
pub proof fn hex_reads_back(v: Seq<u8>)
    ensures
        hex_bytes(hex_text(v), v.len()) == Some(v),
{
    lemma_hex_text(v);
    let t = hex_text(v);
    assert(trim_start(t) == t);
    assert(trim_end(t) == t);
}

} // verus!
