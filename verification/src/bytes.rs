//! Integers as bytes, and byte slices.

use vstd::prelude::*;

verus! {

/// The low `n` bytes of `x`, least significant first.
pub open spec fn le_bytes(x: nat, n: nat) -> Seq<u8>
    decreases n,
{
    if n == 0 {
        Seq::empty()
    } else {
        seq![(x % 256) as u8] + le_bytes(x / 256, (n - 1) as nat)
    }
}

/// The number that a byte sequence writes, least significant byte first.
pub open spec fn le_value(s: Seq<u8>) -> nat
    decreases s.len(),
{
    if s.len() == 0 {
        0
    } else {
        s[0] as nat + 256 * le_value(s.skip(1))
    }
}

/// 256 to the power `n`.
pub open spec fn pow256(n: nat) -> nat
    decreases n,
{
    if n == 0 {
        1
    } else {
        256 * pow256((n - 1) as nat)
    }
}

/// `le_bytes` writes `n` bytes, and `le_value` reads back what fits in them.
pub proof fn le_round_trip(x: nat, n: nat)
    ensures
        le_bytes(x, n).len() == n,
        x < pow256(n) ==> le_value(le_bytes(x, n)) == x,
    decreases n,
{
    if n > 0 {
        le_round_trip(x / 256, (n - 1) as nat);
        assert(le_bytes(x, n).skip(1) =~= le_bytes(x / 256, (n - 1) as nat));
    }
}

/// `n` bytes write a number below `256^n`, and `le_bytes` gives them back.
pub proof fn le_value_round_trip(s: Seq<u8>)
    ensures
        le_value(s) < pow256(s.len()),
        le_bytes(le_value(s), s.len()) == s,
    decreases s.len(),
{
    if s.len() > 0 {
        le_value_round_trip(s.skip(1));
        assert(s =~= seq![s[0]] + s.skip(1));
    }
}

/// `256^4` and `256^8` are the ranges of `u32` and `u64`.
pub proof fn pow256_values()
    ensures
        pow256(4) == 0x1_0000_0000,
        pow256(8) == 0x1_0000_0000_0000_0000,
{
    reveal_with_fuel(pow256, 9);
}

/// Appends the low `n` bytes of `x`, least significant first.
pub fn push_le(out: &mut Vec<u8>, x: u64, n: usize)
    ensures
        final(out)@ == old(out)@ + le_bytes(x as nat, n as nat),
    decreases n,
{
    if n > 0 {
        out.push((x % 256) as u8);
        push_le(out, x / 256, n - 1);
    }
    assert(out@ =~= old(out)@ + le_bytes(x as nat, n as nat));
}

/// Reads the little-endian number in `data[from..from + n]`.
pub fn read_le(data: &[u8], from: usize, n: usize) -> (x: u64)
    requires
        from + n <= data@.len(),
        n <= 8,
    ensures
        x == le_value(data@.subrange(from as int, from + n)),
        x < pow256(n as nat),
    decreases n,
{
    let ghost s = data@.subrange(from as int, from + n);
    proof {
        le_value_round_trip(s);
        pow256_values();
    }
    if n == 0 {
        return 0;
    }
    proof {
        le_value_round_trip(s.skip(1));
        reveal_with_fuel(pow256, 9);
    }
    assert(from < data.len());
    let rest = read_le(data, from + 1, n - 1);
    assert(s.skip(1) =~= data@.subrange(from + 1, from + n));
    data[from] as u64 + 256 * rest
}

/// A copy of `data[from..to]`.
pub fn copy_range(data: &[u8], from: usize, to: usize) -> (out: Vec<u8>)
    requires
        from <= to <= data@.len(),
    ensures
        out@ == data@.subrange(from as int, to as int),
{
    let mut out: Vec<u8> = Vec::new();
    for i in from..to
        invariant
            from <= to <= data@.len(),
            out@ == data@.subrange(from as int, i as int),
    {
        out.push(data[i]);
        assert(out@ =~= data@.subrange(from as int, i + 1));
    }
    out
}

/// Appends a byte slice.
pub fn push_bytes(out: &mut Vec<u8>, data: &[u8])
    ensures
        final(out)@ == old(out)@ + data@,
{
    for i in 0..data.len()
        invariant
            out@ == old(out)@ + data@.take(i as int),
    {
        out.push(data[i]);
        assert(out@ =~= old(out)@ + data@.take(i + 1));
    }
    assert(data@.take(data@.len() as int) == data@);
}

/// The number that bytes write, the most significant first.
pub open spec fn be_value(s: Seq<u8>) -> nat
    decreases s.len(),
{
    if s.len() == 0 {
        0
    } else {
        be_value(s.drop_last()) * 256 + s.last() as nat
    }
}

proof fn lemma_be_bound(s: Seq<u8>)
    ensures
        be_value(s) < pow256(s.len()),
    decreases s.len(),
{
    if s.len() > 0 {
        lemma_be_bound(s.drop_last());
    }
}

proof fn lemma_pow256_grows(m: nat, n: nat)
    requires
        m <= n,
    ensures
        pow256(m) <= pow256(n),
    decreases n - m,
{
    if m < n {
        lemma_pow256_grows(m + 1, n);
    }
}

/// Reads the first `n` bytes as a number, the most significant first.
pub fn read_be(data: &[u8], n: usize) -> (x: u64)
    requires
        n <= data@.len(),
        n <= 8,
    ensures
        x == be_value(data@.take(n as int)),
{
    let mut x: u64 = 0;
    assert(data@.take(0) =~= Seq::empty());
    for i in 0..n
        invariant
            n <= data@.len(),
            n <= 8,
            x == be_value(data@.take(i as int)),
    {
        assert(data@.take(i + 1).drop_last() =~= data@.take(i as int));
        proof {
            pow256_values();
            lemma_be_bound(data@.take(i + 1));
            lemma_pow256_grows((i + 1) as nat, 8);
            assert(data@.take(i + 1).last() == data@[i as int]);
        }
        x = x * 256 + data[i] as u64;
    }
    x
}

} // verus!
