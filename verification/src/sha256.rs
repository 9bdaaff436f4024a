//! SHA-256.

use crate::bytes::{be_value, pow256, pow256_values};
use vstd::arithmetic::div_mod::lemma_mod_breakdown;
use vstd::prelude::*;

verus! {

// ── Words ───────────────────────────────────────────────────────────────────

/// The sum of two words, modulo 2 to the power of 32.
pub open spec fn sum(a: u32, b: u32) -> u32 {
    ((a + b) % 0x1_0000_0000) as u32
}

/// Which of two words' bits, as the first word says.
pub open spec fn choice(x: u32, y: u32, z: u32) -> u32 {
    (x & y) ^ (!x & z)
}

/// The bits that at least two of three words have.
pub open spec fn majority(x: u32, y: u32, z: u32) -> u32 {
    (x & y) ^ (x & z) ^ (y & z)
}

/// A word turned round by 2, 13 and 22 places.
pub open spec fn big_sigma0(x: u32) -> u32 {
    ((x >> 2u32) | (x << 30u32)) ^ ((x >> 13u32) | (x << 19u32)) ^ ((x >> 22u32) | (x << 10u32))
}

/// A word turned round by 6, 11 and 25 places.
pub open spec fn big_sigma1(x: u32) -> u32 {
    ((x >> 6u32) | (x << 26u32)) ^ ((x >> 11u32) | (x << 21u32)) ^ ((x >> 25u32) | (x << 7u32))
}

/// A word turned round by 7 and 18 places, and moved by 3.
pub open spec fn small_sigma0(x: u32) -> u32 {
    ((x >> 7u32) | (x << 25u32)) ^ ((x >> 18u32) | (x << 14u32)) ^ (x >> 3u32)
}

/// A word turned round by 17 and 19 places, and moved by 10.
pub open spec fn small_sigma1(x: u32) -> u32 {
    ((x >> 17u32) | (x << 15u32)) ^ ((x >> 19u32) | (x << 13u32)) ^ (x >> 10u32)
}

/// The constants of the rounds: the fractions of the cube roots of the first primes.
pub open spec fn constants() -> Seq<u32> {
    seq![
        0x428a_2f98u32, 0x7137_4491u32, 0xb5c0_fbcfu32, 0xe9b5_dba5u32, 0x3956_c25bu32, 0x59f1_11f1u32,
        0x923f_82a4u32, 0xab1c_5ed5u32, 0xd807_aa98u32, 0x1283_5b01u32, 0x2431_85beu32, 0x550c_7dc3u32,
        0x72be_5d74u32, 0x80de_b1feu32, 0x9bdc_06a7u32, 0xc19b_f174u32, 0xe49b_69c1u32, 0xefbe_4786u32,
        0x0fc1_9dc6u32, 0x240c_a1ccu32, 0x2de9_2c6fu32, 0x4a74_84aau32, 0x5cb0_a9dcu32, 0x76f9_88dau32,
        0x983e_5152u32, 0xa831_c66du32, 0xb003_27c8u32, 0xbf59_7fc7u32, 0xc6e0_0bf3u32, 0xd5a7_9147u32,
        0x06ca_6351u32, 0x1429_2967u32, 0x27b7_0a85u32, 0x2e1b_2138u32, 0x4d2c_6dfcu32, 0x5338_0d13u32,
        0x650a_7354u32, 0x766a_0abbu32, 0x81c2_c92eu32, 0x9272_2c85u32, 0xa2bf_e8a1u32, 0xa81a_664bu32,
        0xc24b_8b70u32, 0xc76c_51a3u32, 0xd192_e819u32, 0xd699_0624u32, 0xf40e_3585u32, 0x106a_a070u32,
        0x19a4_c116u32, 0x1e37_6c08u32, 0x2748_774cu32, 0x34b0_bcb5u32, 0x391c_0cb3u32, 0x4ed8_aa4au32,
        0x5b9c_ca4fu32, 0x682e_6ff3u32, 0x748f_82eeu32, 0x78a5_636fu32, 0x84c8_7814u32, 0x8cc7_0208u32,
        0x90be_fffau32, 0xa450_6cebu32, 0xbef9_a3f7u32, 0xc671_78f2u32,
    ]
}

/// The eight words of a state.
#[derive(Clone, Copy)]
pub struct Words {
    pub a: u32,
    pub b: u32,
    pub c: u32,
    pub d: u32,
    pub e: u32,
    pub f: u32,
    pub g: u32,
    pub h: u32,
}

/// The state before the first block: the fractions of the square roots of the first primes.
pub open spec fn start_words() -> Words {
    Words {
        a: 0x6a09_e667,
        b: 0xbb67_ae85,
        c: 0x3c6e_f372,
        d: 0xa54f_f53a,
        e: 0x510e_527f,
        f: 0x9b05_688c,
        g: 0x1f83_d9ab,
        h: 0x5be0_cd19,
    }
}

// ── Digest ──────────────────────────────────────────────────────────────────

/// A number as `n` bytes, the most significant first.
pub open spec fn be_bytes(x: nat, n: nat) -> Seq<u8>
    decreases n,
{
    if n == 0 {
        Seq::empty()
    } else {
        be_bytes(x / 256, (n - 1) as nat).push((x % 256) as u8)
    }
}

/// A message with its padding: a one bit, zero bits up to a whole number of blocks, and the
/// length of the message in bits.
pub open spec fn padded(m: Seq<u8>) -> Seq<u8> {
    m + seq![0x80u8] + Seq::new(((119 - m.len() % 64) % 64) as nat, |i: int| 0u8) + be_bytes(
        m.len() * 8,
        8,
    )
}

/// The word at a byte of a block.
pub open spec fn word_at(data: Seq<u8>, p: int) -> u32 {
    (data[p] * 0x100_0000 + data[p + 1] * 0x1_0000 + data[p + 2] * 0x100 + data[p + 3]) as u32
}

/// The first `n` words of the schedule of the block at byte `p`.
pub open spec fn schedule(data: Seq<u8>, p: int, n: nat) -> Seq<u32>
    decreases n,
{
    if n == 0 {
        Seq::empty()
    } else {
        let w = schedule(data, p, (n - 1) as nat);
        let t = n - 1;
        w.push(
            if t < 16 {
                word_at(data, p + 4 * t)
            } else {
                sum(sum(sum(small_sigma1(w[t - 2]), w[t - 7]), small_sigma0(w[t - 15])), w[t - 16])
            },
        )
    }
}

/// A state after a round with a constant and a word of the schedule.
pub open spec fn round(s: Words, k: u32, w: u32) -> Words {
    let t1 = sum(sum(sum(sum(s.h, big_sigma1(s.e)), choice(s.e, s.f, s.g)), k), w);
    let t2 = sum(big_sigma0(s.a), majority(s.a, s.b, s.c));
    Words {
        a: sum(t1, t2),
        b: s.a,
        c: s.b,
        d: s.c,
        e: sum(s.d, t1),
        f: s.e,
        g: s.f,
        h: s.g,
    }
}

/// A state after the first `n` rounds.
pub open spec fn rounds(s: Words, w: Seq<u32>, n: nat) -> Words
    decreases n,
{
    if n == 0 {
        s
    } else {
        round(rounds(s, w, (n - 1) as nat), constants()[n - 1], w[n - 1])
    }
}

/// A state after the block at byte `p`.
pub open spec fn compressed(s: Words, data: Seq<u8>, p: int) -> Words {
    let r = rounds(s, schedule(data, p, 64), 64);
    Words {
        a: sum(s.a, r.a),
        b: sum(s.b, r.b),
        c: sum(s.c, r.c),
        d: sum(s.d, r.d),
        e: sum(s.e, r.e),
        f: sum(s.f, r.f),
        g: sum(s.g, r.g),
        h: sum(s.h, r.h),
    }
}

/// The state after the first `n` blocks.
pub open spec fn after_blocks(data: Seq<u8>, n: nat) -> Words
    decreases n,
{
    if n == 0 {
        start_words()
    } else {
        compressed(after_blocks(data, (n - 1) as nat), data, 64 * (n - 1))
    }
}

/// The bytes of a state.
pub open spec fn words_bytes(s: Words) -> Seq<u8> {
    be_bytes(s.a as nat, 4) + be_bytes(s.b as nat, 4) + be_bytes(s.c as nat, 4) + be_bytes(
        s.d as nat,
        4,
    ) + be_bytes(s.e as nat, 4) + be_bytes(s.f as nat, 4) + be_bytes(s.g as nat, 4) + be_bytes(
        s.h as nat,
        4,
    )
}

/// The SHA-256 digest of a message.
pub open spec fn digest_of(m: Seq<u8>) -> Seq<u8> {
    let data = padded(m);
    words_bytes(after_blocks(data, data.len() / 64))
}

/// The first eight bytes of the digest of a message, as a number with the most significant
/// byte first.
pub open spec fn short_digest_of(m: Seq<u8>) -> u64 {
    be_value(digest_of(m).take(8)) as u64
}

// ── Computation ─────────────────────────────────────────────────────────────

fn plus(a: u32, b: u32) -> (out: u32)
    ensures
        out == sum(a, b),
{
    a.wrapping_add(b)
}

fn choose_bits(x: u32, y: u32, z: u32) -> (out: u32)
    ensures
        out == choice(x, y, z),
{
    (x & y) ^ (!x & z)
}

fn majority_bits(x: u32, y: u32, z: u32) -> (out: u32)
    ensures
        out == majority(x, y, z),
{
    (x & y) ^ (x & z) ^ (y & z)
}

fn turn_big0(x: u32) -> (out: u32)
    ensures
        out == big_sigma0(x),
{
    ((x >> 2u32) | (x << 30u32)) ^ ((x >> 13u32) | (x << 19u32)) ^ ((x >> 22u32) | (x << 10u32))
}

fn turn_big1(x: u32) -> (out: u32)
    ensures
        out == big_sigma1(x),
{
    ((x >> 6u32) | (x << 26u32)) ^ ((x >> 11u32) | (x << 21u32)) ^ ((x >> 25u32) | (x << 7u32))
}

fn turn_small0(x: u32) -> (out: u32)
    ensures
        out == small_sigma0(x),
{
    ((x >> 7u32) | (x << 25u32)) ^ ((x >> 18u32) | (x << 14u32)) ^ (x >> 3u32)
}

fn turn_small1(x: u32) -> (out: u32)
    ensures
        out == small_sigma1(x),
{
    ((x >> 17u32) | (x << 15u32)) ^ ((x >> 19u32) | (x << 13u32)) ^ (x >> 10u32)
}

fn table() -> (out: [u32; 64])
    ensures
        out@ == constants(),
{
    let out: [u32; 64] = [
        0x428a_2f98u32, 0x7137_4491u32, 0xb5c0_fbcfu32, 0xe9b5_dba5u32, 0x3956_c25bu32, 0x59f1_11f1u32,
        0x923f_82a4u32, 0xab1c_5ed5u32, 0xd807_aa98u32, 0x1283_5b01u32, 0x2431_85beu32, 0x550c_7dc3u32,
        0x72be_5d74u32, 0x80de_b1feu32, 0x9bdc_06a7u32, 0xc19b_f174u32, 0xe49b_69c1u32, 0xefbe_4786u32,
        0x0fc1_9dc6u32, 0x240c_a1ccu32, 0x2de9_2c6fu32, 0x4a74_84aau32, 0x5cb0_a9dcu32, 0x76f9_88dau32,
        0x983e_5152u32, 0xa831_c66du32, 0xb003_27c8u32, 0xbf59_7fc7u32, 0xc6e0_0bf3u32, 0xd5a7_9147u32,
        0x06ca_6351u32, 0x1429_2967u32, 0x27b7_0a85u32, 0x2e1b_2138u32, 0x4d2c_6dfcu32, 0x5338_0d13u32,
        0x650a_7354u32, 0x766a_0abbu32, 0x81c2_c92eu32, 0x9272_2c85u32, 0xa2bf_e8a1u32, 0xa81a_664bu32,
        0xc24b_8b70u32, 0xc76c_51a3u32, 0xd192_e819u32, 0xd699_0624u32, 0xf40e_3585u32, 0x106a_a070u32,
        0x19a4_c116u32, 0x1e37_6c08u32, 0x2748_774cu32, 0x34b0_bcb5u32, 0x391c_0cb3u32, 0x4ed8_aa4au32,
        0x5b9c_ca4fu32, 0x682e_6ff3u32, 0x748f_82eeu32, 0x78a5_636fu32, 0x84c8_7814u32, 0x8cc7_0208u32,
        0x90be_fffau32, 0xa450_6cebu32, 0xbef9_a3f7u32, 0xc671_78f2u32,
    ];
    assert(out@ =~= constants());
    out
}

fn push_be(out: &mut Vec<u8>, x: u64, n: usize)
    ensures
        final(out)@ == old(out)@ + be_bytes(x as nat, n as nat),
    decreases n,
{
    if n > 0 {
        push_be(out, x / 256, n - 1);
        out.push((x % 256) as u8);
    }
    assert(out@ =~= old(out)@ + be_bytes(x as nat, n as nat));
}

proof fn lemma_be_low(x: nat, n: nat)
    ensures
        be_bytes(x % pow256(n), n) == be_bytes(x, n),
    decreases n,
{
    if n > 0 {
        let p = pow256((n - 1) as nat);
        lemma_pow256_positive((n - 1) as nat);
        lemma_mod_breakdown(x as int, 256, p as int);
        let low = x % pow256(n);
        assert(low == 256 * ((x / 256) % p) + x % 256);
        assert(low / 256 == (x / 256) % p);
        assert(low % 256 == x % 256);
        lemma_be_low(x / 256, (n - 1) as nat);
    }
}

proof fn lemma_pow256_positive(n: nat)
    ensures
        pow256(n) > 0,
    decreases n,
{
    if n > 0 {
        lemma_pow256_positive((n - 1) as nat);
    }
}

fn pad(m: &[u8]) -> (out: Vec<u8>)
    ensures
        out@ == padded(m@),
{
    let mut out: Vec<u8> = Vec::new();
    crate::bytes::push_bytes(&mut out, m);
    out.push(0x80);
    let zeros: usize = (119 - m.len() % 64) % 64;
    let ghost front = out@;
    for i in 0..zeros
        invariant
            out@ =~= front + Seq::new(i as nat, |i: int| 0u8),
    {
        out.push(0);
    }
    let bits: u64 = (m.len() as u64 % 0x2000_0000_0000_0000) * 8;
    proof {
        pow256_values();
        lemma_be_low(m@.len() * 8, 8);
        assert(bits == (m@.len() * 8) % 0x1_0000_0000_0000_0000);
    }
    push_be(&mut out, bits, 8);
    assert(out@ =~= padded(m@));
    out
}

fn read_word(data: &Vec<u8>, p: usize) -> (out: u32)
    requires
        p + 4 <= data@.len(),
    ensures
        out == word_at(data@, p as int),
{
    assert(p + 4 <= data.len());
    data[p] as u32 * 0x100_0000 + data[p + 1] as u32 * 0x1_0000 + data[p + 2] as u32 * 0x100
        + data[p + 3] as u32
}

fn make_schedule(data: &Vec<u8>, p: usize) -> (w: Vec<u32>)
    requires
        p + 64 <= data@.len(),
    ensures
        w@ == schedule(data@, p as int, 64),
        w@.len() == 64,
{
    let mut w: Vec<u32> = Vec::new();
    let mut t: usize = 0;
    while t < 64
        invariant
            t <= 64,
            p + 64 <= data@.len(),
            w@.len() == t,
            w@ == schedule(data@, p as int, t as nat),
        decreases 64 - t,
    {
        assert(p + 64 <= data.len());
        let next: u32 = if t < 16 {
            read_word(data, p + 4 * t)
        } else {
            plus(
                plus(plus(turn_small1(w[t - 2]), w[t - 7]), turn_small0(w[t - 15])),
                w[t - 16],
            )
        };
        w.push(next);
        t = t + 1;
    }
    w
}

fn do_round(s: Words, k: u32, w: u32) -> (out: Words)
    ensures
        out == round(s, k, w),
{
    let t1: u32 = plus(plus(plus(plus(s.h, turn_big1(s.e)), choose_bits(s.e, s.f, s.g)), k), w);
    let t2: u32 = plus(turn_big0(s.a), majority_bits(s.a, s.b, s.c));
    Words {
        a: plus(t1, t2),
        b: s.a,
        c: s.b,
        d: s.c,
        e: plus(s.d, t1),
        f: s.e,
        g: s.f,
        h: s.g,
    }
}

fn compress(s: Words, data: &Vec<u8>, p: usize) -> (out: Words)
    requires
        p + 64 <= data@.len(),
    ensures
        out == compressed(s, data@, p as int),
{
    let w = make_schedule(data, p);
    let k = table();
    let mut r: Words = s;
    for t in 0..64
        invariant
            w@.len() == 64,
            k@ == constants(),
            r == rounds(s, w@, t as nat),
    {
        r = do_round(r, k[t], w[t]);
    }
    Words {
        a: plus(s.a, r.a),
        b: plus(s.b, r.b),
        c: plus(s.c, r.c),
        d: plus(s.d, r.d),
        e: plus(s.e, r.e),
        f: plus(s.f, r.f),
        g: plus(s.g, r.g),
        h: plus(s.h, r.h),
    }
}

proof fn lemma_be_len(x: nat, n: nat)
    ensures
        be_bytes(x, n).len() == n,
    decreases n,
{
    if n > 0 {
        lemma_be_len(x / 256, (n - 1) as nat);
    }
}

/// The SHA-256 digest of a message.
pub fn digest(m: &[u8]) -> (out: Vec<u8>)
    ensures
        out@ == digest_of(m@),
        out@.len() == 32,
{
    let data = pad(m);
    proof {
        lemma_be_len(m@.len() * 8, 8);
    }
    let blocks: usize = data.len() / 64;
    let mut s: Words = Words {
        a: 0x6a09_e667,
        b: 0xbb67_ae85,
        c: 0x3c6e_f372,
        d: 0xa54f_f53a,
        e: 0x510e_527f,
        f: 0x9b05_688c,
        g: 0x1f83_d9ab,
        h: 0x5be0_cd19,
    };
    for i in 0..blocks
        invariant
            blocks == data@.len() / 64,
            s == after_blocks(data@, i as nat),
    {
        assert(64 * i + 64 <= data.len());
        s = compress(s, &data, 64 * i);
    }
    let mut out: Vec<u8> = Vec::new();
    push_be(&mut out, s.a as u64, 4);
    push_be(&mut out, s.b as u64, 4);
    push_be(&mut out, s.c as u64, 4);
    push_be(&mut out, s.d as u64, 4);
    push_be(&mut out, s.e as u64, 4);
    push_be(&mut out, s.f as u64, 4);
    push_be(&mut out, s.g as u64, 4);
    push_be(&mut out, s.h as u64, 4);
    proof {
        lemma_be_len(s.a as nat, 4);
        lemma_be_len(s.b as nat, 4);
        lemma_be_len(s.c as nat, 4);
        lemma_be_len(s.d as nat, 4);
        lemma_be_len(s.e as nat, 4);
        lemma_be_len(s.f as nat, 4);
        lemma_be_len(s.g as nat, 4);
        lemma_be_len(s.h as nat, 4);
    }
    assert(out@ =~= digest_of(m@));
    out
}

/// The first eight bytes of the digest of a message, as a number.
pub fn short_digest(m: &[u8]) -> (out: u64)
    ensures
        out == short_digest_of(m@),
{
    let d = digest(m);
    crate::bytes::read_be(d.as_slice(), 8)
}

} // verus!
