//! Bloom filter with double hashing.
//!
//! Stored as
//! `[num_bits: u64 LE] [num_hashes: u32 LE] [bits: ceil(num_bits / 8) bytes]`.

use crate::bytes::{copy_range, le_bytes, le_value, push_bytes, push_le, read_le};
use crate::hash::{seeded_hash, seeded_hash_of};
use vstd::prelude::*;

verus! {

/// The fewest cells of a filter.
pub const MIN_BITS: u64 = 64;

/// The most hash functions of a filter.
pub const MAX_HASHES: u32 = 16;

/// Bytes before the cells in the stored form.
pub const BLOOM_HEADER: usize = 12;

const SEED_1: u64 = 0xcafe_f00d_dead_beef;

const SEED_2: u64 = 0x0102_0304_0506_0708;

/// A set of byte strings that may answer "yes" for a string never inserted, and
/// never answers "no" for one that was.
#[derive(Debug)]
pub struct BloomFilter {
    bits: Vec<u8>,
    num_bits: u64,
    num_hashes: u32,
}

/// A filter as mathematical values: its cells, eight to a byte, their number, and the
/// number of hash functions.
pub struct BloomModel {
    pub bits: Seq<u8>,
    pub num_bits: u64,
    pub num_hashes: u32,
}

/// The bytes that hold `n` cells.
pub open spec fn byte_len(n: u64) -> nat {
    ((n + 7) / 8) as nat
}

/// Whether cell `i` is set.
pub open spec fn cell(bits: Seq<u8>, i: int) -> bool {
    (bits[i / 8] >> ((i % 8) as u8)) & 1 == 1
}

/// The cell that hash function `i` gives a key: `h1 + i * h2`, modulo the number of
/// cells, where `i` also seeds `h2`.
pub open spec fn key_cell(key: Seq<u8>, i: u32, num_bits: u64) -> int {
    let h1 = seeded_hash_of(key, 0xcafe_f00d_dead_beef);
    let h2 = seeded_hash_of(key, i as u64 ^ 0x0102_0304_0506_0708);
    ((h1 + i * h2) % 0x1_0000_0000_0000_0000) % (num_bits as int)
}

/// Whether one of the first `n` hash functions gives `key` the cell `b`.
pub open spec fn is_key_cell(key: Seq<u8>, n: u32, num_bits: u64, b: int) -> bool {
    exists|i: u32| i < n && #[trigger] key_cell(key, i, num_bits) == b
}

/// Whether a filter can be asked: it holds as many bytes as it has cells for, and has
/// a cell for its hash functions to choose.
pub open spec fn bloom_wf(m: BloomModel) -> bool {
    m.bits.len() == byte_len(m.num_bits) && (m.num_bits > 0 || m.num_hashes == 0)
}

/// Whether `after` is `before` with `key` inserted: the key's cells are set and no
/// other cell has changed.
pub open spec fn is_inserted(before: BloomModel, key: Seq<u8>, after: BloomModel) -> bool {
    &&& after.num_bits == before.num_bits
    &&& after.num_hashes == before.num_hashes
    &&& after.bits.len() == before.bits.len()
    &&& forall|b: int|
        0 <= b < 8 * before.bits.len() ==> (#[trigger] cell(after.bits, b) <==> cell(before.bits, b)
            || is_key_cell(key, before.num_hashes, before.num_bits, b))
}

/// Whether a filter answers "yes" for `key`: all the key's cells are set.
pub open spec fn may_contain(m: BloomModel, key: Seq<u8>) -> bool {
    forall|i: u32| i < m.num_hashes ==> cell(m.bits, #[trigger] key_cell(key, i, m.num_bits))
}

/// The stored form of a filter.
pub open spec fn bloom_bytes(m: BloomModel) -> Seq<u8> {
    le_bytes(m.num_bits as nat, 8) + le_bytes(m.num_hashes as nat, 4) + m.bits
}

/// The filter that a byte string stores, where it holds one in full. Bytes behind the
/// cells are ignored.
pub open spec fn bloom_of(data: Seq<u8>) -> Option<BloomModel> {
    let num_bits = le_value(data.subrange(0, 8)) as u64;
    let num_hashes = le_value(data.subrange(8, 12)) as u32;
    if data.len() < BLOOM_HEADER || data.len() < BLOOM_HEADER + byte_len(num_bits) {
        None
    } else {
        Some(
            BloomModel {
                bits: data.subrange(12, 12 + byte_len(num_bits) as int),
                num_bits,
                num_hashes,
            },
        )
    }
}

proof fn lemma_set_cell(x: u8, k: u8)
    requires
        k < 8,
    ensures
        forall|j: u8| j < 8 ==> (#[trigger] ((x | (1u8 << k)) >> j) & 1 == 1 <==> (x >> j) & 1 == 1 || j == k),
{
    assert forall|j: u8| j < 8 implies (#[trigger] ((x | (1u8 << k)) >> j) & 1 == 1 <==> (x >> j)
        & 1 == 1 || j == k) by {
        assert(k < 8 && j < 8 ==> (((x | (1u8 << k)) >> j) & 1 == 1 <==> (x >> j) & 1 == 1 || j
            == k)) by (bit_vector);
    }
}

proof fn lemma_test_cell(x: u8, k: u8)
    requires
        k < 8,
    ensures
        x & (1u8 << k) == 0 <==> !((x >> k) & 1 == 1),
{
    assert(k < 8 ==> (x & (1u8 << k) == 0 <==> !((x >> k) & 1 == 1))) by (bit_vector);
}

/// Setting one cell of a byte array sets that cell and no other.
proof fn lemma_update_cell(bits: Seq<u8>, c: int)
    requires
        0 <= c < 8 * bits.len(),
    ensures
        ({
            let after = bits.update(c / 8, bits[c / 8] | (1u8 << ((c % 8) as u8)));
            forall|b: int|
                0 <= b < 8 * bits.len() ==> (#[trigger] cell(after, b) <==> cell(bits, b) || b == c)
        }),
{
    let after = bits.update(c / 8, bits[c / 8] | (1u8 << ((c % 8) as u8)));
    lemma_set_cell(bits[c / 8], (c % 8) as u8);
    assert forall|b: int| 0 <= b < 8 * bits.len() implies (#[trigger] cell(after, b) <==> cell(
        bits,
        b,
    ) || b == c) by {
        if b / 8 == c / 8 {
            let j = (b % 8) as u8;
            assert(((bits[c / 8] | (1u8 << ((c % 8) as u8))) >> j) & 1 == 1 <==> (bits[c / 8] >> j)
                & 1 == 1 || j == (c % 8) as u8);
        }
    }
}

impl BloomFilter {
    /// The filter as mathematical values.
    pub closed spec fn model(&self) -> BloomModel {
        BloomModel { bits: self.bits@, num_bits: self.num_bits, num_hashes: self.num_hashes }
    }

    /// An empty filter with `bits` cells and `hashes` hash functions, brought into the
    /// range that filters keep to: at least `MIN_BITS` cells, and between 1 and
    /// `MAX_HASHES` hash functions.
    pub fn new(bits: u64, hashes: u32) -> (f: BloomFilter)
        requires
            bits <= u64::MAX - 7,
        ensures
            bloom_wf(f.model()),
            f.model().num_bits == if bits < MIN_BITS { MIN_BITS } else { bits },
            f.model().num_hashes == if hashes < 1 {
                1
            } else if hashes > MAX_HASHES {
                MAX_HASHES
            } else {
                hashes
            },
            f.model().bits == Seq::new(byte_len(f.model().num_bits), |i: int| 0u8),
    {
        let num_bits: u64 = if bits < MIN_BITS {
            MIN_BITS
        } else {
            bits
        };
        let num_hashes: u32 = if hashes < 1 {
            1
        } else if hashes > MAX_HASHES {
            MAX_HASHES
        } else {
            hashes
        };
        let len: u64 = (num_bits + 7) / 8;
        let mut cells: Vec<u8> = Vec::new();
        for i in 0..len
            invariant
                cells@ == Seq::new(i as nat, |j: int| 0u8),
        {
            cells.push(0);
            assert(cells@ =~= Seq::new((i + 1) as nat, |j: int| 0u8));
        }
        BloomFilter { bits: cells, num_bits, num_hashes }
    }

    /// Whether keys can be inserted and looked up. A filter that was read from bytes
    /// may have hash functions and no cell to choose from.
    pub fn is_usable(&self) -> (yes: bool)
        requires
            self.model().bits.len() == byte_len(self.model().num_bits),
        ensures
            yes == bloom_wf(self.model()),
    {
        self.num_bits > 0 || self.num_hashes == 0
    }

    fn hash_index(&self, key: &[u8], seed: u32) -> (c: u64)
        requires
            self.num_bits > 0,
        ensures
            c == key_cell(key@, seed, self.num_bits),
            c < self.num_bits,
    {
        let h1 = seeded_hash(key, SEED_1);
        let h2 = seeded_hash(key, seed as u64 ^ SEED_2);
        let step: u64 = (seed as u64).wrapping_mul(h2);
        proof {
            let m = 0x1_0000_0000_0000_0000int;
            let p = seed * h2;
            vstd::arithmetic::div_mod::lemma_add_mod_noop_right(h1 as int, p, m);
        }
        h1.wrapping_add(step) % self.num_bits
    }

    /// Inserts a key.
    pub fn insert(&mut self, key: &[u8])
        requires
            bloom_wf(old(self).model()),
        ensures
            is_inserted(old(self).model(), key@, final(self).model()),
            bloom_wf(final(self).model()),
    {
        let n: u32 = self.num_hashes;
        let ghost before = self.model();
        for i in 0..n
            invariant
                n == before.num_hashes,
                bloom_wf(before),
                self.num_bits == before.num_bits,
                self.num_hashes == before.num_hashes,
                self.bits@.len() == before.bits.len(),
                forall|b: int|
                    0 <= b < 8 * before.bits.len() ==> (#[trigger] cell(self.bits@, b) <==> cell(
                        before.bits,
                        b,
                    ) || is_key_cell(key@, i, before.num_bits, b)),
        {
            let c: u64 = self.hash_index(key, i);
            assert(c / 8 < self.bits.len());
            let at: usize = (c / 8) as usize;
            let ghost prev = self.bits@;
            proof {
                lemma_update_cell(prev, c as int);
            }
            let byte: u8 = self.bits[at] | (1u8 << ((c % 8) as u8));
            self.bits.set(at, byte);
            assert forall|b: int| 0 <= b < 8 * before.bits.len() implies (#[trigger] cell(
                self.bits@,
                b,
            ) <==> cell(before.bits, b) || is_key_cell(
                key@,
                (i + 1) as u32,
                before.num_bits,
                b,
            )) by {
                assert(cell(self.bits@, b) <==> cell(prev, b) || b == c);
                if is_key_cell(key@, (i + 1) as u32, before.num_bits, b) {
                    let j = choose|j: u32|
                        j < (i + 1) as u32 && #[trigger] key_cell(key@, j, before.num_bits) == b;
                    if j < i {
                        assert(is_key_cell(key@, i, before.num_bits, b));
                    }
                }
                if is_key_cell(key@, i, before.num_bits, b) {
                    let j = choose|j: u32|
                        j < i && #[trigger] key_cell(key@, j, before.num_bits) == b;
                    assert(j < (i + 1) as u32);
                }
                if b == c {
                    assert(key_cell(key@, i, before.num_bits) == b);
                }
            }
        }
    }

    /// Whether a key may have been inserted.
    pub fn contains(&self, key: &[u8]) -> (yes: bool)
        requires
            bloom_wf(self.model()),
        ensures
            yes == may_contain(self.model(), key@),
    {
        for i in 0..self.num_hashes
            invariant
                bloom_wf(self.model()),
                forall|j: u32|
                    j < i ==> cell(self.bits@, #[trigger] key_cell(key@, j, self.num_bits)),
        {
            let c: u64 = self.hash_index(key, i);
            proof {
                lemma_test_cell(self.bits@[c as int / 8], (c % 8) as u8);
            }
            assert(c / 8 < self.bits.len());
            if self.bits[(c / 8) as usize] & (1u8 << ((c % 8) as u8)) == 0 {
                assert(!cell(self.bits@, key_cell(key@, i, self.num_bits)));
                return false;
            }
        }
        true
    }

    /// The stored form.
    pub fn to_bytes(&self) -> (out: Vec<u8>)
        ensures
            out@ == bloom_bytes(self.model()),
    {
        let mut out: Vec<u8> = Vec::new();
        push_le(&mut out, self.num_bits, 8);
        push_le(&mut out, self.num_hashes as u64, 4);
        push_bytes(&mut out, self.bits.as_slice());
        assert(out@ =~= bloom_bytes(self.model()));
        out
    }

    /// Reads the stored form.
    pub fn from_bytes(data: &[u8]) -> (out: Option<BloomFilter>)
        ensures
            match out {
                Some(f) => bloom_of(data@) == Some(f.model()) && f.model().bits.len()
                    == byte_len(f.model().num_bits),
                None => bloom_of(data@) is None,
            },
    {
        if data.len() < BLOOM_HEADER {
            return None;
        }
        proof {
            crate::bytes::pow256_values();
        }
        let num_bits: u64 = read_le(data, 0, 8);
        let num_hashes: u32 = read_le(data, 8, 4) as u32;
        let len: u64 = num_bits / 8 + (if num_bits % 8 == 0 {
            0
        } else {
            1u64
        });
        assert(len == byte_len(num_bits));
        if ((data.len() - BLOOM_HEADER) as u64) < len {
            return None;
        }
        let bits = copy_range(data, 12, 12 + len as usize);
        Some(BloomFilter { bits, num_bits, num_hashes })
    }
}

/// No false negatives: a key that was inserted is found.
pub proof fn inserted_key_is_found(before: BloomModel, key: Seq<u8>, after: BloomModel)
    requires
        bloom_wf(before),
        is_inserted(before, key, after),
    ensures
        may_contain(after, key),
{
    assert forall|i: u32| i < after.num_hashes implies cell(
        after.bits,
        #[trigger] key_cell(key, i, after.num_bits),
    ) by {
        let b = key_cell(key, i, before.num_bits);
        assert(0 <= b < before.num_bits);
        assert(is_key_cell(key, before.num_hashes, before.num_bits, b));
    }
}

/// A key that a filter holds stays found, whatever is inserted later.
pub proof fn found_key_stays_found(
    before: BloomModel,
    key: Seq<u8>,
    other: Seq<u8>,
    after: BloomModel,
)
    requires
        bloom_wf(before),
        may_contain(before, key),
        is_inserted(before, other, after),
    ensures
        may_contain(after, key),
{
    assert forall|i: u32| i < after.num_hashes implies cell(
        after.bits,
        #[trigger] key_cell(key, i, after.num_bits),
    ) by {
        let b = key_cell(key, i, before.num_bits);
        assert(0 <= b < before.num_bits);
        assert(cell(before.bits, b));
    }
}

/// Reading the stored form gives the filter back, with whatever follows it.
pub proof fn bloom_round_trip(m: BloomModel, rest: Seq<u8>)
    requires
        bloom_wf(m),
    ensures
        bloom_of(bloom_bytes(m)) == Some(m),
        bloom_of(bloom_bytes(m) + rest) == Some(m),
{
    lemma_bloom_prefix(m, Seq::empty());
    assert(bloom_bytes(m) + Seq::empty() =~= bloom_bytes(m));
    lemma_bloom_prefix(m, rest);
}

proof fn lemma_bloom_prefix(m: BloomModel, rest: Seq<u8>)
    requires
        bloom_wf(m),
    ensures
        bloom_of(bloom_bytes(m) + rest) == Some(m),
{
    let data = bloom_bytes(m) + rest;
    crate::bytes::pow256_values();
    crate::bytes::le_round_trip(m.num_bits as nat, 8);
    crate::bytes::le_round_trip(m.num_hashes as nat, 4);
    assert(data.subrange(0, 8) =~= le_bytes(m.num_bits as nat, 8));
    assert(data.subrange(8, 12) =~= le_bytes(m.num_hashes as nat, 4));
    assert(data.subrange(12, 12 + byte_len(m.num_bits) as int) =~= m.bits);
}

} // verus!
