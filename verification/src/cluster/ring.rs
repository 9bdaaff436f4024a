//! Consistent hash ring.
//!
//! Each node owns a number of positions on a ring of 64-bit numbers: the first eight bytes
//! of the SHA-256 digests of its name, `#` and a running number. A key belongs to the node of
//! the first position at or behind the key's hash, clockwise.

use crate::cluster::error::ClusterError;
use crate::hash::{hash_bytes, hash_of};
use crate::sha256::{short_digest, short_digest_of};
use crate::text::{decimal, hex_digits, push_decimal, push_hex, str_eq};
use vstd::prelude::*;
use vstd::utf8::encode_utf8;

verus! {

// ── Shards ──────────────────────────────────────────────────────────────────

/// A position on the ring.
#[derive(Debug, Clone, Copy, PartialEq, Eq, Structural)]
pub struct ShardId(pub u64);

impl ShardId {
    /// The shard of a series key.
    pub fn for_key(key: &str) -> (s: ShardId)
        ensures
            s.0 == hash_of(encode_utf8(key@)),
    {
        ShardId(hash_bytes(key.as_bytes()))
    }

    /// The shard as sixteen hexadecimal digits.
    pub fn to_text(&self) -> (out: String)
        ensures
            out@ == hex_digits(self.0 as nat, 16),
    {
        let mut out = String::new();
        push_hex(&mut out, self.0, 16);
        assert(out@ =~= hex_digits(self.0 as nat, 16));
        out
    }
}

// ── Model ───────────────────────────────────────────────────────────────────

/// The positions of a ring, ascending, each with the name of its node.
pub type Ring = Seq<(u64, Seq<char>)>;

/// The text that gives a node its position number `i`: the node's name, `#` and `i`.
pub open spec fn slot_name(node: Seq<char>, i: u32) -> Seq<char> {
    node.push('#') + decimal(i as nat)
}

/// Position number `i` of a node.
pub open spec fn slot_pos(node: Seq<char>, i: u32) -> u64 {
    short_digest_of(encode_utf8(slot_name(node, i)))
}

/// Whether positions ascend, so that none occurs twice.
pub open spec fn ascending(r: Ring) -> bool {
    forall|i: int, j: int| 0 <= i < j < r.len() ==> (#[trigger] r[i]).0 < (#[trigger] r[j]).0
}

/// How many positions lie below `p`.
pub open spec fn count_below(r: Ring, p: u64) -> nat
    decreases r.len(),
{
    if r.len() == 0 {
        0
    } else {
        count_below(r.drop_last(), p) + (if r.last().0 < p {
            1nat
        } else {
            0
        })
    }
}

/// The ring with position `p` given to `node`.
pub open spec fn ring_insert(r: Ring, p: u64, node: Seq<char>) -> Ring {
    let k = count_below(r, p) as int;
    if k < r.len() && r[k].0 == p {
        r.update(k, (p, node))
    } else {
        r.insert(k, (p, node))
    }
}

/// The ring without position `p`.
pub open spec fn ring_remove(r: Ring, p: u64) -> Ring {
    let k = count_below(r, p) as int;
    if k < r.len() && r[k].0 == p {
        r.remove(k)
    } else {
        r
    }
}

/// The ring with the first `n` positions of `node` given to it.
pub open spec fn ring_add(r: Ring, node: Seq<char>, n: u32) -> Ring
    decreases n,
{
    if n == 0 {
        r
    } else {
        let i = (n - 1) as u32;
        ring_insert(ring_add(r, node, i), slot_pos(node, i), node)
    }
}

/// The ring without the first `n` positions of `node`.
pub open spec fn ring_drop(r: Ring, node: Seq<char>, n: u32) -> Ring
    decreases n,
{
    if n == 0 {
        r
    } else {
        let i = (n - 1) as u32;
        ring_remove(ring_drop(r, node, i), slot_pos(node, i))
    }
}

/// The node names met on the way round the ring, clockwise from `start`.
pub open spec fn walk(r: Ring, start: u64) -> Seq<Seq<char>> {
    let k = count_below(r, start) as int;
    (r.skip(k) + r.take(k)).map_values(|e: (u64, Seq<char>)| e.1)
}

/// The elements of a sequence without repetitions, each at its first place.
pub open spec fn distinct(s: Seq<Seq<char>>) -> Seq<Seq<char>>
    decreases s.len(),
{
    if s.len() == 0 {
        Seq::empty()
    } else {
        let front = distinct(s.drop_last());
        if front.contains(s.last()) {
            front
        } else {
            front.push(s.last())
        }
    }
}

/// The first `n` elements, or all if there are fewer.
pub open spec fn first_of(s: Seq<Seq<char>>, n: nat) -> Seq<Seq<char>> {
    if s.len() <= n {
        s
    } else {
        s.take(n as int)
    }
}

/// The node that a shard belongs to.
pub open spec fn owner(r: Ring, start: u64) -> Seq<char> {
    walk(r, start)[0]
}

/// The nodes that hold a shard, the owner first.
pub open spec fn holders(r: Ring, start: u64, count: nat) -> Seq<Seq<char>> {
    first_of(distinct(walk(r, start)), count)
}

/// Whether a position is one of the first `n` of its node.
pub open spec fn is_own_slot(e: (u64, Seq<char>), n: u32) -> bool {
    exists|i: u32| i < n && e.0 == #[trigger] slot_pos(e.1, i)
}

/// Whether every position belongs to the node whose name it was derived from.
pub open spec fn slots_are_own(r: Ring, n: u32) -> bool {
    forall|k: int| 0 <= k < r.len() ==> is_own_slot(#[trigger] r[k], n)
}

/// The way from `start` to `p`, clockwise.
pub open spec fn clockwise(start: u64, p: u64) -> int {
    if start <= p {
        p - start
    } else {
        p - start + 0x1_0000_0000_0000_0000
    }
}

// ── Lemmas ──────────────────────────────────────────────────────────────────

proof fn lemma_count_at(r: Ring, p: u64, k: int)
    requires
        0 <= k <= r.len(),
        forall|i: int| 0 <= i < k ==> (#[trigger] r[i]).0 < p,
        forall|i: int| k <= i < r.len() ==> (#[trigger] r[i]).0 >= p,
    ensures
        count_below(r, p) == k,
    decreases r.len(),
{
    if r.len() > 0 {
        let front = r.drop_last();
        assert(forall|i: int| 0 <= i < front.len() ==> front[i] == r[i]);
        assert(r.last() == r[r.len() - 1]);
        lemma_count_at(front, p, if k == r.len() { k - 1 } else { k });
    }
}

proof fn lemma_count_splits(r: Ring, p: u64)
    requires
        ascending(r),
    ensures
        count_below(r, p) <= r.len(),
        forall|i: int| 0 <= i < count_below(r, p) ==> (#[trigger] r[i]).0 < p,
        forall|i: int| count_below(r, p) <= i < r.len() ==> (#[trigger] r[i]).0 >= p,
    decreases r.len(),
{
    if r.len() > 0 {
        let front = r.drop_last();
        assert(forall|i: int| 0 <= i < front.len() ==> front[i] == r[i]);
        assert(ascending(front));
        lemma_count_splits(front, p);
        let last = r[r.len() - 1];
        assert(last == r.last());
        if last.0 < p {
            assert forall|i: int| 0 <= i < front.len() implies (#[trigger] front[i]).0 < p by {
                assert(r[i].0 < last.0);
            }
            lemma_count_at(front, p, front.len() as int);
        }
    }
}

/// What is in a ring after a position was given away: that position, and the others as
/// before.
proof fn lemma_insert(r: Ring, p: u64, node: Seq<char>)
    requires
        ascending(r),
    ensures
        ascending(ring_insert(r, p, node)),
        ring_insert(r, p, node).contains((p, node)),
        forall|e: (u64, Seq<char>)| #[trigger]
            ring_insert(r, p, node).contains(e) <==> (e == (p, node) || (e.0 != p && r.contains(e))),
{
    let k = count_below(r, p) as int;
    lemma_count_splits(r, p);
    let s = ring_insert(r, p, node);
    assert(s[k] == (p, node));
    if k < r.len() && r[k].0 == p {
        assert forall|i: int, j: int| 0 <= i < j < s.len() implies (#[trigger] s[i]).0 < (
        #[trigger] s[j]).0 by {
            assert(r[i].0 < r[j].0);
        }
        assert forall|e: (u64, Seq<char>)| #[trigger] s.contains(e) <==> (e == (p, node) || (e.0
            != p && r.contains(e))) by {
            if s.contains(e) {
                let i = choose|i: int| 0 <= i < s.len() && s[i] == e;
                if i != k {
                    assert(r[i] == e);
                    assert(r[i].0 != r[k].0);
                }
            }
            if e.0 != p && r.contains(e) {
                let i = choose|i: int| 0 <= i < r.len() && r[i] == e;
                assert(s[i] == e);
            }
        }
    } else {
        assert forall|i: int, j: int| 0 <= i < j < s.len() implies (#[trigger] s[i]).0 < (
        #[trigger] s[j]).0 by {
            let oi = if i < k { i } else { i - 1 };
            let oj = if j < k { j } else { j - 1 };
            if i != k && j != k {
                assert(r[oi].0 < r[oj].0);
            } else if i == k {
                assert(r[oj].0 >= p);
                if oj > k {
                    assert(r[k].0 < r[oj].0);
                }
            }
        }
        assert forall|e: (u64, Seq<char>)| #[trigger] s.contains(e) <==> (e == (p, node) || (e.0
            != p && r.contains(e))) by {
            if s.contains(e) {
                let i = choose|i: int| 0 <= i < s.len() && s[i] == e;
                if i < k {
                    assert(r[i] == e);
                } else if i > k {
                    assert(r[i - 1] == e);
                    if i - 1 > k {
                        assert(r[k].0 < r[i - 1].0);
                    }
                }
            }
            if e.0 != p && r.contains(e) {
                let i = choose|i: int| 0 <= i < r.len() && r[i] == e;
                if i < k {
                    assert(s[i] == e);
                } else {
                    assert(s[i + 1] == e);
                }
            }
        }
    }
}

/// What is in a ring after a position was taken out: the others, as before.
proof fn lemma_remove(r: Ring, p: u64)
    requires
        ascending(r),
    ensures
        ascending(ring_remove(r, p)),
        forall|e: (u64, Seq<char>)| #[trigger]
            ring_remove(r, p).contains(e) <==> (e.0 != p && r.contains(e)),
{
    let k = count_below(r, p) as int;
    lemma_count_splits(r, p);
    let s = ring_remove(r, p);
    if k < r.len() && r[k].0 == p {
        assert forall|i: int, j: int| 0 <= i < j < s.len() implies (#[trigger] s[i]).0 < (
        #[trigger] s[j]).0 by {
            let oi = if i < k { i } else { i + 1 };
            let oj = if j < k { j } else { j + 1 };
            assert(r[oi].0 < r[oj].0);
        }
        assert forall|e: (u64, Seq<char>)| #[trigger] s.contains(e) <==> (e.0 != p && r.contains(
            e,
        )) by {
            if s.contains(e) {
                let i = choose|i: int| 0 <= i < s.len() && s[i] == e;
                let oi = if i < k { i } else { i + 1 };
                assert(r[oi] == e);
                if oi < k {
                    assert(r[oi].0 < r[k].0);
                } else {
                    assert(r[k].0 < r[oi].0);
                }
            }
            if e.0 != p && r.contains(e) {
                let i = choose|i: int| 0 <= i < r.len() && r[i] == e;
                if i < k {
                    assert(s[i] == e);
                } else {
                    assert(s[i - 1] == e);
                }
            }
        }
    } else {
        assert forall|e: (u64, Seq<char>)| #[trigger] s.contains(e) <==> (e.0 != p && r.contains(
            e,
        )) by {
            if s.contains(e) {
                let i = choose|i: int| 0 <= i < s.len() && s[i] == e;
                if i > k {
                    assert(r[k].0 < r[i].0);
                }
            }
        }
    }
}

/// Adding and dropping nodes keeps positions ascending and derived from their nodes.
pub proof fn ring_stays_well_formed(r: Ring, node: Seq<char>, n: u32, slots: u32)
    requires
        ascending(r),
        slots_are_own(r, slots),
        n <= slots,
    ensures
        ascending(ring_add(r, node, n)),
        slots_are_own(ring_add(r, node, n), slots),
        ascending(ring_drop(r, node, n)),
        slots_are_own(ring_drop(r, node, n), slots),
    decreases n,
{
    if n > 0 {
        let i = (n - 1) as u32;
        ring_stays_well_formed(r, node, i, slots);
        let a = ring_add(r, node, i);
        let d = ring_drop(r, node, i);
        let p = slot_pos(node, i);
        lemma_insert(a, p, node);
        lemma_remove(d, p);
        let b = ring_insert(a, p, node);
        assert forall|k: int| 0 <= k < b.len() implies is_own_slot(#[trigger] b[k], slots) by {
            assert(b.contains(b[k]));
            if b[k] == (p, node) {
                assert(i < slots && b[k].0 == slot_pos(b[k].1, i));
            } else {
                let m = choose|m: int| 0 <= m < a.len() && a[m] == b[k];
                assert(is_own_slot(a[m], slots));
                let j = choose|j: u32| j < slots && a[m].0 == #[trigger] slot_pos(a[m].1, j);
                assert(b[k].0 == slot_pos(b[k].1, j));
            }
        }
        let c = ring_remove(d, p);
        assert forall|k: int| 0 <= k < c.len() implies is_own_slot(#[trigger] c[k], slots) by {
            assert(c.contains(c[k]));
            let m = choose|m: int| 0 <= m < d.len() && d[m] == c[k];
            assert(is_own_slot(d[m], slots));
            let j = choose|j: u32| j < slots && d[m].0 == #[trigger] slot_pos(d[m].1, j);
            assert(c[k].0 == slot_pos(c[k].1, j));
        }
    }
}

proof fn lemma_drop_members(r: Ring, node: Seq<char>, n: u32)
    requires
        ascending(r),
    ensures
        ascending(ring_drop(r, node, n)),
        forall|e: (u64, Seq<char>)| #[trigger]
            ring_drop(r, node, n).contains(e) <==> (r.contains(e) && forall|i: u32|
                i < n ==> e.0 != #[trigger] slot_pos(node, i)),
    decreases n,
{
    if n > 0 {
        let i = (n - 1) as u32;
        lemma_drop_members(r, node, i);
        lemma_remove(ring_drop(r, node, i), slot_pos(node, i));
        assert forall|e: (u64, Seq<char>)| #[trigger] ring_drop(r, node, n).contains(e) <==> (
        r.contains(e) && forall|i: u32| i < n ==> e.0 != #[trigger] slot_pos(node, i)) by {
            if r.contains(e) && ring_drop(r, node, i).contains(e) && e.0 != slot_pos(node, i) {
                assert forall|j: u32| j < n implies e.0 != #[trigger] slot_pos(node, j) by {
                    if j == i {
                    }
                }
            }
        }
    }
}

proof fn lemma_add_members(r: Ring, node: Seq<char>, n: u32)
    requires
        ascending(r),
    ensures
        ascending(ring_add(r, node, n)),
        forall|e: (u64, Seq<char>)| #[trigger]
            ring_add(r, node, n).contains(e) ==> r.contains(e) || e.1 == node,
        forall|e: (u64, Seq<char>)|
            r.contains(e) ==> #[trigger] ring_add(r, node, n).contains(e) || ring_add(
                r,
                node,
                n,
            ).contains((e.0, node)),
        forall|i: u32| i < n ==> ring_add(r, node, n).contains((#[trigger] slot_pos(node, i), node)),
    decreases n,
{
    if n > 0 {
        let i = (n - 1) as u32;
        lemma_add_members(r, node, i);
        let a = ring_add(r, node, i);
        let p = slot_pos(node, i);
        lemma_insert(a, p, node);
        assert(ring_add(r, node, n) == ring_insert(a, p, node));
        assert forall|e: (u64, Seq<char>)| r.contains(e) implies #[trigger] ring_add(
            r,
            node,
            n,
        ).contains(e) || ring_add(r, node, n).contains((e.0, node)) by {
            assert(a.contains(e) || a.contains((e.0, node)));
            if e.0 == p {
                assert(ring_insert(a, p, node).contains((p, node)));
            } else if a.contains((e.0, node)) {
                assert(ring_insert(a, p, node).contains((e.0, node)));
            }
        }
        assert forall|j: u32| j < n implies ring_add(r, node, n).contains(
            (#[trigger] slot_pos(node, j), node),
        ) by {
            if j < i {
                assert(a.contains((slot_pos(node, j), node)));
                assert(ring_insert(a, p, node).contains((slot_pos(node, j), node)));
            }
        }
    }
}

proof fn lemma_owner_entry(r: Ring, start: u64)
    requires
        ascending(r),
        r.len() > 0,
    ensures
        exists|k: int| 0 <= k < r.len() && #[trigger] r[k].1 == owner(r, start) && forall|j: int|
            0 <= j < r.len() ==> clockwise(start, r[k].0) <= clockwise(start, (#[trigger] r[j]).0),
{
    lemma_count_splits(r, start);
    let c = count_below(r, start) as int;
    let k = if c < r.len() { c } else { 0 };
    assert(owner(r, start) == r[k].1);
    assert forall|j: int| 0 <= j < r.len() implies clockwise(start, r[k].0) <= clockwise(
        start,
        (#[trigger] r[j]).0,
    ) by {
        if j > k {
            assert(r[k].0 < r[j].0);
        } else if j < k {
            assert(r[j].0 < start);
        }
    }
}

proof fn lemma_nearest_is_owner(r: Ring, start: u64, e: (u64, Seq<char>))
    requires
        ascending(r),
        r.contains(e),
        forall|j: int|
            0 <= j < r.len() ==> clockwise(start, e.0) <= clockwise(start, (#[trigger] r[j]).0),
    ensures
        owner(r, start) == e.1,
{
    lemma_owner_entry(r, start);
    let k = choose|k: int|
        0 <= k < r.len() && #[trigger] r[k].1 == owner(r, start) && forall|j: int|
            0 <= j < r.len() ==> clockwise(start, r[k].0) <= clockwise(start, (#[trigger] r[j]).0);
    let m = choose|m: int| 0 <= m < r.len() && r[m] == e;
    assert(clockwise(start, r[k].0) <= clockwise(start, r[m].0));
    assert(clockwise(start, e.0) <= clockwise(start, r[k].0));
    assert(r[k].0 == r[m].0);
    if k < m {
        assert(r[k].0 < r[m].0);
    } else if m < k {
        assert(r[m].0 < r[k].0);
    }
}

proof fn lemma_distinct(s: Seq<Seq<char>>)
    ensures
        distinct(s).no_duplicates(),
        forall|x: Seq<char>| #[trigger] distinct(s).contains(x) <==> s.contains(x),
        s.len() > 0 ==> distinct(s).len() > 0 && distinct(s)[0] == s[0],
    decreases s.len(),
{
    if s.len() > 0 {
        let front = s.drop_last();
        lemma_distinct(front);
        let d = distinct(front);
        let e = distinct(s);
        assert forall|x: Seq<char>| #[trigger] e.contains(x) <==> s.contains(x) by {
            if e.contains(x) {
                let i = choose|i: int| 0 <= i < e.len() && e[i] == x;
                if i < d.len() {
                    assert(d[i] == x);
                    assert(d.contains(x));
                    let j = choose|j: int| 0 <= j < front.len() && front[j] == x;
                    assert(s[j] == x);
                } else {
                    assert(s[s.len() - 1] == x);
                }
            }
            if s.contains(x) {
                let i = choose|i: int| 0 <= i < s.len() && s[i] == x;
                if i < front.len() {
                    assert(front[i] == x);
                    assert(d.contains(x));
                    let j = choose|j: int| 0 <= j < d.len() && d[j] == x;
                    assert(e[j] == x);
                } else if !d.contains(x) {
                    assert(e[d.len() as int] == x);
                }
            }
        }
        if front.len() == 0 {
            assert(d.len() == 0);
        }
    }
}

// ── Laws ────────────────────────────────────────────────────────────────────

/// The owner of a shard is the node of the nearest position clockwise.
pub proof fn owner_is_nearest_clockwise(r: Ring, start: u64)
    requires
        ascending(r),
        r.len() > 0,
    ensures
        exists|k: int| 0 <= k < r.len() && #[trigger] r[k].1 == owner(r, start) && forall|j: int|
            0 <= j < r.len() ==> clockwise(start, r[k].0) <= clockwise(start, (#[trigger] r[j]).0),
{
    lemma_owner_entry(r, start);
}

/// A node that was removed owns nothing and holds nothing.
pub proof fn removed_node_is_excluded(
    r: Ring,
    node: Seq<char>,
    slots: u32,
    start: u64,
    count: nat,
)
    requires
        ascending(r),
        slots_are_own(r, slots),
    ensures
        ring_drop(r, node, slots).len() > 0 ==> owner(ring_drop(r, node, slots), start) != node,
        !holders(ring_drop(r, node, slots), start, count).contains(node),
{
    let d = ring_drop(r, node, slots);
    lemma_drop_members(r, node, slots);
    assert forall|k: int| 0 <= k < d.len() implies (#[trigger] d[k]).1 != node by {
        assert(d.contains(d[k]));
        let m = choose|m: int| 0 <= m < r.len() && r[m] == d[k];
        assert(is_own_slot(r[m], slots));
        let j = choose|j: u32| j < slots && r[m].0 == #[trigger] slot_pos(r[m].1, j);
        assert(d[k].0 == slot_pos(d[k].1, j));
    }
    lemma_count_splits(d, start);
    let w = walk(d, start);
    let c = count_below(d, start) as int;
    assert forall|i: int| 0 <= i < w.len() implies (#[trigger] w[i]) != node by {
        let k = if i < d.len() - c { c + i } else { i - (d.len() - c) };
        assert(w[i] == d[k].1);
    }
    if d.len() > 0 {
        assert(w[0] != node);
    }
    lemma_distinct(w);
    let h = holders(d, start, count);
    if h.contains(node) {
        let i = choose|i: int| 0 <= i < h.len() && h[i] == node;
        assert(distinct(w)[i] == node);
        assert(distinct(w).contains(node));
        let j = choose|j: int| 0 <= j < w.len() && w[j] == node;
        assert(w[j] != node);
    }
}

/// Adding a node moves shards only to that node: every other shard keeps its owner.
pub proof fn adding_moves_shards_only_to_the_new_node(
    r: Ring,
    node: Seq<char>,
    slots: u32,
    start: u64,
)
    requires
        ascending(r),
        r.len() > 0,
    ensures
        owner(ring_add(r, node, slots), start) == node || owner(ring_add(r, node, slots), start)
            == owner(r, start),
{
    let a = ring_add(r, node, slots);
    lemma_add_members(r, node, slots);
    assert(r.contains(r[0]));
    assert(a.len() > 0) by {
        assert(a.contains(r[0]) || a.contains((r[0].0, node)));
    }
    lemma_owner_entry(a, start);
    let k = choose|k: int|
        0 <= k < a.len() && #[trigger] a[k].1 == owner(a, start) && forall|j: int|
            0 <= j < a.len() ==> clockwise(start, a[k].0) <= clockwise(start, (#[trigger] a[j]).0);
    assert(a.contains(a[k]));
    if a[k].1 != node {
        assert(r.contains(a[k]));
        assert forall|j: int| 0 <= j < r.len() implies clockwise(start, a[k].0) <= clockwise(
            start,
            (#[trigger] r[j]).0,
        ) by {
            assert(r.contains(r[j]));
            if a.contains(r[j]) {
                let m = choose|m: int| 0 <= m < a.len() && a[m] == r[j];
                assert(clockwise(start, a[k].0) <= clockwise(start, a[m].0));
            } else {
                let m = choose|m: int| 0 <= m < a.len() && a[m] == (r[j].0, node);
                assert(clockwise(start, a[k].0) <= clockwise(start, a[m].0));
            }
        }
        lemma_nearest_is_owner(r, start, a[k]);
    }
}

/// Removing a node leaves every shard of another node where it is, as long as no
/// position of the removed node belongs to the other.
pub proof fn removing_keeps_other_owners(r: Ring, node: Seq<char>, slots: u32, start: u64)
    requires
        ascending(r),
        r.len() > 0,
        owner(r, start) != node,
        forall|e: (u64, Seq<char>), i: u32|
            r.contains(e) && i < slots && e.0 == #[trigger] slot_pos(node, i) ==> (#[trigger] e.1)
                == node,
    ensures
        owner(ring_drop(r, node, slots), start) == owner(r, start),
{
    let d = ring_drop(r, node, slots);
    lemma_drop_members(r, node, slots);
    lemma_owner_entry(r, start);
    let k = choose|k: int|
        0 <= k < r.len() && #[trigger] r[k].1 == owner(r, start) && forall|j: int|
            0 <= j < r.len() ==> clockwise(start, r[k].0) <= clockwise(start, (#[trigger] r[j]).0);
    let e = r[k];
    assert(r.contains(e));
    assert(d.contains(e)) by {
        assert forall|i: u32| i < slots implies e.0 != #[trigger] slot_pos(node, i) by {
            if e.0 == slot_pos(node, i) {
                assert(e.1 == node);
            }
        }
    }
    assert forall|j: int| 0 <= j < d.len() implies clockwise(start, e.0) <= clockwise(
        start,
        (#[trigger] d[j]).0,
    ) by {
        assert(d.contains(d[j]));
        let m = choose|m: int| 0 <= m < r.len() && r[m] == d[j];
        assert(clockwise(start, r[k].0) <= clockwise(start, r[m].0));
    }
    lemma_nearest_is_owner(d, start, e);
}

/// Whichever way round the ring one goes, one meets the same nodes.
pub proof fn every_walk_meets_every_node(r: Ring, start: u64)
    ensures
        distinct(walk(r, start)).len() == distinct(walk(r, 0)).len(),
        forall|x: Seq<char>|
            distinct(walk(r, start)).contains(x) <==> #[trigger] distinct(walk(r, 0)).contains(x),
{
    let a = distinct(walk(r, start));
    let b = distinct(walk(r, 0));
    lemma_distinct(walk(r, start));
    lemma_distinct(walk(r, 0));
    lemma_walk_members(r, start);
    lemma_walk_members(r, 0);
    assert forall|x: Seq<char>| a.contains(x) <==> #[trigger] b.contains(x) by {
        assert(walk(r, start).contains(x) <==> is_node(r, x));
        assert(walk(r, 0).contains(x) <==> is_node(r, x));
    }
    assert(a.to_set() =~= b.to_set());
    a.unique_seq_to_set();
    b.unique_seq_to_set();
}

/// Whether a node has a position.
pub open spec fn is_node(r: Ring, node: Seq<char>) -> bool {
    exists|i: int| 0 <= i < r.len() && (#[trigger] r[i]).1 == node
}

proof fn lemma_walk_members(r: Ring, start: u64)
    ensures
        forall|x: Seq<char>| #[trigger] walk(r, start).contains(x) <==> is_node(r, x),
{
    lemma_count_bound(r, start);
    let k = count_below(r, start) as int;
    let w = walk(r, start);
    assert forall|x: Seq<char>| #[trigger] w.contains(x) <==> is_node(r, x) by {
        if w.contains(x) {
            let i = choose|i: int| 0 <= i < w.len() && w[i] == x;
            let j = if i < r.len() - k { i + k } else { i - (r.len() - k) };
            assert(r[j].1 == x);
        }
        if is_node(r, x) {
            let j = choose|j: int| 0 <= j < r.len() && (#[trigger] r[j]).1 == x;
            let i = if j >= k { j - k } else { j + r.len() - k };
            assert(w[i] == x);
        }
    }
}

/// The holders of a shard are different nodes, there are as many as asked for unless the
/// ring has fewer nodes, and the owner comes first.
pub proof fn holders_are_distinct(r: Ring, start: u64, count: nat)
    requires
        r.len() > 0,
    ensures
        holders(r, start, count).no_duplicates(),
        holders(r, start, count).len() == if distinct(walk(r, 0)).len() < count {
            distinct(walk(r, 0)).len()
        } else {
            count
        },
        count > 0 ==> holders(r, start, count).len() > 0 && holders(r, start, count)[0] == owner(
            r,
            start,
        ),
{
    lemma_count_bound(r, start);
    lemma_distinct(walk(r, start));
    every_walk_meets_every_node(r, start);
}

/// Asking for one node more keeps the others, in their places.
pub proof fn more_holders_come_behind(r: Ring, start: u64, count: nat)
    ensures
        holders(r, start, count) == first_of(holders(r, start, count + 1), count),
{
    let d = distinct(walk(r, start));
    assert(holders(r, start, count) =~= first_of(holders(r, start, count + 1), count));
}

proof fn lemma_same_members(a: Ring, b: Ring)
    requires
        ascending(a),
        ascending(b),
        forall|e: (u64, Seq<char>)| #[trigger] a.contains(e) <==> b.contains(e),
    ensures
        a == b,
    decreases a.len(),
{
    if a.len() == 0 {
        if b.len() > 0 {
            assert(b.contains(b[0]));
            assert(a.contains(b[0]));
        }
        assert(a =~= b);
    } else {
        assert(a.contains(a.last()));
        assert(b.contains(a.last()));
        let i = choose|i: int| 0 <= i < b.len() && b[i] == a.last();
        assert(b.contains(b.last()));
        assert(a.contains(b.last()));
        let j = choose|j: int| 0 <= j < a.len() && a[j] == b.last();
        assert(a.last() == b.last()) by {
            if i < b.len() - 1 {
                assert(b[i].0 < b[b.len() - 1].0);
                if j < a.len() - 1 {
                    assert(a[j].0 < a[a.len() - 1].0);
                }
            }
        }
        let x = a.drop_last();
        let y = b.drop_last();
        assert forall|e: (u64, Seq<char>)| #[trigger] x.contains(e) <==> y.contains(e) by {
            if x.contains(e) {
                let k = choose|k: int| 0 <= k < x.len() && x[k] == e;
                assert(a[k] == e && a[k].0 < a[a.len() - 1].0);
                assert(a.contains(e));
                assert(b.contains(e));
                let m = choose|m: int| 0 <= m < b.len() && b[m] == e;
                assert(y[m] == e);
            }
            if y.contains(e) {
                let k = choose|k: int| 0 <= k < y.len() && y[k] == e;
                assert(b[k] == e && b[k].0 < b[b.len() - 1].0);
                assert(b.contains(e));
                assert(a.contains(e));
                let m = choose|m: int| 0 <= m < a.len() && a[m] == e;
                assert(x[m] == e);
            }
        }
        lemma_same_members(x, y);
        assert(a =~= x.push(a.last()));
        assert(b =~= y.push(b.last()));
    }
}

/// Whether no position of a node is occupied.
pub open spec fn positions_free(r: Ring, node: Seq<char>, n: u32) -> bool {
    forall|k: int, i: u32|
        0 <= k < r.len() && i < n ==> (#[trigger] r[k]).0 != #[trigger] slot_pos(node, i)
}

/// Whether a position is one of the first `n` of a node.
pub open spec fn is_slot_of(p: u64, node: Seq<char>, n: u32) -> bool {
    exists|i: u32| i < n && p == #[trigger] slot_pos(node, i)
}

proof fn lemma_add_others(r: Ring, node: Seq<char>, n: u32)
    requires
        ascending(r),
    ensures
        forall|e: (u64, Seq<char>)|
            !is_slot_of(e.0, node, n) ==> (#[trigger] ring_add(r, node, n).contains(e)
                <==> r.contains(e)),
    decreases n,
{
    if n > 0 {
        let i = (n - 1) as u32;
        lemma_add_others(r, node, i);
        lemma_add_members(r, node, i);
        lemma_insert(ring_add(r, node, i), slot_pos(node, i), node);
        assert forall|e: (u64, Seq<char>)| !is_slot_of(e.0, node, n) implies (
        #[trigger] ring_add(r, node, n).contains(e) <==> r.contains(e)) by {
            assert(e.0 != slot_pos(node, i));
            assert(!is_slot_of(e.0, node, i));
            assert(ring_add(r, node, i).contains(e) <==> r.contains(e));
        }
    }
}

/// Adding a node on free positions and removing it again gives the ring back, two changes
/// later.
pub proof fn adding_and_removing_gives_the_ring_back(
    before: ConsistentHashRing,
    between: ConsistentHashRing,
    after: ConsistentHashRing,
    node: Seq<char>,
)
    requires
        before.wf(),
        positions_free(before@, node, before.slots()),
        between@ == ring_add(before@, node, before.slots()),
        between.changes() == before.changes() + 1,
        after@ == ring_drop(between@, node, before.slots()),
        after.changes() == between.changes() + 1,
    ensures
        after@ == before@,
        after.changes() == before.changes() + 2,
{
    let r = before@;
    let n = before.slots();
    let a = ring_add(r, node, n);
    lemma_add_members(r, node, n);
    lemma_add_others(r, node, n);
    lemma_drop_members(a, node, n);
    let d = ring_drop(a, node, n);
    assert forall|e: (u64, Seq<char>)| #[trigger] d.contains(e) <==> r.contains(e) by {
        if d.contains(e) {
            assert(!is_slot_of(e.0, node, n));
            assert(a.contains(e));
        }
        if r.contains(e) {
            let k = choose|k: int| 0 <= k < r.len() && r[k] == e;
            assert forall|i: u32| i < n implies e.0 != #[trigger] slot_pos(node, i) by {
                assert(r[k].0 != slot_pos(node, i));
            }
            assert(!is_slot_of(e.0, node, n));
            assert(a.contains(e));
        }
    }
    lemma_same_members(d, r);
}

proof fn lemma_count_bound(r: Ring, p: u64)
    ensures
        count_below(r, p) <= r.len(),
    decreases r.len(),
{
    if r.len() > 0 {
        lemma_count_bound(r.drop_last(), p);
    }
}

// ── Ring ────────────────────────────────────────────────────────────────────

/// The positions of a list as mathematical values.
pub open spec fn ring_view(v: Seq<(u64, String)>) -> Ring {
    v.map_values(|e: (u64, String)| (e.0, e.1@))
}

/// A consistent hash ring.
#[derive(Debug)]
pub struct ConsistentHashRing {
    entries: Vec<(u64, String)>,
    virtual_nodes: u32,
    /// Counts the changes of the ring.
    version: u64,
}

impl View for ConsistentHashRing {
    type V = Ring;

    closed spec fn view(&self) -> Ring {
        ring_view(self.entries@)
    }
}

impl ConsistentHashRing {
    /// The number of positions per node.
    pub closed spec fn slots(&self) -> u32 {
        self.virtual_nodes
    }

    /// How often the ring has changed.
    pub closed spec fn changes(&self) -> u64 {
        self.version
    }

    /// Positions ascend, and each was derived from its node's name.
    pub open spec fn wf(&self) -> bool {
        ascending(self@) && slots_are_own(self@, self.slots())
    }

    /// An empty ring with the given number of positions per node.
    pub fn new(virtual_nodes: u32) -> (r: ConsistentHashRing)
        ensures
            r.wf(),
            r@ == Seq::<(u64, Seq<char>)>::empty(),
            r.slots() == virtual_nodes,
            r.changes() == 0,
    {
        let r = ConsistentHashRing { entries: Vec::new(), virtual_nodes, version: 0 };
        assert(r@ =~= Seq::<(u64, Seq<char>)>::empty());
        r
    }

    /// A copy of this ring.
    pub fn duplicate(&self) -> (out: ConsistentHashRing)
        ensures
            out@ == self@,
            out.slots() == self.slots(),
            out.changes() == self.changes(),
    {
        let mut entries: Vec<(u64, String)> = Vec::new();
        for i in 0..self.entries.len()
            invariant
                entries@.len() == i,
                ring_view(entries@) == self@.take(i as int),
        {
            entries.push((self.entries[i].0, self.entries[i].1.clone()));
            assert(ring_view(entries@) =~= self@.take(i + 1));
        }
        assert(self@.take(self@.len() as int) =~= self@);
        ConsistentHashRing {
            entries,
            virtual_nodes: self.virtual_nodes,
            version: self.version,
        }
    }

    fn position(node_id: &str, i: u32) -> (p: u64)
        ensures
            p == slot_pos(node_id@, i),
    {
        let mut key = node_id.to_string();
        key.push('#');
        push_decimal(&mut key, i as u64);
        short_digest(key.as_str().as_bytes())
    }

    /// The number of positions below `p`.
    fn lower_bound(&self, p: u64) -> (k: usize)
        requires
            ascending(self@),
        ensures
            k == count_below(self@, p),
            k <= self.entries@.len(),
    {
        let ghost r = self@;
        let mut lo: usize = 0;
        let mut hi: usize = self.entries.len();
        while lo < hi
            invariant
                r == self@,
                ascending(r),
                lo <= hi <= r.len(),
                forall|i: int| 0 <= i < lo ==> (#[trigger] r[i]).0 < p,
                forall|i: int| hi <= i < r.len() ==> (#[trigger] r[i]).0 >= p,
            decreases hi - lo,
        {
            let mid: usize = lo + (hi - lo) / 2;
            assert(r[mid as int].0 == self.entries@[mid as int].0);
            if self.entries[mid].0 < p {
                assert forall|i: int| 0 <= i < mid + 1 implies (#[trigger] r[i]).0 < p by {
                    if i < mid {
                        assert(r[i].0 < r[mid as int].0);
                    }
                }
                lo = mid + 1;
            } else {
                assert forall|i: int| mid <= i < r.len() implies (#[trigger] r[i]).0 >= p by {
                    if i > mid {
                        assert(r[mid as int].0 < r[i].0);
                    }
                }
                hi = mid;
            }
        }
        proof {
            lemma_count_at(r, p, lo as int);
        }
        lo
    }

    /// Adds a node at its positions.
    pub fn add_node(&mut self, node_id: &str)
        requires
            old(self).wf(),
            old(self).changes() < u64::MAX,
        ensures
            final(self).wf(),
            final(self)@ == ring_add(old(self)@, node_id@, old(self).slots()),
            final(self).slots() == old(self).slots(),
            final(self).changes() == old(self).changes() + 1,
    {
        let n: u32 = self.virtual_nodes;
        let ghost before = self@;
        for i in 0..n
            invariant
                n == old(self).virtual_nodes,
                n == self.virtual_nodes,
                self.version == old(self).version,
                before == old(self)@,
                ascending(before),
                slots_are_own(before, n),
                self@ == ring_add(before, node_id@, i),
                ascending(self@),
        {
            let pos: u64 = Self::position(node_id, i);
            let ghost r = self@;
            let k: usize = self.lower_bound(pos);
            let entry = (pos, node_id.to_string());
            if k < self.entries.len() && self.entries[k].0 == pos {
                self.entries.set(k, entry);
                assert(self@ =~= r.update(k as int, (pos, node_id@)));
            } else {
                self.entries.insert(k, entry);
                assert(self@ =~= r.insert(k as int, (pos, node_id@)));
            }
            proof {
                lemma_insert(r, pos, node_id@);
                assert(((i + 1) - 1) as u32 == i);
            }
        }
        proof {
            ring_stays_well_formed(before, node_id@, n, n);
        }
        self.version = self.version + 1;
    }

    /// Removes a node from its positions.
    pub fn remove_node(&mut self, node_id: &str)
        requires
            old(self).wf(),
            old(self).changes() < u64::MAX,
        ensures
            final(self).wf(),
            final(self)@ == ring_drop(old(self)@, node_id@, old(self).slots()),
            final(self).slots() == old(self).slots(),
            final(self).changes() == old(self).changes() + 1,
    {
        let n: u32 = self.virtual_nodes;
        let ghost before = self@;
        for i in 0..n
            invariant
                n == old(self).virtual_nodes,
                n == self.virtual_nodes,
                self.version == old(self).version,
                before == old(self)@,
                ascending(before),
                slots_are_own(before, n),
                self@ == ring_drop(before, node_id@, i),
                ascending(self@),
        {
            let pos: u64 = Self::position(node_id, i);
            let ghost r = self@;
            let k: usize = self.lower_bound(pos);
            if k < self.entries.len() && self.entries[k].0 == pos {
                self.entries.remove(k);
                assert(self@ =~= r.remove(k as int));
            }
            proof {
                lemma_remove(r, pos);
                assert(((i + 1) - 1) as u32 == i);
            }
        }
        proof {
            ring_stays_well_formed(before, node_id@, n, n);
        }
        self.version = self.version + 1;
    }

    /// The node that a shard belongs to; an error if the ring is empty.
    pub fn primary_for(&self, shard: ShardId) -> (out: Result<&str, ClusterError>)
        requires
            self.wf(),
        ensures
            match out {
                Ok(node) => self@.len() > 0 && node@ == owner(self@, shard.0),
                Err(e) => self@.len() == 0 && e is EmptyRing,
            },
    {
        if self.entries.len() == 0 {
            return Err(ClusterError::EmptyRing);
        }
        let k: usize = self.lower_bound(shard.0);
        let at: usize = if k < self.entries.len() {
            k
        } else {
            0
        };
        assert(walk(self@, shard.0)[0] == self@[at as int].1);
        Ok(self.entries[at].1.as_str())
    }

    /// The `count` nodes that hold a shard, its owner first; fewer if the ring has fewer.
    /// An error if the ring is empty.
    pub fn replica_nodes(&self, shard: ShardId, count: usize) -> (out: Result<
        Vec<&str>,
        ClusterError,
    >)
        requires
            self.wf(),
        ensures
            match out {
                Ok(nodes) => self@.len() > 0 && str_views(nodes@) == holders(
                    self@,
                    shard.0,
                    count as nat,
                ),
                Err(e) => self@.len() == 0 && e is EmptyRing,
            },
    {
        if self.entries.len() == 0 {
            return Err(ClusterError::EmptyRing);
        }
        let ghost w = walk(self@, shard.0);
        if count == 0 {
            let none: Vec<&str> = Vec::new();
            assert(str_views(none@) =~= holders(self@, shard.0, 0));
            return Ok(none);
        }
        let len: usize = self.entries.len();
        let start: usize = self.lower_bound(shard.0);
        let mut result: Vec<&str> = Vec::new();
        let mut seen: usize = 0;
        let mut at: usize = if start < len { start } else { 0 };
        assert(w.take(0) =~= Seq::empty());
        assert(str_views(result@) =~= Seq::empty());
        while seen < len
            invariant
                len == self.entries@.len(),
                start == count_below(self@, shard.0),
                start <= len,
                seen <= len,
                w == walk(self@, shard.0),
                w.len() == len,
                count > 0,
                seen < len ==> at < len && w[seen as int] == self@[at as int].1,
                seen < len ==> at == if start + seen < len { start + seen } else { start + seen - len },
                str_views(result@) == distinct(w.take(seen as int)),
                result@.len() < count,
            decreases len - seen,
        {
            let node: &str = self.entries[at].1.as_str();
            assert(w.take(seen + 1).drop_last() =~= w.take(seen as int));
            assert(w.take(seen + 1).last() == node@);
            let ghost before = str_views(result@);
            if !contains_str(&result, node) {
                result.push(node);
                assert(str_views(result@) =~= before.push(node@));
            }
            assert(str_views(result@) == distinct(w.take(seen + 1)));
            seen = seen + 1;
            if result.len() >= count {
                proof {
                    lemma_distinct_grows(w, seen as int);
                    let all = distinct(w);
                    let got = str_views(result@);
                    assert(got.len() == result@.len());
                    assert(got =~= all.take(count as int));
                    assert(holders(self@, shard.0, count as nat) =~= all.take(count as int));
                }
                return Ok(result);
            }
            at = if at + 1 < len {
                at + 1
            } else {
                0
            };
        }
        assert(w.take(len as int) =~= w);
        Ok(result)
    }

    /// How often the ring has changed.
    pub fn version(&self) -> (n: u64)
        ensures
            n == self.changes(),
    {
        self.version
    }

    /// Whether the ring has no position.
    pub fn is_empty(&self) -> (yes: bool)
        ensures
            yes == (self@.len() == 0),
    {
        self.entries.len() == 0
    }

    /// The number of nodes that have a position.
    pub fn node_count(&self) -> (n: usize)
        ensures
            n == distinct(walk(self@, 0)).len(),
    {
        let ghost w = walk(self@, 0);
        let mut names: Vec<&str> = Vec::new();
        proof {
            lemma_count_zero(self@);
            assert(self@.skip(0) + self@.take(0) =~= self@);
            assert(w.take(0) =~= Seq::empty());
            assert(str_views(names@) =~= Seq::empty());
        }
        for i in 0..self.entries.len()
            invariant
                w.len() == self.entries@.len(),
                forall|j: int| 0 <= j < w.len() ==> (#[trigger] w[j]) == self.entries@[j].1@,
                str_views(names@) == distinct(w.take(i as int)),
        {
            let node: &str = self.entries[i].1.as_str();
            assert(w.take(i + 1).drop_last() =~= w.take(i as int));
            assert(w.take(i + 1).last() == node@);
            let ghost before = str_views(names@);
            if !contains_str(&names, node) {
                names.push(node);
                assert(str_views(names@) =~= before.push(node@));
            }
        }
        assert(w.take(w.len() as int) =~= w);
        assert(str_views(names@).len() == names@.len());
        names.len()
    }
}

proof fn lemma_count_zero(r: Ring)
    ensures
        count_below(r, 0) == 0,
    decreases r.len(),
{
    if r.len() > 0 {
        lemma_count_zero(r.drop_last());
    }
}

/// What is distinct in a prefix is a prefix of what is distinct in the whole.
proof fn lemma_distinct_grows(s: Seq<Seq<char>>, n: int)
    requires
        0 <= n <= s.len(),
    ensures
        distinct(s.take(n)).len() <= distinct(s).len(),
        distinct(s.take(n)) == distinct(s).take(distinct(s.take(n)).len() as int),
    decreases s.len() - n,
{
    if n < s.len() {
        lemma_distinct_grows(s, n + 1);
        assert(s.take(n + 1).drop_last() =~= s.take(n));
        let a = distinct(s.take(n));
        let b = distinct(s.take(n + 1));
        assert(a =~= b.take(a.len() as int));
        assert(a =~= distinct(s).take(a.len() as int));
    } else {
        assert(s.take(n) =~= s);
        assert(distinct(s).take(distinct(s).len() as int) =~= distinct(s));
    }
}

/// The views of a list of string slices.
pub open spec fn str_views(v: Seq<&str>) -> Seq<Seq<char>> {
    v.map_values(|s: &str| s@)
}

fn contains_str(v: &Vec<&str>, s: &str) -> (found: bool)
    ensures
        found == str_views(v@).contains(s@),
{
    let ghost all = str_views(v@);
    for i in 0..v.len()
        invariant
            all == str_views(v@),
            forall|j: int| 0 <= j < i ==> (#[trigger] all[j]) != s@,
    {
        if str_eq(v[i], s) {
            assert(all[i as int] == s@);
            return true;
        }
        assert(all[i as int] != s@);
    }
    false
}

} // verus!
