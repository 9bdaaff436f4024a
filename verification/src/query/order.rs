//! Stable sorting of row numbers.

use vstd::prelude::*;

verus! {

/// An order of rows: whether one comes before another.
pub type Less = spec_fn(int, int) -> bool;

/// Whether `less` is an order of the rows `0..n`, in which rows may be equal: no row comes
/// before itself; what comes before a row comes before all that the row comes before; and
/// a row that comes before another comes before or behind any third.
pub open spec fn weak_order(less: Less, n: nat) -> bool {
    &&& forall|a: int| 0 <= a < n ==> !#[trigger] less(a, a)
    &&& forall|a: int, b: int, c: int|
        0 <= a < n && 0 <= b < n && 0 <= c < n && #[trigger] less(a, b) && #[trigger] less(b, c)
            ==> less(a, c)
    &&& forall|a: int, b: int, c: int|
        0 <= a < n && 0 <= b < n && 0 <= c < n && !#[trigger] less(a, b) && !#[trigger] less(b, c)
            ==> !less(a, c)
}

/// Rows that can be put in order.
pub trait RowOrder {
    /// The number of rows.
    spec fn size(&self) -> nat;

    /// The order of the rows.
    spec fn order(&self) -> Less;

    /// It is one.
    proof fn is_weak_order(&self)
        ensures
            weak_order(self.order(), self.size()),
    ;

    /// Whether row `a` comes before row `b`.
    fn is_less(&self, a: usize, b: usize) -> (yes: bool)
        requires
            a < self.size(),
            b < self.size(),
        ensures
            yes == (self.order())(a as int, b as int),
    ;
}

/// Whether row `a` comes before row `b` when equal rows keep their places.
pub open spec fn comes_before(less: Less, a: int, b: int) -> bool {
    less(a, b) || (!less(b, a) && a < b)
}

/// Whether `out` is the rows `lo..hi` in order, equal rows in their places.
pub open spec fn is_sorted_range(less: Less, out: Seq<usize>, lo: int, hi: int) -> bool {
    &&& out.len() == hi - lo
    &&& forall|i: int| 0 <= i < out.len() ==> lo <= #[trigger] out[i] < hi
    &&& forall|r: usize| lo <= r < hi ==> #[trigger] out.contains(r)
    &&& forall|i: int, j: int|
        0 <= i < j < out.len() ==> comes_before(
            less,
            #[trigger] out[i] as int,
            #[trigger] out[j] as int,
        )
}

/// The rows `0..n` in order, equal rows in their places.
pub open spec fn sorted_rows(less: Less, n: nat) -> Seq<usize> {
    choose|out: Seq<usize>| is_sorted_range(less, out, 0, n as int)
}

/// There is only one way to put rows in order with equal rows in their places.
pub proof fn sorted_range_is_unique(
    less: Less,
    n: nat,
    a: Seq<usize>,
    b: Seq<usize>,
    lo: int,
    hi: int,
)
    requires
        weak_order(less, n),
        0 <= lo <= hi <= n,
        is_sorted_range(less, a, lo, hi),
        is_sorted_range(less, b, lo, hi),
    ensures
        a == b,
{
    lemma_same_prefix(less, n, a, b, lo, hi, a.len() as int);
    assert(a =~= b);
}

proof fn lemma_same_prefix(
    less: Less,
    size: nat,
    a: Seq<usize>,
    b: Seq<usize>,
    lo: int,
    hi: int,
    n: int,
)
    requires
        weak_order(less, size),
        0 <= lo <= hi <= size,
        is_sorted_range(less, a, lo, hi),
        is_sorted_range(less, b, lo, hi),
        0 <= n <= a.len(),
    ensures
        forall|j: int| 0 <= j < n ==> #[trigger] a[j] == b[j],
    decreases n,
{
    if n > 0 {
        let k = n - 1;
        lemma_same_prefix(less, size, a, b, lo, hi, k);
        assert(b.contains(a[k]));
        let m = choose|m: int| 0 <= m < b.len() && b[m] == a[k];
        assert(a.contains(b[k]));
        let n = choose|n: int| 0 <= n < a.len() && a[n] == b[k];
        if m < k {
            assert(a[m] == b[m]);
            assert(comes_before(less, a[m] as int, a[k] as int));
        } else if n < k {
            assert(a[n] == b[n]);
            assert(comes_before(less, b[n] as int, b[k] as int));
        } else if a[k] != b[k] {
            assert(comes_before(less, b[k] as int, b[m] as int));
            assert(comes_before(less, a[k] as int, a[n] as int));
        }
    }
}

proof fn lemma_before_chains(less: Less, n: nat, a: int, b: int, c: int)
    requires
        weak_order(less, n),
        0 <= a < n,
        0 <= b < n,
        0 <= c < n,
        comes_before(less, a, b),
        comes_before(less, b, c),
    ensures
        comes_before(less, a, c),
{
    assert(!less(b, a)) by {
        if less(b, a) && less(a, b) {
            assert(less(a, a));
        }
    }
    assert(!less(c, b)) by {
        if less(c, b) && less(b, c) {
            assert(less(b, b));
        }
    }
    assert(!less(c, a));
    if !less(a, c) {
        if less(a, b) {
            assert(!less(a, b));
        }
        if less(b, c) {
            assert(!less(b, c));
        }
    }
}

/// Puts two sorted lists together, of which the first has the smaller row numbers.
fn merge<O: RowOrder>(o: &O, left: &Vec<usize>, right: &Vec<usize>, Ghost(lo): Ghost<int>, Ghost(mid): Ghost<int>, Ghost(hi): Ghost<int>) -> (out: Vec<usize>)
    requires
        0 <= lo <= mid <= hi <= o.size(),
        hi <= usize::MAX,
        is_sorted_range(o.order(), left@, lo, mid),
        is_sorted_range(o.order(), right@, mid, hi),
    ensures
        is_sorted_range(o.order(), out@, lo, hi),
{
    let mut out: Vec<usize> = Vec::new();
    let mut i: usize = 0;
    let mut j: usize = 0;
    let n: usize = left.len();
    let m: usize = right.len();
    proof {
        o.is_weak_order();
    }
    while i < n || j < m
        invariant
            0 <= lo <= mid <= hi <= o.size(),
            hi <= usize::MAX,
            is_sorted_range(o.order(), left@, lo, mid),
            is_sorted_range(o.order(), right@, mid, hi),
            n == left@.len(),
            m == right@.len(),
            i <= n,
            j <= m,
            out@.len() == i + j,
            forall|k: int| 0 <= k < out@.len() ==> lo <= #[trigger] out@[k] < hi,
            forall|k: int| 0 <= k < i ==> out@.contains(#[trigger] left@[k]),
            forall|k: int| 0 <= k < j ==> out@.contains(#[trigger] right@[k]),
            forall|k: int, l: int|
                0 <= k < l < out@.len() ==> comes_before(
                    o.order(),
                    #[trigger] out@[k] as int,
                    #[trigger] out@[l] as int,
                ),
            forall|k: int, l: int|
                0 <= k < out@.len() && i <= l < n ==> comes_before(
                    o.order(),
                    #[trigger] out@[k] as int,
                    #[trigger] left@[l] as int,
                ),
            forall|k: int, l: int|
                0 <= k < out@.len() && j <= l < m ==> comes_before(
                    o.order(),
                    #[trigger] out@[k] as int,
                    #[trigger] right@[l] as int,
                ),
        decreases n + m - i - j,
    {
        let from_right: bool = if i < n && j < m {
            o.is_less(right[j], left[i])
        } else {
            j < m
        };
        let ghost before = out@;
        let ghost next = if from_right { right@[j as int] } else { left@[i as int] };
        proof {
            o.is_weak_order();
            assert forall|l: int| (if from_right { i as int } else { i + 1 }) <= l < n implies comes_before(
                o.order(),
                next as int,
                #[trigger] left@[l] as int,
            ) by {
                if from_right {
                    assert(comes_before(o.order(), next as int, left@[i as int] as int));
                    if l > i {
                        lemma_before_chains(
                            o.order(),
                            o.size(),
                            next as int,
                            left@[i as int] as int,
                            left@[l] as int,
                        );
                    }
                }
            }
            assert forall|l: int| (if from_right { j + 1 } else { j as int }) <= l < m implies comes_before(
                o.order(),
                next as int,
                #[trigger] right@[l] as int,
            ) by {
                if !from_right {
                    assert(next < right@[j as int]);
                    assert(comes_before(o.order(), next as int, right@[j as int] as int));
                    if l > j {
                        lemma_before_chains(
                            o.order(),
                            o.size(),
                            next as int,
                            right@[j as int] as int,
                            right@[l] as int,
                        );
                    }
                }
            }
        }
        if from_right {
            out.push(right[j]);
            j = j + 1;
        } else {
            out.push(left[i]);
            i = i + 1;
        }
        proof {
            assert(out@ == before.push(next));
            assert(out@[before.len() as int] == next);
            assert forall|k: int| 0 <= k < i implies out@.contains(#[trigger] left@[k]) by {
                if before.contains(left@[k]) {
                    let q = choose|q: int| 0 <= q < before.len() && before[q] == left@[k];
                    assert(out@[q] == left@[k]);
                } else {
                    assert(left@[k] == next);
                }
            }
            assert forall|k: int| 0 <= k < j implies out@.contains(#[trigger] right@[k]) by {
                if before.contains(right@[k]) {
                    let q = choose|q: int| 0 <= q < before.len() && before[q] == right@[k];
                    assert(out@[q] == right@[k]);
                } else {
                    assert(right@[k] == next);
                }
            }
        }
    }
    assert forall|r: usize| lo <= r < hi implies #[trigger] out@.contains(r) by {
        if r < mid {
            assert(left@.contains(r));
            let k = choose|k: int| 0 <= k < left@.len() && left@[k] == r;
            assert(out@.contains(left@[k]));
        } else {
            assert(right@.contains(r));
            let k = choose|k: int| 0 <= k < right@.len() && right@[k] == r;
            assert(out@.contains(right@[k]));
        }
    }
    out
}

/// Puts the rows `lo..hi` in order, equal rows in their places.
fn sort_range<O: RowOrder>(o: &O, lo: usize, hi: usize) -> (out: Vec<usize>)
    requires
        lo <= hi <= o.size(),
    ensures
        is_sorted_range(o.order(), out@, lo as int, hi as int),
    decreases hi - lo,
{
    if hi - lo <= 1 {
        let mut out: Vec<usize> = Vec::new();
        if lo < hi {
            out.push(lo);
            assert(out@[0] == lo);
        }
        return out;
    }
    let mid: usize = lo + (hi - lo) / 2;
    let left = sort_range(o, lo, mid);
    let right = sort_range(o, mid, hi);
    merge(o, &left, &right, Ghost(lo as int), Ghost(mid as int), Ghost(hi as int))
}

/// Puts the rows `0..n` in order, equal rows in their places.
pub fn sort_rows<O: RowOrder>(o: &O, n: usize) -> (out: Vec<usize>)
    requires
        n == o.size(),
    ensures
        out@ == sorted_rows(o.order(), n as nat),
        is_sorted_range(o.order(), out@, 0, n as int),
{
    let out = sort_range(o, 0, n);
    proof {
        o.is_weak_order();
        sorted_range_is_unique(
            o.order(),
            n as nat,
            out@,
            sorted_rows(o.order(), n as nat),
            0,
            n as int,
        );
    }
    out
}

/// Rows can be put in order.
pub proof fn sorted_rows_exist(less: Less, n: nat)
    requires
        weak_order(less, n),
        n <= usize::MAX,
    ensures
        is_sorted_range(less, sorted_rows(less, n), 0, n as int),
{
    lemma_sorted_exists(less, n, n);
    let out = choose|out: Seq<usize>| is_sorted_range(less, out, 0, n as int);
    assert(is_sorted_range(less, out, 0, n as int));
}

proof fn lemma_first_behind(less: Less, out: Seq<usize>, r: int, k: int)
    requires
        0 <= k <= out.len(),
        forall|i: int| 0 <= i < k ==> !less(r, #[trigger] out[i] as int),
    ensures
        exists|m: int|
            #![trigger is_place(less, out, r, m)]
            is_place(less, out, r, m),
    decreases out.len() - k,
{
    if k < out.len() && !less(r, out[k] as int) {
        lemma_first_behind(less, out, r, k + 1);
    } else {
        assert(is_place(less, out, r, k));
    }
}

/// Whether `m` is the place of the first row that row `r` comes before, or the end.
spec fn is_place(less: Less, out: Seq<usize>, r: int, m: int) -> bool {
    &&& 0 <= m <= out.len()
    &&& forall|i: int| 0 <= i < m ==> !less(r, #[trigger] out[i] as int)
    &&& m < out.len() ==> less(r, out[m] as int)
}

proof fn lemma_sorted_exists(less: Less, size: nat, n: nat)
    requires
        weak_order(less, size),
        n <= size <= usize::MAX,
    ensures
        exists|out: Seq<usize>| #[trigger] is_sorted_range(less, out, 0, n as int),
    decreases n,
{
    if n == 0 {
        assert(is_sorted_range(less, Seq::<usize>::empty(), 0, 0));
    } else {
        let r = n - 1;
        lemma_sorted_exists(less, size, r as nat);
        let front = choose|out: Seq<usize>| #[trigger] is_sorted_range(less, out, 0, r);
        lemma_first_behind(less, front, r, 0);
        let m = choose|m: int|
            #![trigger is_place(less, front, r, m)]
            is_place(less, front, r, m);
        let out = front.insert(m, r as usize);
        assert forall|x: usize| 0 <= x < n implies #[trigger] out.contains(x) by {
            if x < r {
                assert(front.contains(x));
                let i = choose|i: int| 0 <= i < front.len() && front[i] == x;
                assert(out[if i < m { i } else { i + 1 }] == x);
            } else {
                assert(out[m] == x);
            }
        }
        assert forall|i: int| 0 <= i < out.len() implies 0 <= #[trigger] out[i] < n by {
            if i < m {
                assert(out[i] == front[i]);
            } else if i > m {
                assert(out[i] == front[i - 1]);
            }
        }
        assert forall|i: int, j: int| 0 <= i < j < out.len() implies comes_before(
            less,
            #[trigger] out[i] as int,
            #[trigger] out[j] as int,
        ) by {
            let a = if i < m { i } else { i - 1 };
            let b = if j < m { j } else { j - 1 };
            if i != m && j != m {
                assert(out[i] == front[a] && out[j] == front[b]);
                assert(comes_before(less, front[a] as int, front[b] as int));
            } else if j == m {
                assert(out[i] == front[i]);
                assert(!less(r, front[i] as int));
            } else {
                assert(out[j] == front[b]);
                if b > m {
                    assert(comes_before(less, front[m] as int, front[b] as int));
                    lemma_before_chains(less, size, r, front[m] as int, front[b] as int);
                }
            }
        }
        assert(is_sorted_range(less, out, 0, n as int));
    }
}

} // verus!
