//! Lists that are put together from others.

use vstd::prelude::*;

verus! {

/// How much the first `n` items count together.
pub open spec fn total<T>(a: Seq<T>, count: spec_fn(T) -> nat, n: nat) -> nat
    decreases n,
{
    if n == 0 {
        0
    } else {
        total(a, count, (n - 1) as nat) + count(a[n - 1])
    }
}

/// Whether the `n`th item adds its own list at the end.
pub open spec fn adds<T, R>(
    a: Seq<T>,
    all: spec_fn(nat) -> Seq<R>,
    own: spec_fn(T) -> Seq<R>,
    count: spec_fn(T) -> nat,
    n: nat,
) -> bool {
    &&& all(n) == all((n - 1) as nat) + own(a[n - 1])
    &&& own(a[n - 1]).len() == count(a[n - 1])
}

/// Where each item in turn adds its own list, the whole is as long as all of them, and each
/// item of a list stands behind all lists before it.
pub proof fn lists_stand_in_order<T, R>(
    a: Seq<T>,
    all: spec_fn(nat) -> Seq<R>,
    own: spec_fn(T) -> Seq<R>,
    count: spec_fn(T) -> nat,
    n: nat,
    i: int,
    j: int,
)
    requires
        n <= a.len(),
        all(0).len() == 0,
        forall|m: nat| 0 < m <= n ==> #[trigger] adds(a, all, own, count, m),
    ensures
        all(n).len() == total(a, count, n),
        0 <= i < n && 0 <= j < count(a[i]) ==> total(a, count, i as nat) + j < all(n).len()
            && all(n)[total(a, count, i as nat) + j] == own(a[i])[j],
    decreases n,
{
    if n > 0 {
        lists_stand_in_order(a, all, own, count, (n - 1) as nat, i, j);
        assert(adds(a, all, own, count, n));
    }
}

} // verus!
