//! What the functions over time and numbers give.

use crate::columnar::column::{col_len, ColumnModel};
use crate::float::{
    exponent, float_less, float_result, fraction, is_nan, nearest, pow2, real_key, signed_bits,
    unsigned_bits, FloatOp, BILLION, INFINITY, ONE, SIGN,
};
use crate::query::functions::temporal::{
    bucket_holds_timestamp, delta_of, has_nan, in_unit, number_order, numbers_of, quantile_of,
    quantile_place, quantile_value, rate_of, time_bucket_of,
};
use crate::query::order::{sorted_rows, sorted_rows_exist, weak_order};
use vstd::prelude::*;

verus! {

// ── Rounding ────────────────────────────────────────────────────────────────

proof fn lemma_pow2_positive(n: nat)
    ensures
        pow2(n) > 0,
    decreases n,
{
    if n > 0 {
        lemma_pow2_positive((n - 1) as nat);
    }
}

proof fn lemma_pow2_adds(a: nat, b: nat)
    ensures
        pow2(a + b) == pow2(a) * pow2(b),
    decreases a,
{
    if a > 0 {
        lemma_pow2_adds((a - 1) as nat, b);
        let x = pow2((a - 1) as nat) as int;
        let y = pow2(b) as int;
        assert((2 * x) * y == 2 * (x * y)) by (nonlinear_arith);
        assert(((a + b) - 1) as nat == (a - 1) as nat + b);
    } else {
        assert(1 * pow2(b) == pow2(b)) by (nonlinear_arith);
    }
}

/// The number of units of 2 to the power of -1074 that a finite value without sign is of.
pub open spec fn units(b: u64) -> nat {
    fraction(b) * pow2((exponent(b) - 1) as nat)
}

/// The number of such units in 1.
pub open spec fn unit() -> nat {
    pow2(1074)
}

/// Rounding gives the whole number nearest to a value without sign, a half being rounded up:
/// it is at most a half above and less than a half below. A number that does not fit in 64
/// bits gives the greatest.
pub proof fn nearest_is_nearest(b: u64)
    requires
        b < INFINITY,
    ensures
        nearest(b) == u64::MAX || {
            let n = nearest(b) as int;
            2 * n * unit() <= 2 * units(b) + unit() && 2 * units(b) + unit() < 2 * (n + 1) * unit()
        },
{
    let m = fraction(b) as int;
    let e = exponent(b);
    lemma_pow2_positive(1074);
    lemma_pow2_positive((e - 1) as nat);
    let s = pow2((e - 1) as nat) as int;
    let u = unit() as int;
    if e >= 1075 {
        let k = pow2((e - 1075) as nat) as int;
        lemma_pow2_adds(1074, (e - 1075) as nat);
        assert(s == u * k);
        if nearest(b) != u64::MAX {
            let n = nearest(b) as int;
            assert(n == m * k);
            assert(m * (u * k) == (m * k) * u) by (nonlinear_arith);
            assert(2 * n * u <= 2 * (n * u) + u && 2 * (n * u) + u < 2 * (n + 1) * u)
                by (nonlinear_arith)
                requires
                    u > 0,
            ;
        }
    } else {
        let h = pow2((1074 - e) as nat) as int;
        let d = pow2((1075 - e) as nat) as int;
        lemma_pow2_positive((1074 - e) as nat);
        assert(d == 2 * h);
        lemma_pow2_adds((e - 1) as nat, (1075 - e) as nat);
        assert(((e - 1) as nat + (1075 - e) as nat) as nat == 1074);
        assert(u == s * d);
        let n = (m + h) / d;
        vstd::arithmetic::div_mod::lemma_fundamental_div_mod(m + h, d);
        let r = (m + h) % d;
        assert(m + h == d * n + r && 0 <= r < d);
        assert(n >= 0) by (nonlinear_arith)
            requires
                m + h == d * n + r,
                0 <= r < d,
                m >= 0,
                h > 0,
        ;
        if nearest(b) != u64::MAX {
            assert(nearest(b) == n);
            assert(2 * n * (s * d) <= 2 * (m * s) + s * d && 2 * (m * s) + s * d < 2 * (n + 1) * (s
                * d)) by (nonlinear_arith)
                requires
                    d == 2 * h,
                    m + h == d * n + r,
                    0 <= r < d,
                    s > 0,
            ;
        }
    }
}

proof fn lemma_units_grow(a: u64, b: u64)
    requires
        a <= b < INFINITY,
    ensures
        units(a) <= units(b),
{
    let x = a as int;
    let y = b as int;
    let c = 0x10_0000_0000_0000int;
    let ea = exponent(a);
    let eb = exponent(b);
    vstd::arithmetic::div_mod::lemma_fundamental_div_mod(x, c);
    vstd::arithmetic::div_mod::lemma_fundamental_div_mod(y, c);
    assert(x / c <= y / c) by {
        vstd::arithmetic::div_mod::lemma_div_is_ordered(x, y, c);
    }
    let s = pow2((ea - 1) as nat) as int;
    lemma_pow2_positive((ea - 1) as nat);
    let m = fraction(a) as int;
    let n = fraction(b) as int;
    if ea == eb {
        assert(m <= n);
        assert(m * s <= n * s) by (nonlinear_arith)
            requires
                m <= n,
                s > 0,
        ;
    } else {
        let k = (eb - ea) as nat;
        lemma_pow2_adds((ea - 1) as nat, k);
        lemma_pow2_positive((k - 1) as nat);
        let t = pow2(k) as int;
        assert(t == 2 * pow2((k - 1) as nat));
        assert(t >= 2);
        assert(((ea - 1) as nat + k) as nat == (eb - 1) as nat);
        assert(m < 2 * c && n >= c);
        assert(m * s <= n * (s * t)) by (nonlinear_arith)
            requires
                0 <= m < 2 * c,
                n >= c,
                t >= 2,
                s > 0,
                c > 0,
        ;
    }
}

/// A greater value is never rounded to a smaller number.
pub proof fn nearest_grows(a: u64, b: u64)
    requires
        !is_nan(a),
        !is_nan(b),
        real_key(a) <= real_key(b),
    ensures
        nearest(a) <= nearest(b),
{
    if a < SIGN && b < SIGN && b < INFINITY && nearest(b) != u64::MAX {
        nearest_is_nearest(b);
        lemma_pow2_positive(1074);
        lemma_units_grow(a, b);
        let u = unit() as int;
        let n = nearest(b) as int;
        let x = units(a) as int;
        let y = units(b) as int;
        if nearest(a) == u64::MAX {
            lemma_greatest_is_large(a);
            let top = u64::MAX as int;
            assert(false) by (nonlinear_arith)
                requires
                    2 * x + u >= 2 * top * u,
                    2 * y + u < 2 * (n + 1) * u,
                    x <= y,
                    n < top,
                    u > 0,
            ;
        } else {
            nearest_is_nearest(a);
            let k = nearest(a) as int;
            assert(k <= n) by (nonlinear_arith)
                requires
                    2 * k * u <= 2 * x + u,
                    2 * y + u < 2 * (n + 1) * u,
                    x <= y,
                    u > 0,
            ;
        }
    } else if a < SIGN && b >= SIGN {
        assert(a == 0);
        lemma_pow2_positive(1073);
        let h = pow2(1073) as int;
        assert(pow2(1074) == 2 * h);
        assert(h / (2 * h) == 0) by (nonlinear_arith)
            requires
                h > 0,
        ;
        assert(nearest(0) == 0);
    }
}

proof fn lemma_greatest_is_large(b: u64)
    requires
        b < INFINITY,
        nearest(b) == u64::MAX,
    ensures
        2 * units(b) + unit() >= 2 * u64::MAX * unit(),
{
    let m = fraction(b) as int;
    let e = exponent(b);
    lemma_pow2_positive(1074);
    lemma_pow2_positive((e - 1) as nat);
    let s = pow2((e - 1) as nat) as int;
    let u = unit() as int;
    let top = u64::MAX as int;
    if e >= 1075 {
        let k = pow2((e - 1075) as nat) as int;
        lemma_pow2_adds(1074, (e - 1075) as nat);
        let n = m * k;
        assert(m * (u * k) == n * u) by (nonlinear_arith)
            requires
                n == m * k,
        ;
        assert(n * u >= top * u) by (nonlinear_arith)
            requires
                n >= top,
                u > 0,
        ;
        assert(2 * top * u == 2 * (top * u)) by (nonlinear_arith);
    } else {
        let h = pow2((1074 - e) as nat) as int;
        let d = pow2((1075 - e) as nat) as int;
        lemma_pow2_positive((1074 - e) as nat);
        lemma_pow2_adds((e - 1) as nat, (1075 - e) as nat);
        assert(((e - 1) as nat + (1075 - e) as nat) as nat == 1074);
        let n = (m + h) / d;
        vstd::arithmetic::div_mod::lemma_fundamental_div_mod(m + h, d);
        let r = (m + h) % d;
        assert(2 * (m * s) + s * d >= 2 * top * (s * d)) by (nonlinear_arith)
            requires
                d == 2 * h,
                m + h == d * n + r,
                0 <= r < d,
                s > 0,
                n >= top,
                h > 0,
        ;
    }
}

// ── Quantiles ───────────────────────────────────────────────────────────────

/// The places of the numbers of a list that are not greater than one.
pub open spec fn not_greater(v: Seq<u64>, x: u64) -> Set<usize> {
    Set::new(|i: usize| i < v.len() && !float_less(x, v[i as int]))
}

/// The places of the numbers of a list that are not less than one.
pub open spec fn not_less(v: Seq<u64>, x: u64) -> Set<usize> {
    Set::new(|i: usize| i < v.len() && !float_less(v[i as int], x))
}

proof fn lemma_places_finite(s: Set<usize>, n: nat)
    requires
        forall|i: usize| s.contains(i) ==> i < n,
    ensures
        s.finite(),
    decreases n,
{
    if n == 0 {
        assert(s =~= Set::empty());
    } else {
        let last = (n - 1) as usize;
        let rest = s.remove(last);
        if n - 1 > usize::MAX {
            lemma_places_finite(s, (n - 1) as nat);
        } else {
            lemma_places_finite(rest, (n - 1) as nat);
            assert(s =~= rest || s =~= rest.insert(last));
        }
    }
}

proof fn lemma_number_order(v: Seq<u64>)
    ensures
        weak_order(number_order(v), v.len()),
{
}

proof fn lemma_at_least(part: Seq<usize>, s: Set<usize>, n: nat)
    requires
        part.no_duplicates(),
        forall|i: int| 0 <= i < part.len() ==> s.contains(#[trigger] part[i]),
        forall|i: usize| s.contains(i) ==> i < n,
    ensures
        s.len() >= part.len(),
{
    lemma_places_finite(s, n);
    part.unique_seq_to_set();
    assert(part.to_set().subset_of(s));
    vstd::set_lib::lemma_len_subset(part.to_set(), s);
}

/// Taken at place `k` of the numbers in ascending order, a value is one of them; at least
/// `k + 1` are not greater, and at least as many as stand from there on are not less.
proof fn lemma_value_at(v: Seq<u64>, k: int)
    requires
        !has_nan(v),
        0 <= k < v.len() <= usize::MAX,
    ensures
        ({
            let x = v[sorted_rows(number_order(v), v.len())[k] as int];
            &&& v.contains(x)
            &&& not_greater(v, x).len() >= k + 1
            &&& not_less(v, x).len() >= v.len() - k
        }),
{
    let less = number_order(v);
    let n = v.len();
    lemma_number_order(v);
    sorted_rows_exist(less, n);
    let rows = sorted_rows(less, n);
    let x = v[rows[k] as int];
    assert(0 <= rows[k] < n);
    assert(rows.no_duplicates()) by {
        assert forall|i: int, j: int| 0 <= i < rows.len() && 0 <= j < rows.len() && i != j implies
            rows[i] != rows[j] by {
            if i < j {
                assert(crate::query::order::comes_before(less, rows[i] as int, rows[j] as int));
            } else {
                assert(crate::query::order::comes_before(less, rows[j] as int, rows[i] as int));
            }
        }
    }
    let low = rows.take(k + 1);
    let high = rows.skip(k);
    assert forall|i: int| 0 <= i < low.len() implies not_greater(v, x).contains(#[trigger] low[i]) by {
        assert(low[i] == rows[i]);
        if i < k {
            assert(crate::query::order::comes_before(less, rows[i] as int, rows[k] as int));
        }
    }
    assert forall|i: int| 0 <= i < high.len() implies not_less(v, x).contains(#[trigger] high[i]) by {
        assert(high[i] == rows[k + i]);
        if i > 0 {
            assert(crate::query::order::comes_before(less, rows[k] as int, rows[k + i] as int));
        }
    }
    lemma_at_least(low, not_greater(v, x), n);
    lemma_at_least(high, not_less(v, x), n);
}

/// The product of a quantile and the last place of `n` numbers.
pub open spec fn quantile_product(q: u64, n: nat) -> u64 {
    float_result(
        FloatOp::Times,
        q,
        float_result(FloatOp::Minus, unsigned_bits(n as u64), ONE),
    )
}

/// The quantile of a column of numbers stands in every row. It is the number at place `k` of
/// the numbers in ascending order, where `k` is the whole number nearest to the product of
/// the quantile and the last place, or the last place: one of the numbers, with at least
/// `k + 1` of them not greater and at least `n - k` not less.
pub proof fn quantile_stands_at_its_place(q: u64, values: ColumnModel, k: int)
    requires
        in_unit(q),
        numbers_of(values) matches Some(v) && 0 < v.len() <= usize::MAX && !has_nan(v),
        ({
            let last = numbers_of(values)->Some_0.len() - 1;
            let p = nearest(quantile_product(q, numbers_of(values)->Some_0.len()));
            k == p <= last || k == last <= p
        }),
    ensures
        quantile_of(q, values) matches Ok(ColumnModel::Float64(c)) && c.values.len() == col_len(
            values,
        ) && forall|i: int|
            0 <= i < c.values.len() ==> {
                let v = numbers_of(values)->Some_0;
                let x = #[trigger] c.values[i];
                &&& c.valid[i]
                &&& v.contains(x)
                &&& not_greater(v, x).len() >= k + 1
                &&& not_less(v, x).len() >= v.len() - k
            },
{
    lemma_value_at(numbers_of(values)->Some_0, k);
}

/// Where the product is zero or below, the quantile is the least number; where it is at the
/// last place or beyond, the greatest.
pub proof fn quantile_ends(q: u64, v: Seq<u64>)
    requires
        0 < v.len() <= usize::MAX,
        !has_nan(v),
    ensures
        ({
            let p = nearest(quantile_product(q, v.len()));
            let x = quantile_value(q, v);
            &&& v.contains(x)
            &&& p == 0 ==> forall|i: int| 0 <= i < v.len() ==> !float_less(#[trigger] v[i], x)
            &&& p >= v.len() - 1 ==> forall|i: int|
                0 <= i < v.len() ==> !float_less(x, #[trigger] v[i])
        }),
{
    let n = v.len();
    let k = quantile_place(q, n);
    let x = quantile_value(q, v);
    lemma_value_at(v, k);
    if nearest(quantile_product(q, n)) == 0 {
        assert(k == 0);
        assert forall|i: int| 0 <= i < v.len() implies !float_less(#[trigger] v[i], x) by {
            lemma_whole(not_less(v, x), n, i as usize);
        }
    }
    if nearest(quantile_product(q, n)) >= n - 1 {
        assert(k == n - 1);
        assert forall|i: int| 0 <= i < v.len() implies !float_less(x, #[trigger] v[i]) by {
            lemma_whole(not_greater(v, x), n, i as usize);
        }
    }
}

proof fn lemma_all_places(n: nat)
    requires
        n <= usize::MAX,
    ensures
        Set::new(|i: usize| i < n).finite(),
        Set::new(|i: usize| i < n).len() == n,
    decreases n,
{
    let all = Set::new(|i: usize| i < n);
    lemma_places_finite(all, n);
    if n == 0 {
        assert(all =~= Set::empty());
    } else {
        let m = (n - 1) as nat;
        lemma_all_places(m);
        assert(all =~= Set::new(|i: usize| i < m).insert(m as usize));
    }
}

proof fn lemma_whole(s: Set<usize>, n: nat, i: usize)
    requires
        forall|j: usize| s.contains(j) ==> j < n,
        s.len() >= n,
        i < n,
        n <= usize::MAX,
    ensures
        s.contains(i),
{
    lemma_places_finite(s, n);
    lemma_all_places(n);
    let all = Set::new(|j: usize| j < n);
    if !s.contains(i) {
        assert(s.subset_of(all.remove(i)));
        vstd::set_lib::lemma_len_subset(s, all.remove(i));
    }
}

/// A quantile whose product is greater never gives a smaller number.
pub proof fn quantiles_grow(p: u64, q: u64, v: Seq<u64>)
    requires
        0 < v.len() <= usize::MAX,
        !has_nan(v),
        !is_nan(quantile_product(p, v.len())),
        !is_nan(quantile_product(q, v.len())),
        real_key(quantile_product(p, v.len())) <= real_key(quantile_product(q, v.len())),
    ensures
        !float_less(quantile_value(q, v), quantile_value(p, v)),
        quantile_place(p, v.len()) <= quantile_place(q, v.len()),
{
    nearest_grows(quantile_product(p, v.len()), quantile_product(q, v.len()));
    let less = number_order(v);
    lemma_number_order(v);
    sorted_rows_exist(less, v.len());
    let rows = sorted_rows(less, v.len());
    let a = quantile_place(p, v.len());
    let b = quantile_place(q, v.len());
    if a < b {
        assert(crate::query::order::comes_before(less, rows[a] as int, rows[b] as int));
    }
}

// ── Numbers of columns ──────────────────────────────────────────────────────

/// The numbers that quantiles and differences are of: one for each row of a column of
/// numbers, and no list of another column.
pub proof fn columns_have_their_numbers(c: ColumnModel, i: int)
    ensures
        match c {
            ColumnModel::Float64(a) => numbers_of(c) matches Some(v) && v.len() == a.values.len() && (0
                <= i < v.len() ==> v[i] == a.values[i]),
            ColumnModel::Int64(a) => numbers_of(c) matches Some(v) && v.len() == a.values.len() && (0
                <= i < v.len() ==> v[i] == signed_bits(a.values[i])),
            ColumnModel::UInt64(a) => numbers_of(c) matches Some(v) && v.len() == a.values.len() && (0
                <= i < v.len() ==> v[i] == unsigned_bits(a.values[i])),
            _ => numbers_of(c) is None,
        },
{
}

/// A difference is the last number less the first, in every row. It does not depend on any
/// number between them.
pub proof fn delta_is_last_less_first(a: ColumnModel, i: int)
    requires
        numbers_of(a) matches Some(v) && v.len() > 0,
        0 <= i < col_len(a),
    ensures
        delta_of(a) matches Ok(ColumnModel::Float64(c)) && c.values.len() == col_len(a) && c.valid[i]
            && c.values[i] == float_result(
            FloatOp::Minus,
            numbers_of(a)->Some_0[numbers_of(a)->Some_0.len() - 1],
            numbers_of(a)->Some_0[0],
        ),
{
}

/// A rate is the number of rows by the length of the window in seconds, in every row, and
/// what the rows hold does not matter.
pub proof fn rate_is_rows_by_seconds(a: ColumnModel, b: ColumnModel, window_ns: i64, i: int)
    requires
        window_ns > 0,
        col_len(a) == col_len(b),
        0 <= i < col_len(a),
    ensures
        rate_of(a, window_ns) == rate_of(b, window_ns),
        rate_of(a, window_ns) matches Ok(ColumnModel::Float64(c)) && c.values.len() == col_len(a)
            && c.valid[i] && c.values[i] == float_result(
            FloatOp::Over,
            unsigned_bits(col_len(a) as u64),
            float_result(FloatOp::Over, signed_bits(window_ns), BILLION),
        ),
{
}

/// The bucket of a time starts at a multiple of the width, not after the time and less than
/// the width before it.
pub proof fn buckets_hold_their_times(width_ns: i64, ts: ColumnModel, i: int)
    requires
        width_ns > 0,
        ts is UInt64,
        0 <= i < ts->UInt64_0.values.len(),
    ensures
        time_bucket_of(width_ns, ts) matches Ok(ColumnModel::UInt64(c)) && c.values.len()
            == ts->UInt64_0.values.len() && c.valid[i] && c.values[i] <= ts->UInt64_0.values[i]
            < c.values[i] + width_ns && c.values[i] as int % width_ns as int == 0,
{
    bucket_holds_timestamp(width_ns, ts->UInt64_0.values[i]);
}

/// The values without sign are those of their units: 0 has none, 1 has as many as there are
/// in 1, and a value with greater bits has more.
pub proof fn values_grow_with_their_bits(a: u64, b: u64)
    requires
        a < b < INFINITY,
    ensures
        units(0) == 0,
        units(ONE) == unit(),
        units(a) < units(b),
{
    assert(fraction(0) == 0);
    assert(0 * pow2((exponent(0) - 1) as nat) == 0) by (nonlinear_arith);
    lemma_pow2_adds(52, 1022);
    reveal_with_fuel(pow2, 53);
    assert(pow2(52) == 0x10_0000_0000_0000);
    assert(fraction(ONE) == 0x10_0000_0000_0000 && exponent(ONE) == 1023) by {
        assert(ONE % 0x10_0000_0000_0000 == 0);
        assert(ONE / 0x10_0000_0000_0000 == 1023);
    }
    lemma_units_grow(a, b);
    let c = 0x10_0000_0000_0000int;
    let ea = exponent(a);
    let eb = exponent(b);
    vstd::arithmetic::div_mod::lemma_fundamental_div_mod(a as int, c);
    vstd::arithmetic::div_mod::lemma_fundamental_div_mod(b as int, c);
    vstd::arithmetic::div_mod::lemma_div_is_ordered(a as int, b as int, c);
    let s = pow2((ea - 1) as nat) as int;
    lemma_pow2_positive((ea - 1) as nat);
    let m = fraction(a) as int;
    let n = fraction(b) as int;
    if ea == eb {
        assert(m < n);
        assert(m * s < n * s) by (nonlinear_arith)
            requires
                m < n,
                s > 0,
        ;
    } else {
        let k = (eb - ea) as nat;
        lemma_pow2_adds((ea - 1) as nat, k);
        lemma_pow2_positive((k - 1) as nat);
        let t = pow2(k) as int;
        assert(t == 2 * pow2((k - 1) as nat));
        assert(((ea - 1) as nat + k) as nat == (eb - 1) as nat);
        assert(m < 2 * c && n >= c);
        assert(m * s < n * (s * t)) by (nonlinear_arith)
            requires
                0 <= m < 2 * c,
                n >= c,
                t >= 2,
                s > 0,
                c > 0,
        ;
    }
}

// ── What is refused ─────────────────────────────────────────────────────────

/// A quantile is asked for by a number from 0 to 1, and by nothing else.
pub proof fn quantiles_lie_in_the_unit(q: u64, values: ColumnModel)
    ensures
        in_unit(q) <==> !is_nan(q) && real_key(0) <= real_key(q) <= real_key(ONE),
        !in_unit(q) ==> quantile_of(q, values) is Err,
        in_unit(q) && numbers_of(values) is None ==> quantile_of(q, values) is Err,
{
}

/// A width and a window have to be positive, and times are unsigned numbers. Nothing else is
/// asked of a rate.
pub proof fn lengths_of_time_are_positive(width_ns: i64, c: ColumnModel)
    ensures
        time_bucket_of(width_ns, c) is Ok <==> width_ns > 0 && c is UInt64,
        rate_of(c, width_ns) is Ok <==> width_ns > 0,
        delta_of(c) is Ok <==> c is Float64 || c is Int64 || c is UInt64,
{
}

/// Over a column without rows a difference and a quantile are one zero.
pub proof fn nothing_gives_zero(q: u64, c: ColumnModel)
    requires
        in_unit(q),
        numbers_of(c) matches Some(v) && v.len() == 0,
    ensures
        delta_of(c) matches Ok(ColumnModel::Float64(x)) && x.values =~= seq![0u64] && x.valid
            =~= seq![true],
        quantile_of(q, c) matches Ok(ColumnModel::Float64(x)) && x.values =~= seq![0u64] && x.valid
            =~= seq![true],
{
}

/// Several values of which one is no number have no quantile.
pub proof fn values_without_order_have_no_quantile(q: u64, c: ColumnModel)
    requires
        numbers_of(c) matches Some(v) && v.len() > 1 && has_nan(v),
    ensures
        quantile_of(q, c) is Err,
{
}

} // verus!
