//! 64-bit floating-point numbers, held as the bits of their IEEE 754 representation.
//!
//! Order and sign are read off the bits. Arithmetic is done by the kernels of the
//! columnar library; which of the many not-a-number values an operation gives is left
//! open there, so results are brought to one of them.

use arrow::array::{Array, Float64Array, Int64Array, UInt64Array};
use arrow::buffer::Buffer;
use vstd::prelude::*;

verus! {

/// The sign bit, which is also the number of values without it.
pub const SIGN: u64 = 0x8000_0000_0000_0000;

/// The bits of infinity.
pub const INFINITY: u64 = 0x7FF0_0000_0000_0000;

/// The bits of negative infinity.
pub const NEG_INFINITY: u64 = 0xFFF0_0000_0000_0000;

/// The bits of the not-a-number value that results are brought to.
pub const NAN: u64 = 0x7FF8_0000_0000_0000;

/// The bits of 1.
pub const ONE: u64 = 0x3FF0_0000_0000_0000;

/// The bits of 1 000 000 000.
pub const BILLION: u64 = 0x41CD_CD65_0000_0000;

/// Whether bits are those of a not-a-number value.
pub open spec fn is_nan(b: u64) -> bool {
    b % SIGN > INFINITY
}

/// The place of a value in the total order of all values, in which negative zero comes
/// before zero and the not-a-number values come at both ends.
pub open spec fn total_key(b: u64) -> int {
    if b < SIGN {
        b as int
    } else {
        -(b - SIGN) - 1
    }
}

/// The place of a number in the order of numbers, in which the two zeros are equal.
pub open spec fn real_key(b: u64) -> int {
    if b < SIGN {
        b as int
    } else {
        -(b - SIGN)
    }
}

/// Whether one value is a smaller number than another.
pub open spec fn float_less(a: u64, b: u64) -> bool {
    !is_nan(a) && !is_nan(b) && real_key(a) < real_key(b)
}

/// The bits with the sign turned round.
pub open spec fn negated(b: u64) -> u64 {
    if b < SIGN {
        (b + SIGN) as u64
    } else {
        (b - SIGN) as u64
    }
}

/// The bits, with every not-a-number value brought to one.
pub open spec fn canonical(b: u64) -> u64 {
    if is_nan(b) {
        NAN
    } else {
        b
    }
}

/// Whether two results are the same up to the choice of a not-a-number value.
pub open spec fn same_float(a: u64, b: u64) -> bool {
    a == b || (is_nan(a) && is_nan(b))
}

// ── Arithmetic ──────────────────────────────────────────────────────────────

/// The rounded sum of two values.
pub uninterp spec fn sum_bits(a: u64, b: u64) -> u64;

/// The rounded difference of two values.
pub uninterp spec fn difference_bits(a: u64, b: u64) -> u64;

/// The rounded product of two values.
pub uninterp spec fn product_bits(a: u64, b: u64) -> u64;

/// The rounded quotient of two values.
pub uninterp spec fn quotient_bits(a: u64, b: u64) -> u64;

/// The value nearest to a signed number.
pub uninterp spec fn signed_bits(n: i64) -> u64;

/// The value nearest to an unsigned number.
pub uninterp spec fn unsigned_bits(n: u64) -> u64;

/// `arrow_arith::numeric::add` on two arrays of 64-bit floats without nulls: each result
/// depends on the two values at its place, up to the choice of a not-a-number value.
#[verifier::external_body]
fn add_kernel(a: &Vec<u64>, b: &Vec<u64>) -> (out: Vec<u64>)
    requires
        a@.len() == b@.len(),
    ensures
        out@.len() == a@.len(),
        forall|i: int| #![trigger out@[i]]
            0 <= i < a@.len() ==> same_float(out@[i], sum_bits(a@[i], b@[i])),
{
    let l = Float64Array::new(Buffer::from_vec(a.clone()).into(), None);
    let r = Float64Array::new(Buffer::from_vec(b.clone()).into(), None);
    let sum = arrow_arith::numeric::add(&l, &r).unwrap();
    sum.to_data().buffers()[0].typed_data::<u64>().to_vec()
}

/// `arrow_arith::numeric::sub` on two arrays of 64-bit floats without nulls: each result
/// depends on the two values at its place, up to the choice of a not-a-number value.
#[verifier::external_body]
fn sub_kernel(a: &Vec<u64>, b: &Vec<u64>) -> (out: Vec<u64>)
    requires
        a@.len() == b@.len(),
    ensures
        out@.len() == a@.len(),
        forall|i: int| #![trigger out@[i]]
            0 <= i < a@.len() ==> same_float(out@[i], difference_bits(a@[i], b@[i])),
{
    let l = Float64Array::new(Buffer::from_vec(a.clone()).into(), None);
    let r = Float64Array::new(Buffer::from_vec(b.clone()).into(), None);
    let difference = arrow_arith::numeric::sub(&l, &r).unwrap();
    difference.to_data().buffers()[0].typed_data::<u64>().to_vec()
}

/// `arrow_arith::numeric::mul` on two arrays of 64-bit floats without nulls: each result
/// depends on the two values at its place, up to the choice of a not-a-number value.
#[verifier::external_body]
fn mul_kernel(a: &Vec<u64>, b: &Vec<u64>) -> (out: Vec<u64>)
    requires
        a@.len() == b@.len(),
    ensures
        out@.len() == a@.len(),
        forall|i: int| #![trigger out@[i]]
            0 <= i < a@.len() ==> same_float(out@[i], product_bits(a@[i], b@[i])),
{
    let l = Float64Array::new(Buffer::from_vec(a.clone()).into(), None);
    let r = Float64Array::new(Buffer::from_vec(b.clone()).into(), None);
    let product = arrow_arith::numeric::mul(&l, &r).unwrap();
    product.to_data().buffers()[0].typed_data::<u64>().to_vec()
}

/// `arrow_arith::numeric::div` on two arrays of 64-bit floats without nulls: each result
/// depends on the two values at its place, up to the choice of a not-a-number value. A
/// float divided by zero is no error.
#[verifier::external_body]
fn div_kernel(a: &Vec<u64>, b: &Vec<u64>) -> (out: Vec<u64>)
    requires
        a@.len() == b@.len(),
    ensures
        out@.len() == a@.len(),
        forall|i: int| #![trigger out@[i]]
            0 <= i < a@.len() ==> same_float(out@[i], quotient_bits(a@[i], b@[i])),
{
    let l = Float64Array::new(Buffer::from_vec(a.clone()).into(), None);
    let r = Float64Array::new(Buffer::from_vec(b.clone()).into(), None);
    let quotient = arrow_arith::numeric::div(&l, &r).unwrap();
    quotient.to_data().buffers()[0].typed_data::<u64>().to_vec()
}

/// `arrow::compute::cast` of an array of 64-bit signed numbers without nulls to 64-bit
/// floats: each result depends on the number at its place, and is no not-a-number value.
#[verifier::external_body]
fn cast_signed(a: &Vec<i64>) -> (out: Vec<u64>)
    ensures
        out@.len() == a@.len(),
        forall|i: int| #![trigger out@[i]]
            0 <= i < a@.len() ==> out@[i] == signed_bits(a@[i]) && !is_nan(out@[i]),
{
    let from = Int64Array::from(a.clone());
    let cast = arrow::compute::cast(&from, &arrow::datatypes::DataType::Float64).unwrap();
    cast.to_data().buffers()[0].typed_data::<u64>().to_vec()
}

/// `arrow::compute::cast` of an array of 64-bit unsigned numbers without nulls to 64-bit
/// floats: each result depends on the number at its place, and is no not-a-number value.
#[verifier::external_body]
fn cast_unsigned(a: &Vec<u64>) -> (out: Vec<u64>)
    ensures
        out@.len() == a@.len(),
        forall|i: int| #![trigger out@[i]]
            0 <= i < a@.len() ==> out@[i] == unsigned_bits(a@[i]) && !is_nan(out@[i]),
{
    let from = UInt64Array::from(a.clone());
    let cast = arrow::compute::cast(&from, &arrow::datatypes::DataType::Float64).unwrap();
    cast.to_data().buffers()[0].typed_data::<u64>().to_vec()
}

// ── Arithmetic on lists ─────────────────────────────────────────────────────

/// An operation of floating-point arithmetic.
#[derive(Debug, Clone, Copy, PartialEq, Eq, Structural)]
pub enum FloatOp {
    Plus,
    Minus,
    Times,
    Over,
}

/// The result of an operation on two values.
pub open spec fn float_result(op: FloatOp, a: u64, b: u64) -> u64 {
    canonical(
        match op {
            FloatOp::Plus => sum_bits(a, b),
            FloatOp::Minus => difference_bits(a, b),
            FloatOp::Times => product_bits(a, b),
            FloatOp::Over => quotient_bits(a, b),
        },
    )
}

/// Whether bits are those of a not-a-number value.
pub fn nan(b: u64) -> (yes: bool)
    ensures
        yes == is_nan(b),
{
    b % SIGN > INFINITY
}

/// Does an operation place by place.
pub fn float_lists(op: FloatOp, a: &Vec<u64>, b: &Vec<u64>) -> (out: Vec<u64>)
    requires
        a@.len() == b@.len(),
    ensures
        out@ == Seq::new(a@.len(), |i: int| float_result(op, a@[i], b@[i])),
{
    let mut out = match op {
        FloatOp::Plus => add_kernel(a, b),
        FloatOp::Minus => sub_kernel(a, b),
        FloatOp::Times => mul_kernel(a, b),
        FloatOp::Over => div_kernel(a, b),
    };
    let ghost raw = out@;
    let n: usize = out.len();
    for i in 0..n
        invariant
            n == out@.len(),
            n == a@.len(),
            a@.len() == b@.len(),
            forall|j: int| i <= j < n ==> out@[j] == #[trigger] raw[j],
            forall|j: int|
                0 <= j < n ==> canonical(#[trigger] raw[j]) == float_result(op, a@[j], b@[j]),
            forall|j: int| 0 <= j < i ==> #[trigger] out@[j] == float_result(op, a@[j], b@[j]),
    {
        assert(out@[i as int] == raw[i as int]);
        if nan(out[i]) {
            out.set(i, NAN);
        }
    }
    assert(out@ =~= Seq::new(a@.len(), |i: int| float_result(op, a@[i], b@[i])));
    out
}

/// Does an operation on two values.
pub fn float_pair(op: FloatOp, a: u64, b: u64) -> (out: u64)
    ensures
        out == float_result(op, a, b),
{
    let mut l: Vec<u64> = Vec::new();
    l.push(a);
    let mut r: Vec<u64> = Vec::new();
    r.push(b);
    let out = float_lists(op, &l, &r);
    out[0]
}

/// The values nearest to signed numbers.
pub fn floats_of_signed(a: &Vec<i64>) -> (out: Vec<u64>)
    ensures
        out@ == Seq::new(a@.len(), |i: int| signed_bits(a@[i])),
        forall|i: int| 0 <= i < out@.len() ==> !is_nan(#[trigger] out@[i]),
{
    let out = cast_signed(a);
    assert(out@ =~= Seq::new(a@.len(), |i: int| signed_bits(a@[i])));
    out
}

/// The values nearest to unsigned numbers.
pub fn floats_of_unsigned(a: &Vec<u64>) -> (out: Vec<u64>)
    ensures
        out@ == Seq::new(a@.len(), |i: int| unsigned_bits(a@[i])),
        forall|i: int| 0 <= i < out@.len() ==> !is_nan(#[trigger] out@[i]),
{
    let out = cast_unsigned(a);
    assert(out@ =~= Seq::new(a@.len(), |i: int| unsigned_bits(a@[i])));
    out
}

/// The value nearest to a signed number.
pub fn float_of_signed(n: i64) -> (out: u64)
    ensures
        out == signed_bits(n),
{
    let mut v: Vec<i64> = Vec::new();
    v.push(n);
    let out = floats_of_signed(&v);
    out[0]
}

/// The value nearest to an unsigned number.
pub fn float_of_unsigned(n: u64) -> (out: u64)
    ensures
        out == unsigned_bits(n),
{
    let mut v: Vec<u64> = Vec::new();
    v.push(n);
    let out = floats_of_unsigned(&v);
    out[0]
}

// ── Order and sign ──────────────────────────────────────────────────────────

/// Whether one value comes before another in the total order.
pub fn total_less(a: u64, b: u64) -> (yes: bool)
    ensures
        yes == (total_key(a) < total_key(b)),
{
    if a < SIGN {
        b < SIGN && a < b
    } else {
        b < SIGN || a > b
    }
}

/// Whether one value is a smaller number than another.
pub fn number_less(a: u64, b: u64) -> (yes: bool)
    ensures
        yes == float_less(a, b),
{
    if nan(a) || nan(b) {
        return false;
    }
    if a < SIGN {
        b < SIGN && a < b
    } else if b < SIGN {
        a > SIGN || b > 0
    } else {
        a > b
    }
}

/// Turns the sign round.
pub fn negate(b: u64) -> (out: u64)
    ensures
        out == negated(b),
{
    if b < SIGN {
        b + SIGN
    } else {
        b - SIGN
    }
}

/// Turning the sign round twice gives the value back.
pub proof fn negating_twice(b: u64)
    ensures
        negated(negated(b)) == b,
{
}

// ── Rounding ────────────────────────────────────────────────────────────────

/// 2 to the power `n`.
pub open spec fn pow2(n: nat) -> nat
    decreases n,
{
    if n == 0 {
        1
    } else {
        2 * pow2((n - 1) as nat)
    }
}

/// The fraction of a finite value without sign: the value is this number times 2 to the
/// power of `exponent(b) - 1075`.
pub open spec fn fraction(b: u64) -> nat {
    let m = (b % 0x10_0000_0000_0000) as nat;
    if b / 0x10_0000_0000_0000 == 0 {
        m
    } else {
        m + 0x10_0000_0000_0000
    }
}

/// The exponent of a value without sign, at least 1.
pub open spec fn exponent(b: u64) -> nat {
    let e = (b / 0x10_0000_0000_0000) as nat;
    if e == 0 {
        1
    } else {
        e
    }
}

/// The whole number nearest to a value, a half being rounded up, brought into the range
/// of 64 bits without sign. A not-a-number value gives 0.
pub open spec fn nearest(b: u64) -> u64 {
    if is_nan(b) || b >= SIGN {
        0
    } else if b == INFINITY {
        u64::MAX
    } else {
        let m = fraction(b);
        let e = exponent(b);
        let n = if e >= 1075 {
            m * pow2((e - 1075) as nat)
        } else {
            (m + pow2((1074 - e) as nat)) / pow2((1075 - e) as nat)
        };
        if n > u64::MAX {
            u64::MAX
        } else {
            n as u64
        }
    }
}

proof fn lemma_pow2_positive(n: nat)
    ensures
        pow2(n) > 0,
    decreases n,
{
    if n > 0 {
        lemma_pow2_positive((n - 1) as nat);
    }
}

proof fn lemma_pow2_grows(a: nat, b: nat)
    requires
        a <= b,
    ensures
        pow2(a) <= pow2(b),
    decreases b - a,
{
    if a < b {
        lemma_pow2_grows(a, (b - 1) as nat);
    }
}

/// 2 to the power `n`, where it fits.
fn power(n: u64) -> (out: u64)
    requires
        n < 64,
    ensures
        out == pow2(n as nat),
        out > 0,
{
    let mut out: u64 = 1;
    assert(pow2(63) == 0x8000_0000_0000_0000) by {
        reveal_with_fuel(pow2, 65);
    }
    for i in 0..n
        invariant
            n < 64,
            out == pow2(i as nat),
            pow2(63) == 0x8000_0000_0000_0000,
    {
        proof {
            lemma_pow2_grows((i + 1) as nat, 63);
        }
        out = out * 2;
    }
    proof {
        lemma_pow2_positive(n as nat);
    }
    out
}

/// Rounds a value to the nearest whole number, a half up.
pub fn round(b: u64) -> (out: u64)
    ensures
        out == nearest(b),
{
    if nan(b) || b >= SIGN {
        return 0;
    }
    if b == INFINITY {
        return u64::MAX;
    }
    let low: u64 = b % 0x10_0000_0000_0000;
    let high: u64 = b / 0x10_0000_0000_0000;
    let m: u64 = if high == 0 {
        low
    } else {
        low + 0x10_0000_0000_0000
    };
    let e: u64 = if high == 0 {
        1
    } else {
        high
    };
    assert(m == fraction(b) && e == exponent(b));
    assert(m < 0x20_0000_0000_0000);
    assert(pow2(63) == 0x8000_0000_0000_0000 && pow2(53) == 0x20_0000_0000_0000 && pow2(12)
        == 4096) by {
        reveal_with_fuel(pow2, 65);
    }
    if e >= 1075 {
        let k: u64 = e - 1075;
        if k >= 12 {
            // a normal value: the fraction is at least 2 to the power 52
            proof {
                lemma_pow2_grows(12, k as nat);
                let p = pow2(k as nat);
                assert(m * p >= 0x10_0000_0000_0000 * 4096) by (nonlinear_arith)
                    requires
                        m >= 0x10_0000_0000_0000,
                        p >= 4096,
                ;
            }
            u64::MAX
        } else {
            let p: u64 = power(k);
            proof {
                lemma_pow2_grows(k as nat, 11);
                assert(pow2(11) == 2048) by {
                    reveal_with_fuel(pow2, 12);
                }
                assert(m * p < 0x20_0000_0000_0000 * 2048) by (nonlinear_arith)
                    requires
                        0 <= m < 0x20_0000_0000_0000,
                        0 < p <= 2048,
                ;
            }
            m * p
        }
    } else {
        let s: u64 = 1075 - e;
        if s >= 55 {
            // less than a quarter
            proof {
                lemma_pow2_grows(54, (s - 1) as nat);
                let half = pow2((s - 1) as nat);
                assert(pow2(s as nat) == 2 * half);
                assert(pow2(54) == 2 * pow2(53));
                assert((m + half) / ((2 * half) as int) == 0) by (nonlinear_arith)
                    requires
                        0 <= m < half,
                        half > 0,
                ;
            }
            0
        } else {
            let half: u64 = power(s - 1);
            let whole: u64 = power(s);
            proof {
                lemma_pow2_grows((s - 1) as nat, 53);
                assert((m + half) / (whole as int) <= m + half) by (nonlinear_arith)
                    requires
                        m >= 0,
                        half >= 0,
                        whole >= 1,
                ;
            }
            (m + half) / whole
        }
    }
}

/// The total order of values extends the order of numbers: a smaller number comes first. It
/// tells all values apart, puts negative zero before zero, and the not-a-number values
/// outside of all numbers.
pub proof fn total_order_extends_the_order(a: u64, b: u64)
    ensures
        float_less(a, b) ==> total_key(a) < total_key(b),
        total_key(a) == total_key(b) <==> a == b,
        total_key(SIGN) < total_key(0),
        real_key(SIGN) == real_key(0),
        is_nan(a) && !is_nan(b) && a < SIGN ==> total_key(b) < total_key(a),
        is_nan(a) && !is_nan(b) && a >= SIGN ==> total_key(a) < total_key(b),
        float_less(a, b) ==> !float_less(b, a),
        is_nan(a) || is_nan(b) ==> !float_less(a, b),
{
}

} // verus!
