//! Doubles that are integers: below `2^53` they are exact, and arithmetic on
//! them is arithmetic.

use vstd::arithmetic::power2::{lemma_pow2_pos, pow2};
use vstd::prelude::*;

use crate::float64::{
    lemma_nearest_from_scale, lemma_small_integer, lemma_units_monotone, lemma_units_zero, units,
    Float64, INFINITY, LIMIT,
};

verus! {

/// Whether every integer up to this one in size is a double.
pub open spec fn exact(n: int) -> bool {
    -LIMIT < n < LIMIT
}

pub proof fn lemma_integer(n: int)
    requires
        exact(n),
    ensures
        !Float64::spec_from_int(n).is_nan(),
        !Float64::spec_from_int(n).is_infinite(),
        Float64::spec_from_int(n).negative() == (n < 0),
        Float64::spec_from_int(n).magnitude() == 0 <==> n == 0,
        Float64::spec_from_int(n).value() == n * pow2(1074),
        units(Float64::spec_from_int(n).magnitude()) == (if n < 0 {
            -n
        } else {
            n
        }) * pow2(1074),
{
    lemma_units_zero(0);
    lemma_pow2_pos(1074);
    if n > 0 {
        lemma_small_integer(n);
    } else if n < 0 {
        lemma_small_integer(-n);
        assert(-(-n * pow2(1074)) == n * pow2(1074)) by (nonlinear_arith);
    } else {
        assert(0 * pow2(1074) == 0);
    }
}

/// Integers add exactly.
pub proof fn integers_add(a: int, b: int)
    requires
        exact(a),
        exact(b),
        exact(a + b),
    ensures
        Float64::spec_from_int(a).spec_add(Float64::spec_from_int(b)) == Float64::spec_from_int(
            a + b,
        ),
{
    let p = pow2(1074) as int;
    lemma_pow2_pos(1074);
    lemma_integer(a);
    lemma_integer(b);
    let s = a + b;
    assert(a * p + b * p == s * p) by (nonlinear_arith)
        requires
            s == a + b,
    ;
    assert(s > 0 ==> s * p > 0) by (nonlinear_arith)
        requires
            p > 0,
    ;
    assert(s < 0 ==> s * p < 0) by (nonlinear_arith)
        requires
            p > 0,
    ;
    assert(-(s * p) == -s * p) by (nonlinear_arith);
}

/// Integers subtract exactly.
pub proof fn integers_subtract(a: int, b: int)
    requires
        exact(a),
        exact(b),
        exact(a - b),
        b != 0,
    ensures
        Float64::spec_from_int(a).spec_sub(Float64::spec_from_int(b)) == Float64::spec_from_int(
            a - b,
        ),
{
    lemma_integer(b);
    lemma_integer(-b);
    integers_add(a, -b);
    if b > 0 {
        lemma_small_integer(b);
    } else {
        lemma_small_integer(-b);
    }
    assert(Float64::spec_from_int(b).spec_neg() == Float64::spec_from_int(-b));
}

/// Integers that are not negative multiply exactly.
pub proof fn integers_multiply(a: int, b: int)
    requires
        0 <= a < LIMIT,
        0 <= b < LIMIT,
        a * b < LIMIT,
    ensures
        Float64::spec_from_int(a).spec_mul(Float64::spec_from_int(b)) == Float64::spec_from_int(
            a * b,
        ),
{
    let p = pow2(1074) as int;
    lemma_pow2_pos(1074);
    lemma_integer(a);
    lemma_integer(b);
    assert(a * b >= 0 && (a == 0 || b == 0 <==> a * b == 0)) by (nonlinear_arith)
        requires
            0 <= a,
            0 <= b,
    ;
    if a > 0 && b > 0 {
        assert((a * p) * (b * p) == (a * b * p) * p) by (nonlinear_arith);
        assert(a * b * p >= 0) by (nonlinear_arith)
            requires
                a * b >= 0,
                p > 0,
        ;
        lemma_nearest_from_scale(a * b * p, 1, 0, p);
        assert(1 * p == p);
    }
}

/// A product of integers divides exactly.
pub proof fn integers_divide(a: int, b: int)
    requires
        0 <= a < LIMIT,
        0 < b < LIMIT,
        a * b < LIMIT,
    ensures
        Float64::spec_from_int(a * b).spec_div(Float64::spec_from_int(b)) == Float64::spec_from_int(
            a,
        ),
{
    let p = pow2(1074) as int;
    let n = a * b;
    lemma_pow2_pos(1074);
    assert(n >= 0 && (a == 0 <==> n == 0)) by (nonlinear_arith)
        requires
            0 <= a,
            0 < b,
            n == a * b,
    ;
    lemma_integer(n);
    lemma_integer(b);
    lemma_integer(a);
    if a > 0 {
        let c = b * p;
        assert((n * p) * p == (a * p) * c) by (nonlinear_arith)
            requires
                n == a * b,
                c == b * p,
        ;
        assert(c > 0 && a * p >= 0) by (nonlinear_arith)
            requires
                b > 0,
                p > 0,
                a > 0,
                c == b * p,
        ;
        lemma_nearest_from_scale(a * p, 1, 0, c);
        assert(1 * c == c);
    }
}

/// Integers order as they do.
pub proof fn integers_order(a: int, b: int)
    requires
        exact(a),
        exact(b),
    ensures
        Float64::spec_from_int(a).num_lt(Float64::spec_from_int(b)) <==> a < b,
        Float64::spec_from_int(a).num_eq(Float64::spec_from_int(b)) <==> a == b,
{
    let p = pow2(1074) as int;
    lemma_pow2_pos(1074);
    lemma_integer(a);
    lemma_integer(b);
    let x = Float64::spec_from_int(a).magnitude();
    let y = Float64::spec_from_int(b).magnitude();
    let u = if a < 0 {
        -a
    } else {
        a
    };
    let v = if b < 0 {
        -b
    } else {
        b
    };
    if x < y {
        lemma_units_monotone(x, y);
    } else {
        lemma_units_monotone(y, x);
    }
    assert(u * p < v * p <==> u < v) by (nonlinear_arith)
        requires
            p > 0,
    ;
    assert(u * p == v * p <==> u == v) by (nonlinear_arith)
        requires
            p > 0,
    ;
}

/// An integer is its own integer part, and rounds to itself.
pub proof fn integers_round_to_themselves(n: int)
    requires
        exact(n),
    ensures
        Float64::spec_from_int(n).truncated() == n,
        n >= 0 ==> Float64::spec_from_int(n).rounded_u64() == n,
{
    let p = pow2(1074) as int;
    lemma_pow2_pos(1074);
    lemma_integer(n);
    let u = if n < 0 {
        -n
    } else {
        n
    };
    vstd::arithmetic::div_mod::lemma_fundamental_div_mod_converse(u * p, p, u, 0);
    assert(2 * (u * p) + p == u * (2 * p) + p) by (nonlinear_arith);
    vstd::arithmetic::div_mod::lemma_fundamental_div_mod_converse(2 * (u * p) + p, 2 * p, u, p);
}

/// The order in which two doubles are added or multiplied does not matter.
pub proof fn sums_and_products_commute(x: Float64, y: Float64)
    requires
        !(x.is_infinite() && y.is_infinite()),
    ensures
        x.spec_add(y) == y.spec_add(x),
        x.spec_mul(y) == y.spec_mul(x),
{
    let a = units(x.magnitude());
    let b = units(y.magnitude());
    assert(a * b == b * a) by (nonlinear_arith);
}

/// Whether a double is a number that is not infinite.
pub open spec fn finite(x: Float64) -> bool {
    x.magnitude() < INFINITY
}

/// Finite doubles order by their values.
pub proof fn doubles_order_by_value(x: Float64, y: Float64)
    requires
        finite(x),
        finite(y),
    ensures
        x.num_lt(y) <==> x.value() < y.value(),
        x.num_eq(y) <==> x.value() == y.value(),
        x.num_le(y) <==> x.value() <= y.value(),
{
    let a = x.magnitude();
    let b = y.magnitude();
    lemma_units_zero(a);
    lemma_units_zero(b);
    if a < b {
        lemma_units_monotone(a, b);
    } else {
        lemma_units_monotone(b, a);
    }
}

/// What is no number is neither less than, nor equal to, nor greater than
/// anything, and whatever is computed with it is no number either.
pub proof fn no_number_comes_of_no_number(x: Float64, y: Float64)
    requires
        x.is_nan() || y.is_nan(),
    ensures
        !x.num_lt(y) && !x.num_eq(y) && !x.num_le(y),
        x.spec_add(y).is_nan(),
        x.spec_sub(y).is_nan(),
        x.spec_mul(y).is_nan(),
        x.spec_div(y).is_nan(),
{
    assert((Float64 { bits: 0x7FF8_0000_0000_0000 }).magnitude() > INFINITY);
}

/// The opposite of a double has its magnitude and the other sign, and its
/// opposite is the double itself. A finite double and its opposite add up to
/// zero.
pub proof fn opposites_cancel(x: Float64)
    ensures
        x.spec_neg().magnitude() == x.magnitude(),
        x.spec_neg().negative() == !x.negative(),
        x.spec_neg().spec_neg() == x,
        finite(x) ==> x.spec_add(x.spec_neg()) == Float64::spec_from_int(0),
        finite(x) ==> x.spec_sub(x) == Float64::spec_from_int(0),
{
}

/// A product or a quotient is negative exactly where one of its operands is and
/// the other is not.
pub proof fn signs_multiply(x: Float64, y: Float64)
    ensures
        !x.spec_mul(y).is_nan() ==> x.spec_mul(y).negative() == (x.negative() != y.negative()),
        !x.spec_div(y).is_nan() ==> x.spec_div(y).negative() == (x.negative() != y.negative()),
{
    assert((Float64 { bits: 0x7FF8_0000_0000_0000 }).magnitude() > INFINITY);
    lemma_pow2_pos(1074);
    let a = units(x.magnitude());
    let b = units(y.magnitude());
    let p = pow2(1074) as int;
    if finite(x) && finite(y) {
        lemma_units_zero(x.magnitude());
        lemma_units_zero(y.magnitude());
        assert(a * b >= 0 && a * p >= 0) by (nonlinear_arith)
            requires
                a >= 0,
                b >= 0,
                p > 0,
        ;
        crate::float64::lemma_nearest_from_bound(a * b, p, 0);
        if b > 0 {
            crate::float64::lemma_nearest_from_bound(a * p, b, 0);
        }
    }
}

/// What has no bound stays so: an infinity takes any finite number that is added
/// to it, and only its opposite leaves no number. Divided by zero, what is not
/// zero has no bound; zero by zero is no number, and neither is an infinity
/// times zero. A finite number divided by an infinity is zero.
pub proof fn infinities_compute(x: Float64, inf: Float64, zero: Float64)
    requires
        finite(x),
        inf.is_infinite(),
        zero.magnitude() == 0,
    ensures
        inf.spec_add(x) == inf,
        x.spec_add(inf) == inf,
        inf.spec_add(inf.spec_neg()).is_nan(),
        inf.spec_sub(inf).is_nan(),
        inf.spec_mul(zero).is_nan(),
        inf.spec_div(inf).is_nan(),
        zero.spec_div(zero).is_nan(),
        x.magnitude() != 0 ==> x.spec_div(zero).is_infinite() && x.spec_mul(inf).is_infinite(),
        x.spec_div(inf).magnitude() == 0,
        inf.spec_div(x).is_infinite(),
{
    assert((Float64 { bits: 0x7FF8_0000_0000_0000 }).magnitude() > INFINITY);
}

/// A finite double that is not zero keeps its value when zero is added or taken
/// away, and when it is multiplied or divided by one.
pub proof fn zero_and_one_are_neutral(x: Float64)
    requires
        finite(x),
        x.magnitude() != 0,
    ensures
        x.spec_add(Float64::spec_from_int(0)) == x,
        x.spec_sub(Float64::spec_from_int(0)) == x,
        x.spec_mul(Float64::spec_from_int(1)) == x,
        x.spec_div(Float64::spec_from_int(1)) == x,
{
    let m = x.magnitude();
    let p = pow2(1074) as int;
    lemma_pow2_pos(1074);
    lemma_units_zero(0);
    lemma_units_zero(m);
    crate::float64::lemma_exact(m);
    lemma_integer(1);
    assert(1 * p == p);
    assert(units(m) * p >= 0) by (nonlinear_arith)
        requires
            units(m) >= 0,
            p > 0,
    ;
    lemma_nearest_from_scale(units(m), 1, 0, p);
    assert(Float64 { bits: 0 }.value() == 0);
    assert(Float64 { bits: 0 }.spec_neg().value() == 0);
}

/// The greater of two doubles is one of them and no less than either; what is no
/// number gives way to a number. The smaller likewise.
pub proof fn the_greater_and_the_smaller(x: Float64, y: Float64)
    ensures
        !x.is_nan() && !y.is_nan() ==> {
            &&& x.spec_max(y) == x || x.spec_max(y) == y
            &&& x.num_le(x.spec_max(y)) && y.num_le(x.spec_max(y))
            &&& x.spec_min(y) == x || x.spec_min(y) == y
            &&& x.spec_min(y).num_le(x) && x.spec_min(y).num_le(y)
        },
        x.is_nan() ==> x.spec_max(y) == y && x.spec_min(y) == y,
        y.is_nan() && !x.is_nan() ==> x.spec_max(y) == x && x.spec_min(y) == x,
{
}

/// A double is rounded to the whole number that it is less than a half away
/// from; from halfway it is rounded up. What is negative or no number counts as
/// zero, and what is too large as the largest.
pub proof fn doubles_round_to_the_nearest_integer(x: Float64, n: int)
    requires
        0 <= n <= u64::MAX,
        !x.negative(),
        finite(x),
        2 * n * pow2(1074) - pow2(1074) <= 2 * units(x.magnitude()),
        2 * units(x.magnitude()) < 2 * n * pow2(1074) + pow2(1074),
    ensures
        x.rounded_u64() == n,
{
    let p = pow2(1074) as int;
    lemma_pow2_pos(1074);
    let u = units(x.magnitude());
    let r = 2 * u + p - n * (2 * p);
    assert(n * (2 * p) == 2 * n * p) by (nonlinear_arith);
    vstd::arithmetic::div_mod::lemma_fundamental_div_mod_converse(2 * u + p, 2 * p, n, r);
}

/// The integer part of a double is the whole number just below it in size.
pub proof fn integer_parts_lie_just_below(x: Float64, n: int)
    requires
        n >= 0,
        finite(x),
        n * pow2(1074) <= units(x.magnitude()) < (n + 1) * pow2(1074),
    ensures
        x.truncated() == (if x.negative() {
            -n
        } else {
            n
        }),
{
    let p = pow2(1074) as int;
    lemma_pow2_pos(1074);
    let u = units(x.magnitude());
    assert((n + 1) * p == n * p + p) by (nonlinear_arith);
    vstd::arithmetic::div_mod::lemma_fundamental_div_mod_converse(u, p, n, u - n * p);
}

} // verus!
