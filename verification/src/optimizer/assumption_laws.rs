//! The fractions that are assumed where nothing is known, as fractions.

use vstd::arithmetic::power2::{lemma_pow2_adds, lemma_pow2_pos, pow2};
use vstd::prelude::*;

use crate::float64::{
    half_even, lemma_nearest_from_scale, lemma_nearest_from_skip, nearest, nearest_from, Float64, LIMIT,
    STEP,
};
use crate::float_laws::lemma_integer;
use crate::optimizer::cardinality::selectivity::{
    EQUALITY, FLOOR, INEQUALITY, LIKE_SUBSTRING, RANGE, UNKNOWN,
};
use crate::optimizer::cost::model::default_weights;

verus! {

/// A fraction of two whole numbers.
pub open spec fn fraction(a: int, b: int) -> Float64 {
    Float64::spec_from_int(a).spec_div(Float64::spec_from_int(b))
}

proof fn lemma_quotient(a: int, b: int, e: nat, m: int)
    requires
        0 < a < LIMIT,
        0 < b < LIMIT,
        0 < e <= 1074,
        a * pow2(e) >= b * STEP,
        a * pow2(e) < b * LIMIT,
        m == (1074 - e) * STEP + half_even(a * pow2(e), b),
        0 <= m < 0x7FF0_0000_0000_0000,
    ensures
        Float64::spec_from_int(a).spec_div(Float64::spec_from_int(b)) == (Float64 {
            bits: m as u64,
        }),
{
    let p = pow2(1074) as int;
    let k = (1074 - e) as nat;
    let pe = pow2(e) as int;
    let pk = pow2(k) as int;
    lemma_pow2_pos(1074);
    lemma_pow2_pos(e);
    lemma_pow2_pos(k);
    lemma_pow2_adds(e, k);
    lemma_integer(a);
    lemma_integer(b);
    assert(p == pe * pk);
    assert(a * p * p == (a * p) * p && b * p > 0 && a * p > 0) by (nonlinear_arith)
        requires
            a > 0,
            b > 0,
            p > 0,
    ;
    lemma_nearest_from_scale(a * p, b, 0, p);
    assert(nearest(a * p * p, b * p) == nearest(a * p, b));
    assert(a * p == (a * pe) * pk) by (nonlinear_arith)
        requires
            p == pe * pk,
    ;
    let num = a * pe;
    assert(a * p >= b * STEP * pk) by (nonlinear_arith)
        requires
            a * p == num * pk,
            num >= b * STEP,
            pk > 0,
    ;
    vstd::arithmetic::power2::lemma2_to64();
    assert(b * pow2(0) == b) by (nonlinear_arith)
        requires
            pow2(0) == 1,
    ;
    lemma_nearest_from_skip(a * p, b, 0, k);
    assert(b * pk > 0) by (nonlinear_arith)
        requires
            b > 0,
            pk > 0,
    ;
    assert(num > 0) by (nonlinear_arith)
        requires
            num == a * pe,
            a > 0,
            pe > 0,
    ;
    lemma_nearest_from_scale(num, b, k as int, pk);
    assert(nearest_from(num, b, k as int) == m);
}

/// Where nothing is known, a column is taken to equal a literal in one row of
/// 200, to lie below or above one in 33 of 100 and between two in one of four;
/// a text to contain another in one of 20; and any other condition to hold in
/// one of ten. None is taken to hold in less than one row of a million. A byte
/// held weighs a thousandth of a byte read.
pub proof fn assumptions_are_fractions()
    ensures
        (Float64 { bits: EQUALITY }) == fraction(1, 200),
        (Float64 { bits: INEQUALITY }) == fraction(33, 100),
        (Float64 { bits: RANGE }) == fraction(1, 4),
        (Float64 { bits: LIKE_SUBSTRING }) == fraction(1, 20),
        (Float64 { bits: UNKNOWN }) == fraction(1, 10),
        (Float64 { bits: FLOOR }) == fraction(1, 1_000_000),
        default_weights().memory_penalty == fraction(1, 1000),
{
    vstd::arithmetic::power2::lemma2_to64();
    vstd::arithmetic::power2::lemma2_to64_rest();
    lemma_pow2_adds(64, 8);
    lemma_quotient(1, 200, 60, EQUALITY as int);
    lemma_quotient(33, 100, 54, INEQUALITY as int);
    lemma_quotient(1, 4, 54, RANGE as int);
    lemma_quotient(1, 20, 57, LIKE_SUBSTRING as int);
    lemma_quotient(1, 10, 56, UNKNOWN as int);
    lemma_quotient(1, 1_000_000, 72, FLOOR as int);
    lemma_quotient(1, 1000, 62, default_weights().memory_penalty.bits as int);
}

} // verus!
