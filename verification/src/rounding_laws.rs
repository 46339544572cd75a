//! Results are rounded to the nearest double, and from halfway to the even one.

use vstd::arithmetic::power2::{lemma_pow2_adds, lemma_pow2_pos, pow2};
use vstd::prelude::*;

use crate::float64::{
    half_even, lemma_units_monotone, lemma_units_zero, nearest, nearest_from, scale, significand, units,
    Float64, INFINITY, LIMIT, STEP,
};
use crate::float_laws::finite;

verus! {

/// How far two integers are apart.
pub open spec fn apart(a: int, b: int) -> int {
    if a < b {
        b - a
    } else {
        a - b
    }
}

proof fn lemma_half_even(num: int, unit: int, j: int)
    requires
        num >= 0,
        unit > 0,
    ensures
        apart(half_even(num, unit) * unit, num) <= apart(j * unit, num),
        j != half_even(num, unit) && apart(half_even(num, unit) * unit, num) == apart(j * unit, num)
            ==> half_even(num, unit) % 2 == 0,
        half_even(num, unit) >= num / unit,
        half_even(num, unit) <= num / unit + 1,
{
    let q = num / unit;
    let r = num % unit;
    let h = half_even(num, unit);
    vstd::arithmetic::div_mod::lemma_fundamental_div_mod(num, unit);
    vstd::arithmetic::div_mod::lemma_mod_bound(num, unit);
    assert(q * unit + r == num) by (nonlinear_arith)
        requires
            num == unit * q + r,
    ;
    assert((q + 1) * unit == q * unit + unit) by (nonlinear_arith);
    if j < q {
        assert(j * unit <= q * unit - unit) by (nonlinear_arith)
            requires
                j <= q - 1,
                unit > 0,
        ;
    }
    if j > q + 1 {
        assert(j * unit >= q * unit + 2 * unit) by (nonlinear_arith)
            requires
                j >= q + 2,
                unit > 0,
        ;
    }
}

proof fn lemma_magnitude(h: int, k: int)
    requires
        0 <= h <= LIMIT,
        k >= 0,
        k > 0 ==> h >= STEP,
    ensures
        units(k * STEP + h) == h * pow2(k as nat),
        (k * STEP + h) % 2 == h % 2,
{
    let m = k * STEP + h;
    let s = STEP as int;
    assert(m % 2 == h % 2) by {
        assert(k * s == 2 * (k * 0x0008_0000_0000_0000)) by (nonlinear_arith)
            requires
                s == 0x0010_0000_0000_0000,
        ;
    }
    if h < STEP {
        vstd::arithmetic::power2::lemma2_to64();
        assert(m == h);
        assert(h * pow2(0) == h);
    } else if h < LIMIT {
        assert(m == (k + 1) * s + (h - s)) by (nonlinear_arith)
            requires
                m == k * s + h,
        ;
        vstd::arithmetic::div_mod::lemma_fundamental_div_mod_converse(m, s, k + 1, h - s);
        assert(k * s >= 0) by (nonlinear_arith)
            requires
                k >= 0,
                s > 0,
        ;
    } else {
        assert(m == (k + 2) * s + 0) by (nonlinear_arith)
            requires
                m == k * s + h,
                h == 2 * s,
        ;
        vstd::arithmetic::div_mod::lemma_fundamental_div_mod_converse(m, s, k + 2, 0);
        assert(k * s >= 0) by (nonlinear_arith)
            requires
                k >= 0,
                s > 0,
        ;
        lemma_pow2_adds(1, k as nat);
        vstd::arithmetic::power2::lemma2_to64();
        let p = pow2(k as nat) as int;
        assert(s * (2 * p) == h * p) by (nonlinear_arith)
            requires
                h == 2 * s,
        ;
    }
}

proof fn lemma_nearest_from(num: int, den: int, unit: int, k: int, d: int)
    requires
        num > 0,
        den > 0,
        k >= 0,
        unit == den * pow2(k as nat),
        k > 0 ==> num >= unit * STEP,
        0 <= d < INFINITY,
        nearest_from(num, unit, k) < INFINITY,
    ensures
        apart(units(nearest_from(num, unit, k)) * den, num) <= apart(units(d) * den, num),
        d != nearest_from(num, unit, k) && apart(units(nearest_from(num, unit, k)) * den, num)
            == apart(units(d) * den, num) ==> nearest_from(num, unit, k) % 2 == 0,
        0 <= nearest_from(num, unit, k),
    decreases (if num > unit { num - unit } else { 0 }),
{
    let p = pow2(k as nat) as int;
    lemma_pow2_pos(k as nat);
    assert(unit > 0) by (nonlinear_arith)
        requires
            unit == den * p,
            den > 0,
            p > 0,
    ;
    if num < unit * LIMIT {
        let h = half_even(num, unit);
        let q = num / unit;
        let r = num % unit;
        lemma_half_even(num, unit, 0);
        vstd::arithmetic::div_mod::lemma_fundamental_div_mod(num, unit);
        vstd::arithmetic::div_mod::lemma_mod_bound(num, unit);
        let limit = LIMIT as int;
        let step = STEP as int;
        assert(0 <= q < limit) by (nonlinear_arith)
            requires
                num == unit * q + r,
                0 <= r < unit,
                0 <= num < unit * limit,
                unit > 0,
        ;
        if k > 0 {
            assert(q >= step) by (nonlinear_arith)
                requires
                    num == unit * q + r,
                    0 <= r < unit,
                    num >= unit * step,
                    unit > 0,
            ;
        }
        lemma_magnitude(h, k);
        let m = k * STEP + h;
        assert(m == nearest_from(num, unit, k));
        assert(units(m) * den == h * unit) by (nonlinear_arith)
            requires
                units(m) == h * p,
                unit == den * p,
        ;
        let sd = significand(d);
        let e = scale(d);
        assert(k * step >= 0) by (nonlinear_arith)
            requires
                k >= 0,
                step > 0,
        ;
        lemma_pow2_pos(e);
        if e >= k {
            let f = (e - k) as nat;
            lemma_pow2_adds(k as nat, f);
            let g = pow2(f) as int;
            let j = sd * g;
            let pe = pow2(e) as int;
            assert(pe == p * g);
            assert(units(d) * den == j * unit) by (nonlinear_arith)
                requires
                    units(d) == sd * pe,
                    pe == p * g,
                    j == sd * g,
                    unit == den * p,
            ;
            lemma_half_even(num, unit, j);
            if d != m && j == h {
                assert(units(d) == units(m)) by (nonlinear_arith)
                    requires
                        units(d) * den == j * unit,
                        units(m) * den == h * unit,
                        j == h,
                        den > 0,
                ;
                if d < m {
                    lemma_units_monotone(d, m);
                } else {
                    lemma_units_monotone(m, d);
                }
            }
        } else {
            lemma_half_even(num, unit, step);
            let f = (k - 1 - e) as nat;
            lemma_pow2_adds(e, f);
            lemma_pow2_adds(1, (k - 1) as nat);
            vstd::arithmetic::power2::lemma2_to64();
            let pe = pow2(e) as int;
            let pf = pow2(f) as int;
            let ph = pow2((k - 1) as nat) as int;
            lemma_pow2_pos(f);
            assert(ph == pe * pf && p == 2 * ph);
            assert(0 <= sd < limit);
            assert(sd * pe < step * p) by (nonlinear_arith)
                requires
                    0 <= sd < limit,
                    limit == 2 * step,
                    ph == pe * pf,
                    p == 2 * ph,
                    pe > 0,
                    pf > 0,
                    step > 0,
            ;
            assert(units(d) * den < step * unit) by (nonlinear_arith)
                requires
                    units(d) == sd * pe,
                    sd * pe < step * p,
                    unit == den * p,
                    den > 0,
            ;
            assert(step * unit <= num) by (nonlinear_arith)
                requires
                    num >= unit * step,
            ;
        }
    } else {
        assert(num > unit) by (nonlinear_arith)
            requires
                num >= unit * LIMIT,
                unit > 0,
        ;
        lemma_pow2_adds(1, k as nat);
        vstd::arithmetic::power2::lemma2_to64();
        assert(2 * unit == den * (2 * p)) by (nonlinear_arith)
            requires
                unit == den * p,
        ;
        assert(num >= (2 * unit) * STEP) by (nonlinear_arith)
            requires
                num >= unit * LIMIT,
                LIMIT == 2 * STEP,
        ;
        lemma_nearest_from(num, den, 2 * unit, k + 1, d);
    }
}

proof fn lemma_nearest(num: int, den: int, d: int)
    requires
        num > 0,
        den > 0,
        0 <= d < INFINITY,
        nearest(num, den) < INFINITY,
    ensures
        apart(units(nearest(num, den)) * den, num) <= apart(units(d) * den, num),
        d != nearest(num, den) && apart(units(nearest(num, den)) * den, num) == apart(
            units(d) * den,
            num,
        ) ==> nearest(num, den) % 2 == 0,
        0 <= nearest(num, den),
{
    vstd::arithmetic::power2::lemma2_to64();
    assert(den * pow2(0) == den) by (nonlinear_arith)
        requires
            pow2(0) == 1,
    ;
    lemma_nearest_from(num, den, den, 0, d);
}

/// No finite double is nearer to the exact sum of two finite doubles than their
/// sum, and of two that are as near it is the even one.
pub proof fn sums_are_nearest(x: Float64, y: Float64, d: Float64)
    requires
        finite(x),
        finite(y),
        finite(d),
        finite(x.spec_add(y)),
    ensures
        ({
            let exact = x.value() + y.value();
            let r = x.spec_add(y);
            &&& apart(r.value(), exact) <= apart(d.value(), exact)
            &&& apart(r.value(), exact) == apart(d.value(), exact) && d.magnitude() != r.magnitude()
                ==> r.magnitude() % 2 == 0
        }),
{
    let exact = x.value() + y.value();
    let m = d.magnitude();
    lemma_units_zero(0);
    lemma_units_zero(m);
    if exact > 0 {
        crate::float64::lemma_nearest_from_bound(exact, 1, 0);
        lemma_nearest(exact, 1, m);
        lemma_nearest(exact, 1, 0);
    } else if exact < 0 {
        crate::float64::lemma_nearest_from_bound(-exact, 1, 0);
        lemma_nearest(-exact, 1, m);
        lemma_nearest(-exact, 1, 0);
    } else {
        assert(x.spec_add(y).magnitude() == 0);
    }
}

/// No finite double is nearer to an integer than the double that it becomes.
pub proof fn integers_become_the_nearest_double(n: int, d: Float64)
    requires
        finite(d),
        finite(Float64::spec_from_int(n)),
    ensures
        apart(Float64::spec_from_int(n).value(), n * pow2(1074)) <= apart(
            d.value(),
            n * pow2(1074),
        ),
{
    let m = d.magnitude();
    let p = pow2(1074) as int;
    lemma_pow2_pos(1074);
    lemma_units_zero(0);
    lemma_units_zero(m);
    assert(n > 0 ==> n * p > 0) by (nonlinear_arith)
        requires
            p > 0,
    ;
    assert(n < 0 ==> -n * p > 0 && -n * p == -(n * p)) by (nonlinear_arith)
        requires
            p > 0,
    ;
    if n > 0 {
        crate::float64::lemma_nearest_from_bound(n * p, 1, 0);
        lemma_nearest(n * p, 1, m);
        lemma_nearest(n * p, 1, 0);
    } else if n < 0 {
        crate::float64::lemma_nearest_from_bound(-n * p, 1, 0);
        lemma_nearest(-n * p, 1, m);
        lemma_nearest(-n * p, 1, 0);
    } else {
        assert(0 * p == 0);
    }
}

/// No magnitude is nearer to the exact product of two finite doubles than that
/// of their product, nor to the exact quotient than that of their quotient. The
/// magnitudes are counted in units of `2^-1074`.
pub proof fn products_and_quotients_are_nearest(x: Float64, y: Float64, d: Float64)
    requires
        finite(x),
        finite(y),
        finite(d),
        x.magnitude() != 0,
        y.magnitude() != 0,
    ensures
        ({
            let a = units(x.magnitude());
            let b = units(y.magnitude());
            let one = pow2(1074) as int;
            let times = units(x.spec_mul(y).magnitude());
            let over = units(x.spec_div(y).magnitude());
            &&& finite(x.spec_mul(y)) ==> apart(times * one, a * b) <= apart(
                units(d.magnitude()) * one,
                a * b,
            )
            &&& finite(x.spec_div(y)) ==> apart(over * b, a * one) <= apart(
                units(d.magnitude()) * b,
                a * one,
            )
        }),
{
    let a = units(x.magnitude());
    let b = units(y.magnitude());
    let p = pow2(1074) as int;
    lemma_pow2_pos(1074);
    lemma_units_zero(x.magnitude());
    lemma_units_zero(y.magnitude());
    assert(a * b > 0 && a * p > 0) by (nonlinear_arith)
        requires
            a > 0,
            b > 0,
            p > 0,
    ;
    crate::float64::lemma_nearest_from_bound(a * b, p, 0);
    crate::float64::lemma_nearest_from_bound(a * p, b, 0);
    if finite(x.spec_mul(y)) {
        lemma_nearest(a * b, p, d.magnitude());
    }
    if finite(x.spec_div(y)) {
        lemma_nearest(a * p, b, d.magnitude());
    }
}

} // verus!
