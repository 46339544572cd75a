//! Decimal numerals to the doubles nearest to them.

use vstd::arithmetic::power2::{lemma_pow2_adds, lemma_pow2_pos, lemma_pow2_unfold, pow2};
use vstd::prelude::*;

use crate::float64::{
    describes, lemma_nearest_from_bound, lemma_nearest_from_lower, lemma_nearest_from_scale,
    lemma_nearest_from_skip, nearest, nearest_scaled, round_scaled, Float64, INFINITY, LIMIT, STEP,
};
use crate::natural::{
    difference, doubled, is_zero, lemma_natural_bound, less_than, mul_add, natural, trimmed,
};
use crate::text::{all_digits, chars_of, digits_value, is_digit};

verus! {

/// `10^n`.
pub open spec fn power10(n: nat) -> int
    decreases n,
{
    if n == 0 {
        1
    } else {
        10 * power10((n - 1) as nat)
    }
}

/// The magnitude of the double nearest to `m * 10^e`.
pub open spec fn decimal_magnitude(m: int, e: int) -> int {
    if m == 0 {
        0
    } else if e >= 0 {
        nearest(m * power10(e as nat) * pow2(1074), 1)
    } else {
        nearest(m * pow2(1074), power10((-e) as nat))
    }
}

/// The place behind digits.
pub open spec fn run_end(s: Seq<char>, p: int) -> int
    decreases s.len() - p,
{
    if 0 <= p < s.len() && is_digit(s[p]) {
        run_end(s, p + 1)
    } else {
        p
    }
}

/// Where the digits of a numeral start: behind a sign.
pub open spec fn body_start(s: Seq<char>) -> int {
    if s.len() > 0 && (s[0] == '+' || s[0] == '-') {
        1
    } else {
        0
    }
}

/// Where the digits behind the point start.
pub open spec fn fraction_start(s: Seq<char>) -> int {
    let a = run_end(s, body_start(s));
    if a < s.len() && s[a] == '.' {
        a + 1
    } else {
        a
    }
}

/// The digits before and behind the point.
pub open spec fn mantissa(s: Seq<char>) -> Seq<char> {
    let p = body_start(s);
    s.subrange(p, run_end(s, p)) + s.subrange(
        fraction_start(s),
        run_end(s, fraction_start(s)),
    )
}

/// The exponent from a place to the end; zero where there is none.
pub open spec fn exponent(s: Seq<char>, p: int) -> Option<int> {
    if p >= s.len() {
        Some(0)
    } else if s[p] == 'e' || s[p] == 'E' {
        let signed = p + 1 < s.len() && (s[p + 1] == '+' || s[p + 1] == '-');
        let from = if signed {
            p + 2
        } else {
            p + 1
        };
        if from < s.len() && run_end(s, from) == s.len() {
            let n = digits_value(s.subrange(from, s.len() as int)) as int;
            if signed && s[p + 1] == '-' {
                Some(-n)
            } else {
                Some(n)
            }
        } else {
            None
        }
    } else {
        None
    }
}

/// The double that a numeral stands for: an optional sign, digits with an
/// optional point among them, and an optional exponent.
pub open spec fn double_of(s: Seq<char>) -> Option<Float64> {
    let f = fraction_start(s);
    let end = run_end(s, f);
    match exponent(s, end) {
        Some(e) => if mantissa(s).len() > 0 {
            Some(
                Float64::with_sign(
                    decimal_magnitude(digits_value(mantissa(s)) as int, e - (end - f)),
                    s.len() > 0 && s[0] == '-',
                ),
            )
        } else {
            None
        },
        None => None,
    }
}

// ---------------------------------------------------------------------------
// Numbers out of range

proof fn lemma_power10(n: nat)
    ensures
        power10(n) > 0,
        power10(n) >= pow2(3 * n),
    decreases n,
{
    lemma_pow2_pos(3 * n);
    if n == 0 {
        vstd::arithmetic::power2::lemma2_to64();
    } else {
        let m = (n - 1) as nat;
        lemma_power10(m);
        lemma_pow2_unfold(3 * n);
        lemma_pow2_unfold((3 * n - 1) as nat);
        lemma_pow2_unfold((3 * n - 2) as nat);
    }
}

proof fn lemma_power10_adds(a: nat, b: nat)
    ensures
        power10(a + b) == power10(a) * power10(b),
    decreases a,
{
    if a > 0 {
        lemma_power10_adds((a - 1) as nat, b);
        let x = power10((a - 1) as nat);
        let y = power10(b);
        assert((10 * x) * y == 10 * (x * y)) by (nonlinear_arith);
    } else {
        assert(1 * power10(b) == power10(b));
    }
}

/// What is at least `2^1024` rounds to infinity.
proof fn lemma_huge(num: int, den: int)
    requires
        den > 0,
        num >= den * pow2(1024),
    ensures
        nearest(num * pow2(1074), den) == INFINITY,
{
    let p = pow2(1074) as int;
    let n = num * p;
    vstd::arithmetic::power2::lemma2_to64();
    vstd::arithmetic::power2::lemma2_to64_rest();
    lemma_pow2_pos(1074);
    lemma_pow2_pos(2046);
    lemma_pow2_adds(1024, 1074);
    lemma_pow2_adds(52, 2046);
    assert(pow2(52) == STEP);
    let a = pow2(1024) as int;
    let b = pow2(2046) as int;
    assert(n >= (den * STEP) * b) by (nonlinear_arith)
        requires
            n == num * p,
            num >= den * a,
            a * p == STEP * b,
            p > 0,
            den > 0,
    ;
    assert(n >= 0) by (nonlinear_arith)
        requires
            n >= (den * STEP) * b,
            den > 0,
            b > 0,
    ;
    lemma_nearest_from_skip(n, den, 0, 2046);
    assert(pow2(0) == 1);
    assert(den * pow2(0) == den);
    let u = den * b;
    assert(u > 0) by (nonlinear_arith)
        requires
            u == den * b,
            den > 0,
            b > 0,
    ;
    assert(n >= u * STEP) by (nonlinear_arith)
        requires
            n >= (den * STEP) * b,
            u == den * b,
    ;
    lemma_nearest_from_lower(n, u, 2046);
    lemma_nearest_from_bound(n, u, 2046);
}

/// What is below `2^-1075` rounds to zero.
proof fn lemma_tiny(num: int, den: int)
    requires
        num >= 0,
        2 * (num * pow2(1074)) < den,
    ensures
        nearest(num * pow2(1074), den) == 0,
{
    let n = num * pow2(1074);
    lemma_pow2_pos(1074);
    assert(n >= 0) by (nonlinear_arith)
        requires
            n == num * pow2(1074),
            num >= 0,
            pow2(1074) > 0,
    ;
    assert(n < den * LIMIT) by (nonlinear_arith)
        requires
            0 <= 2 * n < den,
    ;
    assert(n / den == 0 && n % den == n) by (nonlinear_arith)
        requires
            0 <= n < den,
    ;
}

proof fn lemma_large_exponent(m: int, e: int)
    requires
        m > 0,
        e > 400,
    ensures
        decimal_magnitude(m, e) == INFINITY,
{
    let t = power10(e as nat);
    lemma_power10(e as nat);
    lemma_pow2_adds(1024, (3 * e - 1024) as nat);
    lemma_pow2_pos(1024);
    lemma_pow2_pos((3 * e - 1024) as nat);
    let a = pow2(1024) as int;
    let b = pow2((3 * e - 1024) as nat) as int;
    assert(m * t >= 1 * a) by (nonlinear_arith)
        requires
            m > 0,
            t >= a * b,
            b > 0,
            a > 0,
    ;
    lemma_huge(m * t, 1);
}

proof fn lemma_small_exponent(m: int, e: int, d: nat)
    requires
        0 < m < power10(d),
        d + e < -400,
    ensures
        decimal_magnitude(m, e) == 0,
{
    let k = (-e) as nat;
    let rest = (k - d) as nat;
    lemma_power10_adds(d, rest);
    lemma_power10(rest);
    lemma_power10(d);
    lemma_pow2_adds(1075, (3 * rest - 1075) as nat);
    lemma_pow2_pos((3 * rest - 1075) as nat);
    lemma_pow2_unfold(1075);
    lemma_pow2_pos(1074);
    let p = pow2(1074) as int;
    let q = pow2((3 * rest - 1075) as nat) as int;
    let x = power10(d);
    let y = power10(rest);
    assert(2 * (m * p) < x * y) by (nonlinear_arith)
        requires
            0 < m < x,
            y >= (2 * p) * q,
            q > 0,
            p > 0,
    ;
    lemma_tiny(m, power10(k));
}

proof fn lemma_digits_bound(s: Seq<char>)
    requires
        all_digits(s),
    ensures
        0 <= digits_value(s) < power10(s.len()),
    decreases s.len(),
{
    if s.len() > 0 {
        let t = s.drop_last();
        assert forall|i: int| 0 <= i < t.len() implies is_digit(#[trigger] t[i]) by {
            assert(s[i] == t[i]);
        }
        lemma_digits_bound(t);
        assert(is_digit(s[s.len() - 1]));
    }
}

// ---------------------------------------------------------------------------
// Numbers in range

/// Scaling both sides of a quotient by powers of two, and its exponent against
/// them, leaves what it rounds to.
proof fn lemma_rescaled(num: int, den: int, a: nat, b: nat)
    requires
        num > 0,
        den > 0,
    ensures
        nearest_scaled(num * pow2(a), 2 * (den * pow2(b)), b - a + 1075) == nearest(
            num * pow2(1074),
            den,
        ),
{
    let n = num * pow2(1074);
    let ex = b - a + 1075;
    let pa = pow2(a) as int;
    let pb = pow2(b) as int;
    lemma_pow2_pos(a);
    lemma_pow2_pos(b);
    lemma_pow2_pos(1074);
    assert(n > 0) by (nonlinear_arith)
        requires
            n == num * pow2(1074),
            num > 0,
            pow2(1074) > 0,
    ;
    lemma_pow2_unfold(b + 1);
    if ex >= 0 {
        let c = pow2(b + 1) as int;
        lemma_pow2_pos(b + 1);
        lemma_pow2_adds(a, ex as nat);
        lemma_pow2_adds(1074, b + 1);
        let pe = pow2(ex as nat) as int;
        let p = pow2(1074) as int;
        assert((num * pa) * pe == (num * p) * c) by (nonlinear_arith)
            requires
                pa * pe == p * c,
        ;
        assert(2 * (den * pb) == den * c) by (nonlinear_arith)
            requires
                c == 2 * pb,
        ;
        lemma_nearest_from_scale(n, den, 0, c);
    } else {
        let k = (-ex) as nat;
        let c = pow2((a - 1074) as nat) as int;
        lemma_pow2_pos((a - 1074) as nat);
        lemma_pow2_adds(1074, (a - 1074) as nat);
        lemma_pow2_adds(b + 1, k);
        let pk = pow2(k) as int;
        let p = pow2(1074) as int;
        let d = pow2(b + 1) as int;
        assert(b + 1 + k == a - 1074);
        assert(num * pa == (num * p) * c) by (nonlinear_arith)
            requires
                pa == p * c,
        ;
        assert((2 * (den * pb)) * pk == den * c) by (nonlinear_arith)
            requires
                d == 2 * pb,
                d * pk == c,
        ;
        lemma_nearest_from_scale(n, den, 0, c);
    }
}

/// `2^63`.
pub const HIGH: u64 = 0x8000_0000_0000_0000;

/// The quotient of two numbers where it has 64 bits, and whether anything is
/// left over.
fn quotient(num: &Vec<u32>, den: &Vec<u32>) -> (r: (u64, bool))
    requires
        natural(den@) > 0,
        natural(num@) >= natural(den@) * HIGH,
        natural(num@) < natural(den@) * (2 * HIGH),
    ensures
        0 <= natural(num@) - r.0 * natural(den@) < natural(den@),
        r.1 == (natural(num@) - r.0 * natural(den@) > 0),
        r.0 >= HIGH,
{
    let ghost n = natural(num@);
    let ghost d = natural(den@);
    let mut step = trimmed(mul_add(den, 1, 0));
    let mut k: u32 = 0;
    let ghost top = d * HIGH;
    proof {
        vstd::arithmetic::power2::lemma2_to64();
        vstd::arithmetic::power2::lemma2_to64_rest();
        assert(d * 1 == d);
        assert(pow2(0) == 1);
    }
    while k < 63
        invariant
            k <= 63,
            natural(step@) == d * pow2(k as nat),
        decreases 63 - k,
    {
        step = doubled(&step);
        proof {
            lemma_pow2_unfold((k + 1) as nat);
            let p = pow2(k as nat) as int;
            assert(2 * (d * p) == d * (2 * p)) by (nonlinear_arith);
        }
        k = k + 1;
    }
    assert(natural(step@) == top) by {
        assert(pow2(63) == HIGH);
    }
    let mut r = trimmed(mul_add(num, 1, 0));
    let mut q: u64 = 0;
    let mut i: u32 = 0;
    proof {
        assert(n < 2 * top) by (nonlinear_arith)
            requires
                n < d * (2 * HIGH),
                top == d * HIGH,
        ;
        assert(n * 1 == n);
        assert(2 * 0 * top == 0) by (nonlinear_arith);
    }
    while i < 64
        invariant
            i <= 64,
            d > 0,
            natural(step@) == top,
            top > 0,
            0 <= natural(r@) < 2 * top,
            natural(r@) == n * pow2(i as nat) - 2 * q * top,
            q < pow2(i as nat),
            n >= top,
            i > 0 ==> 2 * q >= pow2(i as nat),
        decreases 64 - i,
    {
        let ghost p = pow2(i as nat) as int;
        let ghost before = natural(r@);
        let ghost qb = q as int;
        proof {
            lemma_pow2_unfold((i + 1) as nat);
            vstd::arithmetic::power2::lemma2_to64();
            vstd::arithmetic::power2::lemma2_to64_rest();
            vstd::arithmetic::power2::lemma_pow2_strictly_increases(i as nat, 64);
            assert(pow2(64) == 0x1_0000_0000_0000_0000);
        }
        let bit = !less_than(&r, &step);
        if bit {
            r = difference(&r, &step);
        }
        r = doubled(&r);
        proof {
            if i < 63 {
                vstd::arithmetic::power2::lemma_pow2_strictly_increases((i + 1) as nat, 64);
            }
        }
        if bit {
            q = q + q + 1;
            assert(natural(r@) == n * (2 * p) - 2 * q * top) by (nonlinear_arith)
                requires
                    natural(r@) == 2 * (before - top),
                    before == n * p - 2 * qb * top,
                    q == 2 * qb + 1,
            ;
        } else {
            q = q + q;
            assert(natural(r@) == n * (2 * p) - 2 * q * top) by (nonlinear_arith)
                requires
                    natural(r@) == 2 * before,
                    before == n * p - 2 * qb * top,
                    q == 2 * qb,
            ;
        }
        i = i + 1;
    }
    let sticky = !is_zero(&r);
    proof {
        vstd::arithmetic::power2::lemma2_to64_rest();
        let big = pow2(64) as int;
        let left = natural(r@);
        let gap = n - q * d;
        assert(big == 2 * HIGH);
        assert(left == gap * big) by (nonlinear_arith)
            requires
                left == n * big - 2 * q * top,
                top == d * HIGH,
                big == 2 * HIGH,
                gap == n - q * d,
        ;
        assert(0 <= gap < d && (gap > 0 <==> left > 0)) by (nonlinear_arith)
            requires
                left == gap * big,
                0 <= left < 2 * top,
                top == d * HIGH,
                big == 2 * HIGH,
                big > 0,
        ;
    }
    (q, sticky)
}

/// The magnitude of the double nearest to a positive quotient.
fn round_quotient(top: Vec<u32>, bottom: Vec<u32>) -> (m: u64)
    requires
        natural(top@) > 0,
        natural(bottom@) > 0,
    ensures
        m == nearest(natural(top@) * pow2(1074), natural(bottom@)),
{
    let ghost n0 = natural(top@);
    let ghost d0 = natural(bottom@);
    let mut num = trimmed(mul_add(&top, 1, 0));
    let mut den = trimmed(mul_add(&bottom, 1, 0));
    let mut a: u32 = 0;
    let mut b: u32 = 0;
    proof {
        vstd::arithmetic::power2::lemma2_to64();
        assert(n0 * 1 == n0);
        assert(d0 * 1 == d0);
    }
    let mut low = shifted(&den);
    while !less_than(&num, &doubled(&low))
        invariant
            n0 > 0,
            d0 > 0,
            n0 == natural(top@),
            d0 == natural(bottom@),
            natural(num@) == n0,
            natural(den@) == d0 * pow2(b as nat),
            natural(low@) == natural(den@) * HIGH,
            b <= 1100,
        decreases 1200 - b,
    {
        proof {
            lemma_pow2_pos(b as nat);
            lemma_pow2_unfold((b + 1) as nat);
        }
        if b == 1100 {
            proof {
                let p = pow2(1100) as int;
                let x = pow2(1024) as int;
                lemma_pow2_adds(1024, 76);
                lemma_pow2_pos(76);
                lemma_pow2_pos(1024);
                assert(n0 >= d0 * x) by (nonlinear_arith)
                    requires
                        n0 >= 2 * ((d0 * p) * HIGH),
                        p == x * pow2(76),
                        pow2(76) > 0,
                        x > 0,
                        d0 > 0,
                ;
                lemma_huge(n0, d0);
            }
            return INFINITY;
        }
        den = doubled(&den);
        low = doubled(&low);
        proof {
            let p = pow2(b as nat) as int;
            assert(2 * (d0 * p) == d0 * (2 * p)) by (nonlinear_arith);
            let x = d0 * p;
            assert(2 * (x * HIGH) == (2 * x) * HIGH) by (nonlinear_arith);
        }
        b = b + 1;
    }
    proof {
        lemma_pow2_pos(b as nat);
        assert(natural(den@) > 0) by (nonlinear_arith)
            requires
                natural(den@) == d0 * pow2(b as nat),
                d0 > 0,
                pow2(b as nat) > 0,
        ;
    }
    let ghost dd = natural(den@);
    while less_than(&num, &low)
        invariant
            n0 > 0,
            d0 > 0,
            n0 == natural(top@),
            d0 == natural(bottom@),
            dd > 0,
            natural(den@) == dd,
            dd == d0 * pow2(b as nat),
            natural(num@) == n0 * pow2(a as nat),
            natural(low@) == dd * HIGH,
            natural(num@) < 2 * natural(low@),
            a <= 3000,
            b <= 1100,
        decreases 3100 - a,
    {
        proof {
            lemma_pow2_unfold((a + 1) as nat);
            lemma_pow2_pos(a as nat);
        }
        if a == 3000 {
            proof {
                let p = pow2(3000) as int;
                let x = pow2(1075) as int;
                let y = pow2(1925) as int;
                lemma_pow2_adds(1075, 1925);
                lemma_pow2_unfold(1075);
                lemma_pow2_pos(1074);
                lemma_pow2_pos(1925);
                lemma_pow2_pos(b as nat);
                lemma_pow2_adds(b as nat, (1861 - b) as nat);
                lemma_pow2_adds(64, 1861);
                vstd::arithmetic::power2::lemma2_to64_rest();
                lemma_pow2_pos((1861 - b) as nat);
                let pb = pow2(b as nat) as int;
                let z = pow2((1861 - b) as nat) as int;
                let w = pow2(1074) as int;
                assert(2 * (n0 * w) < d0) by (nonlinear_arith)
                    requires
                        n0 * p < (d0 * pb) * HIGH,
                        p == x * y,
                        x == 2 * w,
                        y == (2 * HIGH) * (pb * z),
                        w > 0,
                        pb > 0,
                        z > 0,
                        n0 > 0,
                        d0 > 0,
                ;
                lemma_tiny(n0, d0);
            }
            return 0;
        }
        num = doubled(&num);
        proof {
            let p = pow2(a as nat) as int;
            assert(2 * (n0 * p) == n0 * (2 * p)) by (nonlinear_arith);
        }
        a = a + 1;
    }
    let ghost nn = natural(num@);
    proof {
        assert(2 * (dd * HIGH) == dd * (2 * HIGH)) by (nonlinear_arith);
    }
    let (q, sticky) = quotient(&num, &den);
    let s: u128 = (q / 2) as u128;
    let guard = q % 2 == 1;
    proof {
        let unit = 2 * dd;
        let g: int = if guard {
            1
        } else {
            0
        };
        assert(2 * (q / 2) + g == q);
        assert(2 * nn - (2 * (q / 2) + g) * unit == 2 * (nn - q * dd)) by (nonlinear_arith)
            requires
                unit == 2 * dd,
                2 * (q / 2) + g == q,
        ;
        assert(describes(s as int, guard, sticky, nn, unit));
        lemma_rescaled(n0, d0, a as nat, b as nat);
    }
    let e: i32 = b as i32 - a as i32 + 1075;
    round_scaled(s, guard, sticky, e, Ghost(nn), Ghost(2 * dd))
}

/// A number times `2^63`.
fn shifted(v: &Vec<u32>) -> (r: Vec<u32>)
    ensures
        natural(r@) == natural(v@) * HIGH,
{
    let a = mul_add(v, 0x8000_0000, 0);
    let b = mul_add(&a, 0x8000_0000, 0);
    let c = mul_add(&b, 2, 0);
    proof {
        let x = natural(v@);
        assert(((x * 0x8000_0000) * 0x8000_0000) * 2 == x * HIGH) by (nonlinear_arith);
    }
    trimmed(c)
}

/// The magnitude of the double nearest to `m * 10^e`, where `m` has at most `d`
/// decimal digits.
fn magnitude_of(m: Vec<u32>, d: usize, e: i128) -> (r: u64)
    requires
        natural(m@) < power10(d as nat),
        -0x1000_0000_0000_0000_0000_0000 < e < 0x1000_0000_0000_0000_0000_0000,
    ensures
        r == decimal_magnitude(natural(m@), e as int),
{
    proof {
        lemma_natural_bound(m@);
    }
    if is_zero(&m) {
        return 0;
    }
    if e > 400 {
        proof {
            lemma_large_exponent(natural(m@), e as int);
        }
        return INFINITY;
    }
    if e + (d as i128) < -400 {
        proof {
            lemma_small_exponent(natural(m@), e as int, d as nat);
        }
        return 0;
    }
    let mut one: Vec<u32> = Vec::new();
    one.push(1);
    proof {
        reveal_with_fuel(natural, 2);
    }
    let mut i: i128 = 0;
    if e >= 0 {
        let ghost m0 = natural(m@);
        let mut num = m;
        assert(m0 * 1 == m0);
        while i < e
            invariant
                0 <= i <= e,
                natural(num@) == m0 * power10(i as nat),
            decreases e - i,
        {
            num = trimmed(mul_add(&num, 10, 0));
            proof {
                let p = power10(i as nat);
                assert((m0 * p) * 10 == m0 * (10 * p)) by (nonlinear_arith);
            }
            i = i + 1;
        }
        proof {
            lemma_power10(e as nat);
            assert(natural(num@) > 0) by (nonlinear_arith)
                requires
                    natural(num@) == m0 * power10(e as nat),
                    m0 > 0,
                    power10(e as nat) > 0,
            ;
        }
        round_quotient(num, one)
    } else {
        let mut den = one;
        let k: i128 = -e;
        while i < k
            invariant
                0 <= i <= k,
                natural(den@) == power10(i as nat),
            decreases k - i,
        {
            den = trimmed(mul_add(&den, 10, 0));
            i = i + 1;
        }
        proof {
            lemma_power10((-e) as nat);
        }
        round_quotient(m, den)
    }
}

// ---------------------------------------------------------------------------
// Numerals

proof fn lemma_run_end(s: Seq<char>, p: int)
    requires
        0 <= p <= s.len(),
    ensures
        p <= run_end(s, p) <= s.len(),
        forall|i: int| p <= i < run_end(s, p) ==> is_digit(#[trigger] s[i]),
    decreases s.len() - p,
{
    if p < s.len() && is_digit(s[p]) {
        lemma_run_end(s, p + 1);
    }
}

fn find_run_end(s: &Vec<char>, from: usize) -> (r: usize)
    requires
        from <= s@.len(),
    ensures
        r == run_end(s@, from as int),
        from <= r <= s@.len(),
        forall|i: int| from <= i < r ==> is_digit(#[trigger] s@[i]),
{
    proof {
        lemma_run_end(s@, from as int);
    }
    let mut p: usize = from;
    while p < s.len() && '0' <= s[p] && s[p] <= '9'
        invariant
            from <= p <= s@.len(),
            run_end(s@, p as int) == run_end(s@, from as int),
        decreases s@.len() - p,
    {
        p = p + 1;
    }
    p
}

/// Appends decimal digits to a number.
fn add_digits(m: Vec<u32>, s: &Vec<char>, from: usize, to: usize, before: Ghost<Seq<char>>) -> (r:
    Vec<u32>)
    requires
        from <= to <= s@.len(),
        forall|i: int| from <= i < to ==> is_digit(#[trigger] s@[i]),
        natural(m@) == digits_value(before@),
    ensures
        natural(r@) == digits_value(before@ + s@.subrange(from as int, to as int)),
{
    let mut out = m;
    let mut i: usize = from;
    assert(before@ + s@.subrange(from as int, from as int) =~= before@);
    while i < to
        invariant
            from <= i <= to <= s@.len(),
            forall|k: int| from <= k < to ==> is_digit(#[trigger] s@[k]),
            natural(out@) == digits_value(before@ + s@.subrange(from as int, i as int)),
        decreases to - i,
    {
        let c: char = s[i];
        let d: u32 = c as u32 - '0' as u32;
        out = trimmed(mul_add(&out, 10, d));
        proof {
            let t = before@ + s@.subrange(from as int, i + 1);
            assert(t.drop_last() =~= before@ + s@.subrange(from as int, i as int));
            assert(t.last() == c);
        }
        i = i + 1;
    }
    out
}

/// The greatest exponent that is told apart from greater ones.
pub const EXPONENT_CAP: u128 = 0x100_0000_0000_0000_0000_0000;

/// The value of decimal digits, cut off.
fn capped_value(s: &Vec<char>, from: usize, to: usize) -> (r: u128)
    requires
        from <= to <= s@.len(),
        forall|i: int| from <= i < to ==> is_digit(#[trigger] s@[i]),
    ensures
        r <= EXPONENT_CAP,
        r < EXPONENT_CAP ==> r == digits_value(s@.subrange(from as int, to as int)),
        r == EXPONENT_CAP ==> digits_value(s@.subrange(from as int, to as int)) >= EXPONENT_CAP,
{
    let mut out: u128 = 0;
    let mut i: usize = from;
    assert(s@.subrange(from as int, from as int) =~= seq![]);
    while i < to
        invariant
            from <= i <= to <= s@.len(),
            forall|k: int| from <= k < to ==> is_digit(#[trigger] s@[k]),
            out <= EXPONENT_CAP,
            out < EXPONENT_CAP ==> out == digits_value(s@.subrange(from as int, i as int)),
            out == EXPONENT_CAP ==> digits_value(s@.subrange(from as int, i as int))
                >= EXPONENT_CAP,
        decreases to - i,
    {
        let c: char = s[i];
        let d: u128 = (c as u32 - '0' as u32) as u128;
        proof {
            let t = s@.subrange(from as int, i + 1);
            assert(t.drop_last() =~= s@.subrange(from as int, i as int));
            assert(t.last() == c);
        }
        if out < EXPONENT_CAP {
            out = out * 10 + d;
            if out > EXPONENT_CAP {
                out = EXPONENT_CAP;
            }
        }
        i = i + 1;
    }
    out
}

/// Whether an exponent is what was read of it: its digits' value, cut off, and
/// its sign.
pub open spec fn read_as(e: int, above: u128, below_zero: bool) -> bool {
    let v = if below_zero {
        -e
    } else {
        e
    };
    &&& above <= EXPONENT_CAP
    &&& above < EXPONENT_CAP ==> v == above
    &&& above == EXPONENT_CAP ==> v >= EXPONENT_CAP
}

fn parse_exponent(s: &Vec<char>, end: usize) -> (r: Option<(u128, bool)>)
    requires
        end <= s@.len(),
    ensures
        match r {
            Some((above, below_zero)) => exponent(s@, end as int) matches Some(e) && read_as(
                e,
                above,
                below_zero,
            ),
            None => exponent(s@, end as int) is None,
        },
{
    let n: usize = s.len();
    if end >= n {
        return Some((0, false));
    }
    if !(s[end] == 'e' || s[end] == 'E') {
        return None;
    }
    let signed = end + 1 < n && (s[end + 1] == '+' || s[end + 1] == '-');
    let from: usize = if signed {
        end + 2
    } else {
        end + 1
    };
    if from >= n {
        return None;
    }
    if find_run_end(s, from) != n {
        return None;
    }
    let above: u128 = capped_value(s, from, n);
    let below_zero = signed && s[end + 1] == '-';
    Some((above, below_zero))
}

/// Cutting an exponent off leaves what a numeral rounds to.
proof fn lemma_cut_off(m: int, d: nat, e: int, above: u128, below_zero: bool, fraction: int)
    requires
        0 <= m < power10(d),
        read_as(e, above, below_zero),
        0 <= fraction <= d <= usize::MAX,
    ensures
        decimal_magnitude(m, e - fraction) == decimal_magnitude(
            m,
            (if below_zero {
                -above
            } else {
                above as int
            }) - fraction,
        ),
{
    if above == EXPONENT_CAP && m > 0 {
        if below_zero {
            lemma_small_exponent(m, e - fraction, d);
            lemma_small_exponent(m, -above - fraction, d);
        } else {
            lemma_large_exponent(m, e - fraction);
            lemma_large_exponent(m, above - fraction);
        }
    }
}

/// The double that a numeral stands for.
pub fn parse_double(text: &str) -> (r: Option<Float64>)
    ensures
        r == double_of(text@),
{
    let s = chars_of(text);
    let n: usize = s.len();
    let negative = n > 0 && s[0] == '-';
    let start: usize = if n > 0 && (s[0] == '+' || s[0] == '-') {
        1
    } else {
        0
    };
    let a: usize = find_run_end(&s, start);
    let f: usize = if a < n && s[a] == '.' {
        a + 1
    } else {
        a
    };
    let end: usize = find_run_end(&s, f);
    let (above, below_zero): (u128, bool) = match parse_exponent(&s, end) {
        Some(x) => x,
        None => {
            return None;
        },
    };
    let ghost e = exponent(s@, end as int)->0;
    if a == start && end == f {
        assert(mantissa(s@).len() == 0);
        return None;
    }
    let m = read_mantissa(&s, start, a, f, end);
    let ghost value = digits_value(mantissa(s@)) as int;
    let fraction: usize = end - f;
    let d: usize = (a - start) + fraction;
    let shift: i128 = fraction as i128;
    let power: i128 = if below_zero {
        -(above as i128) - shift
    } else {
        above as i128 - shift
    };
    let magnitude: u64 = magnitude_of(m, d, power);
    proof {
        lemma_cut_off(value, d as nat, e, above, below_zero, fraction as int);
        lemma_magnitude_bound(value, e - fraction);
        assert(mantissa(s@).len() > 0);
    }
    let bits: u64 = if negative {
        magnitude + 0x8000_0000_0000_0000
    } else {
        magnitude
    };
    Some(Float64::from_bits(bits))
}

/// The digits before and behind the point as a number.
fn read_mantissa(s: &Vec<char>, start: usize, a: usize, f: usize, end: usize) -> (r: Vec<u32>)
    requires
        start == body_start(s@),
        a == run_end(s@, start as int),
        f == fraction_start(s@),
        end == run_end(s@, f as int),
        start <= a <= f <= end <= s@.len(),
        forall|i: int| start <= i < a ==> is_digit(#[trigger] s@[i]),
        forall|i: int| f <= i < end ==> is_digit(#[trigger] s@[i]),
    ensures
        natural(r@) == digits_value(mantissa(s@)),
        natural(r@) < power10(((a - start) + (end - f)) as nat),
{
    let ghost whole = s@.subrange(start as int, a as int);
    let ghost part = s@.subrange(f as int, end as int);
    let empty: Vec<u32> = Vec::new();
    let ghost none: Seq<char> = seq![];
    let m = add_digits(empty, s, start, a, Ghost(none));
    assert(none + whole =~= whole);
    let m = add_digits(m, s, f, end, Ghost(whole));
    proof {
        let digits = mantissa(s@);
        assert(digits == whole + part);
        assert forall|i: int| 0 <= i < digits.len() implies is_digit(#[trigger] digits[i]) by {
            if i < whole.len() {
                assert(digits[i] == s@[start + i]);
            } else {
                assert(digits[i] == s@[f + (i - whole.len())]);
            }
        }
        lemma_digits_bound(digits);
    }
    m
}

proof fn lemma_magnitude_bound(m: int, e: int)
    requires
        m >= 0,
    ensures
        0 <= decimal_magnitude(m, e) <= INFINITY,
{
    if m > 0 {
        lemma_pow2_pos(1074);
        if e >= 0 {
            lemma_power10(e as nat);
            let x = power10(e as nat);
            assert(m * x * pow2(1074) >= 0) by (nonlinear_arith)
                requires
                    m > 0,
                    x > 0,
                    pow2(1074) > 0,
            ;
            lemma_nearest_from_bound(m * x * pow2(1074), 1, 0);
        } else {
            lemma_power10((-e) as nat);
            assert(m * pow2(1074) >= 0) by (nonlinear_arith)
                requires
                    m > 0,
                    pow2(1074) > 0,
            ;
            lemma_nearest_from_bound(m * pow2(1074), power10((-e) as nat), 0);
        }
    }
}

} // verus!
