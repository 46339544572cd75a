//! IEEE-754 double precision numbers held as their bit pattern.
//!
//! The engine computes with doubles through integer arithmetic on the bits,
//! so that every result is a function of its operands that can be stated:
//! the exact real result, rounded to the nearest double, ties to even.
//!
//! A finite double is an integer multiple of `2^-1074`, the smallest positive
//! double. `units` gives that integer, and all exact results are stated in it.

use vstd::arithmetic::power2::{lemma_pow2_adds, lemma_pow2_pos, lemma_pow2_unfold, pow2};
use vstd::prelude::*;

verus! {

/// A double precision number, as its IEEE-754 bit pattern.
///
/// `==` on this type compares bit patterns; the numeric comparisons are
/// `num_eq`, `num_lt` and `num_le`.
#[derive(Clone, Copy, Debug, PartialEq, Eq, Structural)]
pub struct Float64 {
    pub bits: u64,
}

/// The sign bit.
pub const SIGN: u64 = 0x8000_0000_0000_0000;

/// The magnitude of an infinity; larger magnitudes are NaNs.
pub const INFINITY: u64 = 0x7FF0_0000_0000_0000;

/// The NaN that arithmetic produces.
pub const NAN: u64 = 0x7FF8_0000_0000_0000;

/// `2^52`: one step of the exponent field.
pub const STEP: u64 = 0x0010_0000_0000_0000;

/// `2^53`: every significand lies below it.
pub const LIMIT: u64 = 0x0020_0000_0000_0000;

/// The significand of a magnitude.
pub open spec fn significand(m: int) -> int {
    if m < STEP {
        m
    } else {
        m % STEP as int + STEP
    }
}

/// The power of two that the significand of a magnitude is multiplied by,
/// counted from `2^-1074`.
pub open spec fn scale(m: int) -> nat {
    if m < STEP {
        0
    } else {
        (m / STEP as int - 1) as nat
    }
}

/// The value of a finite magnitude as a multiple of `2^-1074`.
pub open spec fn units(m: int) -> int {
    significand(m) * pow2(scale(m))
}

/// `num / unit` rounded to the nearest integer, ties to even.
pub open spec fn half_even(num: int, unit: int) -> int {
    let q = num / unit;
    let rem = num % unit;
    if 2 * rem < unit {
        q
    } else if 2 * rem > unit {
        q + 1
    } else {
        q + q % 2
    }
}

/// The magnitude nearest to `num / unit * 2^k` (counted in `2^-1074`), where
/// `2^k` is the coarsest spacing known not to exceed that of the result.
pub open spec fn nearest_from(num: int, unit: int, k: int) -> int
    decreases (if num > unit { num - unit } else { 0 }),
{
    if unit <= 0 || num < unit * LIMIT {
        let m = k * STEP + half_even(num, unit);
        if m >= INFINITY {
            INFINITY as int
        } else {
            m
        }
    } else {
        nearest_from(num, 2 * unit, k + 1)
    }
}

/// The magnitude of the double nearest to the positive rational
/// `num / den * 2^-1074`, ties to even; `INFINITY` when that is out of range.
pub open spec fn nearest(num: int, den: int) -> int {
    nearest_from(num, den, 0)
}

/// `nearest` of `num / den * 2^e`.
pub open spec fn nearest_scaled(num: int, den: int, e: int) -> int {
    if e >= 0 {
        nearest(num * pow2(e as nat), den)
    } else {
        nearest(num, den * pow2((-e) as nat))
    }
}

impl Float64 {
    pub open spec fn negative(self) -> bool {
        self.bits >= SIGN
    }

    pub open spec fn magnitude(self) -> int {
        if self.bits >= SIGN {
            self.bits - SIGN
        } else {
            self.bits as int
        }
    }

    pub open spec fn is_nan(self) -> bool {
        self.magnitude() > INFINITY
    }

    pub open spec fn is_infinite(self) -> bool {
        self.magnitude() == INFINITY
    }

    /// A magnitude that orders doubles: the sign applied to the bits.
    pub open spec fn rank(self) -> int {
        if self.negative() {
            -self.magnitude()
        } else {
            self.magnitude()
        }
    }

    /// The value of a finite double, as a multiple of `2^-1074`.
    pub open spec fn value(self) -> int {
        if self.negative() {
            -units(self.magnitude())
        } else {
            units(self.magnitude())
        }
    }

    pub open spec fn with_sign(m: int, negative: bool) -> Float64 {
        Float64 { bits: (if negative { m + SIGN } else { m }) as u64 }
    }

    pub open spec fn spec_neg(self) -> Float64 {
        Float64::with_sign(self.magnitude(), !self.negative())
    }

    pub open spec fn num_eq(self, other: Float64) -> bool {
        !self.is_nan() && !other.is_nan() && self.rank() == other.rank()
    }

    pub open spec fn num_lt(self, other: Float64) -> bool {
        !self.is_nan() && !other.is_nan() && self.rank() < other.rank()
    }

    pub open spec fn num_le(self, other: Float64) -> bool {
        !self.is_nan() && !other.is_nan() && self.rank() <= other.rank()
    }

    /// IEEE-754 addition.
    pub open spec fn spec_add(self, other: Float64) -> Float64 {
        if self.is_nan() || other.is_nan() {
            Float64 { bits: NAN }
        } else if self.is_infinite() {
            if other.is_infinite() && self.negative() != other.negative() {
                Float64 { bits: NAN }
            } else {
                self
            }
        } else if other.is_infinite() {
            other
        } else {
            let sum = self.value() + other.value();
            if sum == 0 {
                Float64::with_sign(0, self.negative() && other.negative())
            } else if sum > 0 {
                Float64::with_sign(nearest(sum, 1), false)
            } else {
                Float64::with_sign(nearest(-sum, 1), true)
            }
        }
    }

    /// IEEE-754 subtraction.
    pub open spec fn spec_sub(self, other: Float64) -> Float64 {
        if other.is_nan() {
            Float64 { bits: NAN }
        } else {
            self.spec_add(other.spec_neg())
        }
    }

    /// IEEE-754 multiplication.
    pub open spec fn spec_mul(self, other: Float64) -> Float64 {
        let negative = self.negative() != other.negative();
        if self.is_nan() || other.is_nan() {
            Float64 { bits: NAN }
        } else if self.is_infinite() || other.is_infinite() {
            if self.magnitude() == 0 || other.magnitude() == 0 {
                Float64 { bits: NAN }
            } else {
                Float64::with_sign(INFINITY as int, negative)
            }
        } else if self.magnitude() == 0 || other.magnitude() == 0 {
            Float64::with_sign(0, negative)
        } else {
            Float64::with_sign(
                nearest(units(self.magnitude()) * units(other.magnitude()), pow2(1074) as int),
                negative,
            )
        }
    }

    /// IEEE-754 division.
    pub open spec fn spec_div(self, other: Float64) -> Float64 {
        let negative = self.negative() != other.negative();
        if self.is_nan() || other.is_nan() {
            Float64 { bits: NAN }
        } else if self.is_infinite() {
            if other.is_infinite() {
                Float64 { bits: NAN }
            } else {
                Float64::with_sign(INFINITY as int, negative)
            }
        } else if other.is_infinite() {
            Float64::with_sign(0, negative)
        } else if other.magnitude() == 0 {
            if self.magnitude() == 0 {
                Float64 { bits: NAN }
            } else {
                Float64::with_sign(INFINITY as int, negative)
            }
        } else if self.magnitude() == 0 {
            Float64::with_sign(0, negative)
        } else {
            Float64::with_sign(
                nearest(units(self.magnitude()) * pow2(1074), units(other.magnitude())),
                negative,
            )
        }
    }

    pub open spec fn spec_max(self, other: Float64) -> Float64 {
        if self.is_nan() || self.num_lt(other) {
            other
        } else {
            self
        }
    }

    pub open spec fn spec_min(self, other: Float64) -> Float64 {
        if self.is_nan() || other.num_lt(self) {
            other
        } else {
            self
        }
    }

    pub open spec fn spec_clamp(self, lo: Float64, hi: Float64) -> Float64 {
        if self.num_lt(lo) {
            lo
        } else if hi.num_lt(self) {
            hi
        } else {
            self
        }
    }

    /// The integer part of a finite double.
    pub open spec fn truncated(self) -> int {
        let n = units(self.magnitude()) / pow2(1074) as int;
        if self.negative() {
            -n
        } else {
            n
        }
    }

    /// The nearest integer, halves away from zero, drawn into the range of
    /// `u64`; zero for a NaN.
    pub open spec fn rounded_u64(self) -> int {
        if self.is_nan() || self.negative() {
            0
        } else if self.is_infinite() {
            u64::MAX as int
        } else {
            let n = (2 * units(self.magnitude()) + pow2(1074)) / (2 * pow2(1074) as int);
            if n > u64::MAX {
                u64::MAX as int
            } else {
                n
            }
        }
    }

    /// The double nearest to an integer.
    pub open spec fn spec_from_int(n: int) -> Float64 {
        if n == 0 {
            Float64 { bits: 0 }
        } else if n > 0 {
            Float64::with_sign(nearest(n * pow2(1074), 1), false)
        } else {
            Float64::with_sign(nearest(-n * pow2(1074), 1), true)
        }
    }
}

// ---------------------------------------------------------------------------
// Facts about rounding

/// Rounding never exceeds the range of a magnitude.
pub proof fn lemma_nearest_from_bound(num: int, unit: int, k: int)
    requires
        num >= 0,
        unit > 0,
        k >= 0,
    ensures
        0 <= nearest_from(num, unit, k) <= INFINITY,
    decreases (if num > unit { num - unit } else { 0 }),
{
    if num < unit * LIMIT {
        lemma_half_even_bound(num, unit);
    } else {
        assert(num > unit) by (nonlinear_arith)
            requires
                num >= unit * LIMIT,
                unit > 0,
        ;
        lemma_nearest_from_bound(num, 2 * unit, k + 1);
    }
}

proof fn lemma_half_even_bound(num: int, unit: int)
    requires
        num >= 0,
        unit > 0,
        num < unit * LIMIT,
    ensures
        0 <= half_even(num, unit) <= LIMIT,
        num >= unit * STEP ==> half_even(num, unit) >= STEP,
{
    let q = num / unit;
    assert(0 <= q < LIMIT) by (nonlinear_arith)
        requires
            num >= 0,
            unit > 0,
            num < unit * LIMIT,
            q == num / unit,
    ;
    if num >= unit * STEP {
        assert(q >= STEP) by (nonlinear_arith)
            requires
                unit > 0,
                num >= unit * STEP,
                q == num / unit,
        ;
    }
}

/// Scaling numerator and unit alike changes nothing.
pub(crate) proof fn lemma_nearest_from_scale(num: int, unit: int, k: int, c: int)
    requires
        num >= 0,
        unit > 0,
        c > 0,
    ensures
        nearest_from(num * c, unit * c, k) == nearest_from(num, unit, k),
    decreases (if num > unit { num - unit } else { 0 }),
{
    assert(unit * c > 0) by (nonlinear_arith)
        requires
            unit > 0,
            c > 0,
    ;
    assert((num < unit * LIMIT) == (num * c < unit * c * LIMIT)) by (nonlinear_arith)
        requires
            c > 0,
    ;
    if num < unit * LIMIT {
        let q = num / unit;
        let rem = num % unit;
        vstd::arithmetic::div_mod::lemma_fundamental_div_mod(num, unit);
        assert(num * c == (unit * c) * q + rem * c) by (nonlinear_arith)
            requires
                num == unit * q + rem,
        ;
        assert(0 <= rem * c < unit * c) by (nonlinear_arith)
            requires
                0 <= rem < unit,
                c > 0,
        ;
        assert(num * c == q * (unit * c) + rem * c) by (nonlinear_arith)
            requires
                num * c == (unit * c) * q + rem * c,
        ;
        vstd::arithmetic::div_mod::lemma_fundamental_div_mod_converse(num * c, unit * c, q, rem * c);
        assert((2 * rem < unit) == (2 * (rem * c) < unit * c)) by (nonlinear_arith)
            requires
                c > 0,
        ;
        assert((2 * rem > unit) == (2 * (rem * c) > unit * c)) by (nonlinear_arith)
            requires
                c > 0,
        ;
    } else {
        assert(num > unit) by (nonlinear_arith)
            requires
                num >= unit * LIMIT,
                unit > 0,
        ;
        assert((2 * unit) * c == 2 * (unit * c)) by (nonlinear_arith);
        lemma_nearest_from_scale(num, 2 * unit, k + 1, c);
    }
}

/// A number of at least `2^52 * 2^j` units is not rounded at a finer spacing
/// than `2^j`.
pub(crate) proof fn lemma_nearest_from_skip(num: int, unit: int, i: nat, j: nat)
    requires
        unit > 0,
        i <= j,
        num >= unit * STEP * pow2(j),
    ensures
        nearest_from(num, unit * pow2(i), i as int) == nearest_from(num, unit * pow2(j), j as int),
    decreases j - i,
{
    if i < j {
        lemma_pow2_pos(i);
        lemma_pow2_unfold((i + 1) as nat);
        lemma_pow2_adds(i + 1, (j - i - 1) as nat);
        lemma_pow2_pos((j - i - 1) as nat);
        let p = pow2(i) as int;
        let r = pow2((j - i - 1) as nat) as int;
        assert(pow2(j) == 2 * p * r);
        assert(unit * STEP * (2 * p * r) >= (unit * p) * LIMIT) by (nonlinear_arith)
            requires
                unit > 0,
                p > 0,
                r > 0,
                STEP == 0x0010_0000_0000_0000,
                LIMIT == 0x0020_0000_0000_0000,
        ;
        assert(unit * p > 0) by (nonlinear_arith)
            requires
                unit > 0,
                p > 0,
        ;
        assert(2 * (unit * p) == unit * (2 * p)) by (nonlinear_arith);
        lemma_nearest_from_skip(num, unit, i + 1, j);
    }
}

/// Rounding preserves order.
pub proof fn lemma_nearest_from_monotone(a: int, b: int, unit: int, k: int)
    requires
        0 <= a <= b,
        unit > 0,
        k >= 0,
    ensures
        nearest_from(a, unit, k) <= nearest_from(b, unit, k),
    decreases (if b > unit { b - unit } else { 0 }),
{
    if b < unit * LIMIT {
        let qa = a / unit;
        let qb = b / unit;
        let ra = a % unit;
        let rb = b % unit;
        vstd::arithmetic::div_mod::lemma_fundamental_div_mod(a, unit);
        vstd::arithmetic::div_mod::lemma_fundamental_div_mod(b, unit);
        assert(qa < qb || (qa == qb && ra <= rb)) by (nonlinear_arith)
            requires
                a == unit * qa + ra,
                b == unit * qb + rb,
                0 <= ra < unit,
                0 <= rb < unit,
                a <= b,
        ;
    } else {
        assert(b > unit) by (nonlinear_arith)
            requires
                b >= unit * LIMIT,
                unit > 0,
        ;
        if a < unit * LIMIT {
            lemma_half_even_bound(a, unit);
            lemma_nearest_from_lower(b, 2 * unit, k + 1);
        } else {
            lemma_nearest_from_monotone(a, b, 2 * unit, k + 1);
        }
    }
}

pub(crate) proof fn lemma_nearest_from_lower(num: int, unit: int, k: int)
    requires
        unit > 0,
        k >= 0,
        num >= unit * STEP,
    ensures
        nearest_from(num, unit, k) >= k * STEP + STEP || nearest_from(num, unit, k) == INFINITY,
    decreases (if num > unit { num - unit } else { 0 }),
{
    assert(num >= 0) by (nonlinear_arith)
        requires
            unit > 0,
            num >= unit * STEP,
    ;
    if num < unit * LIMIT {
        lemma_half_even_bound(num, unit);
    } else {
        assert(num > unit) by (nonlinear_arith)
            requires
                num >= unit * LIMIT,
                unit > 0,
        ;
        lemma_nearest_from_lower(num, 2 * unit, k + 1);
    }
}

// ---------------------------------------------------------------------------
// Rounding, executed

/// `s`, the bit `guard` below it and the flag `sticky` below that describe
/// `num / unit`: twice the quotient is `2 * s + guard`, and `sticky` says
/// whether anything is left over.
pub open spec fn describes(s: int, guard: bool, sticky: bool, num: int, unit: int) -> bool {
    let g: int = if guard { 1 } else { 0 };
    let rest = 2 * num - (2 * s + g) * unit;
    &&& unit > 0
    &&& s >= 0
    &&& num >= 0
    &&& 0 <= rest < unit
    &&& sticky <==> rest > 0
}

proof fn lemma_shift(s: int, guard: bool, sticky: bool, num: int, unit: int)
    requires
        describes(s, guard, sticky, num, unit),
    ensures
        describes(s / 2, s % 2 == 1, guard || sticky, num, 2 * unit),
{
    let g: int = if guard { 1 } else { 0 };
    let rest = 2 * num - (2 * s + g) * unit;
    let s2 = s / 2;
    let g2: int = if s % 2 == 1 { 1 } else { 0 };
    assert(2 * s2 + g2 == s);
    assert(2 * num - (2 * s2 + g2) * (2 * unit) == g * unit + rest) by (nonlinear_arith)
        requires
            2 * s2 + g2 == s,
            rest == 2 * num - (2 * s + g) * unit,
    ;
    assert(g * unit == if guard { unit } else { 0 }) by (nonlinear_arith)
        requires
            g == if guard { 1int } else { 0int },
    ;
}

proof fn lemma_round(s: int, guard: bool, sticky: bool, num: int, unit: int)
    requires
        describes(s, guard, sticky, num, unit),
    ensures
        num / unit == s,
        half_even(num, unit) == (if guard && (sticky || s % 2 == 1) { s + 1 } else { s }),
        (num < unit * LIMIT) == (s < LIMIT),
{
    let g: int = if guard { 1 } else { 0 };
    let rest = 2 * num - (2 * s + g) * unit;
    let rem = num - s * unit;
    assert(2 * rem == g * unit + rest) by (nonlinear_arith)
        requires
            rem == num - s * unit,
            rest == 2 * num - (2 * s + g) * unit,
    ;
    assert(g * unit == if guard { unit } else { 0 }) by (nonlinear_arith)
        requires
            g == if guard { 1int } else { 0int },
    ;
    assert(0 <= rem < unit);
    vstd::arithmetic::div_mod::lemma_fundamental_div_mod_converse(num, unit, s, rem);
    assert((num < unit * LIMIT) == (s < LIMIT)) by (nonlinear_arith)
        requires
            num == s * unit + rem,
            0 <= rem < unit,
    ;
}

/// Rounds the number that `s`, `guard` and `sticky` describe, at spacing
/// `2^k` or coarser.
fn round_from(s: u128, guard: bool, sticky: bool, k: u32, num: Ghost<int>, unit: Ghost<int>) -> (m: u64)
    requires
        describes(s as int, guard, sticky, num@, unit@),
        k <= 4096,
    ensures
        m == nearest_from(num@, unit@, k as int),
        m <= INFINITY,
{
    let mut s: u128 = s;
    let mut guard = guard;
    let mut sticky = sticky;
    let ghost k0 = k as int;
    let mut k: u32 = k;
    let ghost mut u = unit@;
    let ghost mut steps: int = 0;
    proof {
        vstd::arithmetic::power2::lemma2_to64();
        let s0 = s as int;
        let p = pow2(0) as int;
        assert(s0 * p == s0) by (nonlinear_arith)
            requires
                p == 1,
        ;
    }
    while s >= LIMIT as u128
        invariant
            describes(s as int, guard, sticky, num@, u),
            nearest_from(num@, unit@, k0) == nearest_from(num@, u, k as int),
            0 <= steps <= 128,
            s as int * pow2(steps as nat) <= u128::MAX,
            k == k0 + steps,
            0 <= k0 <= 4096,
        decreases s,
    {
        proof {
            lemma_round(s as int, guard, sticky, num@, u);
            lemma_shift(s as int, guard, sticky, num@, u);
            lemma_pow2_unfold((steps + 1) as nat);
            lemma_pow2_pos(steps as nat);
            let p = pow2(steps as nat) as int;
            let s0 = s as int;
            assert((s0 / 2) * (2 * p) <= s0 * p) by (nonlinear_arith)
                requires
                    p > 0,
                    s0 >= 0,
            ;
            if steps >= 128 {
                vstd::arithmetic::power2::lemma2_to64();
                vstd::arithmetic::power2::lemma2_to64_rest();
                lemma_pow2_adds(64, 64);
                assert(s0 * p > u128::MAX) by (nonlinear_arith)
                    requires
                        s0 >= 0x0020_0000_0000_0000,
                        p == 0x1_0000_0000_0000_0000 * 0x1_0000_0000_0000_0000,
                ;
            }
        }
        sticky = guard || sticky;
        guard = s % 2 == 1;
        s = s / 2;
        k = k + 1;
        proof {
            u = 2 * u;
            steps = steps + 1;
        }
    }
    proof {
        lemma_round(s as int, guard, sticky, num@, u);
    }
    let r: u64 = if guard && (sticky || s % 2 == 1) {
        (s as u64) + 1
    } else {
        s as u64
    };
    if k >= 2047 {
        INFINITY
    } else {
        let m: u64 = (k as u64) * STEP + r;
        if m >= INFINITY {
            INFINITY
        } else {
            m
        }
    }
}

/// Rounds the number that `s`, `guard` and `sticky` describe, times `2^e`.
pub(crate) fn round_scaled(s: u128, guard: bool, sticky: bool, e: i32, num: Ghost<int>, unit: Ghost<int>) -> (m: u64)
    requires
        describes(s as int, guard, sticky, num@, unit@),
        s >= STEP || (s > 0 && !guard && !sticky),
        -4096 <= e <= 4096,
    ensures
        m == nearest_scaled(num@, unit@, e as int),
        m <= INFINITY,
{
    if e >= 0 {
        let mut s: u128 = s;
        let mut e: i32 = e;
        let ghost mut n = num@;
        let ghost e0 = e as int;
        while s < STEP as u128 && e > 0
            invariant
                describes(s as int, guard, sticky, n, unit@),
                s >= STEP || (s > 0 && !guard && !sticky),
                0 <= e <= e0,
                e0 <= 4096,
                num@ * pow2(e0 as nat) == n * pow2(e as nat),
            decreases e,
        {
            proof {
                lemma_pow2_unfold(e as nat);
                let p = pow2((e - 1) as nat) as int;
                assert(n * (2 * p) == (2 * n) * p) by (nonlinear_arith);
                let s0 = s as int;
                let un = unit@;
                assert(2 * n - (2 * s0) * un == 0);
                assert(2 * (2 * n) - (2 * (2 * s0)) * un == 0) by (nonlinear_arith)
                    requires
                        2 * n - (2 * s0) * un == 0,
                ;
                assert((2 * (2 * s0) + 0) * un == (2 * (2 * s0)) * un);
                n = 2 * n;
            }
            s = s * 2;
            e = e - 1;
        }
        proof {
            let j = e as nat;
            let un = unit@;
            lemma_pow2_pos(j);
            let p = pow2(j) as int;
            if e > 0 {
                lemma_round(s as int, guard, sticky, n, un);
                let s0 = s as int;
                vstd::arithmetic::div_mod::lemma_fundamental_div_mod(n, un);
                assert(n >= un * STEP) by (nonlinear_arith)
                    requires
                        n == un * s0 + n % un,
                        n % un >= 0,
                        s0 >= STEP,
                        un > 0,
                ;
                assert(n * p >= un * STEP * p) by (nonlinear_arith)
                    requires
                        n >= un * STEP,
                        p > 0,
                ;
                lemma_nearest_from_skip(n * p, un, 0, j);
                lemma_nearest_from_scale(n, un, j as int, p);
            }
            vstd::arithmetic::power2::lemma2_to64();
            assert(un * 1 == un);
            if e == 0 {
                assert(n * p == n) by (nonlinear_arith)
                    requires
                        p == 1,
                ;
            }
        }
        round_from(s, guard, sticky, e as u32, Ghost(n), unit)
    } else {
        let mut s: u128 = s;
        let mut guard = guard;
        let mut sticky = sticky;
        let mut left: u32 = (-e) as u32;
        let ghost mut u = unit@;
        let ghost d = (-e) as int;
        proof {
            vstd::arithmetic::power2::lemma2_to64();
            assert(unit@ * 1 == unit@);
        }
        while left > 0
            invariant
                describes(s as int, guard, sticky, num@, u),
                0 <= left <= d,
                d <= 4096,
                u == unit@ * pow2((d - left) as nat),
            decreases left,
        {
            proof {
                lemma_shift(s as int, guard, sticky, num@, u);
                lemma_pow2_unfold((d - left + 1) as nat);
                let p = pow2((d - left) as nat) as int;
                let un = unit@;
                assert(2 * (un * p) == un * (2 * p)) by (nonlinear_arith);
                u = 2 * u;
            }
            sticky = guard || sticky;
            guard = s % 2 == 1;
            s = s / 2;
            left = left - 1;
        }
        round_from(s, guard, sticky, 0, num, Ghost(u))
    }
}

// ---------------------------------------------------------------------------
// Arithmetic

pub proof fn lemma_units_zero(m: int)
    requires
        0 <= m,
    ensures
        units(m) >= 0,
        units(m) == 0 <==> m == 0,
        0 <= significand(m) < LIMIT,
        m > 0 ==> significand(m) > 0,
        scale(m) > 0 ==> significand(m) >= STEP,
{
    lemma_pow2_pos(scale(m));
    let s = significand(m);
    let p = pow2(scale(m)) as int;
    assert(s >= 0 && p > 0 ==> s * p >= 0 && (s * p == 0 <==> s == 0)) by (nonlinear_arith);
}

/// The sum or difference of two positive finite magnitudes, the first at
/// least as large in scale, rounded. `None` when the difference is zero.
fn combine(big: u64, small: u64, subtract: bool) -> (r: Option<u64>)
    requires
        0 < big < INFINITY,
        0 < small < INFINITY,
        scale(big as int) >= scale(small as int),
        subtract ==> units(big as int) >= units(small as int),
    ensures
        ({
            let exact = if subtract { units(big as int) - units(small as int) } else { units(big as int) + units(small as int) };
            &&& exact >= 0
            &&& match r {
                Some(m) => exact > 0 && m == nearest(exact, 1) && m <= INFINITY,
                None => exact == 0,
            }
        }),
{
    let sb: u64 = if big < STEP { big } else { big % STEP + STEP };
    let eb: u64 = if big < STEP { 0 } else { big / STEP - 1 };
    let ss: u64 = if small < STEP { small } else { small % STEP + STEP };
    let es: u64 = if small < STEP { 0 } else { small / STEP - 1 };
    proof {
        lemma_units_zero(big as int);
        lemma_units_zero(small as int);
    }
    let d: u64 = eb - es;
    let ghost exact: int = if subtract {
        units(big as int) - units(small as int)
    } else {
        units(big as int) + units(small as int)
    };
    if d <= 60 {
        let mut shifted: u128 = sb as u128;
        let mut i: u64 = 0;
        proof {
            vstd::arithmetic::power2::lemma2_to64();
            let x = sb as int;
            let p = pow2(0) as int;
            assert(x * p == x) by (nonlinear_arith)
                requires
                    p == 1,
            ;
        }
        while i < d
            invariant
                0 <= i <= d,
                d <= 60,
                sb < LIMIT,
                shifted as int == sb as int * pow2(i as nat),
            decreases d - i,
        {
            proof {
                lemma_pow2_unfold((i + 1) as nat);
                vstd::arithmetic::power2::lemma_pow2_strictly_increases(i as nat, 60);
                vstd::arithmetic::power2::lemma2_to64_rest();
                let x = sb as int;
                let p = pow2(i as nat) as int;
                assert(x * p < 0x0020_0000_0000_0000 * 0x1000_0000_0000_0000) by (nonlinear_arith)
                    requires
                        0 <= x < 0x0020_0000_0000_0000,
                        0 <= p < 0x1000_0000_0000_0000,
                ;
                assert(x * (2 * p) == 2 * (x * p)) by (nonlinear_arith);
            }
            shifted = shifted * 2;
            i = i + 1;
        }
        proof {
            lemma_pow2_adds(es as nat, d as nat);
            lemma_pow2_pos(es as nat);
            vstd::arithmetic::power2::lemma2_to64_rest();
            if d < 60 {
                vstd::arithmetic::power2::lemma_pow2_strictly_increases(d as nat, 60);
            }
            let x = sb as int;
            let y = ss as int;
            let p = pow2(d as nat) as int;
            let q = pow2(es as nat) as int;
            assert(x * p < 0x0020_0000_0000_0000 * 0x1000_0000_0000_0001) by (nonlinear_arith)
                requires
                    0 <= x < 0x0020_0000_0000_0000,
                    0 <= p <= 0x1000_0000_0000_0000,
            ;
            assert(units(big as int) == (x * p) * q) by (nonlinear_arith)
                requires
                    units(big as int) == x * (q * p),
            ;
            assert(units(small as int) == y * q);
            if subtract {
                assert(exact == (x * p - y) * q) by (nonlinear_arith)
                    requires
                        exact == (x * p) * q - y * q,
                ;
                assert(x * p >= y) by (nonlinear_arith)
                    requires
                        (x * p) * q - y * q >= 0,
                        q > 0,
                ;
            } else {
                assert(exact == (x * p + y) * q) by (nonlinear_arith)
                    requires
                        exact == (x * p) * q + y * q,
                ;
            }
        }
        let s: u128 = if subtract { shifted - ss as u128 } else { shifted + ss as u128 };
        if s == 0 {
            assert(exact == 0) by (nonlinear_arith)
                requires
                    exact == s as int * pow2(es as nat),
                    s == 0,
            ;
            return None;
        }
        proof {
            lemma_pow2_pos(es as nat);
            let q = pow2(es as nat) as int;
            let s0 = s as int;
            assert(exact > 0) by (nonlinear_arith)
                requires
                    exact == s0 * q,
                    s0 > 0,
                    q > 0,
            ;
            assert(describes(s0, false, false, s0, 1));
        }
        Some(round_scaled(s, false, false, es as i32, Ghost(s as int), Ghost(1int)))
    } else {
        let s: u128 = if subtract { (sb as u128) * 4 - 1 } else { (sb as u128) * 4 };
        let ghost unit = pow2((eb - 2) as nat) as int;
        proof {
            let x = sb as int;
            let y = ss as int;
            let q = pow2(es as nat) as int;
            let lower = (eb - 2 - es) as nat;
            lemma_pow2_adds(es as nat, lower);
            lemma_pow2_adds((eb - 2) as nat, 2);
            lemma_pow2_pos(es as nat);
            vstd::arithmetic::power2::lemma2_to64();
            vstd::arithmetic::power2::lemma2_to64_rest();
            vstd::arithmetic::power2::lemma_pow2_strictly_increases(58, lower);
            let r = pow2(lower) as int;
            assert(unit == q * r);
            assert(units(big as int) == 4 * x * unit) by (nonlinear_arith)
                requires
                    units(big as int) == x * (unit * 4),
            ;
            let t = y * q;
            assert(units(small as int) == t);
            assert(0 < t && 4 * t < unit) by (nonlinear_arith)
                requires
                    t == y * q,
                    unit == q * r,
                    q > 0,
                    0 < y < 0x0020_0000_0000_0000,
                    r >= 0x0400_0000_0000_0000,
            ;
            if subtract {
                assert(2 * exact - (2 * (4 * x - 1) + 1) * unit == unit - 2 * t) by (nonlinear_arith)
                    requires
                        exact == 4 * x * unit - t,
                ;
            } else {
                assert(2 * exact - (2 * (4 * x) + 0) * unit == 2 * t) by (nonlinear_arith)
                    requires
                        exact == 4 * x * unit + t,
                ;
            }
            assert(exact > 0) by (nonlinear_arith)
                requires
                    exact >= 4 * x * unit - t,
                    x >= 1,
                    0 < t < unit,
            ;
            assert(describes(s as int, subtract, true, exact, unit));
        }
        let k: u32 = (eb - 2) as u32;
        proof {
            let s0 = s as int;
            lemma_round(s0, subtract, true, exact, unit);
            vstd::arithmetic::div_mod::lemma_fundamental_div_mod(exact, unit);
            assert(exact >= 1 * STEP * unit) by (nonlinear_arith)
                requires
                    exact == unit * s0 + exact % unit,
                    exact % unit >= 0,
                    s0 >= STEP,
                    unit > 0,
            ;
            lemma_nearest_from_skip(exact, 1, 0, k as nat);
            vstd::arithmetic::power2::lemma2_to64();
        }
        Some(round_from(s, subtract, true, k, Ghost(exact), Ghost(unit)))
    }
}

impl Float64 {
    pub fn from_bits(bits: u64) -> (r: Float64)
        ensures
            r.bits == bits,
    {
        Float64 { bits }
    }

    pub fn to_bits(self) -> (r: u64)
        ensures
            r == self.bits,
    {
        self.bits
    }

    fn mag(self) -> (m: u64)
        ensures
            m == self.magnitude(),
            m < SIGN,
    {
        if self.bits >= SIGN {
            self.bits - SIGN
        } else {
            self.bits
        }
    }

    fn signed(m: u64, negative: bool) -> (r: Float64)
        requires
            m < SIGN,
        ensures
            r == Float64::with_sign(m as int, negative),
            r.magnitude() == m,
            r.negative() == negative,
    {
        if negative {
            Float64 { bits: m + SIGN }
        } else {
            Float64 { bits: m }
        }
    }

    pub fn neg(self) -> (r: Float64)
        ensures
            r == self.spec_neg(),
    {
        Float64::signed(self.mag(), !(self.bits >= SIGN))
    }

    pub fn eq_num(self, other: Float64) -> (r: bool)
        ensures
            r == self.num_eq(other),
    {
        let a: u64 = self.mag();
        let b: u64 = other.mag();
        if a > INFINITY || b > INFINITY {
            false
        } else {
            (a == 0 && b == 0) || self.bits == other.bits
        }
    }

    pub fn lt_num(self, other: Float64) -> (r: bool)
        ensures
            r == self.num_lt(other),
    {
        let a: u64 = self.mag();
        let b: u64 = other.mag();
        if a > INFINITY || b > INFINITY {
            false
        } else if self.bits >= SIGN {
            if other.bits >= SIGN {
                b < a
            } else {
                a != 0 || b != 0
            }
        } else if other.bits >= SIGN {
            false
        } else {
            a < b
        }
    }

    pub fn le_num(self, other: Float64) -> (r: bool)
        ensures
            r == self.num_le(other),
    {
        self.lt_num(other) || self.eq_num(other)
    }

    /// IEEE-754 addition, rounding to nearest with ties to even.
    pub fn add(self, other: Float64) -> (r: Float64)
        ensures
            r == self.spec_add(other),
    {
        let a: u64 = self.mag();
        let b: u64 = other.mag();
        let an = self.bits >= SIGN;
        let bn = other.bits >= SIGN;
        if a > INFINITY || b > INFINITY {
            return Float64 { bits: NAN };
        }
        if a == INFINITY {
            if b == INFINITY && an != bn {
                return Float64 { bits: NAN };
            }
            return self;
        }
        if b == INFINITY {
            return other;
        }
        proof {
            lemma_units_zero(a as int);
            lemma_units_zero(b as int);
        }
        if a == 0 && b == 0 {
            return Float64::signed(0, an && bn);
        }
        if a == 0 {
            proof {
                lemma_exact(b as int);
            }
            return other;
        }
        if b == 0 {
            proof {
                lemma_exact(a as int);
            }
            return self;
        }
        if a >= b {
            proof {
                lemma_units_monotone(b as int, a as int);
            }
            match combine(a, b, an != bn) {
                Some(m) => Float64::signed(m, an),
                None => Float64::signed(0, false),
            }
        } else {
            proof {
                lemma_units_monotone(a as int, b as int);
            }
            match combine(b, a, an != bn) {
                Some(m) => Float64::signed(m, bn),
                None => Float64::signed(0, false),
            }
        }
    }

    /// IEEE-754 subtraction.
    pub fn sub(self, other: Float64) -> (r: Float64)
        ensures
            r == self.spec_sub(other),
    {
        if other.mag() > INFINITY {
            return Float64 { bits: NAN };
        }
        self.add(other.neg())
    }

    /// IEEE-754 multiplication.
    pub fn mul(self, other: Float64) -> (r: Float64)
        ensures
            r == self.spec_mul(other),
    {
        let a: u64 = self.mag();
        let b: u64 = other.mag();
        let negative = (self.bits >= SIGN) != (other.bits >= SIGN);
        if a > INFINITY || b > INFINITY {
            return Float64 { bits: NAN };
        }
        if a == INFINITY || b == INFINITY {
            if a == 0 || b == 0 {
                return Float64 { bits: NAN };
            }
            return Float64::signed(INFINITY, negative);
        }
        if a == 0 || b == 0 {
            return Float64::signed(0, negative);
        }
        let (sa, ea) = split(a);
        let (sb, eb) = split(b);
        proof {
            let x = sa as int;
            let y = sb as int;
            assert(0 < x * y < 0x0020_0000_0000_0000 * 0x0020_0000_0000_0000) by (nonlinear_arith)
                requires
                    0 < x < 0x0020_0000_0000_0000,
                    0 < y < 0x0020_0000_0000_0000,
            ;
        }
        let s: u128 = (sa as u128) * (sb as u128);
        let e: i32 = (ea as i32) + (eb as i32) - 1074;
        proof {
            let x = sa as int;
            let y = sb as int;
            let t = x * y;
            let c = pow2((ea + eb) as nat) as int;
            let pa = pow2(ea as nat) as int;
            let pb = pow2(eb as nat) as int;
            lemma_pow2_adds(ea as nat, eb as nat);
            lemma_pow2_pos((ea + eb) as nat);
            lemma_pow2_pos(1074);
            assert((x * pa) * (y * pb) == t * c) by (nonlinear_arith)
                requires
                    t == x * y,
                    c == pa * pb,
            ;
            let big = pow2(1074) as int;
            if e >= 0 {
                let pe = pow2(e as nat) as int;
                lemma_pow2_adds(e as nat, 1074);
                lemma_pow2_pos(e as nat);
                assert(t * c == (t * pe) * big) by (nonlinear_arith)
                    requires
                        c == pe * big,
                ;
                assert(t * pe >= 0) by (nonlinear_arith)
                    requires
                        t >= 0,
                        pe >= 0,
                ;
                assert(1 * big == big);
                lemma_nearest_from_scale(t * pe, 1, 0, big);
            } else {
                let pe = pow2((-e) as nat) as int;
                lemma_pow2_adds((-e) as nat, (ea + eb) as nat);
                lemma_pow2_pos((-e) as nat);
                assert(1 * pe == pe);
                lemma_nearest_from_scale(t, pe, 0, c);
            }
            assert(describes(t, false, false, t, 1));
        }
        let m: u64 = round_scaled(s, false, false, e, Ghost(s as int), Ghost(1int));
        Float64::signed(m, negative)
    }

    /// IEEE-754 division.
    pub fn div(self, other: Float64) -> (r: Float64)
        ensures
            r == self.spec_div(other),
    {
        let a: u64 = self.mag();
        let b: u64 = other.mag();
        let negative = (self.bits >= SIGN) != (other.bits >= SIGN);
        if a > INFINITY || b > INFINITY {
            return Float64 { bits: NAN };
        }
        if a == INFINITY {
            if b == INFINITY {
                return Float64 { bits: NAN };
            }
            return Float64::signed(INFINITY, negative);
        }
        if b == INFINITY {
            return Float64::signed(0, negative);
        }
        if b == 0 {
            if a == 0 {
                return Float64 { bits: NAN };
            }
            return Float64::signed(INFINITY, negative);
        }
        if a == 0 {
            return Float64::signed(0, negative);
        }
        let (sa, ea) = split(a);
        let (sb, eb) = split(b);
        let (wa, na) = widen(sa);
        let (wb, nb) = widen(sb);
        let num: u128 = (wa as u128) * 0x1000_0000_0000_0000u128;
        let q: u128 = num / (wb as u128);
        let rem: u128 = num % (wb as u128);
        let guard = 2 * rem >= wb as u128;
        let sticky = if guard { 2 * rem != wb as u128 } else { rem != 0 };
        let e: i32 = (ea as i32) - (na as i32) - (eb as i32) + (nb as i32) - 60 + 1074;
        proof {
            let n = num as int;
            let w = wb as int;
            let q0 = q as int;
            vstd::arithmetic::div_mod::lemma_fundamental_div_mod(n, w);
            let g: int = if guard { 1 } else { 0 };
            assert(2 * n - (2 * q0 + g) * w == 2 * rem - g * w) by (nonlinear_arith)
                requires
                    n == w * q0 + rem as int,
            ;
            assert(g * w == if guard { w } else { 0 }) by (nonlinear_arith)
                requires
                    g == if guard { 1int } else { 0int },
            ;
            assert(describes(q0, guard, sticky, n, w));
            assert(q0 >= STEP) by (nonlinear_arith)
                requires
                    n == w * q0 + rem as int,
                    0 <= rem < w,
                    w < 0x0020_0000_0000_0000,
                    n >= 0x0010_0000_0000_0000 * 0x1000_0000_0000_0000,
                    STEP == 0x0010_0000_0000_0000,
            ;
            lemma_quotient(sa as int, ea as nat, na as nat, sb as int, eb as nat, nb as nat, n, w, e as int);
        }
        let m: u64 = round_scaled(q, guard, sticky, e, Ghost(num as int), Ghost(wb as int));
        Float64::signed(m, negative)
    }

    pub fn nan(self) -> (r: bool)
        ensures
            r == self.is_nan(),
    {
        self.mag() > INFINITY
    }

    /// Whether this is positive or negative zero.
    pub fn is_zero(self) -> (r: bool)
        ensures
            r == (self.magnitude() == 0),
    {
        self.mag() == 0
    }

    /// The larger of two numbers; a NaN operand is passed over.
    pub fn max(self, other: Float64) -> (r: Float64)
        ensures
            r == self.spec_max(other),
    {
        if self.mag() > INFINITY || self.lt_num(other) {
            other
        } else {
            self
        }
    }

    /// The smaller of two numbers; a NaN operand is passed over.
    pub fn min(self, other: Float64) -> (r: Float64)
        ensures
            r == self.spec_min(other),
    {
        if self.mag() > INFINITY || other.lt_num(self) {
            other
        } else {
            self
        }
    }

    /// `self` drawn into `[lo, hi]`; a NaN stays a NaN.
    pub fn clamp(self, lo: Float64, hi: Float64) -> (r: Float64)
        ensures
            r == self.spec_clamp(lo, hi),
    {
        if self.lt_num(lo) {
            lo
        } else if hi.lt_num(self) {
            hi
        } else {
            self
        }
    }

    /// The integer part, when it fits.
    pub fn to_i64(self) -> (r: Option<i64>)
        ensures
            match r {
                Some(n) => self.magnitude() < INFINITY && n == self.truncated(),
                None => self.magnitude() >= INFINITY || !(i64::MIN <= self.truncated() <= i64::MAX),
            },
    {
        let a: u64 = self.mag();
        if a >= INFINITY {
            return None;
        }
        let n: Option<u64> = whole(a, false);
        match n {
            None => None,
            Some(n) => {
                if self.bits >= SIGN {
                    if n <= 0x8000_0000_0000_0000 {
                        Some((-(n as i128)) as i64)
                    } else {
                        None
                    }
                } else if n <= 0x7FFF_FFFF_FFFF_FFFF {
                    Some(n as i64)
                } else {
                    None
                }
            },
        }
    }

    /// The nearest integer, halves away from zero, drawn into the range of
    /// `u64`; zero for a NaN.
    pub fn round_to_u64(self) -> (r: u64)
        ensures
            r == self.rounded_u64(),
    {
        let a: u64 = self.mag();
        if a > INFINITY || self.bits >= SIGN {
            return 0;
        }
        if a == INFINITY {
            return u64::MAX;
        }
        match whole(a, true) {
            Some(n) => n,
            None => u64::MAX,
        }
    }

    /// The double nearest to an unsigned integer.
    pub fn from_u64(n: u64) -> (r: Float64)
        ensures
            r == Float64::spec_from_int(n as int),
    {
        if n == 0 {
            return Float64 { bits: 0 };
        }
        assert(describes(n as int, false, false, n as int, 1));
        let m: u64 = round_scaled(n as u128, false, false, 1074, Ghost(n as int), Ghost(1int));
        Float64::signed(m, false)
    }

    /// The double nearest to a signed integer.
    pub fn from_i64(n: i64) -> (r: Float64)
        ensures
            r == Float64::spec_from_int(n as int),
    {
        if n >= 0 {
            Float64::from_u64(n as u64)
        } else {
            let a: u128 = (-(n as i128)) as u128;
            assert(describes(a as int, false, false, a as int, 1));
            let m: u64 = round_scaled(a, false, false, 1074, Ghost(a as int), Ghost(1int));
            Float64::signed(m, true)
        }
    }
}

/// The integer part of a finite magnitude, rounded half up on request;
/// `None` beyond `u64`.
fn whole(m: u64, round: bool) -> (r: Option<u64>)
    requires
        m < INFINITY,
    ensures
        ({
            let n = if round {
                (2 * units(m as int) + pow2(1074)) / (2 * pow2(1074) as int)
            } else {
                units(m as int) / pow2(1074) as int
            };
            match r {
                Some(v) => v == n,
                None => n > u64::MAX,
            }
        }),
{
    let ghost big = pow2(1074) as int;
    let ghost u = units(m as int);
    proof {
        lemma_pow2_pos(1074);
        lemma_units_zero(m as int);
    }
    if m == 0 {
        assert(0int / big == 0) by (nonlinear_arith)
            requires
                big > 0,
        ;
        assert((2 * 0 + big) / (2 * big) == 0) by (nonlinear_arith)
            requires
                big > 0,
        ;
        return Some(0);
    }
    let (s, e) = split(m);
    let ghost p = pow2(e as nat) as int;
    if e >= 1074 {
        let d: u64 = e - 1074;
        let ghost pd = pow2(d as nat) as int;
        let ghost s0 = s as int;
        proof {
            lemma_pow2_adds(1074, d as nat);
            lemma_pow2_pos(d as nat);
            assert(u == (s0 * pd) * big) by (nonlinear_arith)
                requires
                    u == s0 * (big * pd),
            ;
            let v = s0 * pd;
            vstd::arithmetic::div_mod::lemma_fundamental_div_mod_converse(u, big, v, 0);
            assert(2 * u + big == v * (2 * big) + big) by (nonlinear_arith)
                requires
                    u == v * big,
            ;
            vstd::arithmetic::div_mod::lemma_fundamental_div_mod_converse(2 * u + big, 2 * big, v, big);
        }
        if d > 11 {
            proof {
                vstd::arithmetic::power2::lemma2_to64();
                vstd::arithmetic::power2::lemma2_to64_rest();
                if d > 12 {
                    vstd::arithmetic::power2::lemma_pow2_strictly_increases(12, d as nat);
                }
                assert(s0 * pd >= 0x0010_0000_0000_0000 * 0x1000) by (nonlinear_arith)
                    requires
                        s0 >= 0x0010_0000_0000_0000,
                        pd >= 0x1000,
                ;
            }
            return None;
        }
        let mut v: u64 = s;
        let mut i: u64 = 0;
        proof {
            vstd::arithmetic::power2::lemma2_to64();
            let one = pow2(0) as int;
            assert(s0 * one == s0) by (nonlinear_arith)
                requires
                    one == 1,
            ;
        }
        while i < d
            invariant
                i <= d,
                d <= 11,
                s < LIMIT,
                v == s * pow2(i as nat),
            decreases d - i,
        {
            proof {
                lemma_pow2_unfold((i + 1) as nat);
                vstd::arithmetic::power2::lemma2_to64();
                if i < 10 {
                    vstd::arithmetic::power2::lemma_pow2_strictly_increases(i as nat, 10);
                }
                let x = s as int;
                let q = pow2(i as nat) as int;
                assert(x * (2 * q) == 2 * (x * q)) by (nonlinear_arith);
                assert(x * q <= 0x001F_FFFF_FFFF_FFFF * 0x400) by (nonlinear_arith)
                    requires
                        0 <= x <= 0x001F_FFFF_FFFF_FFFF,
                        0 <= q <= 0x400,
                ;
            }
            v = v * 2;
            i = i + 1;
        }
        Some(v)
    } else {
        let mut v: u64 = s;
        let mut half = false;
        let mut left: u64 = 1074 - e;
        let ghost total = 1074 - e;
        let ghost mut unit: int = 1;
        let ghost mut sticky = false;
        proof {
            assert(describes(v as int, half, sticky, s as int, unit));
            vstd::arithmetic::power2::lemma2_to64();
        }
        while left > 0
            invariant
                describes(v as int, half, sticky, s as int, unit),
                unit == pow2((total - left) as nat),
                0 <= left <= total,
                v < LIMIT,
            decreases left,
        {
            proof {
                lemma_shift(v as int, half, sticky, s as int, unit);
                lemma_pow2_unfold((total - left + 1) as nat);
                sticky = half || sticky;
                unit = 2 * unit;
            }
            half = v % 2 == 1;
            v = v / 2;
            left = left - 1;
        }
        proof {
            let s0 = s as int;
            lemma_round(v as int, half, sticky, s0, unit);
            lemma_pow2_adds(e as nat, total as nat);
            lemma_pow2_pos(e as nat);
            let rem = s0 % unit;
            let q = v as int;
            vstd::arithmetic::div_mod::lemma_fundamental_div_mod(s0, unit);
            assert(u == (q * big) + rem * p) by (nonlinear_arith)
                requires
                    u == s0 * p,
                    s0 == unit * q + rem,
                    big == p * unit,
            ;
            assert(0 <= rem * p < big) by (nonlinear_arith)
                requires
                    0 <= rem < unit,
                    p > 0,
                    big == p * unit,
            ;
            vstd::arithmetic::div_mod::lemma_fundamental_div_mod_converse(u, big, q, rem * p);
            let g: int = if half { 1 } else { 0 };
            let rest = 2 * s0 - (2 * q + g) * unit;
            assert(2 * rem == g * unit + rest) by (nonlinear_arith)
                requires
                    s0 == unit * q + rem,
                    rest == 2 * s0 - (2 * q + g) * unit,
            ;
            if half {
                assert(2 * u + big == (q + 1) * (2 * big) + rest * p) by (nonlinear_arith)
                    requires
                        u == q * big + rem * p,
                        2 * rem == 1 * unit + rest,
                        big == p * unit,
                ;
                assert(0 <= rest * p < 2 * big) by (nonlinear_arith)
                    requires
                        0 <= rest < unit,
                        p > 0,
                        big == p * unit,
                ;
                vstd::arithmetic::div_mod::lemma_fundamental_div_mod_converse(
                    2 * u + big,
                    2 * big,
                    q + 1,
                    rest * p,
                );
            } else {
                assert(2 * u + big == q * (2 * big) + (rest * p + big)) by (nonlinear_arith)
                    requires
                        u == q * big + rem * p,
                        2 * rem == 0 * unit + rest,
                        big == p * unit,
                ;
                assert(0 <= rest * p < big) by (nonlinear_arith)
                    requires
                        0 <= rest < unit,
                        p > 0,
                        big == p * unit,
                ;
                vstd::arithmetic::div_mod::lemma_fundamental_div_mod_converse(
                    2 * u + big,
                    2 * big,
                    q,
                    rest * p + big,
                );
            }
        }
        if round && half {
            Some(v + 1)
        } else {
            Some(v)
        }
    }
}

/// The significand and scale of a positive finite magnitude.
fn split(m: u64) -> (r: (u64, u64))
    requires
        0 < m < INFINITY,
    ensures
        r.0 == significand(m as int),
        r.1 == scale(m as int),
        0 < r.0 < LIMIT,
        r.1 <= 2045,
        r.1 > 0 ==> r.0 >= STEP,
{
    proof {
        lemma_units_zero(m as int);
    }
    if m < STEP {
        (m, 0)
    } else {
        (m % STEP + STEP, m / STEP - 1)
    }
}

/// Doubles a significand until its leading bit is set, counting the steps.
fn widen(s: u64) -> (r: (u64, u64))
    requires
        0 < s < LIMIT,
    ensures
        STEP <= r.0 < LIMIT,
        r.0 == s * pow2(r.1 as nat),
        r.1 <= 52,
{
    let mut w: u64 = s;
    let mut n: u64 = 0;
    proof {
        vstd::arithmetic::power2::lemma2_to64();
        vstd::arithmetic::power2::lemma2_to64_rest();
        let x = s as int;
        let p = pow2(0) as int;
        assert(x * p == x) by (nonlinear_arith)
            requires
                p == 1,
        ;
    }
    while w < STEP
        invariant
            0 < w < LIMIT,
            0 < s,
            w == s * pow2(n as nat),
            n <= 52,
        decreases LIMIT - w,
    {
        proof {
            lemma_pow2_unfold((n + 1) as nat);
            let x = s as int;
            let p = pow2(n as nat) as int;
            assert(x * (2 * p) == 2 * (x * p)) by (nonlinear_arith);
            if n == 52 {
                vstd::arithmetic::power2::lemma2_to64_rest();
                assert(x * p >= p) by (nonlinear_arith)
                    requires
                        x >= 1,
                        p >= 0,
                ;
            }
        }
        w = w * 2;
        n = n + 1;
    }
    (w, n)
}

/// The rounded quotient of two magnitudes, from their widened significands.
proof fn lemma_quotient(sa: int, ea: nat, na: nat, sb: int, eb: nat, nb: nat, num: int, w: int, e: int)
    requires
        sa > 0,
        sb > 0,
        w == sb * pow2(nb),
        num == (sa * pow2(na)) * 0x1000_0000_0000_0000,
        e == ea - na - eb + nb - 60 + 1074,
        num > 0,
        w > 0,
    ensures
        nearest_scaled(num, w, e) == nearest((sa * pow2(ea)) * pow2(1074), sb * pow2(eb)),
{
    vstd::arithmetic::power2::lemma2_to64_rest();
    assert(pow2(60) == 0x1000_0000_0000_0000);
    let n = (sa * pow2(ea)) * pow2(1074);
    let d = sb * pow2(eb);
    let pna = pow2(na) as int;
    let pnb = pow2(nb) as int;
    let pea = pow2(ea) as int;
    let peb = pow2(eb) as int;
    let p60 = pow2(60) as int;
    let pbig = pow2(1074) as int;
    lemma_pow2_pos(nb);
    lemma_pow2_pos(eb);
    lemma_pow2_pos(ea);
    lemma_pow2_pos(1074);
    assert(n > 0 && d > 0) by (nonlinear_arith)
        requires
            n == (sa * pea) * pbig,
            d == sb * peb,
            sa > 0,
            sb > 0,
            pea > 0,
            peb > 0,
            pbig > 0,
    ;
    // all exponents of the numerator agree
    lemma_pow2_adds(na, 60);
    lemma_pow2_adds(na + 60, eb);
    lemma_pow2_adds(ea, 1074);
    lemma_pow2_adds(ea + 1074, nb);
    if e >= 0 {
        let pe = pow2(e as nat) as int;
        lemma_pow2_pos(e as nat);
        lemma_pow2_adds(na + 60 + eb, e as nat);
        assert(na + 60 + eb + e == ea + 1074 + nb);
        assert(pna * p60 * peb * pe == pea * pbig * pnb);
        let k = pna * p60 * peb * pe;
        assert((num * pe) * peb == sa * k) by (nonlinear_arith)
            requires
                num == (sa * pna) * p60,
                k == pna * p60 * peb * pe,
        ;
        assert(n * pnb == sa * (pea * pbig * pnb)) by (nonlinear_arith)
            requires
                n == (sa * pea) * pbig,
        ;
        assert(w * peb == d * pnb) by (nonlinear_arith)
            requires
                w == sb * pnb,
                d == sb * peb,
        ;
        assert(num * pe >= 0) by (nonlinear_arith)
            requires
                num > 0,
                pe > 0,
        ;
        lemma_nearest_from_scale(num * pe, w, 0, peb);
        lemma_nearest_from_scale(n, d, 0, pnb);
    } else {
        let f = (-e) as nat;
        let pf = pow2(f) as int;
        lemma_pow2_pos(f);
        lemma_pow2_adds(ea + 1074 + nb, f);
        lemma_pow2_adds(nb, f);
        lemma_pow2_pos(nb + f);
        assert(na + 60 + eb == ea + 1074 + nb + f);
        let c = pow2(nb + f) as int;
        assert(c == pnb * pf);
        assert(pna * p60 * peb == pea * pbig * pnb * pf);
        let k = pna * p60 * peb;
        assert(num * peb == sa * k) by (nonlinear_arith)
            requires
                num == (sa * pna) * p60,
                k == pna * p60 * peb,
        ;
        assert(n * c == sa * (pea * pbig * pnb * pf)) by (nonlinear_arith)
            requires
                n == (sa * pea) * pbig,
                c == pnb * pf,
        ;
        assert((w * pf) * peb == d * c) by (nonlinear_arith)
            requires
                w == sb * pnb,
                d == sb * peb,
                c == pnb * pf,
        ;
        assert(w * pf > 0) by (nonlinear_arith)
            requires
                w > 0,
                pf > 0,
        ;
        lemma_nearest_from_scale(num, w * pf, 0, peb);
        lemma_nearest_from_scale(n, d, 0, c);
    }
}

/// A finite magnitude is its own nearest magnitude.
pub proof fn lemma_exact(m: int)
    requires
        0 <= m < INFINITY,
    ensures
        nearest(units(m), 1) == m,
{
    let s = significand(m);
    let j = scale(m);
    lemma_units_zero(m);
    lemma_pow2_pos(j);
    let p = pow2(j) as int;
    vstd::arithmetic::power2::lemma2_to64();
    if j > 0 {
        assert(s * p >= 1 * STEP * p) by (nonlinear_arith)
            requires
                s >= STEP,
                p > 0,
        ;
        lemma_nearest_from_skip(units(m), 1, 0, j);
    }
    assert(s * p < p * LIMIT) by (nonlinear_arith)
        requires
            0 <= s < LIMIT,
            p > 0,
    ;
    assert(s * p == s * p + 0);
    vstd::arithmetic::div_mod::lemma_fundamental_div_mod_converse(s * p, p, s, 0);
}

/// Magnitudes order finite doubles.
pub proof fn lemma_units_monotone(a: int, b: int)
    requires
        0 <= a <= b < INFINITY,
    ensures
        units(a) <= units(b),
        scale(a) <= scale(b),
        a < b ==> units(a) < units(b),
{
    lemma_units_zero(a);
    lemma_units_zero(b);
    let sa = significand(a);
    let sb = significand(b);
    lemma_pow2_pos(scale(a));
    lemma_pow2_pos(scale(b));
    assert(scale(a) <= scale(b));
    let p = pow2(scale(a)) as int;
    if scale(a) == scale(b) {
        assert(sa <= sb && (a < b ==> sa < sb));
        assert(sa * p <= sb * p && (sa < sb ==> sa * p < sb * p)) by (nonlinear_arith)
            requires
                sa <= sb,
                p > 0,
        ;
    } else {
        let d = (scale(b) - scale(a) - 1) as nat;
        lemma_pow2_adds(scale(a), (d + 1) as nat);
        lemma_pow2_unfold((d + 1) as nat);
        lemma_pow2_pos(d);
        let r = pow2(d) as int;
        assert(pow2(scale(b)) == p * (2 * r));
        assert(sa * p < sb * (p * (2 * r))) by (nonlinear_arith)
            requires
                0 <= sa < 0x0020_0000_0000_0000,
                sb >= 0x0010_0000_0000_0000,
                p > 0,
                r > 0,
        ;
    }
}

/// A positive integer lies between two powers of two.
proof fn lemma_leading_bit(n: int) -> (k: nat)
    requires
        0 < n < LIMIT,
    ensures
        k <= 52,
        pow2(k) <= n < 2 * pow2(k),
    decreases n,
{
    vstd::arithmetic::power2::lemma2_to64();
    vstd::arithmetic::power2::lemma2_to64_rest();
    if n == 1 {
        0
    } else {
        let j = lemma_leading_bit(n / 2);
        lemma_pow2_unfold(j + 1);
        if j == 52 {
            assert(pow2(52) == 0x10_0000_0000_0000);
        }
        j + 1
    }
}

/// An integer below `2^53` is a double.
pub proof fn lemma_small_integer(n: int)
    requires
        0 < n < LIMIT,
    ensures
        0 < nearest(n * pow2(1074), 1) < INFINITY,
        units(nearest(n * pow2(1074), 1)) == n * pow2(1074),
{
    let k = lemma_leading_bit(n);
    let d = (52 - k) as nat;
    let p = pow2(k) as int;
    let r = pow2(d) as int;
    vstd::arithmetic::power2::lemma2_to64();
    vstd::arithmetic::power2::lemma2_to64_rest();
    lemma_pow2_adds(k, d);
    lemma_pow2_pos(k);
    lemma_pow2_pos(d);
    assert(p * r == STEP);
    let sig = n * r;
    assert(STEP <= sig < LIMIT) by (nonlinear_arith)
        requires
            p <= n < 2 * p,
            r > 0,
            p * r == 0x0010_0000_0000_0000,
            sig == n * r,
            STEP == 0x0010_0000_0000_0000,
            LIMIT == 0x0020_0000_0000_0000,
    ;
    let e = (1022 + k) as nat;
    let m = (e + 1) * STEP + (sig - STEP);
    assert(m / STEP as int == e + 1 && m % STEP as int == sig - STEP) by {
        vstd::arithmetic::div_mod::lemma_fundamental_div_mod_converse(
            m,
            STEP as int,
            (e + 1) as int,
            sig - STEP,
        );
    }
    assert(significand(m) == sig && scale(m) == e);
    lemma_pow2_adds(d, e);
    assert(d + e == 1074);
    let q = pow2(e) as int;
    assert(n * r * q == n * (r * q)) by (nonlinear_arith);
    assert(units(m) == n * pow2(1074));
    lemma_exact(m);
}

/// The bits of one are the double one.
pub proof fn lemma_one_is_an_integer()
    ensures
        (Float64 { bits: 0x3FF0_0000_0000_0000 }) == Float64::spec_from_int(1),
{
    let top: int = 0x3FF0_0000_0000_0000;
    assert(units(top) == pow2(1074)) by {
        vstd::arithmetic::power2::lemma2_to64();
        vstd::arithmetic::power2::lemma2_to64_rest();
        lemma_pow2_adds(52, 1022);
    }
    lemma_exact(top);
    assert(1 * pow2(1074) == pow2(1074));
}

/// The bits of two are the double two.
pub proof fn lemma_two_is_an_integer()
    ensures
        (Float64 { bits: 0x4000_0000_0000_0000 }) == Float64::spec_from_int(2),
{
    let top: int = 0x4000_0000_0000_0000;
    assert(units(top) == 2 * pow2(1074)) by {
        vstd::arithmetic::power2::lemma2_to64();
        vstd::arithmetic::power2::lemma2_to64_rest();
        lemma_pow2_adds(52, 1023);
        lemma_pow2_adds(1, 1074);
    }
    lemma_exact(top);
}

/// The bits of a hundred are the double hundred.
pub proof fn lemma_hundred_is_an_integer()
    ensures
        (Float64 { bits: 0x4059_0000_0000_0000 }) == Float64::spec_from_int(100),
{
    let top: int = 0x4059_0000_0000_0000;
    assert(units(top) == 100 * pow2(1074)) by {
        vstd::arithmetic::power2::lemma2_to64();
        vstd::arithmetic::power2::lemma2_to64_rest();
        let sig: int = 0x0019_0000_0000_0000;
        assert(significand(top) == sig && scale(top) == 1028);
        lemma_pow2_adds(46, 1028);
        let p = pow2(1028) as int;
        let q = pow2(46) as int;
        assert(sig == 100 * q);
        assert(sig * p == 100 * (q * p)) by (nonlinear_arith)
            requires
                sig == 100 * q,
        ;
    }
    lemma_exact(top);
}

/// The bits of eight are the double eight.
pub proof fn lemma_eight_is_an_integer()
    ensures
        (Float64 { bits: 0x4020_0000_0000_0000 }) == Float64::spec_from_int(8),
{
    let top: int = 0x4020_0000_0000_0000;
    assert(units(top) == 8 * pow2(1074)) by {
        vstd::arithmetic::power2::lemma2_to64();
        vstd::arithmetic::power2::lemma2_to64_rest();
        lemma_pow2_adds(52, 1025);
        lemma_pow2_adds(3, 1074);
    }
    lemma_exact(top);
}

/// The bits of a thousand are the double thousand.
pub proof fn lemma_thousand_is_an_integer()
    ensures
        (Float64 { bits: 0x408F_4000_0000_0000 }) == Float64::spec_from_int(1000),
{
    let top: int = 0x408F_4000_0000_0000;
    assert(units(top) == 1000 * pow2(1074)) by {
        vstd::arithmetic::power2::lemma2_to64();
        vstd::arithmetic::power2::lemma2_to64_rest();
        let sig: int = 0x001F_4000_0000_0000;
        assert(significand(top) == sig && scale(top) == 1031);
        lemma_pow2_adds(43, 1031);
        let p = pow2(1031) as int;
        let q = pow2(43) as int;
        assert(sig == 1000 * q);
        assert(sig * p == 1000 * (q * p)) by (nonlinear_arith)
            requires
                sig == 1000 * q,
        ;
    }
    lemma_exact(top);
}

/// A double taken a fraction of, from zero to one, grows no larger.
pub proof fn lemma_fraction_shrinks(a: Float64, b: Float64)
    requires
        !a.negative(),
        a.magnitude() < INFINITY,
        !b.negative(),
        b.magnitude() <= 0x3FF0_0000_0000_0000,
    ensures
        !a.spec_mul(b).negative(),
        a.spec_mul(b).magnitude() <= a.magnitude(),
{
    let ua = units(a.magnitude());
    let ub = units(b.magnitude());
    let p = pow2(1074) as int;
    let top: int = 0x3FF0_0000_0000_0000;
    lemma_pow2_pos(1074);
    lemma_units_zero(a.magnitude());
    lemma_units_zero(b.magnitude());
    assert(units(top) == p) by {
        vstd::arithmetic::power2::lemma2_to64();
        vstd::arithmetic::power2::lemma2_to64_rest();
        lemma_pow2_adds(52, 1022);
    }
    lemma_units_monotone(b.magnitude(), top);
    assert(0 <= ua * ub <= ua * p) by (nonlinear_arith)
        requires
            0 <= ua,
            0 <= ub <= p,
    ;
    lemma_nearest_from_monotone(ua * ub, ua * p, p, 0);
    lemma_nearest_from_bound(ua * ub, p, 0);
    lemma_nearest_from_scale(ua, 1, 0, p);
    lemma_exact(a.magnitude());
}

/// A double no larger than a small integer rounds to no more than it.
pub proof fn lemma_rounds_below(x: Float64, n: int)
    requires
        0 < n < LIMIT,
        !x.negative(),
        x.magnitude() <= Float64::spec_from_int(n).magnitude(),
    ensures
        0 <= x.rounded_u64() <= n,
{
    let p = pow2(1074) as int;
    lemma_pow2_pos(1074);
    lemma_small_integer(n);
    let m = nearest(n * p, 1);
    lemma_units_monotone(x.magnitude(), m);
    lemma_units_zero(x.magnitude());
    let u = units(x.magnitude());
    assert((2 * u + p) / (2 * p) <= n && (2 * u + p) / (2 * p) >= 0) by (nonlinear_arith)
        requires
            0 <= u <= n * p,
            p > 0,
    ;
}

/// Zero rounds to zero.
pub proof fn lemma_zero_rounds(x: Float64)
    requires
        x.magnitude() == 0,
    ensures
        x.rounded_u64() == 0,
{
    let p = pow2(1074) as int;
    lemma_pow2_pos(1074);
    lemma_units_zero(0);
    assert((2 * 0 + p) / (2 * p) == 0) by (nonlinear_arith)
        requires
            p > 0,
    ;
}

} // verus!
