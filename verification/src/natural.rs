//! Natural numbers of any size, as digits to the base `2^32`, the lowest first.

use vstd::prelude::*;

verus! {

/// The base.
pub const BASE: u64 = 0x1_0000_0000;

/// The value of digits.
pub open spec fn natural(v: Seq<u32>) -> int
    decreases v.len(),
{
    if v.len() == 0 {
        0
    } else {
        v[0] + BASE * natural(v.drop_first())
    }
}

/// The value of the digit in place `n`.
pub open spec fn weight(n: nat) -> int
    decreases n,
{
    if n == 0 {
        1
    } else {
        BASE * weight((n - 1) as nat)
    }
}

proof fn lemma_weight(n: nat)
    ensures
        weight(n) > 0,
    decreases n,
{
    if n > 0 {
        lemma_weight((n - 1) as nat);
    }
}

proof fn lemma_concat(a: Seq<u32>, b: Seq<u32>)
    ensures
        natural(a + b) == natural(a) + weight(a.len()) * natural(b),
    decreases a.len(),
{
    if a.len() == 0 {
        assert(a + b =~= b);
        assert(1 * natural(b) == natural(b));
    } else {
        let t = a.drop_first();
        assert((a + b).drop_first() =~= t + b);
        assert((a + b)[0] == a[0]);
        lemma_concat(t, b);
        let w = weight(t.len());
        let x = natural(b);
        assert(BASE * (natural(t) + w * x) == BASE * natural(t) + (BASE * w) * x) by (nonlinear_arith);
    }
}

pub proof fn lemma_natural_bound(v: Seq<u32>)
    ensures
        0 <= natural(v) < weight(v.len()),
    decreases v.len(),
{
    if v.len() > 0 {
        lemma_natural_bound(v.drop_first());
    }
}

proof fn lemma_one_digit(x: u32)
    ensures
        natural(seq![x]) == x,
{
    assert(seq![x].drop_first() =~= Seq::<u32>::empty());
    assert(natural(Seq::<u32>::empty()) == 0);
}

/// Multiplies a number and adds to it.
pub fn mul_add(v: &Vec<u32>, m: u32, a: u32) -> (r: Vec<u32>)
    ensures
        natural(r@) == natural(v@) * m + a,
        r@.len() == v@.len() + 1,
{
    let mut out: Vec<u32> = Vec::new();
    let mut carry: u64 = a as u64;
    let mut i: usize = 0;
    proof {
        assert(v@.skip(0) =~= v@);
        assert(1 * (carry + m * natural(v@)) == natural(v@) * m + a) by (nonlinear_arith)
            requires
                carry == a,
        ;
    }
    while i < v.len()
        invariant
            i <= v@.len(),
            out@.len() == i,
            carry < BASE,
            natural(out@) + weight(i as nat) * (carry + m * natural(v@.skip(i as int))) == natural(
                v@,
            ) * m + a,
        decreases v@.len() - i,
    {
        let ghost rest = v@.skip(i as int);
        let ghost tail = v@.skip(i + 1);
        let ghost was = out@;
        let ghost before = carry as int;
        proof {
            assert(rest.drop_first() =~= tail);
            assert(rest[0] == v@[i as int]);
            let x = v@[i as int] as int;
            assert(x * m <= (BASE - 1) * (BASE - 1)) by (nonlinear_arith)
                requires
                    0 <= x < BASE,
                    0 <= m < BASE,
            ;
        }
        let t: u64 = (v[i] as u64) * (m as u64) + carry;
        let digit: u32 = (t % BASE) as u32;
        out.push(digit);
        carry = t / BASE;
        proof {
            let x = v@[i as int] as int;
            let y = natural(tail);
            let w = weight(i as nat);
            assert(out@ =~= was + seq![digit]);
            lemma_concat(was, seq![digit]);
            lemma_one_digit(digit);
            assert(t == digit + BASE * carry);
            assert(w * digit + (BASE * w) * (carry + m * y) == w * (before + m * (x + BASE * y)))
                by (nonlinear_arith)
                requires
                    x * m + before == digit + BASE * carry,
            ;
        }
        i = i + 1;
    }
    let ghost was = out@;
    out.push(carry as u32);
    proof {
        assert(v@.skip(i as int) =~= Seq::<u32>::empty());
        assert(natural(Seq::<u32>::empty()) == 0);
        assert(out@ =~= was + seq![carry as u32]);
        lemma_concat(was, seq![carry as u32]);
        lemma_one_digit(carry as u32);
        let w = weight(i as nat);
        assert(w * (carry + m * 0) == w * carry) by (nonlinear_arith);
    }
    out
}

/// Adds high zeros up to a number of digits.
pub fn padded(v: &Vec<u32>, n: usize) -> (r: Vec<u32>)
    ensures
        natural(r@) == natural(v@),
        r@.len() == (if v@.len() >= n { v@.len() } else { n as nat }),
{
    let mut out: Vec<u32> = Vec::new();
    let mut i: usize = 0;
    assert(v@.take(0) =~= seq![]);
    while i < v.len()
        invariant
            i <= v@.len(),
            out@ == v@.take(i as int),
        decreases v@.len() - i,
    {
        out.push(v[i]);
        assert(v@.take(i + 1) =~= v@.take(i as int).push(v@[i as int]));
        i = i + 1;
    }
    assert(v@.take(i as int) =~= v@);
    while out.len() < n
        invariant
            natural(out@) == natural(v@),
            v@.len() <= out@.len(),
            out@.len() <= n || out@.len() == v@.len(),
        decreases n - out@.len(),
    {
        let ghost was = out@;
        out.push(0);
        proof {
            assert(out@ =~= was + seq![0u32]);
            lemma_concat(was, seq![0u32]);
            lemma_one_digit(0);
            assert(weight(was.len()) * 0 == 0) by (nonlinear_arith);
        }
    }
    out
}

proof fn lemma_split_at(v: Seq<u32>, i: int)
    requires
        0 <= i < v.len(),
    ensures
        natural(v) == natural(v.take(i)) + weight(i as nat) * (v[i] + BASE * natural(v.skip(i + 1))),
{
    assert(v =~= v.take(i) + v.skip(i));
    lemma_concat(v.take(i), v.skip(i));
    assert(v.skip(i).drop_first() =~= v.skip(i + 1));
}

/// Whether one number is less than another.
pub fn less(a: &Vec<u32>, b: &Vec<u32>) -> (r: bool)
    requires
        a@.len() == b@.len(),
    ensures
        r == (natural(a@) < natural(b@)),
{
    let mut i: usize = a.len();
    proof {
        assert(a@.skip(i as int) =~= Seq::<u32>::empty());
        assert(b@.skip(i as int) =~= Seq::<u32>::empty());
    }
    while i > 0
        invariant
            i <= a@.len(),
            a@.len() == b@.len(),
            natural(a@.skip(i as int)) == natural(b@.skip(i as int)),
        decreases i,
    {
        let k: usize = i - 1;
        proof {
            lemma_split_at(a@, k as int);
            lemma_split_at(b@, k as int);
            lemma_natural_bound(a@.take(k as int));
            lemma_natural_bound(b@.take(k as int));
            let w = weight(k as nat);
            let x = a@[k as int] as int;
            let y = b@[k as int] as int;
            let u = natural(a@.skip(i as int));
            assert(x < y ==> w * (x + BASE * u) + w <= w * (y + BASE * u)) by (nonlinear_arith)
                requires
                    w > 0,
            ;
            assert(y < x ==> w * (y + BASE * u) + w <= w * (x + BASE * u)) by (nonlinear_arith)
                requires
                    w > 0,
            ;
        }
        if a[k] < b[k] {
            return true;
        }
        if b[k] < a[k] {
            return false;
        }
        proof {
            assert(a@.skip(k as int).drop_first() =~= a@.skip(i as int));
            assert(b@.skip(k as int).drop_first() =~= b@.skip(i as int));
        }
        i = k;
    }
    assert(a@.skip(0) =~= a@);
    assert(b@.skip(0) =~= b@);
    false
}

/// The difference of two numbers.
pub fn minus(a: &Vec<u32>, b: &Vec<u32>) -> (r: Vec<u32>)
    requires
        a@.len() == b@.len(),
        natural(a@) >= natural(b@),
    ensures
        natural(r@) == natural(a@) - natural(b@),
        r@.len() == a@.len(),
{
    let mut out: Vec<u32> = Vec::new();
    let mut borrow: u64 = 0;
    let mut i: usize = 0;
    proof {
        assert(a@.skip(0) =~= a@);
        assert(b@.skip(0) =~= b@);
        assert(1 * (natural(a@) - natural(b@) - 0) == natural(a@) - natural(b@)) by (nonlinear_arith);
    }
    while i < a.len()
        invariant
            i <= a@.len(),
            a@.len() == b@.len(),
            out@.len() == i,
            borrow <= 1,
            natural(out@) + weight(i as nat) * (natural(a@.skip(i as int)) - natural(
                b@.skip(i as int),
            ) - borrow) == natural(a@) - natural(b@),
        decreases a@.len() - i,
    {
        let ghost was = out@;
        let ghost before = borrow as int;
        let ghost ta = a@.skip(i + 1);
        let ghost tb = b@.skip(i + 1);
        proof {
            assert(a@.skip(i as int).drop_first() =~= ta);
            assert(b@.skip(i as int).drop_first() =~= tb);
        }
        let x: u64 = a[i] as u64;
        let y: u64 = b[i] as u64 + borrow;
        let digit: u32;
        if x >= y {
            digit = (x - y) as u32;
            borrow = 0;
        } else {
            digit = (x + BASE - y) as u32;
            borrow = 1;
        }
        out.push(digit);
        proof {
            assert(out@ =~= was + seq![digit]);
            lemma_concat(was, seq![digit]);
            lemma_one_digit(digit);
            let w = weight(i as nat);
            let p = natural(ta);
            let q = natural(tb);
            let ax = a@[i as int] as int;
            let bx = b@[i as int] as int;
            assert(w * digit + (BASE * w) * (p - q - borrow) == w * ((ax + BASE * p) - (bx + BASE
                * q) - before)) by (nonlinear_arith)
                requires
                    ax - bx - before == digit - BASE * borrow,
            ;
        }
        i = i + 1;
    }
    proof {
        assert(a@.skip(i as int) =~= Seq::<u32>::empty());
        assert(b@.skip(i as int) =~= Seq::<u32>::empty());
        assert(natural(Seq::<u32>::empty()) == 0);
        lemma_natural_bound(out@);
        let w = weight(i as nat);
        assert(borrow == 1 ==> w * (0 - 0 - borrow) == -w) by (nonlinear_arith);
        assert(borrow == 0 ==> w * (0 - 0 - borrow) == 0) by (nonlinear_arith);
    }
    out
}

/// Whether a number is zero.
pub fn is_zero(v: &Vec<u32>) -> (r: bool)
    ensures
        r == (natural(v@) == 0),
{
    let mut i: usize = v.len();
    assert(v@.skip(i as int) =~= Seq::<u32>::empty());
    while i > 0
        invariant
            i <= v@.len(),
            natural(v@.skip(i as int)) == 0,
        decreases i,
    {
        let k: usize = i - 1;
        proof {
            assert(v@.skip(k as int).drop_first() =~= v@.skip(i as int));
            lemma_split_at(v@, k as int);
            lemma_natural_bound(v@.take(k as int));
            let w = weight(k as nat);
            let x = v@[k as int] as int;
            assert(x > 0 ==> w * (x + BASE * 0) > 0) by (nonlinear_arith)
                requires
                    w > 0,
            ;
        }
        if v[k] != 0 {
            return false;
        }
        i = k;
    }
    assert(v@.skip(0) =~= v@);
    true
}

/// A number without high zeros.
pub fn trimmed(v: Vec<u32>) -> (r: Vec<u32>)
    ensures
        natural(r@) == natural(v@),
{
    let mut out = v;
    while out.len() > 0 && out[out.len() - 1] == 0
        invariant
            natural(out@) == natural(v@),
        decreases out@.len(),
    {
        let ghost was = out@;
        let x = out.pop();
        proof {
            assert(was =~= out@ + seq![0u32]);
            lemma_concat(out@, seq![0u32]);
            lemma_one_digit(0);
            assert(weight(out@.len()) * 0 == 0) by (nonlinear_arith);
        }
    }
    out
}

/// Twice a number.
pub fn doubled(v: &Vec<u32>) -> (r: Vec<u32>)
    ensures
        natural(r@) == 2 * natural(v@),
{
    trimmed(mul_add(v, 2, 0))
}

/// Whether one number is less than another, whatever their numbers of digits.
pub fn less_than(a: &Vec<u32>, b: &Vec<u32>) -> (r: bool)
    ensures
        r == (natural(a@) < natural(b@)),
{
    let x = padded(a, b.len());
    let y = padded(b, a.len());
    less(&x, &y)
}

/// The difference of two numbers, whatever their numbers of digits.
pub fn difference(a: &Vec<u32>, b: &Vec<u32>) -> (r: Vec<u32>)
    requires
        natural(a@) >= natural(b@),
    ensures
        natural(r@) == natural(a@) - natural(b@),
{
    let x = padded(a, b.len());
    let y = padded(b, a.len());
    trimmed(minus(&x, &y))
}

} // verus!
