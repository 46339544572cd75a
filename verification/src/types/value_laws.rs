//! What the operators make of values, operator against operator.

use vstd::prelude::*;

use crate::error::ErrorKind;
use crate::float64::Float64;
use crate::float_laws::{
    exact, integers_add, integers_divide, integers_multiply, integers_order,
    integers_round_to_themselves, integers_subtract, lemma_integer,
};
use crate::text::{all_digits, decimal_text, digits_value, parse_signed, signed_text, text_order};
use crate::types::coercion::{coercion, BinaryOp, UnaryOp};
use crate::types::data_type::DataType;
use crate::types::value::{binary_value, cast_value, unary_value, ValueView};

verus! {

/// The outcome `true` or `false`.
pub open spec fn truth(b: bool) -> Result<ValueView, ErrorKind> {
    Ok(ValueView::Boolean(b))
}

/// Whether a comparison of two values holds.
pub open spec fn holds(op: BinaryOp, a: ValueView, b: ValueView) -> bool {
    binary_value(op, a, b) == truth(true)
}

/// Two values of one type compare, and one way of comparing them says what the
/// others say: `<>` denies `=`, `>` is `<` turned round, `<=` is `<` or `=`, and
/// `>=` is `>` or `=`.
pub proof fn comparisons_agree(a: ValueView, b: ValueView)
    requires
        a != ValueView::Null,
        a.data_type() == b.data_type(),
    ensures
        forall|op: BinaryOp| #[trigger]
            op.spec_is_comparison() ==> binary_value(op, a, b) == truth(holds(op, a, b)),
        holds(BinaryOp::NotEq, a, b) == !holds(BinaryOp::Eq, a, b),
        holds(BinaryOp::Gt, a, b) == holds(BinaryOp::Lt, b, a),
        holds(BinaryOp::LtEq, a, b) == (holds(BinaryOp::Lt, a, b) || holds(BinaryOp::Eq, a, b)),
        holds(BinaryOp::GtEq, a, b) == (holds(BinaryOp::Gt, a, b) || holds(BinaryOp::Eq, a, b)),
        holds(BinaryOp::Eq, a, b) == holds(BinaryOp::Eq, b, a),
{
}

/// `=` and `<` compare integers as integers, booleans with false first, texts
/// letter by letter, and doubles as the numbers that they are; a NaN is neither
/// equal to nor less than anything.
pub proof fn comparisons_order_values(a: ValueView, b: ValueView)
    ensures
        (a is Int64 && b is Int64) ==> {
            &&& holds(BinaryOp::Eq, a, b) <==> a->Int64_0 == b->Int64_0
            &&& holds(BinaryOp::Lt, a, b) <==> a->Int64_0 < b->Int64_0
        },
        (a is Boolean && b is Boolean) ==> {
            &&& holds(BinaryOp::Eq, a, b) <==> a->Boolean_0 == b->Boolean_0
            &&& holds(BinaryOp::Lt, a, b) <==> !a->Boolean_0 && b->Boolean_0
        },
        (a is Utf8 && b is Utf8) ==> {
            &&& holds(BinaryOp::Eq, a, b) <==> a->Utf8_0 == b->Utf8_0
            &&& holds(BinaryOp::Eq, a, b) || holds(BinaryOp::Lt, a, b) || holds(
                BinaryOp::Lt,
                b,
                a,
            )
            &&& !(holds(BinaryOp::Lt, a, b) && holds(BinaryOp::Lt, b, a))
            &&& holds(BinaryOp::Eq, a, b) ==> !holds(BinaryOp::Lt, a, b)
        },
        (a is Float64 && b is Float64) ==> {
            let x = a->Float64_0;
            let y = b->Float64_0;
            &&& x.is_nan() || y.is_nan() ==> !holds(BinaryOp::Eq, a, b) && !holds(
                BinaryOp::Lt,
                a,
                b,
            )
            &&& !x.is_nan() && !y.is_nan() ==> (holds(BinaryOp::Eq, a, b) || holds(
                BinaryOp::Lt,
                a,
                b,
            ) || holds(BinaryOp::Lt, b, a))
            &&& !(holds(BinaryOp::Lt, a, b) && holds(BinaryOp::Lt, b, a))
        },
{
    if let (ValueView::Utf8(x), ValueView::Utf8(y)) = (a, b) {
        text_order(x, y, x);
    }
}

/// A text comes before another at the first letter where they differ, and
/// before every text that it begins.
pub proof fn texts_compare_letter_by_letter(head: Seq<char>, x: Seq<char>, y: Seq<char>)
    ensures
        y.len() > 0 ==> holds(
            BinaryOp::Lt,
            ValueView::Utf8(head),
            ValueView::Utf8(head + y),
        ),
        x.len() > 0 && y.len() > 0 && x[0] < y[0] ==> holds(
            BinaryOp::Lt,
            ValueView::Utf8(head + x),
            ValueView::Utf8(head + y),
        ),
    decreases head.len(),
{
    if head.len() == 0 {
        assert(head + x =~= x);
        assert(head + y =~= y);
    } else {
        let rest = head.skip(1);
        texts_compare_letter_by_letter(rest, x, y);
        assert((head + x).skip(1) =~= rest + x);
        assert((head + y).skip(1) =~= rest + y);
    }
}

/// A null on either side makes arithmetic and comparisons null.
pub proof fn nulls_spread(op: BinaryOp, a: ValueView)
    requires
        op != BinaryOp::And,
        op != BinaryOp::Or,
    ensures
        binary_value(op, a, ValueView::Null) == Ok::<ValueView, ErrorKind>(ValueView::Null),
        binary_value(op, ValueView::Null, a) == Ok::<ValueView, ErrorKind>(ValueView::Null),
        unary_value(UnaryOp::Not, ValueView::Null) == Ok::<ValueView, ErrorKind>(ValueView::Null),
        unary_value(UnaryOp::Neg, ValueView::Null) == Ok::<ValueView, ErrorKind>(ValueView::Null),
{
}

/// `AND`, `OR` and `NOT` in three-valued logic: false decides a conjunction and
/// true a disjunction whatever the other side is, true leaves the other side of
/// a conjunction as it is and false that of a disjunction, `NOT` turns one into
/// the other, and two unknowns are unknown.
pub proof fn logic_is_three_valued(a: ValueView, b: ValueView)
    requires
        a.fits(DataType::Boolean),
        b.fits(DataType::Boolean),
    ensures
        binary_value(BinaryOp::And, ValueView::Boolean(false), a) == truth(false),
        binary_value(BinaryOp::Or, ValueView::Boolean(true), a) == truth(true),
        binary_value(BinaryOp::And, ValueView::Boolean(true), a) == Ok::<ValueView, ErrorKind>(a),
        binary_value(BinaryOp::Or, ValueView::Boolean(false), a) == Ok::<ValueView, ErrorKind>(a),
        binary_value(BinaryOp::And, a, b) == binary_value(BinaryOp::And, b, a),
        binary_value(BinaryOp::Or, a, b) == binary_value(BinaryOp::Or, b, a),
        binary_value(BinaryOp::And, a, a) == Ok::<ValueView, ErrorKind>(a),
        binary_value(BinaryOp::Or, a, a) == Ok::<ValueView, ErrorKind>(a),
        unary_value(UnaryOp::Not, ValueView::Boolean(true)) == truth(false),
        unary_value(UnaryOp::Not, ValueView::Boolean(false)) == truth(true),
{
}

/// A logical operator takes booleans alone, and no operator but arithmetic and
/// logic takes two types.
pub proof fn other_types_are_refused(op: BinaryOp, a: ValueView, b: ValueView)
    ensures
        (op == BinaryOp::And || op == BinaryOp::Or) && !(a.fits(DataType::Boolean) && b.fits(
            DataType::Boolean,
        )) ==> binary_value(op, a, b) == Err::<ValueView, ErrorKind>(ErrorKind::Type),
        a != ValueView::Null && b != ValueView::Null && a.data_type() != b.data_type() && op
            != BinaryOp::And && op != BinaryOp::Or ==> binary_value(op, a, b) == Err::<
            ValueView,
            ErrorKind,
        >(ErrorKind::Type),
        (a is Utf8 || a is Boolean) && b != ValueView::Null && op.spec_is_arithmetic()
            ==> binary_value(op, a, b) == Err::<ValueView, ErrorKind>(ErrorKind::Type),
{
}

/// The outcome of integer arithmetic: the integer, or an overflow where it has
/// more than 64 bits.
pub open spec fn integer(n: int) -> Result<ValueView, ErrorKind> {
    if i64::MIN <= n <= i64::MAX {
        Ok(ValueView::Int64(n as i64))
    } else {
        Err(ErrorKind::NumericOverflow)
    }
}

/// Integers add, subtract and multiply as integers do, up to overflow; they
/// divide towards zero, the remainder has the sign of what is divided, and zero
/// divides nothing.
pub proof fn integers_compute(x: i64, y: i64)
    ensures
        binary_value(BinaryOp::Add, ValueView::Int64(x), ValueView::Int64(y)) == integer(x + y),
        binary_value(BinaryOp::Sub, ValueView::Int64(x), ValueView::Int64(y)) == integer(x - y),
        binary_value(BinaryOp::Mul, ValueView::Int64(x), ValueView::Int64(y)) == integer(x * y),
        y == 0 ==> {
            &&& binary_value(BinaryOp::Div, ValueView::Int64(x), ValueView::Int64(y)) == Err::<
                ValueView,
                ErrorKind,
            >(ErrorKind::DivisionByZero)
            &&& binary_value(BinaryOp::Mod, ValueView::Int64(x), ValueView::Int64(y)) == Err::<
                ValueView,
                ErrorKind,
            >(ErrorKind::DivisionByZero)
        },
        y != 0 && !(x == i64::MIN && y == -1) ==> {
            let q = binary_value(BinaryOp::Div, ValueView::Int64(x), ValueView::Int64(y));
            let r = binary_value(BinaryOp::Mod, ValueView::Int64(x), ValueView::Int64(y));
            &&& q is Ok && q->Ok_0 is Int64
            &&& r is Ok && r->Ok_0 is Int64
            &&& q->Ok_0->Int64_0 * y + r->Ok_0->Int64_0 == x
            &&& -(if y < 0 {
                -(y as int)
            } else {
                y as int
            }) < r->Ok_0->Int64_0 < (if y < 0 {
                -(y as int)
            } else {
                y as int
            })
            &&& r->Ok_0->Int64_0 != 0 ==> (r->Ok_0->Int64_0 < 0) == (x < 0)
        },
        x == i64::MIN && y == -1 ==> {
            &&& binary_value(BinaryOp::Div, ValueView::Int64(x), ValueView::Int64(y)) == Err::<
                ValueView,
                ErrorKind,
            >(ErrorKind::NumericOverflow)
            &&& binary_value(BinaryOp::Mod, ValueView::Int64(x), ValueView::Int64(y)) == Err::<
                ValueView,
                ErrorKind,
            >(ErrorKind::NumericOverflow)
        },
        unary_value(UnaryOp::Neg, ValueView::Int64(x)) == integer(-x),
{
    if y != 0 {
        let a = if x < 0 {
            -(x as int)
        } else {
            x as int
        };
        let b = if y < 0 {
            -(y as int)
        } else {
            y as int
        };
        vstd::arithmetic::div_mod::lemma_fundamental_div_mod(a, b);
        let q = a / b;
        let r = a % b;
        assert(q >= 0 && q <= a) by (nonlinear_arith)
            requires
                a >= 0,
                b >= 1,
                q == a / b,
        ;
        assert(b * q == q * b) by (nonlinear_arith);
        assert((-q) * b == -(q * b) && q * (-b) == -(q * b) && (-q) * (-b) == q * b)
            by (nonlinear_arith);
        if b != 1 {
            assert(q <= a / 2) by (nonlinear_arith)
                requires
                    a >= 0,
                    b >= 2,
                    q == a / b,
            ;
        }
        assert(a * b >= 0) by (nonlinear_arith)
            requires
                a >= 0,
                b >= 0,
        ;
    }
}

/// Doubles compute as IEEE 754 says, except that zero divides nothing and there
/// is no remainder.
pub proof fn doubles_compute(x: Float64, y: Float64)
    ensures
        ({
            let a = ValueView::Float64(x);
            let b = ValueView::Float64(y);
            &&& binary_value(BinaryOp::Add, a, b) == Ok::<ValueView, ErrorKind>(
                ValueView::Float64(x.spec_add(y)),
            )
            &&& binary_value(BinaryOp::Sub, a, b) == Ok::<ValueView, ErrorKind>(
                ValueView::Float64(x.spec_sub(y)),
            )
            &&& binary_value(BinaryOp::Mul, a, b) == Ok::<ValueView, ErrorKind>(
                ValueView::Float64(x.spec_mul(y)),
            )
            &&& binary_value(BinaryOp::Div, a, b) == (if y.magnitude() == 0 {
                Err::<ValueView, ErrorKind>(ErrorKind::DivisionByZero)
            } else {
                Ok(ValueView::Float64(x.spec_div(y)))
            })
            &&& binary_value(BinaryOp::Mod, a, b) is Err
        }),
{
}

/// Integers that are exact as doubles give, as doubles, the doubles of what they
/// give as integers.
pub proof fn doubles_compute_like_integers(x: int, y: int)
    requires
        0 <= x,
        0 < y,
        x + y < crate::float64::LIMIT,
        x * y < crate::float64::LIMIT,
    ensures
        ({
            let double = |n: int| ValueView::Float64(Float64::spec_from_int(n));
            &&& binary_value(BinaryOp::Add, double(x), double(y)) == Ok::<ValueView, ErrorKind>(
                double(x + y),
            )
            &&& binary_value(BinaryOp::Sub, double(x), double(y)) == Ok::<ValueView, ErrorKind>(
                double(x - y),
            )
            &&& binary_value(BinaryOp::Mul, double(x), double(y)) == Ok::<ValueView, ErrorKind>(
                double(x * y),
            )
            &&& binary_value(BinaryOp::Div, double(x * y), double(y)) == Ok::<
                ValueView,
                ErrorKind,
            >(double(x))
            &&& holds(BinaryOp::Lt, double(x), double(y)) <==> x < y
            &&& holds(BinaryOp::Eq, double(x), double(y)) <==> x == y
        }),
{
    integers_add(x, y);
    integers_subtract(x, y);
    integers_multiply(x, y);
    integers_divide(x, y);
    integers_order(x, y);
    lemma_integer(y);
}

// ---------------------------------------------------------------------------
// Casts

/// The decimal text of a number is read back as the number.
pub proof fn lemma_decimal_read(n: nat)
    ensures
        all_digits(decimal_text(n)),
        decimal_text(n).len() > 0,
        digits_value(decimal_text(n)) == n,
    decreases n,
{
    if n < 10 {
        let s = decimal_text(n);
        assert(s.drop_last() =~= seq![]);
        assert(digits_value(s.drop_last()) == 0);
    } else {
        lemma_decimal_read(n / 10);
        let s = decimal_text(n);
        assert(s.drop_last() =~= decimal_text(n / 10));
        assert forall|i: int| 0 <= i < s.len() implies crate::text::is_digit(#[trigger] s[i]) by {
            if i < s.len() - 1 {
                assert(s[i] == decimal_text(n / 10)[i]);
            }
        }
    }
}

/// A number written out is read back as itself.
pub proof fn numerals_are_read_back(n: int)
    ensures
        parse_signed(signed_text(n)) == Some(n),
{
    if n < 0 {
        lemma_decimal_read((-n) as nat);
        let s = signed_text(n);
        assert(s.skip(1) =~= decimal_text((-n) as nat));
    } else {
        lemma_decimal_read(n as nat);
        let s = signed_text(n);
        assert(crate::text::is_digit(s[0]));
    }
}

/// A numeral stands for ten times what its digits before the last stand for,
/// and the last digit; a sign in front of it is its sign.
pub proof fn numerals_are_decimal(s: Seq<char>, c: char)
    requires
        all_digits(s),
        '0' <= c && c <= '9',
    ensures
        parse_signed(s.push(c)) == Some(
            (if s.len() == 0 {
                0
            } else {
                10 * parse_signed(s)->Some_0
            }) + (c as u32 - '0' as u32),
        ),
        parse_signed(seq!['-'] + s.push(c)) == Some(-parse_signed(s.push(c))->Some_0),
        parse_signed(seq!['+'] + s.push(c)) == parse_signed(s.push(c)),
        parse_signed(Seq::empty()) is None,
{
    let t = s.push(c);
    assert(t.drop_last() =~= s);
    assert(all_digits(t));
    assert(crate::text::is_digit(t[0]));
    if s.len() > 0 {
        assert(crate::text::is_digit(s[0]));
        assert(parse_signed(s) == Some(digits_value(s) as int));
    } else {
        assert(digits_value(s) == 0);
    }
    assert(t.last() == c);
    assert(digits_value(t) == digits_value(s) * 10 + (c as u32 - '0' as u32));
    assert(parse_signed(t) == Some(digits_value(t) as int));
    assert((seq!['-'] + t).skip(1) =~= t);
    assert((seq!['+'] + t).skip(1) =~= t);
}

/// Casts to a value's own type and of nulls change nothing. Integers, and
/// booleans, come back from text as they went in; booleans come back from
/// integers, and integers that are exact as doubles come back from doubles.
pub proof fn casts_come_back(n: i64, b: bool, v: ValueView, to: DataType)
    ensures
        cast_value(ValueView::Null, to) == Ok::<ValueView, ErrorKind>(ValueView::Null),
        v.data_type() == Some(to) ==> cast_value(v, to) == Ok::<ValueView, ErrorKind>(v),
        ({
            let text = cast_value(ValueView::Int64(n), DataType::Utf8);
            &&& text is Ok && text->Ok_0 is Utf8
            &&& cast_value(text->Ok_0, DataType::Int64) == Ok::<ValueView, ErrorKind>(
                ValueView::Int64(n),
            )
        }),
        ({
            let text = cast_value(ValueView::Boolean(b), DataType::Utf8);
            &&& text is Ok && text->Ok_0 is Utf8
            &&& cast_value(text->Ok_0, DataType::Boolean) == truth(b)
        }),
        ({
            let number = cast_value(ValueView::Boolean(b), DataType::Int64);
            &&& number is Ok && number->Ok_0 is Int64
            &&& cast_value(number->Ok_0, DataType::Boolean) == truth(b)
        }),
        cast_value(ValueView::Int64(n), DataType::Boolean) == truth(n != 0),
        exact(n as int) ==> {
            let double = cast_value(ValueView::Int64(n), DataType::Float64);
            &&& double is Ok && double->Ok_0 is Float64
            &&& cast_value(double->Ok_0, DataType::Int64) == Ok::<ValueView, ErrorKind>(
                ValueView::Int64(n),
            )
        },
        cast_value(ValueView::Utf8("true"@), DataType::Boolean) == truth(true),
        cast_value(ValueView::Utf8("false"@), DataType::Boolean) == truth(false),
{
    numerals_are_read_back(n as int);
    reveal_strlit("true");
    reveal_strlit("false");
    assert("true"@.len() == 4 && "false"@.len() == 5);
    if exact(n as int) {
        integers_round_to_themselves(n as int);
        lemma_integer(n as int);
    }
}

/// A cast of a double to an integer drops the fraction: the integer is no
/// further from zero than the double and less than one away from it; a double
/// that has no such integer of 64 bits overflows.
pub proof fn doubles_lose_their_fraction(x: Float64)
    ensures
        ({
            let unit = vstd::arithmetic::power2::pow2(1074) as int;
            match cast_value(ValueView::Float64(x), DataType::Int64) {
                Ok(ValueView::Int64(n)) => {
                    &&& !x.is_nan() && !x.is_infinite()
                    &&& x.value() >= 0 ==> 0 <= n && n * unit <= x.value() < (n + 1) * unit
                    &&& x.value() <= 0 ==> n <= 0 && (n - 1) * unit < x.value() <= n * unit
                },
                Ok(_) => false,
                Err(k) => k == ErrorKind::NumericOverflow,
            }
        }),
        x.is_nan() || x.is_infinite() ==> cast_value(ValueView::Float64(x), DataType::Int64) is Err,
{
    let unit = vstd::arithmetic::power2::pow2(1074) as int;
    vstd::arithmetic::power2::lemma_pow2_pos(1074);
    let u = crate::float64::units(x.magnitude());
    crate::float64::lemma_units_zero(x.magnitude());
    vstd::arithmetic::div_mod::lemma_fundamental_div_mod(u, unit);
    let q = u / unit;
    assert(q >= 0) by (nonlinear_arith)
        requires
            u >= 0,
            unit > 0,
            q == u / unit,
    ;
    assert(unit * q == q * unit && (q + 1) * unit == q * unit + unit && (-q) * unit == -(q * unit)
        && (-q - 1) * unit == -(q * unit) - unit) by (nonlinear_arith);
}

// ---------------------------------------------------------------------------
// Types

/// An operator takes two numbers, or two values of one type; of an integer and
/// a double the integer becomes a double. Arithmetic takes and gives numbers,
/// comparisons give booleans, and `AND` and `OR` take and give booleans.
pub proof fn operands_meet_in_one_type(op: BinaryOp, l: DataType, r: DataType)
    ensures
        match coercion(op, l, r) {
            None => {
                ||| l != r && !(l.spec_is_numeric() && r.spec_is_numeric())
                ||| op.spec_is_arithmetic() && !l.spec_is_numeric()
                ||| (op == BinaryOp::And || op == BinaryOp::Or) && l != DataType::Boolean
            },
            Some(plan) => {
                let a = if plan.lhs_cast is Some {
                    plan.lhs_cast->Some_0
                } else {
                    l
                };
                let b = if plan.rhs_cast is Some {
                    plan.rhs_cast->Some_0
                } else {
                    r
                };
                &&& a == b
                &&& l == r ==> plan.lhs_cast is None && plan.rhs_cast is None
                &&& l != r ==> {
                    &&& l == DataType::Int64 || l == DataType::Float64
                    &&& r == DataType::Int64 || r == DataType::Float64
                    &&& a == DataType::Float64
                }
                &&& plan.lhs_cast is Some ==> l == DataType::Int64
                &&& plan.rhs_cast is Some ==> r == DataType::Int64
                &&& op.spec_is_arithmetic() ==> plan.output == a && (a == DataType::Int64 || a
                    == DataType::Float64)
                &&& !op.spec_is_arithmetic() ==> plan.output == DataType::Boolean
                &&& op == BinaryOp::And || op == BinaryOp::Or ==> a == DataType::Boolean
            },
        },
{
}

} // verus!
