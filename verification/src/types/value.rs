//! Single values, and what the operators make of them.

use vstd::prelude::*;

use crate::error::{BasaltError, ErrorKind};
use crate::float64::Float64;
use crate::text::{
    parse_i64, parse_signed, same_text, signed_decimal, signed_text, text_less, text_lt,
};
use crate::types::coercion::{BinaryOp, UnaryOp};
use crate::types::data_type::DataType;

verus! {

/// A literal of the bound expression tree. `Null` carries no type.
#[derive(Debug, Clone, PartialEq, Eq)]
pub enum Value {
    Int64(i64),
    Float64(Float64),
    Utf8(String),
    Boolean(bool),
    Null,
}

/// The model of a value, of a table cell as much as of a literal.
pub enum ValueView {
    Int64(i64),
    Float64(Float64),
    Utf8(Seq<char>),
    Boolean(bool),
    Null,
}

impl Value {
    pub open spec fn view(&self) -> ValueView {
        match self {
            Value::Int64(v) => ValueView::Int64(*v),
            Value::Float64(v) => ValueView::Float64(*v),
            Value::Utf8(v) => ValueView::Utf8(v@),
            Value::Boolean(v) => ValueView::Boolean(*v),
            Value::Null => ValueView::Null,
        }
    }

    pub fn copy(&self) -> (r: Value)
        ensures
            r == *self,
    {
        match self {
            Value::Int64(v) => Value::Int64(*v),
            Value::Float64(v) => Value::Float64(*v),
            Value::Utf8(v) => Value::Utf8(v.clone()),
            Value::Boolean(v) => Value::Boolean(*v),
            Value::Null => Value::Null,
        }
    }

    pub fn same(&self, other: &Value) -> (r: bool)
        ensures
            r == (self@ == other@),
    {
        match (self, other) {
            (Value::Int64(a), Value::Int64(b)) => *a == *b,
            (Value::Float64(a), Value::Float64(b)) => *a == *b,
            (Value::Utf8(a), Value::Utf8(b)) => same_text(a, b),
            (Value::Boolean(a), Value::Boolean(b)) => *a == *b,
            (Value::Null, Value::Null) => true,
            _ => false,
        }
    }

    /// The type of the value; a bare `NULL` has none.
    pub fn data_type(&self) -> (r: Option<DataType>)
        ensures
            r == self@.data_type(),
    {
        match self {
            Value::Int64(_) => Some(DataType::Int64),
            Value::Float64(_) => Some(DataType::Float64),
            Value::Utf8(_) => Some(DataType::Utf8),
            Value::Boolean(_) => Some(DataType::Boolean),
            Value::Null => None,
        }
    }

    /// Converts the value to another type.
    pub fn cast_to(&self, to: DataType) -> (r: Result<Value, BasaltError>)
        ensures
            match r {
                Ok(v) => cast_value(self@, to) == Ok::<ValueView, ErrorKind>(v@),
                Err(e) => cast_value(self@, to) == Err::<ValueView, ErrorKind>(e@),
            },
    {
        match self {
            Value::Null => Ok(Value::Null),
            Value::Int64(n) => match to {
                DataType::Int64 => Ok(Value::Int64(*n)),
                DataType::Float64 => Ok(Value::Float64(Float64::from_i64(*n))),
                DataType::Utf8 => Ok(Value::Utf8(signed_decimal(*n))),
                DataType::Boolean => Ok(Value::Boolean(*n != 0)),
            },
            Value::Float64(x) => match to {
                DataType::Float64 => Ok(Value::Float64(*x)),
                DataType::Int64 => match x.to_i64() {
                    Some(n) => Ok(Value::Int64(n)),
                    None => Err(BasaltError::NumericOverflow),
                },
                _ => Err(BasaltError::type_of("cannot cast Float64 to ", to.name())),
            },
            Value::Boolean(b) => match to {
                DataType::Boolean => Ok(Value::Boolean(*b)),
                DataType::Int64 => Ok(
                    Value::Int64(
                        if *b {
                            1
                        } else {
                            0
                        },
                    ),
                ),
                DataType::Utf8 => Ok(
                    Value::Utf8(
                        if *b {
                            "true".to_owned()
                        } else {
                            "false".to_owned()
                        },
                    ),
                ),
                _ => Err(BasaltError::type_of("cannot cast Boolean to ", to.name())),
            },
            Value::Utf8(s) => match to {
                DataType::Utf8 => Ok(Value::Utf8(s.clone())),
                DataType::Int64 => match parse_i64(s.as_str()) {
                    Some(n) => Ok(Value::Int64(n)),
                    None => Err(BasaltError::type_error("text is not an integer")),
                },
                DataType::Boolean => {
                    let yes = "true".to_owned();
                    let no = "false".to_owned();
                    if same_text(s, &yes) {
                        Ok(Value::Boolean(true))
                    } else if same_text(s, &no) {
                        Ok(Value::Boolean(false))
                    } else {
                        Err(BasaltError::type_error("text is not a boolean"))
                    }
                },
                _ => Err(BasaltError::type_of("cannot cast Utf8 to ", to.name())),
            },
        }
    }
}

impl ValueView {
    pub open spec fn data_type(self) -> Option<DataType> {
        match self {
            ValueView::Int64(_) => Some(DataType::Int64),
            ValueView::Float64(_) => Some(DataType::Float64),
            ValueView::Utf8(_) => Some(DataType::Utf8),
            ValueView::Boolean(_) => Some(DataType::Boolean),
            ValueView::Null => None,
        }
    }

    /// A value of type `t`, or null.
    pub open spec fn fits(self, t: DataType) -> bool {
        self == ValueView::Null || self.data_type() == Some(t)
    }
}

/// What `CAST(v AS to)` gives. Nulls stay null; integers become the nearest
/// double, their numeral, or whether they are not zero; doubles lose their
/// fraction; text is read as a numeral or as `true` and `false`.
pub open spec fn cast_value(v: ValueView, to: DataType) -> Result<ValueView, ErrorKind> {
    match v {
        ValueView::Null => Ok(ValueView::Null),
        ValueView::Int64(n) => match to {
            DataType::Int64 => Ok(v),
            DataType::Float64 => Ok(ValueView::Float64(Float64::spec_from_int(n as int))),
            DataType::Utf8 => Ok(ValueView::Utf8(signed_text(n as int))),
            DataType::Boolean => Ok(ValueView::Boolean(n != 0)),
        },
        ValueView::Float64(x) => match to {
            DataType::Float64 => Ok(v),
            DataType::Int64 => if !x.is_nan() && !x.is_infinite() && i64::MIN <= x.truncated()
                <= i64::MAX {
                Ok(ValueView::Int64(x.truncated() as i64))
            } else {
                Err(ErrorKind::NumericOverflow)
            },
            _ => Err(ErrorKind::Type),
        },
        ValueView::Boolean(b) => match to {
            DataType::Boolean => Ok(v),
            DataType::Int64 => Ok(
                ValueView::Int64(
                    if b {
                        1
                    } else {
                        0
                    },
                ),
            ),
            DataType::Utf8 => Ok(
                ValueView::Utf8(
                    if b {
                        "true"@
                    } else {
                        "false"@
                    },
                ),
            ),
            _ => Err(ErrorKind::Type),
        },
        ValueView::Utf8(s) => match to {
            DataType::Utf8 => Ok(v),
            DataType::Int64 => match parse_signed(s) {
                Some(n) => if i64::MIN <= n <= i64::MAX {
                    Ok(ValueView::Int64(n as i64))
                } else {
                    Err(ErrorKind::Type)
                },
                None => Err(ErrorKind::Type),
            },
            DataType::Boolean => if s == "true"@ {
                Ok(ValueView::Boolean(true))
            } else if s == "false"@ {
                Ok(ValueView::Boolean(false))
            } else {
                Err(ErrorKind::Type)
            },
            _ => Err(ErrorKind::Type),
        },
    }
}

/// Integer division rounding toward zero.
pub open spec fn quotient(a: int, b: int) -> int {
    let q = (if a < 0 {
        -a
    } else {
        a
    }) / (if b < 0 {
        -b
    } else {
        b
    });
    if (a < 0) != (b < 0) {
        -q
    } else {
        q
    }
}

/// The remainder that goes with `quotient`; it has the sign of `a`.
pub open spec fn remainder(a: int, b: int) -> int {
    let r = (if a < 0 {
        -a
    } else {
        a
    }) % (if b < 0 {
        -b
    } else {
        b
    });
    if a < 0 {
        -r
    } else {
        r
    }
}

pub open spec fn in_range(n: int) -> Result<ValueView, ErrorKind> {
    if i64::MIN <= n <= i64::MAX {
        Ok(ValueView::Int64(n as i64))
    } else {
        Err(ErrorKind::NumericOverflow)
    }
}

/// Whether two values of one type are equal under `=`.
pub open spec fn value_eq(a: ValueView, b: ValueView) -> bool {
    match (a, b) {
        (ValueView::Int64(x), ValueView::Int64(y)) => x == y,
        (ValueView::Float64(x), ValueView::Float64(y)) => x.num_eq(y),
        (ValueView::Utf8(x), ValueView::Utf8(y)) => x == y,
        (ValueView::Boolean(x), ValueView::Boolean(y)) => x == y,
        _ => false,
    }
}

/// Whether one value comes before another of its type under `<`.
pub open spec fn value_lt(a: ValueView, b: ValueView) -> bool {
    match (a, b) {
        (ValueView::Int64(x), ValueView::Int64(y)) => x < y,
        (ValueView::Float64(x), ValueView::Float64(y)) => x.num_lt(y),
        (ValueView::Utf8(x), ValueView::Utf8(y)) => text_lt(x, y),
        (ValueView::Boolean(x), ValueView::Boolean(y)) => !x && y,
        _ => false,
    }
}

/// A comparison of two non-null values of one type.
pub open spec fn compare_values(op: BinaryOp, a: ValueView, b: ValueView) -> bool {
    match op {
        BinaryOp::Eq => value_eq(a, b),
        BinaryOp::NotEq => !value_eq(a, b),
        BinaryOp::Lt => value_lt(a, b),
        BinaryOp::LtEq => value_lt(a, b) || value_eq(a, b),
        BinaryOp::Gt => value_lt(b, a),
        _ => value_lt(b, a) || value_eq(a, b),
    }
}

/// Arithmetic on two non-null numbers of one type.
pub open spec fn arith_values(op: BinaryOp, a: ValueView, b: ValueView) -> Result<
    ValueView,
    ErrorKind,
> {
    match (a, b) {
        (ValueView::Int64(x), ValueView::Int64(y)) => match op {
            BinaryOp::Add => in_range(x + y),
            BinaryOp::Sub => in_range(x - y),
            BinaryOp::Mul => in_range(x * y),
            BinaryOp::Div => if y == 0 {
                Err(ErrorKind::DivisionByZero)
            } else {
                in_range(quotient(x as int, y as int))
            },
            _ => if y == 0 {
                Err(ErrorKind::DivisionByZero)
            } else if x == i64::MIN && y == -1 {
                Err(ErrorKind::NumericOverflow)
            } else {
                in_range(remainder(x as int, y as int))
            },
        },
        (ValueView::Float64(x), ValueView::Float64(y)) => match op {
            BinaryOp::Add => Ok(ValueView::Float64(x.spec_add(y))),
            BinaryOp::Sub => Ok(ValueView::Float64(x.spec_sub(y))),
            BinaryOp::Mul => Ok(ValueView::Float64(x.spec_mul(y))),
            BinaryOp::Div => if y.magnitude() == 0 {
                Err(ErrorKind::DivisionByZero)
            } else {
                Ok(ValueView::Float64(x.spec_div(y)))
            },
            _ => Err(ErrorKind::Type),
        },
        _ => Err(ErrorKind::Type),
    }
}

/// `AND` in three-valued logic: false wins over null, null over true.
pub open spec fn kleene_and(a: ValueView, b: ValueView) -> ValueView {
    if a == ValueView::Boolean(false) || b == ValueView::Boolean(false) {
        ValueView::Boolean(false)
    } else if a == ValueView::Null || b == ValueView::Null {
        ValueView::Null
    } else {
        ValueView::Boolean(true)
    }
}

/// `OR` in three-valued logic: true wins over null, null over false.
pub open spec fn kleene_or(a: ValueView, b: ValueView) -> ValueView {
    if a == ValueView::Boolean(true) || b == ValueView::Boolean(true) {
        ValueView::Boolean(true)
    } else if a == ValueView::Null || b == ValueView::Null {
        ValueView::Null
    } else {
        ValueView::Boolean(false)
    }
}

/// What a binary operator gives for two values. Arithmetic and comparisons
/// are null when an operand is; operands of different types are a type error.
pub open spec fn binary_value(op: BinaryOp, a: ValueView, b: ValueView) -> Result<
    ValueView,
    ErrorKind,
> {
    if op == BinaryOp::And || op == BinaryOp::Or {
        if !a.fits(DataType::Boolean) || !b.fits(DataType::Boolean) {
            Err(ErrorKind::Type)
        } else if op == BinaryOp::And {
            Ok(kleene_and(a, b))
        } else {
            Ok(kleene_or(a, b))
        }
    } else if a == ValueView::Null || b == ValueView::Null {
        Ok(ValueView::Null)
    } else if op.spec_is_arithmetic() {
        arith_values(op, a, b)
    } else if a.data_type() == b.data_type() {
        Ok(ValueView::Boolean(compare_values(op, a, b)))
    } else {
        Err(ErrorKind::Type)
    }
}

/// What a unary operator gives for a value.
pub open spec fn unary_value(op: UnaryOp, v: ValueView) -> Result<ValueView, ErrorKind> {
    match (op, v) {
        (_, ValueView::Null) => Ok(ValueView::Null),
        (UnaryOp::Neg, ValueView::Int64(n)) => in_range(-n),
        (UnaryOp::Neg, ValueView::Float64(x)) => Ok(ValueView::Float64(x.spec_neg())),
        (UnaryOp::Not, ValueView::Boolean(b)) => Ok(ValueView::Boolean(!b)),
        _ => Err(ErrorKind::Type),
    }
}

proof fn lemma_division(x: i64, y: i64)
    requires
        y != 0,
    ensures
        x.checked_div(y) == (if i64::MIN <= quotient(x as int, y as int) <= i64::MAX {
            Some(quotient(x as int, y as int) as i64)
        } else {
            None
        }),
        x.checked_rem(y) == (if x == i64::MIN && y == -1 {
            None
        } else {
            Some(remainder(x as int, y as int) as i64)
        }),
        !(x == i64::MIN && y == -1) ==> i64::MIN <= remainder(x as int, y as int) <= i64::MAX,
{
    let a = x as int;
    let b = y as int;
    let m = if a < 0 { -a } else { a };
    let d = if b < 0 { -b } else { b };
    assert(a * -1 == -a);
    assert(b * -1 == -b);
    assert(0 <= m % d <= m) by (nonlinear_arith)
        requires
            m >= 0,
            d > 0,
    ;
    assert(0 <= m % d < d) by (nonlinear_arith)
        requires
            m >= 0,
            d > 0,
    ;
    assert(0 <= m / d <= m) by (nonlinear_arith)
        requires
            m >= 0,
            d > 0,
    ;
    if a == 0 {
        assert(0int / d == 0 && 0int % d == 0) by (nonlinear_arith)
            requires
                d > 0,
        ;
    }
    assert((m / d) * -1 == -(m / d));
    assert((m % d) * -1 == -(m % d));
}

fn ranged(n: Option<i64>) -> (r: Result<Value, BasaltError>)
    ensures
        match n {
            Some(v) => r == Ok::<Value, BasaltError>(Value::Int64(v)),
            None => r is Err && r->Err_0@ == ErrorKind::NumericOverflow,
        },
{
    match n {
        Some(v) => Ok(Value::Int64(v)),
        None => Err(BasaltError::NumericOverflow),
    }
}

impl Value {
    pub fn is_null(&self) -> (r: bool)
        ensures
            r == (self@ == ValueView::Null),
    {
        matches!(self, Value::Null)
    }

    /// Whether two values of one type are equal under `=`.
    pub fn equals(&self, other: &Value) -> (r: bool)
        ensures
            r == value_eq(self@, other@),
    {
        match (self, other) {
            (Value::Int64(a), Value::Int64(b)) => *a == *b,
            (Value::Float64(a), Value::Float64(b)) => a.eq_num(*b),
            (Value::Utf8(a), Value::Utf8(b)) => same_text(a, b),
            (Value::Boolean(a), Value::Boolean(b)) => *a == *b,
            _ => false,
        }
    }

    /// Whether the value comes before `other` under `<`.
    pub fn less(&self, other: &Value) -> (r: bool)
        ensures
            r == value_lt(self@, other@),
    {
        match (self, other) {
            (Value::Int64(a), Value::Int64(b)) => *a < *b,
            (Value::Float64(a), Value::Float64(b)) => a.lt_num(*b),
            (Value::Utf8(a), Value::Utf8(b)) => text_less(a.as_str(), b.as_str()),
            (Value::Boolean(a), Value::Boolean(b)) => !*a && *b,
            _ => false,
        }
    }

    pub fn arith(&self, op: BinaryOp, other: &Value) -> (r: Result<Value, BasaltError>)
        requires
            op.spec_is_arithmetic(),
        ensures
            match r {
                Ok(v) => arith_values(op, self@, other@) == Ok::<ValueView, ErrorKind>(v@),
                Err(e) => arith_values(op, self@, other@) == Err::<ValueView, ErrorKind>(e@),
            },
    {
        match (self, other) {
            (Value::Int64(a), Value::Int64(b)) => match op {
                BinaryOp::Add => ranged(a.checked_add(*b)),
                BinaryOp::Sub => ranged(a.checked_sub(*b)),
                BinaryOp::Mul => ranged(a.checked_mul(*b)),
                BinaryOp::Div => {
                    if *b == 0 {
                        Err(BasaltError::DivisionByZero)
                    } else {
                        proof {
                            lemma_division(*a, *b);
                        }
                        ranged(a.checked_div(*b))
                    }
                },
                _ => {
                    if *b == 0 {
                        Err(BasaltError::DivisionByZero)
                    } else {
                        proof {
                            lemma_division(*a, *b);
                        }
                        ranged(a.checked_rem(*b))
                    }
                },
            },
            (Value::Float64(a), Value::Float64(b)) => match op {
                BinaryOp::Add => Ok(Value::Float64(a.add(*b))),
                BinaryOp::Sub => Ok(Value::Float64(a.sub(*b))),
                BinaryOp::Mul => Ok(Value::Float64(a.mul(*b))),
                BinaryOp::Div => {
                    if b.is_zero() {
                        Err(BasaltError::DivisionByZero)
                    } else {
                        Ok(Value::Float64(a.div(*b)))
                    }
                },
                _ => Err(BasaltError::type_error("the remainder takes integers")),
            },
            _ => Err(BasaltError::type_error("arithmetic takes two numbers of one type")),
        }
    }

    fn is_boolean_or_null(&self) -> (r: bool)
        ensures
            r == self@.fits(DataType::Boolean),
    {
        matches!(self, Value::Boolean(_) | Value::Null)
    }

    fn is_bool(&self, want: bool) -> (r: bool)
        ensures
            r == (self@ == ValueView::Boolean(want)),
    {
        match self {
            Value::Boolean(b) => *b == want,
            _ => false,
        }
    }

    /// Applies a binary operator.
    pub fn binary(&self, op: BinaryOp, other: &Value) -> (r: Result<Value, BasaltError>)
        ensures
            match r {
                Ok(v) => binary_value(op, self@, other@) == Ok::<ValueView, ErrorKind>(v@),
                Err(e) => binary_value(op, self@, other@) == Err::<ValueView, ErrorKind>(e@),
            },
    {
        if op == BinaryOp::And || op == BinaryOp::Or {
            if !self.is_boolean_or_null() || !other.is_boolean_or_null() {
                return Err(BasaltError::type_error("AND and OR take booleans"));
            }
            let decisive = op == BinaryOp::Or;
            if self.is_bool(decisive) || other.is_bool(decisive) {
                Ok(Value::Boolean(decisive))
            } else if self.is_null() || other.is_null() {
                Ok(Value::Null)
            } else {
                Ok(Value::Boolean(!decisive))
            }
        } else if self.is_null() || other.is_null() {
            Ok(Value::Null)
        } else if op.is_arithmetic() {
            self.arith(op, other)
        } else {
            if self.data_type() != other.data_type() {
                return Err(BasaltError::type_error("a comparison takes two values of one type"));
            }
            Ok(Value::Boolean(self.compare(op, other)))
        }
    }

    fn compare(&self, op: BinaryOp, other: &Value) -> (r: bool)
        ensures
            r == compare_values(op, self@, other@),
    {
        match op {
            BinaryOp::Eq => self.equals(other),
            BinaryOp::NotEq => !self.equals(other),
            BinaryOp::Lt => self.less(other),
            BinaryOp::LtEq => self.less(other) || self.equals(other),
            BinaryOp::Gt => other.less(self),
            _ => other.less(self) || self.equals(other),
        }
    }

    /// Applies a unary operator.
    pub fn unary(&self, op: UnaryOp) -> (r: Result<Value, BasaltError>)
        ensures
            match r {
                Ok(v) => unary_value(op, self@) == Ok::<ValueView, ErrorKind>(v@),
                Err(e) => unary_value(op, self@) == Err::<ValueView, ErrorKind>(e@),
            },
    {
        match (op, self) {
            (_, Value::Null) => Ok(Value::Null),
            (UnaryOp::Neg, Value::Int64(n)) => {
                if *n == i64::MIN {
                    Err(BasaltError::NumericOverflow)
                } else {
                    Ok(Value::Int64(-*n))
                }
            },
            (UnaryOp::Neg, Value::Float64(x)) => Ok(Value::Float64(x.neg())),
            (UnaryOp::Not, Value::Boolean(b)) => Ok(Value::Boolean(!*b)),
            (UnaryOp::Neg, _) => Err(BasaltError::type_error("cannot negate a non-numeric value")),
            (UnaryOp::Not, _) => Err(BasaltError::type_error("cannot apply logical NOT to a non-boolean value")),
        }
    }
}

} // verus!
