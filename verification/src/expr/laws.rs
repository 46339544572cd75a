//! The types of expressions, whether they can be null, and when two of them are
//! the same.

use vstd::prelude::*;

use crate::expr::expr::{binary, expr_children, expr_equal, expr_nullable, expr_type, ExprView};
use crate::text::lowered;
use crate::types::coercion::{BinaryOp, UnaryOp};
use crate::types::data_type::DataType;
use crate::types::value::ValueView;

verus! {

/// Arithmetic on integers gives integers, and as soon as an operand is a double
/// a double. Comparisons give booleans, where their operands are of one type or
/// both numbers; `AND` and `OR` take booleans and give one.
pub proof fn operations_have_their_types(a: ExprView, op: BinaryOp, b: ExprView, t: DataType)
    ensures
        ({
            let r = expr_type(binary(a, op, b));
            let whole = Some(DataType::Int64);
            let double = Some(DataType::Float64);
            let truth = Some(DataType::Boolean);
            let number = |x: Option<DataType>| x == whole || x == double;
            &&& op.spec_is_arithmetic() && expr_type(a) == whole && expr_type(b) == whole ==> r == whole
            &&& op.spec_is_arithmetic() && number(expr_type(a)) && number(expr_type(b)) && (expr_type(a)
                == double || expr_type(b) == double) ==> r == double
            &&& op.spec_is_comparison() && expr_type(a) == Some(t) && expr_type(b) == Some(t) ==> r
                == truth
            &&& op.spec_is_comparison() && number(expr_type(a)) && number(expr_type(b)) ==> r == truth
            &&& (op is And || op is Or) ==> (r == truth <==> expr_type(a) == truth && expr_type(b)
                == truth)
            &&& op.spec_is_arithmetic() && r is Some ==> number(expr_type(a)) && number(expr_type(b))
            &&& expr_type(a) is None || expr_type(b) is None ==> r is None
        }),
{
}

/// A column has the type that it is declared with, a literal that of its value,
/// and a cast the one that it casts to. Only numbers are negated, only booleans
/// inverted, and a null test gives a boolean.
pub proof fn other_expressions_have_their_types(
    e: ExprView,
    index: usize,
    t: DataType,
    nullable: bool,
    v: ValueView,
)
    ensures
        expr_type(ExprView::Column { index, data_type: t, nullable }) == Some(t),
        expr_type(ExprView::Literal(v)) == v.data_type(),
        expr_type(ExprView::Cast { expr: Box::new(e), to: t }) == Some(t),
        expr_type(ExprView::IsNull(Box::new(e))) == Some(DataType::Boolean),
        expr_type(ExprView::IsNotNull(Box::new(e))) == Some(DataType::Boolean),
        ({
            let minus = expr_type(ExprView::Unary { op: UnaryOp::Neg, expr: Box::new(e) });
            let not = expr_type(ExprView::Unary { op: UnaryOp::Not, expr: Box::new(e) });
            &&& expr_type(e) == Some(DataType::Int64) || expr_type(e) == Some(DataType::Float64)
                ==> minus == expr_type(e)
            &&& expr_type(e) == Some(DataType::Utf8) || expr_type(e) == Some(DataType::Boolean)
                || expr_type(e) is None ==> minus is None
            &&& not is Some <==> expr_type(e) == Some(DataType::Boolean)
            &&& not is Some ==> not == Some(DataType::Boolean)
        }),
{
}

/// An expression can be null where one of its operands can. Null tests never
/// are; a literal is where it is a null, and a column where it is declared so.
pub proof fn nulls_come_from_operands(
    e: ExprView,
    index: usize,
    t: DataType,
    nullable: bool,
    v: ValueView,
)
    ensures
        expr_nullable(ExprView::Column { index, data_type: t, nullable }) == nullable,
        expr_nullable(ExprView::Literal(v)) <==> v == ValueView::Null,
        !expr_nullable(ExprView::IsNull(Box::new(e))),
        !expr_nullable(ExprView::IsNotNull(Box::new(e))),
        e is Binary || e is Unary || e is Cast ==> (expr_nullable(e) <==> exists|i: int|
            0 <= i < expr_children(e).len() && expr_nullable(#[trigger] expr_children(e)[i])),
{
    let c = expr_children(e);
    match e {
        ExprView::Binary { left, op, right } => {
            assert(c[0] == *left && c[1] == *right);
        },
        ExprView::Unary { op, expr } => {
            assert(c[0] == *expr);
        },
        ExprView::Cast { expr, to } => {
            assert(c[0] == *expr);
        },
        _ => {},
    }
}

/// Whether an expression holds no literal double.
pub open spec fn without_doubles(e: ExprView) -> bool
    decreases e,
{
    match e {
        ExprView::Column { index, data_type, nullable } => true,
        ExprView::Literal(v) => !(v is Float64),
        ExprView::Binary { left, op, right } => without_doubles(*left) && without_doubles(*right),
        ExprView::Unary { op, expr } => without_doubles(*expr),
        ExprView::Cast { expr, to } => without_doubles(*expr),
        ExprView::IsNull(inner) => without_doubles(*inner),
        ExprView::IsNotNull(inner) => without_doubles(*inner),
    }
}

/// Expressions without doubles are the same exactly where nothing tells them
/// apart.
pub proof fn the_same_expressions_are_equal(a: ExprView, b: ExprView)
    requires
        without_doubles(a),
    ensures
        expr_equal(a, b) <==> a == b,
    decreases a,
{
    match (a, b) {
        (
            ExprView::Binary { left: l, op: o, right: r },
            ExprView::Binary { left: m, op: p, right: s },
        ) => {
            the_same_expressions_are_equal(*l, *m);
            the_same_expressions_are_equal(*r, *s);
        },
        (ExprView::Unary { op: o, expr: x }, ExprView::Unary { op: p, expr: y }) => {
            the_same_expressions_are_equal(*x, *y);
        },
        (ExprView::Cast { expr: x, to: t }, ExprView::Cast { expr: y, to: u }) => {
            the_same_expressions_are_equal(*x, *y);
        },
        (ExprView::IsNull(x), ExprView::IsNull(y)) => {
            the_same_expressions_are_equal(*x, *y);
        },
        (ExprView::IsNotNull(x), ExprView::IsNotNull(y)) => {
            the_same_expressions_are_equal(*x, *y);
        },
        _ => {},
    }
}

/// Lower case differs from a text in its capital letters alone, each of which
/// becomes the letter 32 places on; a second time nothing changes.
pub proof fn lower_case_changes_capitals(s: Seq<char>, i: int)
    requires
        0 <= i < s.len(),
    ensures
        lowered(s).len() == s.len(),
        'A' <= s[i] && s[i] <= 'Z' ==> lowered(s)[i] as u32 == s[i] as u32 + 32,
        !('A' <= s[i] && s[i] <= 'Z') ==> lowered(s)[i] == s[i],
        lowered(lowered(s)) == lowered(s),
{
    assert(lowered(lowered(s)) =~= lowered(s));
}

} // verus!
