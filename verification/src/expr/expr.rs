//! The bound expression tree: columns are resolved to positions, and every
//! cast is explicit.

use vstd::prelude::*;

use crate::error::{BasaltError, ErrorKind};
use crate::types::coercion::{coerce_binary, coercion, BinaryOp, UnaryOp};
use crate::types::data_type::DataType;
use crate::types::value::{binary_value, cast_value, unary_value, Value, ValueView};

verus! {

#[allow(inconsistent_fields)]
#[derive(Debug, PartialEq, Eq)]
pub enum Expr {
    /// The column at `index` of the input.
    Column { index: usize, data_type: DataType, nullable: bool },
    Literal(Value),
    Binary { left: Box<Expr>, op: BinaryOp, right: Box<Expr> },
    Unary { op: UnaryOp, expr: Box<Expr> },
    Cast { expr: Box<Expr>, to: DataType },
    IsNull(Box<Expr>),
    IsNotNull(Box<Expr>),
}

/// The model of an expression.
#[allow(inconsistent_fields)]
pub enum ExprView {
    Column { index: usize, data_type: DataType, nullable: bool },
    Literal(ValueView),
    Binary { left: Box<ExprView>, op: BinaryOp, right: Box<ExprView> },
    Unary { op: UnaryOp, expr: Box<ExprView> },
    Cast { expr: Box<ExprView>, to: DataType },
    IsNull(Box<ExprView>),
    IsNotNull(Box<ExprView>),
}

/// `left op right`.
pub open spec fn binary(left: ExprView, op: BinaryOp, right: ExprView) -> ExprView {
    ExprView::Binary { left: Box::new(left), op, right: Box::new(right) }
}

/// The type of an expression; `None` where it is ill-typed or a bare `NULL`.
pub open spec fn expr_type(e: ExprView) -> Option<DataType>
    decreases e,
{
    match e {
        ExprView::Column { index, data_type, nullable } => Some(data_type),
        ExprView::Literal(v) => v.data_type(),
        ExprView::Binary { left, op, right } => match (expr_type(*left), expr_type(*right)) {
            (Some(l), Some(r)) => match coercion(op, l, r) {
                Some(plan) => Some(plan.output),
                None => None,
            },
            _ => None,
        },
        ExprView::Unary { op, expr } => match expr_type(*expr) {
            Some(t) => match op {
                UnaryOp::Neg => if t.spec_is_numeric() {
                    Some(t)
                } else {
                    None
                },
                UnaryOp::Not => if t == DataType::Boolean {
                    Some(t)
                } else {
                    None
                },
            },
            None => None,
        },
        ExprView::Cast { expr, to } => Some(to),
        ExprView::IsNull(inner) => Some(DataType::Boolean),
        ExprView::IsNotNull(inner) => Some(DataType::Boolean),
    }
}

/// Whether an expression can give null.
pub open spec fn expr_nullable(e: ExprView) -> bool
    decreases e,
{
    match e {
        ExprView::Column { index, data_type, nullable } => nullable,
        ExprView::Literal(v) => v == ValueView::Null,
        ExprView::Binary { left, op, right } => expr_nullable(*left) || expr_nullable(*right),
        ExprView::Unary { op, expr } => expr_nullable(*expr),
        ExprView::Cast { expr, to } => expr_nullable(*expr),
        ExprView::IsNull(inner) => false,
        ExprView::IsNotNull(inner) => false,
    }
}

/// The value of an expression on one row.
pub open spec fn eval(e: ExprView, row: Seq<ValueView>) -> Result<ValueView, ErrorKind>
    decreases e,
{
    match e {
        ExprView::Column { index, data_type, nullable } => if index < row.len() {
            Ok(row[index as int])
        } else {
            Err(ErrorKind::Internal)
        },
        ExprView::Literal(v) => Ok(v),
        ExprView::Binary { left, op, right } => match eval(*left, row) {
            Err(k) => Err(k),
            Ok(l) => match eval(*right, row) {
                Err(k) => Err(k),
                Ok(r) => binary_value(op, l, r),
            },
        },
        ExprView::Unary { op, expr } => match eval(*expr, row) {
            Err(k) => Err(k),
            Ok(v) => unary_value(op, v),
        },
        ExprView::Cast { expr, to } => match eval(*expr, row) {
            Err(k) => Err(k),
            Ok(v) => cast_value(v, to),
        },
        ExprView::IsNull(inner) => match eval(*inner, row) {
            Err(k) => Err(k),
            Ok(v) => Ok(ValueView::Boolean(v == ValueView::Null)),
        },
        ExprView::IsNotNull(inner) => match eval(*inner, row) {
            Err(k) => Err(k),
            Ok(v) => Ok(ValueView::Boolean(v != ValueView::Null)),
        },
    }
}

/// Whether the columns an expression declares non-nullable are so in `row`,
/// and every column holds a value of its declared type.
pub open spec fn row_conforms(e: ExprView, row: Seq<ValueView>) -> bool
    decreases e,
{
    match e {
        ExprView::Column { index, data_type, nullable } => index < row.len() ==> {
            &&& row[index as int].fits(data_type)
            &&& !nullable ==> row[index as int] != ValueView::Null
        },
        ExprView::Literal(v) => true,
        ExprView::Binary { left, op, right } => row_conforms(*left, row) && row_conforms(
            *right,
            row,
        ),
        ExprView::Unary { op, expr } => row_conforms(*expr, row),
        ExprView::Cast { expr, to } => row_conforms(*expr, row),
        ExprView::IsNull(inner) => row_conforms(*inner, row),
        ExprView::IsNotNull(inner) => row_conforms(*inner, row),
    }
}

/// An expression that is not nullable never gives null on a conforming row.
pub proof fn non_nullable_is_never_null(e: ExprView, row: Seq<ValueView>)
    requires
        !expr_nullable(e),
        row_conforms(e, row),
    ensures
        eval(e, row) != Ok::<ValueView, ErrorKind>(ValueView::Null),
    decreases e,
{
    match e {
        ExprView::Binary { left, op, right } => {
            non_nullable_is_never_null(*left, row);
            non_nullable_is_never_null(*right, row);
        },
        ExprView::Unary { op, expr } => {
            non_nullable_is_never_null(*expr, row);
        },
        ExprView::Cast { expr, to } => {
            non_nullable_is_never_null(*expr, row);
        },
        _ => {},
    }
}

/// A well-typed expression gives values of its type on a conforming row.
pub proof fn evaluation_respects_types(e: ExprView, row: Seq<ValueView>)
    requires
        row_conforms(e, row),
        expr_type(e) is Some,
        eval(e, row) is Ok,
    ensures
        eval(e, row)->Ok_0.fits(expr_type(e)->0),
    decreases e,
{
    match e {
        ExprView::Binary { left, op, right } => {
            evaluation_respects_types(*left, row);
            evaluation_respects_types(*right, row);
        },
        ExprView::Unary { op, expr } => {
            evaluation_respects_types(*expr, row);
        },
        _ => {},
    }
}

/// Whether two literals are the same: doubles by their number, so that the two
/// zeros are the same and a NaN is not even itself.
pub open spec fn literal_equal(a: ValueView, b: ValueView) -> bool {
    match (a, b) {
        (ValueView::Float64(x), ValueView::Float64(y)) => x.num_eq(y),
        _ => a == b,
    }
}

/// Whether two expressions are the same, node by node.
pub open spec fn expr_equal(a: ExprView, b: ExprView) -> bool
    decreases a,
{
    match (a, b) {
        (ExprView::Literal(x), ExprView::Literal(y)) => literal_equal(x, y),
        (
            ExprView::Binary { left: l, op: o, right: r },
            ExprView::Binary { left: m, op: p, right: s },
        ) => o == p && expr_equal(*l, *m) && expr_equal(*r, *s),
        (
            ExprView::Unary { op: o, expr: x },
            ExprView::Unary { op: p, expr: y },
        ) => o == p && expr_equal(*x, *y),
        (
            ExprView::Cast { expr: x, to: t },
            ExprView::Cast { expr: y, to: u },
        ) => t == u && expr_equal(*x, *y),
        (ExprView::IsNull(x), ExprView::IsNull(y)) => expr_equal(*x, *y),
        (ExprView::IsNotNull(x), ExprView::IsNotNull(y)) => expr_equal(*x, *y),
        _ => a is Column && a == b,
    }
}

fn same_literal(a: &Value, b: &Value) -> (r: bool)
    ensures
        r == literal_equal(a@, b@),
{
    match (a, b) {
        (Value::Float64(x), Value::Float64(y)) => x.eq_num(*y),
        _ => a.same(b),
    }
}

impl Expr {
    pub open spec fn view(&self) -> ExprView
        decreases self,
    {
        match self {
            Expr::Column { index, data_type, nullable } => ExprView::Column {
                index: *index,
                data_type: *data_type,
                nullable: *nullable,
            },
            Expr::Literal(v) => ExprView::Literal(v@),
            Expr::Binary { left, op, right } => ExprView::Binary {
                left: Box::new(left.view()),
                op: *op,
                right: Box::new(right.view()),
            },
            Expr::Unary { op, expr } => ExprView::Unary { op: *op, expr: Box::new(expr.view()) },
            Expr::Cast { expr, to } => ExprView::Cast { expr: Box::new(expr.view()), to: *to },
            Expr::IsNull(inner) => ExprView::IsNull(Box::new(inner.view())),
            Expr::IsNotNull(inner) => ExprView::IsNotNull(Box::new(inner.view())),
        }
    }

    /// A copy of the expression.
    pub fn copy(&self) -> (r: Expr)
        ensures
            r == *self,
        decreases self,
    {
        match self {
            Expr::Column { index, data_type, nullable } => Expr::Column {
                index: *index,
                data_type: *data_type,
                nullable: *nullable,
            },
            Expr::Literal(v) => Expr::Literal(v.copy()),
            Expr::Binary { left, op, right } => Expr::Binary {
                left: Box::new(left.copy()),
                op: *op,
                right: Box::new(right.copy()),
            },
            Expr::Unary { op, expr } => Expr::Unary { op: *op, expr: Box::new(expr.copy()) },
            Expr::Cast { expr, to } => Expr::Cast { expr: Box::new(expr.copy()), to: *to },
            Expr::IsNull(inner) => Expr::IsNull(Box::new(inner.copy())),
            Expr::IsNotNull(inner) => Expr::IsNotNull(Box::new(inner.copy())),
        }
    }

    /// Whether the two are the same expression.
    pub fn equals(&self, other: &Expr) -> (r: bool)
        ensures
            r == expr_equal(self@, other@),
        decreases self,
    {
        match (self, other) {
            (
                Expr::Column { index: i, data_type: t, nullable: n },
                Expr::Column { index: j, data_type: u, nullable: m },
            ) => *i == *j && *t == *u && *n == *m,
            (Expr::Literal(a), Expr::Literal(b)) => same_literal(a, b),
            (
                Expr::Binary { left: a, op: o, right: b },
                Expr::Binary { left: c, op: p, right: d },
            ) => *o == *p && a.equals(c) && b.equals(d),
            (Expr::Unary { op: o, expr: a }, Expr::Unary { op: p, expr: b }) => *o == *p
                && a.equals(b),
            (Expr::Cast { expr: a, to: t }, Expr::Cast { expr: b, to: u }) => *t == *u && a.equals(
                b,
            ),
            (Expr::IsNull(a), Expr::IsNull(b)) => a.equals(b),
            (Expr::IsNotNull(a), Expr::IsNotNull(b)) => a.equals(b),
            _ => false,
        }
    }

    /// The type of the expression.
    ///
    /// # Errors
    /// A type error where operands do not fit their operator, and for a bare
    /// `NULL`.
    pub fn data_type(&self) -> (r: Result<DataType, BasaltError>)
        ensures
            match r {
                Ok(t) => expr_type(self@) == Some(t),
                Err(e) => e@ == ErrorKind::Type && expr_type(self@) is None,
            },
        decreases self,
    {
        match self {
            Expr::Column { index, data_type, nullable } => Ok(*data_type),
            Expr::Literal(v) => match v.data_type() {
                Some(t) => Ok(t),
                None => Err(BasaltError::type_error("NULL has no type of its own")),
            },
            Expr::Binary { left, op, right } => {
                let l = match left.data_type() {
                    Ok(t) => t,
                    Err(e) => {
                        return Err(e);
                    },
                };
                let r = match right.data_type() {
                    Ok(t) => t,
                    Err(e) => {
                        return Err(e);
                    },
                };
                match coerce_binary(*op, l, r) {
                    Ok(plan) => Ok(plan.output),
                    Err(e) => Err(e),
                }
            },
            Expr::Unary { op, expr } => match expr.data_type() {
                Err(e) => Err(e),
                Ok(t) => match op {
                    UnaryOp::Neg => if t.is_numeric() {
                        Ok(t)
                    } else {
                        Err(BasaltError::type_of("cannot negate non-numeric type ", t.name()))
                    },
                    UnaryOp::Not => if t == DataType::Boolean {
                        Ok(t)
                    } else {
                        Err(
                            BasaltError::type_of(
                                "cannot logically invert non-boolean type ",
                                t.name(),
                            ),
                        )
                    },
                },
            },
            Expr::Cast { expr, to } => Ok(*to),
            Expr::IsNull(inner) => Ok(DataType::Boolean),
            Expr::IsNotNull(inner) => Ok(DataType::Boolean),
        }
    }

    /// Whether the expression can give null.
    pub fn nullable(&self) -> (r: bool)
        ensures
            r == expr_nullable(self@),
        decreases self,
    {
        match self {
            Expr::Column { index, data_type, nullable } => *nullable,
            Expr::Literal(v) => v.is_null(),
            Expr::Binary { left, op, right } => left.nullable() || right.nullable(),
            Expr::Unary { op, expr } => expr.nullable(),
            Expr::Cast { expr, to } => expr.nullable(),
            Expr::IsNull(inner) => false,
            Expr::IsNotNull(inner) => false,
        }
    }

    /// The direct subexpressions, left to right.
    pub fn children(&self) -> (r: Vec<&Expr>)
        ensures
            r@.len() == expr_children(self@).len(),
            forall|i: int| 0 <= i < r@.len() ==> #[trigger] r@[i]@ == expr_children(self@)[i],
    {
        let mut out: Vec<&Expr> = Vec::new();
        match self {
            Expr::Binary { left, op, right } => {
                out.push(&**left);
                out.push(&**right);
            },
            Expr::Unary { op, expr } => {
                out.push(&**expr);
            },
            Expr::Cast { expr, to } => {
                out.push(&**expr);
            },
            Expr::IsNull(inner) => {
                out.push(&**inner);
            },
            Expr::IsNotNull(inner) => {
                out.push(&**inner);
            },
            _ => {},
        }
        out
    }

    /// The same node over other subexpressions.
    ///
    /// # Errors
    /// An internal error unless there are as many as the node has.
    pub fn with_new_children(&self, children: Vec<Expr>) -> (r: Result<Expr, BasaltError>)
        ensures
            match r {
                Ok(e) => children@.len() == expr_children(self@).len() && e@ == expr_with_children(
                    self@,
                    Seq::new(children@.len(), |i: int| children@[i]@),
                ),
                Err(e) => e@ == ErrorKind::Internal && children@.len() != expr_children(
                    self@,
                ).len(),
            },
    {
        let mut children = children;
        let arity: usize = match self {
            Expr::Column { .. } => 0,
            Expr::Literal(_) => 0,
            Expr::Binary { .. } => 2,
            _ => 1,
        };
        if children.len() != arity {
            return Err(BasaltError::internal_with("an expression got ", children.len(), " children"));
        }
        match self {
            Expr::Binary { left, op, right } => {
                let b = children.pop().unwrap();
                let a = children.pop().unwrap();
                Ok(Expr::Binary { left: Box::new(a), op: *op, right: Box::new(b) })
            },
            Expr::Unary { op, expr } => Ok(
                Expr::Unary { op: *op, expr: Box::new(children.pop().unwrap()) },
            ),
            Expr::Cast { expr, to } => Ok(
                Expr::Cast { expr: Box::new(children.pop().unwrap()), to: *to },
            ),
            Expr::IsNull(inner) => Ok(Expr::IsNull(Box::new(children.pop().unwrap()))),
            Expr::IsNotNull(inner) => Ok(Expr::IsNotNull(Box::new(children.pop().unwrap()))),
            _ => Ok(self.copy()),
        }
    }
}

impl Clone for Expr {
    fn clone(&self) -> (r: Expr)
        ensures
            r == *self,
    {
        self.copy()
    }
}

/// The direct subexpressions, left to right.
pub open spec fn expr_children(e: ExprView) -> Seq<ExprView> {
    match e {
        ExprView::Column { index, data_type, nullable } => seq![],
        ExprView::Literal(v) => seq![],
        ExprView::Binary { left, op, right } => seq![*left, *right],
        ExprView::Unary { op, expr } => seq![*expr],
        ExprView::Cast { expr, to } => seq![*expr],
        ExprView::IsNull(inner) => seq![*inner],
        ExprView::IsNotNull(inner) => seq![*inner],
    }
}

/// The same node over other subexpressions.
pub open spec fn expr_with_children(e: ExprView, children: Seq<ExprView>) -> ExprView {
    match e {
        ExprView::Column { index, data_type, nullable } => e,
        ExprView::Literal(v) => e,
        ExprView::Binary { left, op, right } => binary(children[0], op, children[1]),
        ExprView::Unary { op, expr } => ExprView::Unary { op, expr: Box::new(children[0]) },
        ExprView::Cast { expr, to } => ExprView::Cast { expr: Box::new(children[0]), to },
        ExprView::IsNull(inner) => ExprView::IsNull(Box::new(children[0])),
        ExprView::IsNotNull(inner) => ExprView::IsNotNull(Box::new(children[0])),
    }
}

/// Putting a node's own children back gives the node.
pub proof fn children_round_trip(e: ExprView)
    ensures
        expr_with_children(e, expr_children(e)) == e,
{
}

/// The views of a list of expressions.
pub open spec fn expr_views(v: Seq<Expr>) -> Seq<ExprView> {
    Seq::new(v.len(), |i: int| v[i]@)
}

/// Copies a list of expressions.
pub fn copy_exprs(v: &Vec<Expr>) -> (r: Vec<Expr>)
    ensures
        r@ == v@,
{
    let mut out: Vec<Expr> = Vec::new();
    let mut i: usize = 0;
    while i < v.len()
        invariant
            i <= v@.len(),
            out@ == v@.take(i as int),
        decreases v@.len() - i,
    {
        out.push(v[i].copy());
        assert(v@.take(i + 1) =~= v@.take(i as int).push(v@[i as int]));
        i = i + 1;
    }
    assert(out@ =~= v@);
    out
}

} // verus!
