//! The physical expression tree and what it evaluates to.
//!
//! One tree walk serves a whole batch: each node does the work of all rows in
//! a loop of its own.

use std::sync::Arc;
use vstd::prelude::*;

use crate::array::share;
use crate::batch::{BatchView, ColumnarBatch};
use crate::compute::{
    binary_columns, cast_column, column_array, column_scalar, null_column, unary_column,
    ColumnView, ColumnarValue,
};
use crate::error::{BasaltError, ErrorKind};
use crate::physical_expr::binary::BinaryExpr;
use crate::physical_expr::cast::CastExpr;
use crate::physical_expr::column::ColumnExpr;
use crate::physical_expr::is_null::IsNullExpr;
use crate::physical_expr::literal::LiteralExpr;
use crate::physical_expr::unary::{NegExpr, NotExpr};
use crate::types::coercion::{coercion, BinaryOp, UnaryOp};
use crate::types::data_type::DataType;
use crate::types::schema::{FieldView, Schema};
use crate::types::value::ValueView;

verus! {

#[derive(Debug)]
pub enum PhysicalExpr {
    Column(ColumnExpr),
    Literal(LiteralExpr),
    Binary(BinaryExpr),
    Cast(CastExpr),
    IsNull(IsNullExpr),
    Not(NotExpr),
    Neg(NegExpr),
}

/// A shared physical expression.
pub type PhysicalExprRef = Arc<PhysicalExpr>;

/// The model of a physical expression.
pub enum PhysicalExprView {
    Column(usize),
    Literal(DataType, ValueView),
    Binary(Box<PhysicalExprView>, BinaryOp, Box<PhysicalExprView>),
    Cast(Box<PhysicalExprView>, DataType),
    IsNull(Box<PhysicalExprView>, bool),
    Not(Box<PhysicalExprView>),
    Neg(Box<PhysicalExprView>),
}

/// What an expression evaluates to over a batch.
pub open spec fn eval_batch(e: PhysicalExprView, b: BatchView) -> Result<ColumnView, ErrorKind>
    decreases e,
{
    match e {
        PhysicalExprView::Column(i) => if i < b.columns.len() {
            Ok(column_array(b.columns[i as int]))
        } else {
            Err(ErrorKind::Internal)
        },
        PhysicalExprView::Literal(t, v) => Ok(column_scalar(t, v)),
        PhysicalExprView::Binary(l, op, r) => match eval_batch(*l, b) {
            Err(k) => Err(k),
            Ok(x) => match eval_batch(*r, b) {
                Err(k) => Err(k),
                Ok(y) => binary_columns(op, x, y),
            },
        },
        PhysicalExprView::Cast(inner, to) => match eval_batch(*inner, b) {
            Err(k) => Err(k),
            Ok(x) => cast_column(x, to),
        },
        PhysicalExprView::IsNull(inner, negated) => match eval_batch(*inner, b) {
            Err(k) => Err(k),
            Ok(x) => Ok(null_column(x, negated)),
        },
        PhysicalExprView::Not(inner) => match eval_batch(*inner, b) {
            Err(k) => Err(k),
            Ok(x) => unary_column(UnaryOp::Not, x),
        },
        PhysicalExprView::Neg(inner) => match eval_batch(*inner, b) {
            Err(k) => Err(k),
            Ok(x) => unary_column(UnaryOp::Neg, x),
        },
    }
}

/// The type of an expression over inputs with a schema.
pub open spec fn physical_type(e: PhysicalExprView, schema: Seq<FieldView>) -> Result<
    DataType,
    ErrorKind,
>
    decreases e,
{
    match e {
        PhysicalExprView::Column(i) => if i < schema.len() {
            Ok(schema[i as int].data_type)
        } else {
            Err(ErrorKind::Internal)
        },
        PhysicalExprView::Literal(t, v) => Ok(t),
        PhysicalExprView::Binary(l, op, r) => match physical_type(*l, schema) {
            Err(k) => Err(k),
            Ok(x) => match physical_type(*r, schema) {
                Err(k) => Err(k),
                Ok(y) => match coercion(op, x, y) {
                    Some(plan) => Ok(plan.output),
                    None => Err(ErrorKind::Type),
                },
            },
        },
        PhysicalExprView::Cast(inner, to) => Ok(to),
        PhysicalExprView::IsNull(inner, negated) => Ok(DataType::Boolean),
        PhysicalExprView::Not(inner) => match physical_type(*inner, schema) {
            Err(k) => Err(k),
            Ok(t) => if t == DataType::Boolean {
                Ok(t)
            } else {
                Err(ErrorKind::Type)
            },
        },
        PhysicalExprView::Neg(inner) => match physical_type(*inner, schema) {
            Err(k) => Err(k),
            Ok(t) => if t.spec_is_numeric() {
                Ok(t)
            } else {
                Err(ErrorKind::Type)
            },
        },
    }
}

/// Whether an expression over inputs with a schema can give null. The right
/// operand is not consulted when the left one settles it.
pub open spec fn physical_nullable(e: PhysicalExprView, schema: Seq<FieldView>) -> Result<
    bool,
    ErrorKind,
>
    decreases e,
{
    match e {
        PhysicalExprView::Column(i) => if i < schema.len() {
            Ok(schema[i as int].nullable)
        } else {
            Err(ErrorKind::Internal)
        },
        PhysicalExprView::Literal(t, v) => Ok(v == ValueView::Null),
        PhysicalExprView::Binary(l, op, r) => match physical_nullable(*l, schema) {
            Ok(false) => physical_nullable(*r, schema),
            other => other,
        },
        PhysicalExprView::Cast(inner, to) => physical_nullable(*inner, schema),
        PhysicalExprView::IsNull(inner, negated) => Ok(false),
        PhysicalExprView::Not(inner) => physical_nullable(*inner, schema),
        PhysicalExprView::Neg(inner) => physical_nullable(*inner, schema),
    }
}

impl PhysicalExpr {
    pub open spec fn view(&self) -> PhysicalExprView
        decreases self,
    {
        match self {
            PhysicalExpr::Column(e) => PhysicalExprView::Column(e.index),
            PhysicalExpr::Literal(e) => PhysicalExprView::Literal(e.value.spec_data_type(), e.value@),
            PhysicalExpr::Binary(e) => PhysicalExprView::Binary(
                Box::new(e.left.view()),
                e.op,
                Box::new(e.right.view()),
            ),
            PhysicalExpr::Cast(e) => PhysicalExprView::Cast(Box::new(e.expr.view()), e.to),
            PhysicalExpr::IsNull(e) => PhysicalExprView::IsNull(Box::new(e.expr.view()), e.negated),
            PhysicalExpr::Not(e) => PhysicalExprView::Not(Box::new(e.expr.view())),
            PhysicalExpr::Neg(e) => PhysicalExprView::Neg(Box::new(e.expr.view())),
        }
    }

    /// The type of the expression over inputs with a schema.
    ///
    /// # Errors
    /// An internal error for a column beyond the schema, a type error where
    /// operands do not fit.
    pub fn data_type(&self, input_schema: &Schema) -> (r: Result<DataType, BasaltError>)
        ensures
            match r {
                Ok(t) => physical_type(self@, input_schema@) == Ok::<DataType, ErrorKind>(t),
                Err(e) => physical_type(self@, input_schema@) == Err::<DataType, ErrorKind>(e@),
            },
        decreases self,
    {
        match self {
            PhysicalExpr::Column(e) => e.data_type(input_schema),
            PhysicalExpr::Literal(e) => e.data_type(input_schema),
            PhysicalExpr::Binary(e) => e.data_type(input_schema),
            PhysicalExpr::Cast(e) => e.data_type(input_schema),
            PhysicalExpr::IsNull(e) => e.data_type(input_schema),
            PhysicalExpr::Not(e) => e.data_type(input_schema),
            PhysicalExpr::Neg(e) => e.data_type(input_schema),
        }
    }

    /// Whether the expression can give null over inputs with a schema.
    ///
    /// # Errors
    /// An internal error for a column beyond the schema.
    pub fn nullable(&self, input_schema: &Schema) -> (r: Result<bool, BasaltError>)
        ensures
            match r {
                Ok(n) => physical_nullable(self@, input_schema@) == Ok::<bool, ErrorKind>(n),
                Err(e) => physical_nullable(self@, input_schema@) == Err::<bool, ErrorKind>(e@),
            },
        decreases self,
    {
        match self {
            PhysicalExpr::Column(e) => e.nullable(input_schema),
            PhysicalExpr::Literal(e) => e.nullable(input_schema),
            PhysicalExpr::Binary(e) => e.nullable(input_schema),
            PhysicalExpr::Cast(e) => e.nullable(input_schema),
            PhysicalExpr::IsNull(e) => e.nullable(input_schema),
            PhysicalExpr::Not(e) => e.nullable(input_schema),
            PhysicalExpr::Neg(e) => e.nullable(input_schema),
        }
    }

    /// Evaluates the expression over a whole batch.
    ///
    /// # Errors
    /// The first error met, operands before operators, left before right, row
    /// by row.
    pub fn evaluate(&self, batch: &ColumnarBatch) -> (r: Result<ColumnarValue, BasaltError>)
        ensures
            match r {
                Ok(c) => eval_batch(self@, batch@) == Ok::<ColumnView, ErrorKind>(c@),
                Err(e) => eval_batch(self@, batch@) == Err::<ColumnView, ErrorKind>(e@),
            },
        decreases self,
    {
        match self {
            PhysicalExpr::Column(e) => e.evaluate(batch),
            PhysicalExpr::Literal(e) => e.evaluate(batch),
            PhysicalExpr::Binary(e) => e.evaluate(batch),
            PhysicalExpr::Cast(e) => e.evaluate(batch),
            PhysicalExpr::IsNull(e) => e.evaluate(batch),
            PhysicalExpr::Not(e) => e.evaluate(batch),
            PhysicalExpr::Neg(e) => e.evaluate(batch),
        }
    }

    /// The direct subexpressions, left to right.
    pub fn children(&self) -> (r: Vec<PhysicalExprRef>)
        ensures
            Seq::new(r@.len(), |i: int| r@[i]@) == physical_children(self@),
    {
        let r = match self {
            PhysicalExpr::Column(_) => Vec::new(),
            PhysicalExpr::Literal(_) => Vec::new(),
            PhysicalExpr::Binary(e) => {
                let mut v: Vec<PhysicalExprRef> = Vec::new();
                v.push(share(&e.left));
                v.push(share(&e.right));
                v
            },
            PhysicalExpr::Cast(e) => one(&e.expr),
            PhysicalExpr::IsNull(e) => one(&e.expr),
            PhysicalExpr::Not(e) => one(&e.expr),
            PhysicalExpr::Neg(e) => one(&e.expr),
        };
        assert(Seq::new(r@.len(), |i: int| r@[i]@) =~= physical_children(self@));
        r
    }
}

fn one(e: &PhysicalExprRef) -> (r: Vec<PhysicalExprRef>)
    ensures
        r@ == seq![*e],
{
    let mut v: Vec<PhysicalExprRef> = Vec::new();
    v.push(share(e));
    assert(v@ =~= seq![*e]);
    v
}

/// The direct subexpressions, left to right.
pub open spec fn physical_children(e: PhysicalExprView) -> Seq<PhysicalExprView> {
    match e {
        PhysicalExprView::Column(i) => seq![],
        PhysicalExprView::Literal(t, v) => seq![],
        PhysicalExprView::Binary(l, op, r) => seq![*l, *r],
        PhysicalExprView::Cast(inner, to) => seq![*inner],
        PhysicalExprView::IsNull(inner, negated) => seq![*inner],
        PhysicalExprView::Not(inner) => seq![*inner],
        PhysicalExprView::Neg(inner) => seq![*inner],
    }
}

/// Handles on the same expressions.
pub fn share_exprs(v: &Vec<PhysicalExprRef>) -> (r: Vec<PhysicalExprRef>)
    ensures
        r@ == v@,
{
    let mut out: Vec<PhysicalExprRef> = Vec::new();
    let mut i: usize = 0;
    while i < v.len()
        invariant
            i <= v@.len(),
            out@ == v@.take(i as int),
        decreases v@.len() - i,
    {
        out.push(share(&v[i]));
        assert(v@.take(i + 1) =~= v@.take(i as int).push(v@[i as int]));
        i = i + 1;
    }
    assert(out@ =~= v@);
    out
}

} // verus!
