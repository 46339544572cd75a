//! Logical and arithmetic negation.

use vstd::prelude::*;

use crate::batch::ColumnarBatch;
use crate::compute::{unary_kernel, ColumnView, ColumnarValue};
use crate::error::{BasaltError, ErrorKind};
use crate::physical_expr::expr::{
    eval_batch, physical_nullable, physical_type, PhysicalExprRef, PhysicalExprView,
};
use crate::types::coercion::UnaryOp;
use crate::types::data_type::DataType;
use crate::types::schema::Schema;

verus! {

#[derive(Debug)]
pub struct NotExpr {
    pub expr: PhysicalExprRef,
}

impl NotExpr {
    pub fn new(expr: PhysicalExprRef) -> (r: NotExpr)
        ensures
            r == (NotExpr { expr }),
    {
        NotExpr { expr }
    }

    pub open spec fn view(&self) -> PhysicalExprView {
        PhysicalExprView::Not(Box::new(self.expr@))
    }

    pub fn data_type(&self, input_schema: &Schema) -> (r: Result<DataType, BasaltError>)
        ensures
            match r {
                Ok(t) => physical_type(self@, input_schema@) == Ok::<DataType, ErrorKind>(t),
                Err(e) => physical_type(self@, input_schema@) == Err::<DataType, ErrorKind>(e@),
            },
        decreases self,
    {
        match self.expr.data_type(input_schema) {
            Err(e) => Err(e),
            Ok(t) => if t == DataType::Boolean {
                Ok(DataType::Boolean)
            } else {
                Err(BasaltError::type_of("cannot apply logical NOT to non-boolean type ", t.name()))
            },
        }
    }

    pub fn nullable(&self, input_schema: &Schema) -> (r: Result<bool, BasaltError>)
        ensures
            match r {
                Ok(n) => physical_nullable(self@, input_schema@) == Ok::<bool, ErrorKind>(n),
                Err(e) => physical_nullable(self@, input_schema@) == Err::<bool, ErrorKind>(e@),
            },
        decreases self,
    {
        self.expr.nullable(input_schema)
    }

    pub fn evaluate(&self, batch: &ColumnarBatch) -> (r: Result<ColumnarValue, BasaltError>)
        ensures
            match r {
                Ok(c) => eval_batch(self@, batch@) == Ok::<ColumnView, ErrorKind>(c@),
                Err(e) => eval_batch(self@, batch@) == Err::<ColumnView, ErrorKind>(e@),
            },
        decreases self,
    {
        match self.expr.evaluate(batch) {
            Ok(c) => unary_kernel(UnaryOp::Not, &c),
            Err(e) => Err(e),
        }
    }
}

#[derive(Debug)]
pub struct NegExpr {
    pub expr: PhysicalExprRef,
}

impl NegExpr {
    pub fn new(expr: PhysicalExprRef) -> (r: NegExpr)
        ensures
            r == (NegExpr { expr }),
    {
        NegExpr { expr }
    }

    pub open spec fn view(&self) -> PhysicalExprView {
        PhysicalExprView::Neg(Box::new(self.expr@))
    }

    pub fn data_type(&self, input_schema: &Schema) -> (r: Result<DataType, BasaltError>)
        ensures
            match r {
                Ok(t) => physical_type(self@, input_schema@) == Ok::<DataType, ErrorKind>(t),
                Err(e) => physical_type(self@, input_schema@) == Err::<DataType, ErrorKind>(e@),
            },
        decreases self,
    {
        match self.expr.data_type(input_schema) {
            Err(e) => Err(e),
            Ok(t) => if t.is_numeric() {
                Ok(t)
            } else {
                Err(
                    BasaltError::type_of(
                        "cannot apply unary negation (-) to non-numeric type ",
                        t.name(),
                    ),
                )
            },
        }
    }

    pub fn nullable(&self, input_schema: &Schema) -> (r: Result<bool, BasaltError>)
        ensures
            match r {
                Ok(n) => physical_nullable(self@, input_schema@) == Ok::<bool, ErrorKind>(n),
                Err(e) => physical_nullable(self@, input_schema@) == Err::<bool, ErrorKind>(e@),
            },
        decreases self,
    {
        self.expr.nullable(input_schema)
    }

    /// Negates every value; the most negative integer has no negation.
    pub fn evaluate(&self, batch: &ColumnarBatch) -> (r: Result<ColumnarValue, BasaltError>)
        ensures
            match r {
                Ok(c) => eval_batch(self@, batch@) == Ok::<ColumnView, ErrorKind>(c@),
                Err(e) => eval_batch(self@, batch@) == Err::<ColumnView, ErrorKind>(e@),
            },
        decreases self,
    {
        match self.expr.evaluate(batch) {
            Ok(c) => unary_kernel(UnaryOp::Neg, &c),
            Err(e) => Err(e),
        }
    }
}

} // verus!
