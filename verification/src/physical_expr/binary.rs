//! The binary operators.

use vstd::prelude::*;

use crate::batch::ColumnarBatch;
use crate::compute::{binary_kernel, ColumnView, ColumnarValue};
use crate::error::{BasaltError, ErrorKind};
use crate::physical_expr::expr::{
    eval_batch, physical_nullable, physical_type, PhysicalExprRef, PhysicalExprView,
};
use crate::types::coercion::{coerce_binary, BinaryOp};
use crate::types::data_type::DataType;
use crate::types::schema::Schema;

verus! {

#[derive(Debug)]
pub struct BinaryExpr {
    pub left: PhysicalExprRef,
    pub op: BinaryOp,
    pub right: PhysicalExprRef,
}

impl BinaryExpr {
    pub fn new(left: PhysicalExprRef, op: BinaryOp, right: PhysicalExprRef) -> (r: BinaryExpr)
        ensures
            r == (BinaryExpr { left, op, right }),
    {
        BinaryExpr { left, op, right }
    }

    pub open spec fn view(&self) -> PhysicalExprView {
        PhysicalExprView::Binary(Box::new(self.left@), self.op, Box::new(self.right@))
    }

    pub fn data_type(&self, input_schema: &Schema) -> (r: Result<DataType, BasaltError>)
        ensures
            match r {
                Ok(t) => physical_type(self@, input_schema@) == Ok::<DataType, ErrorKind>(t),
                Err(e) => physical_type(self@, input_schema@) == Err::<DataType, ErrorKind>(e@),
            },
        decreases self,
    {
        let lhs = match self.left.data_type(input_schema) {
            Ok(t) => t,
            Err(e) => {
                return Err(e);
            },
        };
        let rhs = match self.right.data_type(input_schema) {
            Ok(t) => t,
            Err(e) => {
                return Err(e);
            },
        };
        match coerce_binary(self.op, lhs, rhs) {
            Ok(plan) => Ok(plan.output),
            Err(e) => Err(e),
        }
    }

    pub fn nullable(&self, input_schema: &Schema) -> (r: Result<bool, BasaltError>)
        ensures
            match r {
                Ok(n) => physical_nullable(self@, input_schema@) == Ok::<bool, ErrorKind>(n),
                Err(e) => physical_nullable(self@, input_schema@) == Err::<bool, ErrorKind>(e@),
            },
        decreases self,
    {
        match self.left.nullable(input_schema) {
            Ok(false) => self.right.nullable(input_schema),
            other => other,
        }
    }

    /// Evaluates both operands, then the operator row by row.
    pub fn evaluate(&self, batch: &ColumnarBatch) -> (r: Result<ColumnarValue, BasaltError>)
        ensures
            match r {
                Ok(c) => eval_batch(self@, batch@) == Ok::<ColumnView, ErrorKind>(c@),
                Err(e) => eval_batch(self@, batch@) == Err::<ColumnView, ErrorKind>(e@),
            },
        decreases self,
    {
        let lhs = match self.left.evaluate(batch) {
            Ok(c) => c,
            Err(e) => {
                return Err(e);
            },
        };
        let rhs = match self.right.evaluate(batch) {
            Ok(c) => c,
            Err(e) => {
                return Err(e);
            },
        };
        binary_kernel(self.op, &lhs, &rhs)
    }
}

} // verus!
