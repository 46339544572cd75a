//! `IS NULL` and `IS NOT NULL`, the only ways to test for null. They never
//! give null themselves.

use vstd::prelude::*;

use crate::batch::ColumnarBatch;
use crate::compute::{null_kernel, ColumnView, ColumnarValue};
use crate::error::{BasaltError, ErrorKind};
use crate::physical_expr::expr::{
    eval_batch, physical_nullable, physical_type, PhysicalExprRef, PhysicalExprView,
};
use crate::types::data_type::DataType;
use crate::types::schema::Schema;

verus! {

#[derive(Debug)]
pub struct IsNullExpr {
    pub expr: PhysicalExprRef,
    /// `false` for `IS NULL`, `true` for `IS NOT NULL`.
    pub negated: bool,
}

impl IsNullExpr {
    pub fn new(expr: PhysicalExprRef, negated: bool) -> (r: IsNullExpr)
        ensures
            r == (IsNullExpr { expr, negated }),
    {
        IsNullExpr { expr, negated }
    }

    pub open spec fn view(&self) -> PhysicalExprView {
        PhysicalExprView::IsNull(Box::new(self.expr@), self.negated)
    }

    pub fn data_type(&self, input_schema: &Schema) -> (r: Result<DataType, BasaltError>)
        ensures
            r == Ok::<DataType, BasaltError>(DataType::Boolean),
            physical_type(self@, input_schema@) == Ok::<DataType, ErrorKind>(DataType::Boolean),
    {
        Ok(DataType::Boolean)
    }

    pub fn nullable(&self, input_schema: &Schema) -> (r: Result<bool, BasaltError>)
        ensures
            r == Ok::<bool, BasaltError>(false),
            physical_nullable(self@, input_schema@) == Ok::<bool, ErrorKind>(false),
    {
        Ok(false)
    }

    pub fn evaluate(&self, batch: &ColumnarBatch) -> (r: Result<ColumnarValue, BasaltError>)
        ensures
            match r {
                Ok(c) => eval_batch(self@, batch@) == Ok::<ColumnView, ErrorKind>(c@),
                Err(e) => eval_batch(self@, batch@) == Err::<ColumnView, ErrorKind>(e@),
            },
        decreases self,
    {
        match self.expr.evaluate(batch) {
            Ok(c) => Ok(null_kernel(&c, self.negated)),
            Err(e) => Err(e),
        }
    }
}

} // verus!
