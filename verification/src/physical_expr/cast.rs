//! An explicit type conversion. Casts are decided when a query is bound and
//! only carried out here.

use vstd::prelude::*;

use crate::batch::ColumnarBatch;
use crate::compute::{cast_kernel, ColumnView, ColumnarValue};
use crate::error::{BasaltError, ErrorKind};
use crate::physical_expr::expr::{
    eval_batch, physical_nullable, physical_type, PhysicalExprRef, PhysicalExprView,
};
use crate::types::data_type::DataType;
use crate::types::schema::Schema;

verus! {

#[derive(Debug)]
pub struct CastExpr {
    pub expr: PhysicalExprRef,
    pub to: DataType,
}

impl CastExpr {
    pub fn new(expr: PhysicalExprRef, to: DataType) -> (r: CastExpr)
        ensures
            r == (CastExpr { expr, to }),
    {
        CastExpr { expr, to }
    }

    pub open spec fn view(&self) -> PhysicalExprView {
        PhysicalExprView::Cast(Box::new(self.expr@), self.to)
    }

    pub fn data_type(&self, input_schema: &Schema) -> (r: Result<DataType, BasaltError>)
        ensures
            r == Ok::<DataType, BasaltError>(self.to),
            physical_type(self@, input_schema@) == Ok::<DataType, ErrorKind>(self.to),
    {
        Ok(self.to)
    }

    pub fn nullable(&self, input_schema: &Schema) -> (r: Result<bool, BasaltError>)
        ensures
            match r {
                Ok(n) => physical_nullable(self@, input_schema@) == Ok::<bool, ErrorKind>(n),
                Err(e) => physical_nullable(self@, input_schema@) == Err::<bool, ErrorKind>(e@),
            },
        decreases self,
    {
        self.expr.nullable(input_schema)
    }

    pub fn evaluate(&self, batch: &ColumnarBatch) -> (r: Result<ColumnarValue, BasaltError>)
        ensures
            match r {
                Ok(c) => eval_batch(self@, batch@) == Ok::<ColumnView, ErrorKind>(c@),
                Err(e) => eval_batch(self@, batch@) == Err::<ColumnView, ErrorKind>(e@),
            },
        decreases self,
    {
        match self.expr.evaluate(batch) {
            Ok(c) => cast_kernel(&c, self.to),
            Err(e) => Err(e),
        }
    }
}

} // verus!
