//! A constant, kept as a scalar rather than spread into an array.

use vstd::prelude::*;

use crate::batch::ColumnarBatch;
use crate::compute::{ColumnView, ColumnarValue};
use crate::error::{BasaltError, ErrorKind};
use crate::physical_expr::expr::{eval_batch, physical_nullable, physical_type, PhysicalExprView};
use crate::scalar::ScalarValue;
use crate::types::data_type::DataType;
use crate::types::schema::Schema;

verus! {

#[derive(Debug, Clone, PartialEq, Eq)]
pub struct LiteralExpr {
    pub value: ScalarValue,
}

impl LiteralExpr {
    pub fn new(value: ScalarValue) -> (r: LiteralExpr)
        ensures
            r.value == value,
    {
        LiteralExpr { value }
    }

    pub open spec fn view(&self) -> PhysicalExprView {
        PhysicalExprView::Literal(self.value.spec_data_type(), self.value@)
    }

    pub fn data_type(&self, input_schema: &Schema) -> (r: Result<DataType, BasaltError>)
        ensures
            r is Ok,
            physical_type(self@, input_schema@) == Ok::<DataType, ErrorKind>(r->Ok_0),
    {
        Ok(self.value.data_type())
    }

    pub fn nullable(&self, input_schema: &Schema) -> (r: Result<bool, BasaltError>)
        ensures
            r is Ok,
            physical_nullable(self@, input_schema@) == Ok::<bool, ErrorKind>(r->Ok_0),
    {
        Ok(self.value.is_null())
    }

    pub fn evaluate(&self, batch: &ColumnarBatch) -> (r: Result<ColumnarValue, BasaltError>)
        ensures
            r is Ok,
            eval_batch(self@, batch@) == Ok::<ColumnView, ErrorKind>(r->Ok_0@),
    {
        Ok(ColumnarValue::Scalar(self.value.copy()))
    }
}

} // verus!
