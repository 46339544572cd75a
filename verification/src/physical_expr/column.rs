//! A bare column reference.

use vstd::prelude::*;

use crate::array::share;
use crate::batch::ColumnarBatch;
use crate::compute::{ColumnView, ColumnarValue};
use crate::error::{BasaltError, ErrorKind};
use crate::physical_expr::expr::{eval_batch, physical_nullable, physical_type, PhysicalExprView};
use crate::types::data_type::DataType;
use crate::types::schema::Schema;

verus! {

#[derive(Debug, Clone, Copy, PartialEq, Eq, Structural)]
pub struct ColumnExpr {
    pub index: usize,
}

impl ColumnExpr {
    pub fn new(index: usize) -> (r: ColumnExpr)
        ensures
            r.index == index,
    {
        ColumnExpr { index }
    }

    pub fn data_type(&self, input_schema: &Schema) -> (r: Result<DataType, BasaltError>)
        ensures
            match r {
                Ok(t) => physical_type(PhysicalExprView::Column(self.index), input_schema@) == Ok::<
                    DataType,
                    ErrorKind,
                >(t),
                Err(e) => physical_type(PhysicalExprView::Column(self.index), input_schema@)
                    == Err::<DataType, ErrorKind>(e@),
            },
    {
        match input_schema.field(self.index) {
            Some(f) => Ok(f.data_type),
            None => Err(
                BasaltError::internal_with("column index ", self.index, " out of bounds for schema"),
            ),
        }
    }

    pub fn nullable(&self, input_schema: &Schema) -> (r: Result<bool, BasaltError>)
        ensures
            match r {
                Ok(n) => physical_nullable(PhysicalExprView::Column(self.index), input_schema@)
                    == Ok::<bool, ErrorKind>(n),
                Err(e) => physical_nullable(PhysicalExprView::Column(self.index), input_schema@)
                    == Err::<bool, ErrorKind>(e@),
            },
    {
        match input_schema.field(self.index) {
            Some(f) => Ok(f.nullable),
            None => Err(
                BasaltError::internal_with("column index ", self.index, " out of bounds for schema"),
            ),
        }
    }

    /// The referenced column itself.
    pub fn evaluate(&self, batch: &ColumnarBatch) -> (r: Result<ColumnarValue, BasaltError>)
        ensures
            match r {
                Ok(c) => eval_batch(PhysicalExprView::Column(self.index), batch@) == Ok::<
                    ColumnView,
                    ErrorKind,
                >(c@),
                Err(e) => eval_batch(PhysicalExprView::Column(self.index), batch@) == Err::<
                    ColumnView,
                    ErrorKind,
                >(e@),
            },
    {
        match batch.column(self.index) {
            Some(a) => Ok(ColumnarValue::Array(share(a))),
            None => Err(
                BasaltError::internal_with("column index ", self.index, " out of bounds for batch"),
            ),
        }
    }
}

} // verus!
