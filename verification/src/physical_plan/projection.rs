//! Computes each output column from the batch.

use std::sync::Arc;
use vstd::prelude::*;

use crate::array::share;
use crate::batch::{batch_of, columns_fit, BatchView, ColumnarBatch};
use crate::error::{BasaltError, ErrorKind};
use crate::physical_expr::expr::{share_exprs, PhysicalExprRef, PhysicalExprView};
use crate::physical_plan::plan::{
    eval_all, evaluate_all, exec_children, exec_schema, expr_list, item_view, plan_views, rebuilt,
    run, stream_view, BatchStream, ExecView, ExecutionPlan, ExecutionPlanRef,
};
use crate::types::schema::{FieldView, SchemaRef};

verus! {

/// A batch of computed columns; an internal error when they do not fit the
/// schema.
pub open spec fn project_batch(
    exprs: Seq<PhysicalExprView>,
    schema: Seq<FieldView>,
    b: BatchView,
) -> Result<BatchView, ErrorKind> {
    match eval_all(exprs, b, exprs.len()) {
        Err(k) => Err(k),
        Ok(columns) => if columns_fit(schema, columns) {
            Ok(batch_of(schema, columns))
        } else {
            Err(ErrorKind::Internal)
        },
    }
}

/// A stream projected item by item.
pub open spec fn project_stream(
    exprs: Seq<PhysicalExprView>,
    schema: Seq<FieldView>,
    items: Seq<Result<BatchView, ErrorKind>>,
) -> Seq<Result<BatchView, ErrorKind>> {
    Seq::new(
        items.len(),
        |i: int|
            match items[i] {
                Err(k) => Err(k),
                Ok(b) => project_batch(exprs, schema, b),
            },
    )
}

#[derive(Debug)]
pub struct ProjectionExec {
    pub input: ExecutionPlanRef,
    pub exprs: Vec<PhysicalExprRef>,
    pub schema: SchemaRef,
}

impl ProjectionExec {
    pub open spec fn node(&self) -> ExecView {
        ExecView::Projection {
            input: Box::new(self.input@),
            exprs: expr_list(self.exprs@),
            schema: self.schema@,
        }
    }

    pub fn new(input: ExecutionPlanRef, exprs: Vec<PhysicalExprRef>, schema: SchemaRef) -> (r:
        ProjectionExec)
        ensures
            r == (ProjectionExec { input, exprs, schema }),
    {
        ProjectionExec { input, exprs, schema }
    }

    pub fn schema(&self) -> (r: SchemaRef)
        ensures
            r@ == exec_schema(self.node()),
    {
        share(&self.schema)
    }

    pub fn children(&self) -> (r: Vec<ExecutionPlanRef>)
        ensures
            plan_views(r@) == exec_children(self.node()),
    {
        let mut v: Vec<ExecutionPlanRef> = Vec::new();
        v.push(share(&self.input));
        assert(plan_views(v@) =~= seq![self.input@]);
        v
    }

    /// # Errors
    /// An internal error unless there is exactly one child.
    pub fn with_new_children(&self, children: Vec<ExecutionPlanRef>) -> (r: Result<
        ExecutionPlanRef,
        BasaltError,
    >)
        ensures
            rebuilt(self.node(), plan_views(children@), r),
    {
        if children.len() != 1 {
            return Err(
                BasaltError::internal_with(
                    "ProjectionExec takes exactly 1 child, got ",
                    children.len(),
                    "",
                ),
            );
        }
        assert(plan_views(children@)[0] == children@[0]@);
        let exprs = share_exprs(&self.exprs);
        Ok(
            Arc::new(
                ExecutionPlan::Projection(
                    ProjectionExec::new(share(&children[0]), exprs, share(&self.schema)),
                ),
            ),
        )
    }

    /// Projects each batch of the input.
    pub fn execute(&self, partition: usize) -> (r: Result<BatchStream, BasaltError>)
        ensures
            match r {
                Ok(s) => run(self.node(), partition) == Ok::<
                    Seq<Result<BatchView, ErrorKind>>,
                    ErrorKind,
                >(stream_view(s@)),
                Err(e) => run(self.node(), partition) == Err::<
                    Seq<Result<BatchView, ErrorKind>>,
                    ErrorKind,
                >(e@),
            },
        decreases self, 1int,
    {
        let input = match self.input.execute(partition) {
            Ok(s) => s,
            Err(e) => {
                return Err(e);
            },
        };
        let ghost items = stream_view(input@);
        let ghost want = project_stream(expr_list(self.exprs@), self.schema@, items);
        let mut out: BatchStream = Vec::new();
        let mut i: usize = 0;
        while i < input.len()
            invariant
                i <= input@.len(),
                items == stream_view(input@),
                want == project_stream(expr_list(self.exprs@), self.schema@, items),
                out@.len() == i,
                forall|k: int| 0 <= k < i ==> item_view(#[trigger] out@[k]) == want[k],
            decreases input@.len() - i,
        {
            assert(items[i as int] == item_view(input@[i as int]));
            let item = match &input[i] {
                Err(e) => Err(e.copy()),
                Ok(batch) => match evaluate_all(&self.exprs, batch) {
                    Err(e) => Err(e),
                    Ok(columns) => ColumnarBatch::try_new(share(&self.schema), columns),
                },
            };
            out.push(item);
            i = i + 1;
        }
        assert(stream_view(out@) =~= want);
        Ok(out)
    }
}

} // verus!
