//! The source operator for batches already in memory.

use std::sync::Arc;
use vstd::prelude::*;

use crate::array::share;
use crate::batch::{BatchView, ColumnarBatch};
use crate::error::{BasaltError, ErrorKind};
use crate::physical_plan::plan::{
    batch_views, exec_children, exec_schema, item_view, plan_views, rebuilt, run, stream_view,
    BatchStream, ExecView, ExecutionPlan, ExecutionPlanRef,
};
use crate::types::schema::{FieldView, SchemaRef};

verus! {

/// A table held as batches in memory.
#[derive(Debug)]
pub struct MemoryTableSource {
    schema: SchemaRef,
    batches: Vec<ColumnarBatch>,
}

/// Copies a list of batches.
pub fn copy_batches(v: &Vec<ColumnarBatch>) -> (r: Vec<ColumnarBatch>)
    ensures
        batch_views(r@) == batch_views(v@),
{
    let mut out: Vec<ColumnarBatch> = Vec::new();
    let mut i: usize = 0;
    assert(batch_views(out@) =~= batch_views(v@).take(0));
    while i < v.len()
        invariant
            i <= v@.len(),
            batch_views(out@) == batch_views(v@).take(i as int),
        decreases v@.len() - i,
    {
        let ghost was = batch_views(out@);
        out.push(v[i].copy());
        proof {
            assert(batch_views(out@) =~= was.push(v@[i as int]@));
            assert(batch_views(v@).take(i + 1) =~= batch_views(v@).take(i as int).push(
                v@[i as int]@,
            ));
        }
        i = i + 1;
    }
    assert(batch_views(v@).take(i as int) =~= batch_views(v@));
    out
}

impl MemoryTableSource {
    pub closed spec fn schema_view(&self) -> Seq<FieldView> {
        self.schema@
    }

    pub closed spec fn batch_list(&self) -> Seq<BatchView> {
        batch_views(self.batches@)
    }

    pub fn new(schema: SchemaRef, batches: Vec<ColumnarBatch>) -> (r: MemoryTableSource)
        ensures
            r.schema_view() == schema@,
            r.batch_list() == batch_views(batches@),
    {
        MemoryTableSource { schema, batches }
    }

    pub fn batches(&self) -> (r: &Vec<ColumnarBatch>)
        ensures
            batch_views(r@) == self.batch_list(),
    {
        &self.batches
    }

    pub fn schema(&self) -> (r: SchemaRef)
        ensures
            r@ == self.schema_view(),
    {
        share(&self.schema)
    }
}

#[derive(Debug)]
pub struct MemoryScanExec {
    schema: SchemaRef,
    batches: Vec<ColumnarBatch>,
}

impl MemoryScanExec {
    pub closed spec fn node(&self) -> ExecView {
        ExecView::MemoryScan { schema: self.schema@, batches: batch_views(self.batches@) }
    }

    pub fn new(schema: SchemaRef, batches: Vec<ColumnarBatch>) -> (r: MemoryScanExec)
        ensures
            r.node() == (ExecView::MemoryScan {
                schema: schema@,
                batches: batch_views(batches@),
            }),
    {
        MemoryScanExec { schema, batches }
    }

    pub fn schema(&self) -> (r: SchemaRef)
        ensures
            r@ == exec_schema(self.node()),
    {
        share(&self.schema)
    }

    pub fn children(&self) -> (r: Vec<ExecutionPlanRef>)
        ensures
            plan_views(r@) == exec_children(self.node()),
    {
        let v: Vec<ExecutionPlanRef> = Vec::new();
        assert(plan_views(v@) =~= seq![]);
        v
    }

    /// # Errors
    /// An internal error unless `children` is empty.
    pub fn with_new_children(&self, children: Vec<ExecutionPlanRef>) -> (r: Result<
        ExecutionPlanRef,
        BasaltError,
    >)
        ensures
            rebuilt(self.node(), plan_views(children@), r),
    {
        if children.len() != 0 {
            return Err(
                BasaltError::internal_with("MemoryScanExec takes 0 children, got ", children.len(), ""),
            );
        }
        let batches = copy_batches(&self.batches);
        Ok(Arc::new(ExecutionPlan::MemoryScan(MemoryScanExec::new(share(&self.schema), batches))))
    }

    /// The batches, in order.
    ///
    /// # Errors
    /// An internal error for a partition other than zero.
    pub fn execute(&self, partition: usize) -> (r: Result<BatchStream, BasaltError>)
        ensures
            match r {
                Ok(s) => run(self.node(), partition) == Ok::<
                    Seq<Result<BatchView, ErrorKind>>,
                    ErrorKind,
                >(stream_view(s@)),
                Err(e) => run(self.node(), partition) == Err::<
                    Seq<Result<BatchView, ErrorKind>>,
                    ErrorKind,
                >(e@),
            },
    {
        if partition != 0 {
            return Err(
                BasaltError::internal_with(
                    "MemoryScanExec has 1 partition, got request for partition ",
                    partition,
                    "",
                ),
            );
        }
        let mut out: BatchStream = Vec::new();
        let ghost views = batch_views(self.batches@);
        let ghost want: Seq<Result<BatchView, ErrorKind>> = Seq::new(
            views.len(),
            |i: int| Ok(views[i]),
        );
        let mut i: usize = 0;
        while i < self.batches.len()
            invariant
                i <= self.batches@.len(),
                views == batch_views(self.batches@),
                want == Seq::new(
                    views.len(),
                    |i: int| Ok::<BatchView, ErrorKind>(views[i]),
                ),
                out@.len() == i,
                forall|k: int| 0 <= k < i ==> item_view(#[trigger] out@[k]) == want[k],
            decreases self.batches@.len() - i,
        {
            out.push(Ok(self.batches[i].copy()));
            i = i + 1;
        }
        assert(stream_view(out@) =~= want);
        Ok(out)
    }
}

} // verus!
