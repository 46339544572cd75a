//! Keeps the rows a predicate holds for. Batches that lose all rows are not
//! passed on.

use std::sync::Arc;
use vstd::prelude::*;

use crate::array::{share, ArrayRef};
use crate::batch::{array_views, batch_of, BatchView, ColumnarBatch};
use crate::compute::{select_true, selected, ColumnarValue};
use crate::error::{BasaltError, ErrorKind};
use crate::physical_expr::expr::{eval_batch, PhysicalExprRef, PhysicalExprView};
use crate::physical_plan::plan::{
    exec_children, exec_schema, item_view, lemma_eval_rows, plan_views, push_taken, rebuilt, run,
    stream_view, take_columns, BatchStream, ExecView, ExecutionPlan, ExecutionPlanRef,
};
use crate::scalar::ScalarValue;
use crate::types::data_type::DataType;
use crate::types::schema::SchemaRef;
use crate::types::value::ValueView;

verus! {

/// What is left of a batch: `None` when no row is. A scalar predicate applies
/// to every row alike, and one that is not boolean holds for none.
pub open spec fn filter_batch(predicate: PhysicalExprView, b: BatchView) -> Result<
    Option<BatchView>,
    ErrorKind,
> {
    match eval_batch(predicate, b) {
        Err(k) => Err(k),
        Ok(c) => if c.scalar {
            if c.values[0] == ValueView::Boolean(true) && b.num_rows > 0 {
                Ok(Some(b))
            } else {
                Ok(None)
            }
        } else if c.data_type != DataType::Boolean {
            Err(ErrorKind::Type)
        } else {
            let kept = selected(c.values);
            if kept.len() == 0 || b.columns.len() == 0 {
                Ok(None)
            } else {
                Ok(Some(batch_of(b.schema, take_columns(b.columns, kept))))
            }
        },
    }
}

/// A stream filtered item by item.
pub open spec fn filter_stream(
    predicate: PhysicalExprView,
    items: Seq<Result<BatchView, ErrorKind>>,
) -> Seq<Result<BatchView, ErrorKind>>
    decreases items.len(),
{
    if items.len() == 0 {
        seq![]
    } else {
        let before = filter_stream(predicate, items.drop_last());
        match items.last() {
            Err(k) => before.push(Err(k)),
            Ok(b) => match filter_batch(predicate, b) {
                Err(k) => before.push(Err(k)),
                Ok(Some(f)) => before.push(Ok(f)),
                Ok(None) => before,
            },
        }
    }
}

#[derive(Debug)]
pub struct FilterExec {
    pub input: ExecutionPlanRef,
    pub predicate: PhysicalExprRef,
}

impl FilterExec {
    pub open spec fn node(&self) -> ExecView {
        ExecView::Filter { input: Box::new(self.input@), predicate: self.predicate@ }
    }

    pub fn new(input: ExecutionPlanRef, predicate: PhysicalExprRef) -> (r: FilterExec)
        ensures
            r.input == input,
            r.predicate == predicate,
    {
        FilterExec { input, predicate }
    }

    pub fn schema(&self) -> (r: SchemaRef)
        ensures
            r@ == exec_schema(self.node()),
        decreases self,
    {
        self.input.schema()
    }

    pub fn children(&self) -> (r: Vec<ExecutionPlanRef>)
        ensures
            plan_views(r@) == exec_children(self.node()),
    {
        let mut v: Vec<ExecutionPlanRef> = Vec::new();
        v.push(share(&self.input));
        assert(plan_views(v@) =~= seq![self.input@]);
        v
    }

    /// # Errors
    /// An internal error unless there is exactly one child.
    pub fn with_new_children(&self, children: Vec<ExecutionPlanRef>) -> (r: Result<
        ExecutionPlanRef,
        BasaltError,
    >)
        ensures
            rebuilt(self.node(), plan_views(children@), r),
    {
        if children.len() != 1 {
            return Err(
                BasaltError::internal_with("FilterExec takes exactly 1 child, got ", children.len(), ""),
            );
        }
        assert(plan_views(children@)[0] == children@[0]@);
        Ok(
            Arc::new(
                ExecutionPlan::Filter(FilterExec::new(share(&children[0]), share(&self.predicate))),
            ),
        )
    }

    /// Filters each batch of the input.
    pub fn execute(&self, partition: usize) -> (r: Result<BatchStream, BasaltError>)
        ensures
            match r {
                Ok(s) => run(self.node(), partition) == Ok::<
                    Seq<Result<BatchView, ErrorKind>>,
                    ErrorKind,
                >(stream_view(s@)),
                Err(e) => run(self.node(), partition) == Err::<
                    Seq<Result<BatchView, ErrorKind>>,
                    ErrorKind,
                >(e@),
            },
        decreases self, 1int,
    {
        let input = match self.input.execute(partition) {
            Ok(s) => s,
            Err(e) => {
                return Err(e);
            },
        };
        let ghost items = stream_view(input@);
        let mut out: BatchStream = Vec::new();
        let mut i: usize = 0;
        proof {
            assert(items.take(0) =~= seq![]);
            assert(stream_view(out@) =~= seq![]);
        }
        while i < input.len()
            invariant
                i <= input@.len(),
                items == stream_view(input@),
                stream_view(out@) == filter_stream(self.predicate@, items.take(i as int)),
            decreases input@.len() - i,
        {
            proof {
                assert(items.take(i + 1).drop_last() =~= items.take(i as int));
                assert(items.take(i + 1).last() == item_view(input@[i as int]));
            }
            let ghost was = stream_view(out@);
            match &input[i] {
                Err(e) => {
                    out.push(Err(e.copy()));
                    assert(stream_view(out@) =~= was.push(Err(e@)));
                },
                Ok(batch) => match apply_filter(&self.predicate, batch) {
                    Ok(Some(filtered)) => {
                        out.push(Ok(filtered));
                        assert(stream_view(out@) =~= was.push(Ok(filtered@)));
                    },
                    Ok(None) => {},
                    Err(e) => {
                        out.push(Err(e));
                        assert(stream_view(out@) =~= was.push(Err(e@)));
                    },
                },
            }
            i = i + 1;
        }
        assert(items.take(i as int) =~= items);
        Ok(out)
    }
}

/// Filters one batch.
pub fn apply_filter(predicate: &PhysicalExprRef, batch: &ColumnarBatch) -> (r: Result<
    Option<ColumnarBatch>,
    BasaltError,
>)
    ensures
        match r {
            Ok(Some(f)) => filter_batch(predicate@, batch@) == Ok::<Option<BatchView>, ErrorKind>(
                Some(f@),
            ),
            Ok(None) => filter_batch(predicate@, batch@) == Ok::<Option<BatchView>, ErrorKind>(
                None,
            ),
            Err(e) => filter_batch(predicate@, batch@) == Err::<Option<BatchView>, ErrorKind>(e@),
        },
{
    let n: usize = batch.num_rows();
    let mask = match predicate.evaluate(batch) {
        Err(e) => {
            return Err(e);
        },
        Ok(ColumnarValue::Scalar(s)) => {
            let matched = matches!(s, ScalarValue::Boolean(Some(true)));
            return if matched && n > 0 {
                Ok(Some(batch.copy()))
            } else {
                Ok(None)
            };
        },
        Ok(ColumnarValue::Array(a)) => a,
    };
    if mask.data_type() != DataType::Boolean {
        return Err(BasaltError::type_of("a predicate must be boolean, found ", mask.data_type().name()));
    }
    proof {
        lemma_eval_rows(predicate@, batch@);
    }
    let kept = select_true(&mask);
    if kept.len() == 0 || batch.num_columns() == 0 {
        return Ok(None);
    }
    let mut columns: Vec<ArrayRef> = Vec::new();
    push_taken(&mut columns, batch, &kept);
    proof {
        let want = take_columns(batch@.columns, kept@);
        assert(array_views(columns@) =~= want);
        lemma_taken_fit(batch@, kept@);
    }
    match ColumnarBatch::try_new(share(batch.schema()), columns) {
        Ok(b) => Ok(Some(b)),
        Err(e) => Err(e),
    }
}

/// Gathered columns of a batch fit its schema.
pub proof fn lemma_taken_fit(b: BatchView, indices: Seq<Option<usize>>)
    requires
        b.wf(),
        crate::compute::indices_below(indices, b.num_rows),
    ensures
        crate::batch::columns_fit(b.schema, take_columns(b.columns, indices)),
{
    let want = take_columns(b.columns, indices);
    assert forall|k: int| 0 <= k < want.len() implies {
        &&& (#[trigger] want[k]).values.len() == crate::batch::first_len(want)
        &&& want[k].data_type == b.schema[k].data_type
        &&& want[k].wf()
    } by {
        assert(b.columns[k].wf());
        assert(b.columns[k].values.len() == b.num_rows);
        assert forall|i: int| 0 <= i < want[k].values.len() implies (
        #[trigger] want[k].values[i]).fits(want[k].data_type) by {
            match indices[i] {
                Some(j) => {
                    assert(b.columns[k].values[j as int].fits(b.columns[k].data_type));
                },
                None => {},
            }
        }
    }
}

} // verus!
