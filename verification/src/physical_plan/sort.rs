//! Full sorts, and `ORDER BY ... LIMIT k` as a sort cut off after `k` rows.
//! Both read their whole input before they produce anything.

use std::sync::Arc;
use vstd::prelude::*;

use crate::array::{share, ArrayRef, ArrayView};
use crate::batch::{array_views, batch_of, slice_batch, BatchView, ColumnarBatch};
use crate::compute::indices_below;
use crate::error::{BasaltError, ErrorKind};
use crate::lexsort::{lexsort_to_indices, sort_views, sorted_order, SortColumn, SortColumnView};
use crate::logical_plan::plan::SortOptions;
use crate::physical_expr::expr::{PhysicalExprRef, PhysicalExprView};
use crate::physical_plan::filter::lemma_taken_fit;
use crate::physical_plan::limit::{limit_rows, limit_stream, stream_rows};
use crate::physical_plan::plan::{
    collect_batches, collect_items, eval_all, evaluate_all, exec_children, exec_schema, expr_list,
    gather, gathered, plan_views, push_taken, rebuilt, run, stream_view, take_columns, BatchStream,
    ExecView, ExecutionPlan, ExecutionPlanRef, SortKeyView,
};
use crate::types::schema::{FieldView, SchemaRef};

verus! {

/// The key expressions.
pub open spec fn key_exprs(keys: Seq<SortKeyView>) -> Seq<PhysicalExprView> {
    Seq::new(keys.len(), |i: int| keys[i].expr)
}

/// The key columns with their directions.
pub open spec fn key_columns(keys: Seq<SortKeyView>, columns: Seq<ArrayView>) -> Seq<SortColumnView> {
    Seq::new(
        keys.len(),
        |i: int| SortColumnView { values: columns[i].values, options: keys[i].options },
    )
}

/// Positions as indices that are all present.
pub open spec fn present(order: Seq<usize>) -> Seq<Option<usize>> {
    Seq::new(order.len(), |i: int| Some(order[i]))
}

/// The input as one sorted batch; `None` when it has no rows.
pub open spec fn sorted_batch(
    schema: Seq<FieldView>,
    keys: Seq<SortKeyView>,
    items: Seq<Result<BatchView, ErrorKind>>,
) -> Result<Option<BatchView>, ErrorKind> {
    match collect_items(items) {
        Err(k) => Err(k),
        Ok(batches) => if batches.len() == 0 {
            Ok(None)
        } else {
            match gathered(schema, batches) {
                Err(k) => Err(k),
                Ok(whole) => if whole.num_rows == 0 {
                    Ok(None)
                } else {
                    match eval_all(key_exprs(keys), whole, keys.len()) {
                        Err(k) => Err(k),
                        Ok(columns) => {
                            let order = sorted_order(key_columns(keys, columns), whole.num_rows);
                            Ok(Some(batch_of(schema, take_columns(whole.columns, present(order)))))
                        },
                    }
                },
            }
        },
    }
}

/// What a sort produces: one batch, or none without rows.
pub open spec fn run_sort(
    schema: Seq<FieldView>,
    keys: Seq<SortKeyView>,
    items: Seq<Result<BatchView, ErrorKind>>,
) -> Result<Seq<Result<BatchView, ErrorKind>>, ErrorKind> {
    match sorted_batch(schema, keys, items) {
        Err(k) => Err(k),
        Ok(None) => Ok(seq![]),
        Ok(Some(b)) => Ok(seq![Ok(b)]),
    }
}

/// What a sort cut off after `k` rows produces.
pub open spec fn run_top_k(
    schema: Seq<FieldView>,
    keys: Seq<SortKeyView>,
    k: int,
    items: Seq<Result<BatchView, ErrorKind>>,
) -> Result<Seq<Result<BatchView, ErrorKind>>, ErrorKind> {
    match sorted_batch(schema, keys, items) {
        Err(e) => Err(e),
        Ok(None) => Ok(seq![]),
        Ok(Some(b)) => Ok(
            seq![
                Ok(
                    slice_batch(
                        b,
                        0,
                        if k < b.num_rows {
                            k
                        } else {
                            b.num_rows as int
                        },
                    ),
                ),
            ],
        ),
    }
}

/// A sort cut off after `k` rows gives the first `k` rows of the full sort:
/// what a limit above it would give.
pub proof fn top_k_is_a_limited_sort(
    schema: Seq<FieldView>,
    keys: Seq<SortKeyView>,
    k: int,
    items: Seq<Result<BatchView, ErrorKind>>,
)
    requires
        k >= 0,
    ensures
        match (run_top_k(schema, keys, k, items), run_sort(schema, keys, items)) {
            (Ok(top), Ok(all)) => stream_rows(top) == limit_rows(stream_rows(all), 0, Some(k))
                && stream_rows(top) == stream_rows(limit_stream(all, 0, Some(k))),
            (Err(a), Err(b)) => a == b,
            _ => false,
        },
{
    if let Ok(Some(b)) = sorted_batch(schema, keys, items) {
        let whole = gathered(schema, collect_items(items)->Ok_0)->Ok_0;
        let columns = eval_all(key_exprs(keys), whole, keys.len())->Ok_0;
        let order = sorted_order(key_columns(keys, columns), whole.num_rows);
        assert(b == batch_of(schema, take_columns(whole.columns, present(order))));
        assert forall|c: int| 0 <= c < b.columns.len() implies (
        #[trigger] b.columns[c]).values.len() == order.len() by {}
        let top = run_top_k(schema, keys, k, items)->Ok_0;
        let all = run_sort(schema, keys, items)->Ok_0;
        let n = if k < b.num_rows {
            k
        } else {
            b.num_rows as int
        };
        let cut = slice_batch(b, 0, n);
        assert(top.skip(1) =~= seq![]);
        assert(all.skip(1) =~= seq![]);
        reveal_with_fuel(stream_rows, 2);
        assert(stream_rows(all) =~= b.rows());
        assert(stream_rows(top) =~= cut.rows());
        if b.columns.len() > 0 {
            assert(b.num_rows == order.len());
            assert forall|i: int| 0 <= i < n implies cut.row(i) == #[trigger] b.row(i) by {
                assert(cut.row(i) =~= b.row(i));
            }
            assert(cut.rows() =~= b.rows().subrange(0, n));
        } else {
            assert(b.num_rows == 0);
            assert(cut.rows() =~= b.rows().subrange(0, n));
        }
        reveal_with_fuel(limit_stream, 2);
        let limited = limit_stream(all, 0, Some(k));
        if k == 0 || b.num_rows == 0 {
            assert(limited =~= seq![]);
        } else {
            assert(limited =~= seq![
                Ok::<BatchView, ErrorKind>(
                    if k < b.num_rows {
                        cut
                    } else {
                        b
                    },
                ),
            ]);
            assert(limited.skip(1) =~= seq![]);
            assert(b.rows().subrange(0, b.num_rows as int) =~= b.rows());
            assert(stream_rows(limited) =~= cut.rows());
        }
    }
}

/// A key to sort by.
#[derive(Debug)]
pub struct PhysicalSortExpr {
    pub expr: PhysicalExprRef,
    pub options: SortOptions,
}

impl PhysicalSortExpr {
    pub open spec fn view(&self) -> SortKeyView {
        SortKeyView { expr: self.expr@, options: self.options }
    }

    pub fn copy(&self) -> (r: PhysicalSortExpr)
        ensures
            r == *self,
    {
        PhysicalSortExpr { expr: share(&self.expr), options: self.options }
    }
}

/// Copies a list of sort keys.
pub fn copy_keys(v: &Vec<PhysicalSortExpr>) -> (r: Vec<PhysicalSortExpr>)
    ensures
        r@ == v@,
{
    let mut out: Vec<PhysicalSortExpr> = Vec::new();
    let mut i: usize = 0;
    while i < v.len()
        invariant
            i <= v@.len(),
            out@ == v@.take(i as int),
        decreases v@.len() - i,
    {
        out.push(v[i].copy());
        assert(v@.take(i + 1) =~= v@.take(i as int).push(v@[i as int]));
        i = i + 1;
    }
    assert(out@ =~= v@);
    out
}

#[derive(Debug)]
pub struct SortExec {
    pub input: ExecutionPlanRef,
    pub exprs: Vec<PhysicalSortExpr>,
}

impl SortExec {
    pub open spec fn key_views(&self) -> Seq<SortKeyView> {
        Seq::new(self.exprs@.len(), |i: int| self.exprs@[i]@)
    }

    pub open spec fn node(&self) -> ExecView {
        ExecView::Sort { input: Box::new(self.input@), keys: self.key_views() }
    }

    pub fn new(input: ExecutionPlanRef, exprs: Vec<PhysicalSortExpr>) -> (r: SortExec)
        ensures
            r == (SortExec { input, exprs }),
    {
        SortExec { input, exprs }
    }

    /// The input as one sorted batch; `None` when it has no rows.
    pub fn collect_sorted(&self, partition: usize) -> (r: Result<
        Option<ColumnarBatch>,
        BasaltError,
    >)
        ensures
            ({
                let want = match run(self.input@, partition) {
                    Err(k) => Err(k),
                    Ok(items) => sorted_batch(exec_schema(self.input@), self.key_views(), items),
                };
                match r {
                    Ok(Some(b)) => want == Ok::<Option<BatchView>, ErrorKind>(Some(b@)),
                    Ok(None) => want == Ok::<Option<BatchView>, ErrorKind>(None),
                    Err(e) => want == Err::<Option<BatchView>, ErrorKind>(e@),
                }
            }),
        decreases self, 0int,
    {
        let schema = self.input.schema();
        let stream = match self.input.execute(partition) {
            Ok(s) => s,
            Err(e) => {
                return Err(e);
            },
        };
        let batches = match collect_batches(&stream) {
            Ok(v) => v,
            Err(e) => {
                return Err(e);
            },
        };
        if batches.len() == 0 {
            return Ok(None);
        }
        let whole = match gather(&schema, &batches) {
            Ok(b) => b,
            Err(e) => {
                return Err(e);
            },
        };
        let n: usize = whole.num_rows();
        if n == 0 {
            return Ok(None);
        }
        let ghost views = self.key_views();
        let mut exprs: Vec<PhysicalExprRef> = Vec::new();
        let mut i: usize = 0;
        while i < self.exprs.len()
            invariant
                i <= self.exprs@.len(),
                views == self.key_views(),
                exprs@.len() == i,
                forall|k: int| 0 <= k < i ==> (#[trigger] exprs@[k])@ == views[k].expr,
            decreases self.exprs@.len() - i,
        {
            exprs.push(share(&self.exprs[i].expr));
            i = i + 1;
        }
        assert(expr_list(exprs@) =~= key_exprs(views));
        let columns = match evaluate_all(&exprs, &whole) {
            Ok(v) => v,
            Err(e) => {
                return Err(e);
            },
        };
        let ghost column_views = array_views(columns@);
        let mut keys: Vec<SortColumn> = Vec::new();
        let mut i: usize = 0;
        while i < columns.len()
            invariant
                i <= columns@.len(),
                columns@.len() == self.exprs@.len(),
                views == self.key_views(),
                column_views == array_views(columns@),
                keys@.len() == i,
                forall|k: int|
                    0 <= k < i ==> (#[trigger] keys@[k])@ == key_columns(views, column_views)[k],
            decreases columns@.len() - i,
        {
            keys.push(SortColumn { values: share(&columns[i]), options: self.exprs[i].options });
            i = i + 1;
        }
        proof {
            assert(sort_views(keys@) =~= key_columns(views, column_views));
            assert forall|c: int| 0 <= c < sort_views(keys@).len() implies (#[trigger] sort_views(
                keys@,
            )[c]).values.len() >= n by {
                assert(columns@[c]@.values.len() == n);
            }
        }
        let order = lexsort_to_indices(&keys, n);
        let mut indices: Vec<Option<usize>> = Vec::new();
        let mut i: usize = 0;
        while i < order.len()
            invariant
                i <= order@.len(),
                indices@.len() == i,
                forall|k: int| 0 <= k < i ==> (#[trigger] indices@[k]) == Some(order@[k]),
            decreases order@.len() - i,
        {
            indices.push(Some(order[i]));
            i = i + 1;
        }
        assert(indices@ =~= present(order@));
        assert(indices_below(indices@, n as nat));
        let mut out: Vec<ArrayRef> = Vec::new();
        push_taken(&mut out, &whole, &indices);
        proof {
            assert(array_views(out@) =~= take_columns(whole@.columns, indices@));
            lemma_taken_fit(whole@, indices@);
        }
        match ColumnarBatch::try_new(schema, out) {
            Ok(b) => Ok(Some(b)),
            Err(e) => Err(e),
        }
    }

    pub fn schema(&self) -> (r: SchemaRef)
        ensures
            r@ == exec_schema(self.node()),
        decreases self,
    {
        self.input.schema()
    }

    pub fn children(&self) -> (r: Vec<ExecutionPlanRef>)
        ensures
            plan_views(r@) == exec_children(self.node()),
    {
        let mut v: Vec<ExecutionPlanRef> = Vec::new();
        v.push(share(&self.input));
        assert(plan_views(v@) =~= seq![self.input@]);
        v
    }

    /// # Errors
    /// An internal error unless there is exactly one child.
    pub fn with_new_children(&self, children: Vec<ExecutionPlanRef>) -> (r: Result<
        ExecutionPlanRef,
        BasaltError,
    >)
        ensures
            rebuilt(self.node(), plan_views(children@), r),
    {
        if children.len() != 1 {
            return Err(
                BasaltError::internal_with("SortExec takes exactly 1 child, got ", children.len(), ""),
            );
        }
        assert(plan_views(children@)[0] == children@[0]@);
        let exprs = copy_keys(&self.exprs);
        let r = SortExec::new(share(&children[0]), exprs);
        assert(r.key_views() =~= self.key_views());
        Ok(Arc::new(ExecutionPlan::Sort(r)))
    }

    pub fn execute(&self, partition: usize) -> (r: Result<BatchStream, BasaltError>)
        ensures
            match r {
                Ok(s) => run(self.node(), partition) == Ok::<
                    Seq<Result<BatchView, ErrorKind>>,
                    ErrorKind,
                >(stream_view(s@)),
                Err(e) => run(self.node(), partition) == Err::<
                    Seq<Result<BatchView, ErrorKind>>,
                    ErrorKind,
                >(e@),
            },
        decreases self, 1int,
    {
        let mut out: BatchStream = Vec::new();
        match self.collect_sorted(partition) {
            Err(e) => Err(e),
            Ok(None) => {
                assert(stream_view(out@) =~= seq![]);
                Ok(out)
            },
            Ok(Some(b)) => {
                out.push(Ok(b));
                assert(stream_view(out@) =~= seq![Ok(b@)]);
                Ok(out)
            },
        }
    }
}

/// `ORDER BY ... LIMIT k`.
#[derive(Debug)]
pub struct TopKExec {
    pub sort: SortExec,
    pub k: usize,
}

impl TopKExec {
    pub open spec fn node(&self) -> ExecView {
        ExecView::TopK {
            input: Box::new(self.sort.input@),
            keys: self.sort.key_views(),
            k: self.k,
        }
    }

    pub fn new(input: ExecutionPlanRef, exprs: Vec<PhysicalSortExpr>, k: usize) -> (r: TopKExec)
        ensures
            r == (TopKExec { sort: SortExec { input, exprs }, k }),
    {
        TopKExec { sort: SortExec::new(input, exprs), k }
    }

    pub fn schema(&self) -> (r: SchemaRef)
        ensures
            r@ == exec_schema(self.node()),
        decreases self,
    {
        self.sort.input.schema()
    }

    pub fn children(&self) -> (r: Vec<ExecutionPlanRef>)
        ensures
            plan_views(r@) == exec_children(self.node()),
    {
        self.sort.children()
    }

    /// # Errors
    /// An internal error unless there is exactly one child.
    pub fn with_new_children(&self, children: Vec<ExecutionPlanRef>) -> (r: Result<
        ExecutionPlanRef,
        BasaltError,
    >)
        ensures
            rebuilt(self.node(), plan_views(children@), r),
    {
        if children.len() != 1 {
            return Err(
                BasaltError::internal_with("TopKExec takes exactly 1 child, got ", children.len(), ""),
            );
        }
        assert(plan_views(children@)[0] == children@[0]@);
        let exprs = copy_keys(&self.sort.exprs);
        let r = TopKExec::new(share(&children[0]), exprs, self.k);
        assert(r.sort.key_views() =~= self.sort.key_views());
        Ok(Arc::new(ExecutionPlan::TopK(r)))
    }

    pub fn execute(&self, partition: usize) -> (r: Result<BatchStream, BasaltError>)
        ensures
            match r {
                Ok(s) => run(self.node(), partition) == Ok::<
                    Seq<Result<BatchView, ErrorKind>>,
                    ErrorKind,
                >(stream_view(s@)),
                Err(e) => run(self.node(), partition) == Err::<
                    Seq<Result<BatchView, ErrorKind>>,
                    ErrorKind,
                >(e@),
            },
        decreases self, 1int,
    {
        let mut out: BatchStream = Vec::new();
        match self.sort.collect_sorted(partition) {
            Err(e) => Err(e),
            Ok(None) => {
                assert(stream_view(out@) =~= seq![]);
                Ok(out)
            },
            Ok(Some(b)) => {
                let n: usize = b.num_rows();
                let k: usize = if self.k < n {
                    self.k
                } else {
                    n
                };
                let part = b.slice(0, k);
                out.push(Ok(part));
                assert(stream_view(out@) =~= seq![Ok(part@)]);
                Ok(out)
            },
        }
    }
}

} // verus!
