//! The tree of operators and what it produces.

use std::sync::Arc;
use vstd::prelude::*;

use crate::array::{share, ArrayRef, ArrayView};
use crate::batch::{array_views, batch_of, BatchView, ColumnarBatch};
use crate::compute::{append_values, indices_below, lemma_collect_rows, span_rows, take, take_array};
use crate::error::{BasaltError, ErrorKind};
use crate::logical_plan::plan::{AggregateKind, JoinType, SortOptions};
use crate::physical_expr::expr::{eval_batch, PhysicalExprRef, PhysicalExprView};
use crate::physical_plan::aggregate::{run_aggregate, AggregateExec};
use crate::physical_plan::filter::{filter_stream, FilterExec};
use crate::physical_plan::join::hash_join::{run_hash_join, HashJoinExec};
use crate::physical_plan::join::nested_loop::{run_nested_loop, NestedLoopJoinExec};
use crate::physical_plan::limit::{limit_stream, LimitExec};
use crate::physical_plan::projection::{project_stream, ProjectionExec};
use crate::physical_plan::scan::MemoryScanExec;
use crate::physical_plan::sort::{run_sort, run_top_k, SortExec, TopKExec};
use crate::types::coercion::UnaryOp;
use crate::types::data_type::DataType;
use crate::types::schema::{FieldView, SchemaRef};
use crate::types::value::{binary_value, cast_value, unary_value, ValueView};

verus! {

/// What an operator produces for one partition: batches, or errors in their
/// place.
pub type BatchStream = Vec<Result<ColumnarBatch, BasaltError>>;

/// How an operator's rows are spread over partitions.
#[derive(Clone, Debug, Copy, PartialEq, Eq, Structural)]
pub enum Partitioning {
    UnknownPartitioning(usize),
}

impl Partitioning {
    pub fn partition_count(&self) -> (r: usize)
        ensures
            *self == Partitioning::UnknownPartitioning(r),
    {
        match self {
            Partitioning::UnknownPartitioning(n) => *n,
        }
    }
}

/// What an operator counted while it ran.
#[derive(Clone, Debug, Copy, PartialEq, Eq, Structural)]
pub struct Metrics {
    pub rows_produced: usize,
}

impl Default for Metrics {
    fn default() -> (r: Metrics)
        ensures
            r.rows_produced == 0,
    {
        Metrics { rows_produced: 0 }
    }
}

#[derive(Debug)]
pub enum ExecutionPlan {
    MemoryScan(MemoryScanExec),
    Filter(FilterExec),
    Projection(ProjectionExec),
    Limit(LimitExec),
    Sort(SortExec),
    TopK(TopKExec),
    Aggregate(AggregateExec),
    HashJoin(HashJoinExec),
    NestedLoopJoin(NestedLoopJoinExec),
}

/// A shared operator tree.
pub type ExecutionPlanRef = Arc<ExecutionPlan>;

/// The model of a sort key.
pub struct SortKeyView {
    pub expr: PhysicalExprView,
    pub options: SortOptions,
}

/// The model of an operator tree.
#[allow(inconsistent_fields)]
pub enum ExecView {
    MemoryScan { schema: Seq<FieldView>, batches: Seq<BatchView> },
    Filter { input: Box<ExecView>, predicate: PhysicalExprView },
    Projection { input: Box<ExecView>, exprs: Seq<PhysicalExprView>, schema: Seq<FieldView> },
    Limit { input: Box<ExecView>, skip: usize, fetch: Option<usize> },
    Sort { input: Box<ExecView>, keys: Seq<SortKeyView> },
    TopK { input: Box<ExecView>, keys: Seq<SortKeyView>, k: usize },
    Aggregate {
        input: Box<ExecView>,
        group_exprs: Seq<PhysicalExprView>,
        group_types: Seq<DataType>,
        agg_args: Seq<Option<PhysicalExprView>>,
        agg_kinds: Seq<AggregateKind>,
        agg_arg_types: Seq<DataType>,
        schema: Seq<FieldView>,
    },
    HashJoin {
        build: Box<ExecView>,
        probe: Box<ExecView>,
        on: Seq<(PhysicalExprView, PhysicalExprView)>,
        filter: Option<PhysicalExprView>,
        join_type: JoinType,
        schema: Seq<FieldView>,
    },
    NestedLoopJoin {
        build: Box<ExecView>,
        probe: Box<ExecView>,
        predicate: PhysicalExprView,
        schema: Seq<FieldView>,
    },
}

/// One item of a stream.
pub open spec fn item_view(item: Result<ColumnarBatch, BasaltError>) -> Result<
    BatchView,
    ErrorKind,
> {
    match item {
        Ok(b) => Ok(b@),
        Err(e) => Err(e@),
    }
}

/// The items of a stream.
pub open spec fn stream_view(s: Seq<Result<ColumnarBatch, BasaltError>>) -> Seq<
    Result<BatchView, ErrorKind>,
> {
    Seq::new(s.len(), |i: int| item_view(s[i]))
}

/// The models of a list of expressions.
pub open spec fn expr_list(v: Seq<PhysicalExprRef>) -> Seq<PhysicalExprView> {
    Seq::new(v.len(), |i: int| v[i]@)
}

/// The columns an operator produces.
pub open spec fn exec_schema(p: ExecView) -> Seq<FieldView>
    decreases p,
{
    match p {
        ExecView::MemoryScan { schema, batches } => schema,
        ExecView::Filter { input, predicate } => exec_schema(*input),
        ExecView::Projection { input, exprs, schema } => schema,
        ExecView::Limit { input, skip, fetch } => exec_schema(*input),
        ExecView::Sort { input, keys } => exec_schema(*input),
        ExecView::TopK { input, keys, k } => exec_schema(*input),
        ExecView::Aggregate {
            input,
            group_exprs,
            group_types,
            agg_args,
            agg_kinds,
            agg_arg_types,
            schema,
        } => schema,
        ExecView::HashJoin { build, probe, on, filter, join_type, schema } => schema,
        ExecView::NestedLoopJoin { build, probe, predicate, schema } => schema,
    }
}

/// What an operator tree produces for a partition. There is only partition
/// zero; asking for another is an internal error.
pub open spec fn run(p: ExecView, partition: usize) -> Result<
    Seq<Result<BatchView, ErrorKind>>,
    ErrorKind,
>
    decreases p,
{
    match p {
        ExecView::MemoryScan { schema, batches } => if partition != 0 {
            Err(ErrorKind::Internal)
        } else {
            Ok(Seq::new(batches.len(), |i: int| Ok(batches[i])))
        },
        ExecView::Filter { input, predicate } => match run(*input, partition) {
            Err(k) => Err(k),
            Ok(items) => Ok(filter_stream(predicate, items)),
        },
        ExecView::Projection { input, exprs, schema } => match run(*input, partition) {
            Err(k) => Err(k),
            Ok(items) => Ok(project_stream(exprs, schema, items)),
        },
        ExecView::Limit { input, skip, fetch } => match run(*input, partition) {
            Err(k) => Err(k),
            Ok(items) => Ok(
                limit_stream(
                    items,
                    skip as int,
                    match fetch {
                        Some(n) => Some(n as int),
                        None => None,
                    },
                ),
            ),
        },
        ExecView::Sort { input, keys } => match run(*input, partition) {
            Err(k) => Err(k),
            Ok(items) => run_sort(exec_schema(*input), keys, items),
        },
        ExecView::TopK { input, keys, k } => match run(*input, partition) {
            Err(e) => Err(e),
            Ok(items) => run_top_k(exec_schema(*input), keys, k as int, items),
        },
        ExecView::Aggregate {
            input,
            group_exprs,
            group_types,
            agg_args,
            agg_kinds,
            agg_arg_types,
            schema,
        } => match run(*input, partition) {
            Err(k) => Err(k),
            Ok(items) => run_aggregate(
                group_exprs,
                group_types,
                agg_args,
                agg_kinds,
                agg_arg_types,
                schema,
                items,
            ),
        },
        ExecView::HashJoin { build, probe, on, filter, join_type, schema } => match run(
            *build,
            partition,
        ) {
            Err(k) => Err(k),
            Ok(bi) => match materialized(exec_schema(*build), bi) {
                Err(k) => Err(k),
                Ok(b) => match run(*probe, partition) {
                    Err(k) => Err(k),
                    Ok(pi) => match materialized(exec_schema(*probe), pi) {
                        Err(k) => Err(k),
                        Ok(p) => run_hash_join(b, p, on, filter, join_type, schema),
                    },
                },
            },
        },
        ExecView::NestedLoopJoin { build, probe, predicate, schema } => match run(
            *build,
            partition,
        ) {
            Err(k) => Err(k),
            Ok(bi) => match materialized(exec_schema(*build), bi) {
                Err(k) => Err(k),
                Ok(b) => match run(*probe, partition) {
                    Err(k) => Err(k),
                    Ok(pi) => match materialized(exec_schema(*probe), pi) {
                        Err(k) => Err(k),
                        Ok(p) => run_nested_loop(b, p, predicate, schema),
                    },
                },
            },
        },
    }
}

impl ExecutionPlan {
    pub open spec fn view(&self) -> ExecView
        decreases self,
    {
        match self {
            ExecutionPlan::MemoryScan(e) => e.node(),
            ExecutionPlan::Filter(e) => ExecView::Filter {
                input: Box::new(e.input.view()),
                predicate: e.predicate@,
            },
            ExecutionPlan::Projection(e) => ExecView::Projection {
                input: Box::new(e.input.view()),
                exprs: expr_list(e.exprs@),
                schema: e.schema@,
            },
            ExecutionPlan::Limit(e) => ExecView::Limit {
                input: Box::new(e.input.view()),
                skip: e.skip,
                fetch: e.fetch,
            },
            ExecutionPlan::Sort(e) => ExecView::Sort {
                input: Box::new(e.input.view()),
                keys: e.key_views(),
            },
            ExecutionPlan::TopK(e) => ExecView::TopK {
                input: Box::new(e.sort.input.view()),
                keys: e.sort.key_views(),
                k: e.k,
            },
            ExecutionPlan::Aggregate(e) => ExecView::Aggregate {
                input: Box::new(e.input.view()),
                group_exprs: expr_list(e.group_exprs@),
                group_types: e.group_types@,
                agg_args: e.arg_views(),
                agg_kinds: e.agg_kinds@,
                agg_arg_types: e.agg_arg_types@,
                schema: e.schema@,
            },
            ExecutionPlan::HashJoin(e) => ExecView::HashJoin {
                build: Box::new(e.build.view()),
                probe: Box::new(e.probe.view()),
                on: e.on_views(),
                filter: e.filter_view(),
                join_type: e.join_type,
                schema: e.schema@,
            },
            ExecutionPlan::NestedLoopJoin(e) => ExecView::NestedLoopJoin {
                build: Box::new(e.build.view()),
                probe: Box::new(e.probe.view()),
                predicate: e.predicate@,
                schema: e.schema@,
            },
        }
    }

    /// The columns the operator produces.
    pub fn schema(&self) -> (r: SchemaRef)
        ensures
            r@ == exec_schema(self@),
        decreases self,
    {
        match self {
            ExecutionPlan::MemoryScan(e) => e.schema(),
            ExecutionPlan::Filter(e) => e.schema(),
            ExecutionPlan::Projection(e) => e.schema(),
            ExecutionPlan::Limit(e) => e.schema(),
            ExecutionPlan::Sort(e) => e.schema(),
            ExecutionPlan::TopK(e) => e.schema(),
            ExecutionPlan::Aggregate(e) => e.schema(),
            ExecutionPlan::HashJoin(e) => e.schema(),
            ExecutionPlan::NestedLoopJoin(e) => e.schema(),
        }
    }

    /// The operators this one reads from.
    pub fn children(&self) -> (r: Vec<ExecutionPlanRef>)
        ensures
            plan_views(r@) == exec_children(self@),
    {
        match self {
            ExecutionPlan::MemoryScan(e) => e.children(),
            ExecutionPlan::Filter(e) => e.children(),
            ExecutionPlan::Projection(e) => e.children(),
            ExecutionPlan::Limit(e) => e.children(),
            ExecutionPlan::Sort(e) => e.children(),
            ExecutionPlan::TopK(e) => e.children(),
            ExecutionPlan::Aggregate(e) => e.children(),
            ExecutionPlan::HashJoin(e) => e.children(),
            ExecutionPlan::NestedLoopJoin(e) => e.children(),
        }
    }

    /// The same operator over other inputs.
    ///
    /// # Errors
    /// An internal error unless there are as many as the operator reads from.
    pub fn with_new_children(&self, children: Vec<ExecutionPlanRef>) -> (r: Result<
        ExecutionPlanRef,
        BasaltError,
    >)
        ensures
            rebuilt(self@, plan_views(children@), r),
    {
        match self {
            ExecutionPlan::MemoryScan(e) => e.with_new_children(children),
            ExecutionPlan::Filter(e) => e.with_new_children(children),
            ExecutionPlan::Projection(e) => e.with_new_children(children),
            ExecutionPlan::Limit(e) => e.with_new_children(children),
            ExecutionPlan::Sort(e) => e.with_new_children(children),
            ExecutionPlan::TopK(e) => e.with_new_children(children),
            ExecutionPlan::Aggregate(e) => e.with_new_children(children),
            ExecutionPlan::HashJoin(e) => e.with_new_children(children),
            ExecutionPlan::NestedLoopJoin(e) => e.with_new_children(children),
        }
    }

    /// Produces the batches of one partition.
    ///
    /// # Errors
    /// An internal error for a partition other than zero; for an operator that
    /// reads all of its input first, the first error met doing so.
    pub fn execute(&self, partition: usize) -> (r: Result<BatchStream, BasaltError>)
        ensures
            match r {
                Ok(s) => run(self@, partition) == Ok::<
                    Seq<Result<BatchView, ErrorKind>>,
                    ErrorKind,
                >(stream_view(s@)),
                Err(e) => run(self@, partition) == Err::<
                    Seq<Result<BatchView, ErrorKind>>,
                    ErrorKind,
                >(e@),
            },
        decreases self, 0int,
    {
        match self {
            ExecutionPlan::MemoryScan(e) => e.execute(partition),
            ExecutionPlan::Filter(e) => e.execute(partition),
            ExecutionPlan::Projection(e) => e.execute(partition),
            ExecutionPlan::Limit(e) => e.execute(partition),
            ExecutionPlan::Sort(e) => e.execute(partition),
            ExecutionPlan::TopK(e) => e.execute(partition),
            ExecutionPlan::Aggregate(e) => e.execute(partition),
            ExecutionPlan::HashJoin(e) => e.execute(partition),
            ExecutionPlan::NestedLoopJoin(e) => e.execute(partition),
        }
    }

    /// Every operator has a single partition.
    pub fn output_partitioning(&self) -> (r: Partitioning)
        ensures
            r == Partitioning::UnknownPartitioning(1),
    {
        Partitioning::UnknownPartitioning(1)
    }

    /// Nothing is counted yet.
    pub fn metrics(&self) -> (r: Option<Metrics>)
        ensures
            r is None,
    {
        None
    }
}

/// The models of a list of plans.
pub open spec fn plan_views(v: Seq<ExecutionPlanRef>) -> Seq<ExecView> {
    Seq::new(v.len(), |i: int| v[i]@)
}

/// The operators an operator reads from.
pub open spec fn exec_children(p: ExecView) -> Seq<ExecView> {
    match p {
        ExecView::MemoryScan { schema, batches } => seq![],
        ExecView::Filter { input, predicate } => seq![*input],
        ExecView::Projection { input, exprs, schema } => seq![*input],
        ExecView::Limit { input, skip, fetch } => seq![*input],
        ExecView::Sort { input, keys } => seq![*input],
        ExecView::TopK { input, keys, k } => seq![*input],
        ExecView::Aggregate {
            input,
            group_exprs,
            group_types,
            agg_args,
            agg_kinds,
            agg_arg_types,
            schema,
        } => seq![*input],
        ExecView::HashJoin { build, probe, on, filter, join_type, schema } => seq![*build, *probe],
        ExecView::NestedLoopJoin { build, probe, predicate, schema } => seq![*build, *probe],
    }
}

/// The same operator over other inputs.
pub open spec fn exec_with_children(p: ExecView, c: Seq<ExecView>) -> ExecView {
    match p {
        ExecView::MemoryScan { schema, batches } => p,
        ExecView::Filter { input, predicate } => ExecView::Filter {
            input: Box::new(c[0]),
            predicate,
        },
        ExecView::Projection { input, exprs, schema } => ExecView::Projection {
            input: Box::new(c[0]),
            exprs,
            schema,
        },
        ExecView::Limit { input, skip, fetch } => ExecView::Limit {
            input: Box::new(c[0]),
            skip,
            fetch,
        },
        ExecView::Sort { input, keys } => ExecView::Sort { input: Box::new(c[0]), keys },
        ExecView::TopK { input, keys, k } => ExecView::TopK { input: Box::new(c[0]), keys, k },
        ExecView::Aggregate {
            input,
            group_exprs,
            group_types,
            agg_args,
            agg_kinds,
            agg_arg_types,
            schema,
        } => ExecView::Aggregate {
            input: Box::new(c[0]),
            group_exprs,
            group_types,
            agg_args,
            agg_kinds,
            agg_arg_types,
            schema,
        },
        ExecView::HashJoin { build, probe, on, filter, join_type, schema } => ExecView::HashJoin {
            build: Box::new(c[0]),
            probe: Box::new(c[1]),
            on,
            filter,
            join_type,
            schema,
        },
        ExecView::NestedLoopJoin { build, probe, predicate, schema } => ExecView::NestedLoopJoin {
            build: Box::new(c[0]),
            probe: Box::new(c[1]),
            predicate,
            schema,
        },
    }
}

/// What rebuilding an operator over other inputs gives.
pub open spec fn rebuilt(
    p: ExecView,
    c: Seq<ExecView>,
    r: Result<ExecutionPlanRef, BasaltError>,
) -> bool {
    match r {
        Ok(q) => c.len() == exec_children(p).len() && q@ == exec_with_children(p, c),
        Err(e) => c.len() != exec_children(p).len() && e@ == ErrorKind::Internal,
    }
}

// ---------------------------------------------------------------------------
// Evaluation over a batch

/// An expression evaluated over all rows of a well-formed batch gives one
/// value per row, or a scalar.
pub proof fn lemma_eval_rows(e: PhysicalExprView, b: BatchView)
    requires
        b.wf(),
        eval_batch(e, b) is Ok,
    ensures
        eval_batch(e, b)->Ok_0.scalar ==> eval_batch(e, b)->Ok_0.values.len() == 1,
        !eval_batch(e, b)->Ok_0.scalar ==> eval_batch(e, b)->Ok_0.values.len() == b.num_rows,
    decreases e,
{
    match e {
        PhysicalExprView::Column(i) => {},
        PhysicalExprView::Literal(t, v) => {},
        PhysicalExprView::Binary(l, op, r) => {
            lemma_eval_rows(*l, b);
            lemma_eval_rows(*r, b);
            let x = eval_batch(*l, b)->Ok_0;
            let y = eval_batch(*r, b)->Ok_0;
            let n = span_rows(x, y)->0;
            lemma_collect_rows(n, |i: int| binary_value(op, x.at(i), y.at(i)));
        },
        PhysicalExprView::Cast(inner, to) => {
            lemma_eval_rows(*inner, b);
            let x = eval_batch(*inner, b)->Ok_0;
            lemma_collect_rows(x.values.len(), |i: int| cast_value(x.values[i], to));
        },
        PhysicalExprView::IsNull(inner, negated) => {
            lemma_eval_rows(*inner, b);
        },
        PhysicalExprView::Not(inner) => {
            lemma_eval_rows(*inner, b);
            let x = eval_batch(*inner, b)->Ok_0;
            lemma_collect_rows(x.values.len(), |i: int| unary_value(UnaryOp::Not, x.values[i]));
        },
        PhysicalExprView::Neg(inner) => {
            lemma_eval_rows(*inner, b);
            let x = eval_batch(*inner, b)->Ok_0;
            lemma_collect_rows(x.values.len(), |i: int| unary_value(UnaryOp::Neg, x.values[i]));
        },
    }
}

/// An expression's column over all rows of a batch.
pub open spec fn eval_rows(e: PhysicalExprView, b: BatchView) -> Result<ArrayView, ErrorKind> {
    match eval_batch(e, b) {
        Err(k) => Err(k),
        Ok(c) => Ok(c.spread(b.num_rows)),
    }
}

/// The columns of the first `n` expressions, or the first error.
pub open spec fn eval_all(exprs: Seq<PhysicalExprView>, b: BatchView, n: nat) -> Result<
    Seq<ArrayView>,
    ErrorKind,
>
    decreases n,
{
    if n == 0 {
        Ok(seq![])
    } else {
        match eval_all(exprs, b, (n - 1) as nat) {
            Err(k) => Err(k),
            Ok(done) => match eval_rows(exprs[n - 1], b) {
                Err(k) => Err(k),
                Ok(a) => Ok(done.push(a)),
            },
        }
    }
}

pub proof fn lemma_eval_all_error(exprs: Seq<PhysicalExprView>, b: BatchView, m: nat, n: nat)
    requires
        m <= n,
        eval_all(exprs, b, m) is Err,
    ensures
        eval_all(exprs, b, n) == eval_all(exprs, b, m),
    decreases n - m,
{
    if m < n {
        lemma_eval_all_error(exprs, b, m, (n - 1) as nat);
    }
}

/// Evaluates one expression over all rows of a batch.
pub fn evaluate_rows(e: &PhysicalExprRef, batch: &ColumnarBatch) -> (r: Result<
    ArrayRef,
    BasaltError,
>)
    ensures
        match r {
            Ok(a) => eval_rows(e@, batch@) == Ok::<ArrayView, ErrorKind>(a@) && a@.values.len()
                == batch@.num_rows,
            Err(k) => eval_rows(e@, batch@) == Err::<ArrayView, ErrorKind>(k@),
        },
{
    let n: usize = batch.num_rows();
    match e.evaluate(batch) {
        Ok(c) => {
            proof {
                lemma_eval_rows(e@, batch@);
            }
            Ok(c.into_array(n))
        },
        Err(k) => Err(k),
    }
}

/// Evaluates expressions over all rows of a batch.
pub fn evaluate_all(exprs: &Vec<PhysicalExprRef>, batch: &ColumnarBatch) -> (r: Result<
    Vec<ArrayRef>,
    BasaltError,
>)
    ensures
        match r {
            Ok(v) => {
                &&& eval_all(expr_list(exprs@), batch@, exprs@.len()) == Ok::<
                    Seq<ArrayView>,
                    ErrorKind,
                >(array_views(v@))
                &&& v@.len() == exprs@.len()
                &&& forall|i: int|
                    0 <= i < v@.len() ==> (#[trigger] v@[i])@.values.len() == batch@.num_rows
            },
            Err(e) => eval_all(expr_list(exprs@), batch@, exprs@.len()) == Err::<
                Seq<ArrayView>,
                ErrorKind,
            >(e@),
        },
{
    let ghost list = expr_list(exprs@);
    let mut out: Vec<ArrayRef> = Vec::new();
    let mut i: usize = 0;
    assert(array_views(out@) =~= seq![]);
    while i < exprs.len()
        invariant
            i <= exprs@.len(),
            list == expr_list(exprs@),
            out@.len() == i,
            eval_all(list, batch@, i as nat) == Ok::<Seq<ArrayView>, ErrorKind>(array_views(out@)),
            forall|k: int|
                0 <= k < out@.len() ==> (#[trigger] out@[k])@.values.len() == batch@.num_rows,
        decreases exprs@.len() - i,
    {
        assert(list[i as int] == exprs@[i as int]@);
        match evaluate_rows(&exprs[i], batch) {
            Ok(a) => {
                let ghost was = array_views(out@);
                out.push(a);
                assert(array_views(out@) =~= was.push(a@));
            },
            Err(e) => {
                proof {
                    lemma_eval_all_error(list, batch@, (i + 1) as nat, list.len());
                }
                return Err(e);
            },
        }
        i = i + 1;
    }
    Ok(out)
}

// ---------------------------------------------------------------------------
// Reading a whole stream

/// The batches of a stream, or its first error.
pub open spec fn collect_items(items: Seq<Result<BatchView, ErrorKind>>) -> Result<
    Seq<BatchView>,
    ErrorKind,
>
    decreases items.len(),
{
    if items.len() == 0 {
        Ok(seq![])
    } else {
        match collect_items(items.drop_last()) {
            Err(k) => Err(k),
            Ok(s) => match items.last() {
                Err(k) => Err(k),
                Ok(b) => Ok(s.push(b)),
            },
        }
    }
}

/// The values of column `c` over all batches.
pub open spec fn concat_column(batches: Seq<BatchView>, c: int) -> Seq<ValueView>
    decreases batches.len(),
{
    if batches.len() == 0 {
        seq![]
    } else {
        concat_column(batches.drop_last(), c) + batches.last().columns[c].values
    }
}

/// Whether a batch starts with columns of a schema's types.
pub open spec fn batch_under(schema: Seq<FieldView>, b: BatchView) -> bool {
    &&& b.columns.len() >= schema.len()
    &&& forall|c: int|
        0 <= c < schema.len() ==> (#[trigger] b.columns[c]).data_type == schema[c].data_type
}

/// The columns of a schema over all batches.
pub open spec fn gathered_columns(schema: Seq<FieldView>, batches: Seq<BatchView>) -> Seq<
    ArrayView,
> {
    Seq::new(
        schema.len(),
        |c: int|
            ArrayView { data_type: schema[c].data_type, values: concat_column(batches, c) },
    )
}

/// All batches as one; an internal error when one does not fit the schema.
pub open spec fn gathered(schema: Seq<FieldView>, batches: Seq<BatchView>) -> Result<
    BatchView,
    ErrorKind,
> {
    if forall|i: int| 0 <= i < batches.len() ==> batch_under(schema, #[trigger] batches[i]) {
        Ok(batch_of(schema, gathered_columns(schema, batches)))
    } else {
        Err(ErrorKind::Internal)
    }
}

/// A stream read to its end, as one batch.
pub open spec fn materialized(
    schema: Seq<FieldView>,
    items: Seq<Result<BatchView, ErrorKind>>,
) -> Result<BatchView, ErrorKind> {
    match collect_items(items) {
        Err(k) => Err(k),
        Ok(batches) => gathered(schema, batches),
    }
}

pub proof fn lemma_collect_items_error(items: Seq<Result<BatchView, ErrorKind>>, m: int)
    requires
        0 <= m <= items.len(),
        collect_items(items.take(m)) is Err,
    ensures
        collect_items(items) == collect_items(items.take(m)),
    decreases items.len() - m,
{
    if m < items.len() {
        assert(items.take(m + 1).drop_last() =~= items.take(m));
        lemma_collect_items_error(items, m + 1);
    } else {
        assert(items.take(m) =~= items);
    }
}

/// The batches of a list.
pub open spec fn batch_views(v: Seq<ColumnarBatch>) -> Seq<BatchView> {
    Seq::new(v.len(), |i: int| v[i]@)
}

/// The batches of a stream, or its first error.
pub fn collect_batches(stream: &BatchStream) -> (r: Result<Vec<ColumnarBatch>, BasaltError>)
    ensures
        match r {
            Ok(v) => collect_items(stream_view(stream@)) == Ok::<Seq<BatchView>, ErrorKind>(
                batch_views(v@),
            ),
            Err(e) => collect_items(stream_view(stream@)) == Err::<Seq<BatchView>, ErrorKind>(e@),
        },
{
    let ghost items = stream_view(stream@);
    let mut out: Vec<ColumnarBatch> = Vec::new();
    let mut i: usize = 0;
    proof {
        assert(items.take(0) =~= seq![]);
        assert(batch_views(out@) =~= seq![]);
    }
    while i < stream.len()
        invariant
            i <= stream@.len(),
            items == stream_view(stream@),
            collect_items(items.take(i as int)) == Ok::<Seq<BatchView>, ErrorKind>(
                batch_views(out@),
            ),
        decreases stream@.len() - i,
    {
        proof {
            assert(items.take(i + 1).drop_last() =~= items.take(i as int));
            assert(items.take(i + 1).last() == item_view(stream@[i as int]));
        }
        match &stream[i] {
            Ok(b) => {
                let ghost was = batch_views(out@);
                out.push(b.copy());
                assert(batch_views(out@) =~= was.push(b@));
            },
            Err(e) => {
                proof {
                    lemma_collect_items_error(items, i + 1);
                }
                return Err(e.copy());
            },
        }
        i = i + 1;
    }
    assert(items.take(i as int) =~= items);
    Ok(out)
}

/// Every column over all batches has as many values as any other.
pub proof fn lemma_concat_len(batches: Seq<BatchView>, schema: Seq<FieldView>, c: int, d: int)
    requires
        forall|i: int| 0 <= i < batches.len() ==> (#[trigger] batches[i]).wf(),
        forall|i: int| 0 <= i < batches.len() ==> batch_under(schema, #[trigger] batches[i]),
        0 <= c < schema.len(),
        0 <= d < schema.len(),
    ensures
        concat_column(batches, c).len() == concat_column(batches, d).len(),
        gathered_columns(schema, batches)[c].wf(),
    decreases batches.len(),
{
    if batches.len() > 0 {
        let front = batches.drop_last();
        let last = batches.last();
        assert(batches[batches.len() - 1].wf());
        assert(batch_under(schema, batches[batches.len() - 1]));
        assert forall|i: int| 0 <= i < front.len() implies (#[trigger] front[i]).wf()
            && batch_under(schema, front[i]) by {
            assert(batches[i].wf());
            assert(batch_under(schema, batches[i]));
        }
        lemma_concat_len(front, schema, c, d);
        let a = ArrayView { data_type: schema[c].data_type, values: concat_column(batches, c) };
        let b = ArrayView { data_type: schema[c].data_type, values: concat_column(front, c) };
        assert(last.columns[c].values.len() == last.columns[d].values.len());
        assert(last.columns[c].wf());
        assert forall|i: int| 0 <= i < a.values.len() implies (#[trigger] a.values[i]).fits(
            a.data_type,
        ) by {
            if i < b.values.len() {
                assert(b.values[i].fits(b.data_type));
            } else {
                assert(last.columns[c].values[i - b.values.len()].fits(last.columns[c].data_type));
            }
        }
    }
}

/// All batches as one.
///
/// # Errors
/// An internal error when a batch does not fit the schema.
pub fn gather(schema: &SchemaRef, batches: &Vec<ColumnarBatch>) -> (r: Result<
    ColumnarBatch,
    BasaltError,
>)
    ensures
        match r {
            Ok(b) => gathered(schema@, batch_views(batches@)) == Ok::<BatchView, ErrorKind>(b@),
            Err(e) => gathered(schema@, batch_views(batches@)) == Err::<BatchView, ErrorKind>(e@),
        },
{
    let ghost views = batch_views(batches@);
    let width: usize = schema.len();
    let mut i: usize = 0;
    while i < batches.len()
        invariant
            i <= batches@.len(),
            width == schema@.len(),
            views == batch_views(batches@),
            forall|k: int| 0 <= k < i ==> batch_under(schema@, #[trigger] views[k]) && views[k].wf(),
        decreases batches@.len() - i,
    {
        assert(views[i as int] == batches@[i as int]@);
        if batches[i].num_columns() < width {
            return Err(BasaltError::internal_with("batch ", i, " lacks columns of the schema"));
        }
        let mut c: usize = 0;
        while c < width
            invariant
                c <= width,
                i < batches@.len(),
                width == schema@.len(),
                views == batch_views(batches@),
                views[i as int] == batches@[i as int]@,
                views[i as int].columns.len() >= width,
                forall|k: int|
                    0 <= k < c ==> (#[trigger] views[i as int].columns[k]).data_type
                        == schema@[k].data_type,
            decreases width - c,
        {
            let fields = schema.fields();
            assert(fields@[c as int]@ == schema@[c as int]);
            match batches[i].column(c) {
                Some(a) => {
                    if a.data_type() != fields[c].data_type {
                        return Err(
                            BasaltError::internal_with("column ", c, " has another type"),
                        );
                    }
                },
                None => {
                    return Err(BasaltError::internal_with("column ", c, " is missing"));
                },
            }
            c = c + 1;
        }
        i = i + 1;
    }
    let mut columns: Vec<ArrayRef> = Vec::new();
    let ghost want = gathered_columns(schema@, views);
    let mut c: usize = 0;
    while c < width
        invariant
            c <= width,
            width == schema@.len(),
            views == batch_views(batches@),
            forall|k: int| 0 <= k < views.len() ==> batch_under(schema@, #[trigger] views[k]) && views[k].wf(),
            want == gathered_columns(schema@, views),
            columns@.len() == c,
            forall|k: int| 0 <= k < c ==> (#[trigger] columns@[k])@ == want[k],
        decreases width - c,
    {
        let fields = schema.fields();
        assert(fields@[c as int]@ == schema@[c as int]);
        let mut whole = crate::array::Array::empty(fields[c].data_type);
        let mut i: usize = 0;
        assert(views.take(0) =~= seq![]);
        while i < batches.len()
            invariant
                i <= batches@.len(),
                c < width,
                width == schema@.len(),
                views == batch_views(batches@),
                forall|k: int| 0 <= k < views.len() ==> batch_under(schema@, #[trigger] views[k]) && views[k].wf(),
                whole@.data_type == schema@[c as int].data_type,
                whole@.values == concat_column(views.take(i as int), c as int),
            decreases batches@.len() - i,
        {
            proof {
                assert(views[i as int] == batches@[i as int]@);
                assert(views.take(i + 1).drop_last() =~= views.take(i as int));
                assert(views.take(i + 1).last() == views[i as int]);
                assert(batch_under(schema@, views[i as int]));
            }
            match batches[i].column(c) {
                Some(a) => {
                    append_values(&mut whole, a);
                },
                None => {
                    assert(false);
                },
            }
            i = i + 1;
        }
        assert(views.take(i as int) =~= views);
        columns.push(Arc::new(whole));
        c = c + 1;
    }
    proof {
        assert(array_views(columns@) =~= want);
        assert forall|k: int| 0 <= k < want.len() implies {
            &&& (#[trigger] want[k]).values.len() == crate::batch::first_len(want)
            &&& want[k].data_type == schema@[k].data_type
            &&& want[k].wf()
        } by {
            lemma_concat_len(views, schema@, k, 0);
        }
    }
    ColumnarBatch::try_new(share(schema), columns)
}

/// Runs a plan to its end, as one batch.
pub fn materialize(plan: &ExecutionPlan, partition: usize) -> (r: Result<
    ColumnarBatch,
    BasaltError,
>)
    ensures
        ({
            let want = match run(plan@, partition) {
                Err(k) => Err(k),
                Ok(items) => materialized(exec_schema(plan@), items),
            };
            match r {
                Ok(b) => want == Ok::<BatchView, ErrorKind>(b@),
                Err(e) => want == Err::<BatchView, ErrorKind>(e@),
            }
        }),
    decreases plan, 1int,
{
    let schema = plan.schema();
    match plan.execute(partition) {
        Err(e) => Err(e),
        Ok(stream) => match collect_batches(&stream) {
            Err(e) => Err(e),
            Ok(batches) => gather(&schema, &batches),
        },
    }
}

// ---------------------------------------------------------------------------
// Gathering rows

/// The rows of a batch at `indices`; an absent index gives a row of nulls.
pub open spec fn take_columns(columns: Seq<ArrayView>, indices: Seq<Option<usize>>) -> Seq<
    ArrayView,
> {
    Seq::new(columns.len(), |c: int| take_array(columns[c], indices))
}

/// Appends the columns of a batch, gathered at `indices`, to a list.
pub fn push_taken(out: &mut Vec<ArrayRef>, batch: &ColumnarBatch, indices: &Vec<Option<usize>>)
    requires
        indices_below(indices@, batch@.num_rows),
    ensures
        array_views(final(out)@) == array_views(old(out)@) + take_columns(
            batch@.columns,
            indices@,
        ),
{
    let ghost before = array_views(out@);
    let n: usize = batch.num_columns();
    let mut c: usize = 0;
    assert(array_views(out@) =~= before + take_columns(batch@.columns, indices@).take(0));
    while c < n
        invariant
            c <= n,
            n == batch@.columns.len(),
            batch@.wf(),
            indices_below(indices@, batch@.num_rows),
            array_views(out@) == before + take_columns(batch@.columns, indices@).take(c as int),
        decreases n - c,
    {
        match batch.column(c) {
            Some(a) => {
                assert(batch@.columns[c as int].values.len() == batch@.num_rows);
                let part = take(a, indices);
                let ghost was = array_views(out@);
                out.push(Arc::new(part));
                proof {
                    let all = take_columns(batch@.columns, indices@);
                    assert(array_views(out@) =~= was.push(part@));
                    assert(before + all.take(c + 1) =~= (before + all.take(c as int)).push(part@));
                }
            },
            None => {
                assert(false);
            },
        }
        c = c + 1;
    }
    assert(take_columns(batch@.columns, indices@).take(n as int) =~= take_columns(
        batch@.columns,
        indices@,
    ));
}

} // verus!
