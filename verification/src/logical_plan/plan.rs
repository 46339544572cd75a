//! The logical plan tree.

use std::sync::Arc;
use vstd::prelude::*;

use crate::array::share;
use crate::batch::BatchView;
use crate::error::{BasaltError, ErrorKind};
use crate::expr::expr::{copy_exprs, expr_views, Expr, ExprView};
use crate::physical_plan::scan::MemoryTableSource;
use crate::types::schema::{FieldView, SchemaRef};

verus! {

/// The type of a join. In a plan, left and right name the join's inputs.
#[derive(Debug, Clone, Copy, PartialEq, Eq, Hash, Structural)]
pub enum JoinType {
    Inner,
    Left,
    Right,
    Full,
    LeftSemi,
    LeftAnti,
    RightSemi,
    RightAnti,
}

#[derive(Debug, Clone, Copy, PartialEq, Eq, Hash, Structural)]
pub enum AggregateKind {
    Sum,
    Count,
    Min,
    Max,
    Avg,
}

/// The direction of a sort key, and where its nulls go.
#[derive(Debug, Clone, Copy, PartialEq, Eq, Hash, Structural)]
pub struct SortOptions {
    pub descending: bool,
    pub nulls_first: bool,
}

/// A key to sort by.
#[derive(Debug)]
pub struct SortExpr {
    pub expr: Expr,
    pub options: SortOptions,
}

/// The model of a sort key.
pub struct SortExprView {
    pub expr: ExprView,
    pub options: SortOptions,
}

impl SortExpr {
    pub open spec fn view(&self) -> SortExprView {
        SortExprView { expr: self.expr@, options: self.options }
    }

    pub fn copy(&self) -> (r: SortExpr)
        ensures
            r@ == self@,
    {
        SortExpr { expr: self.expr.copy(), options: self.options }
    }
}

/// One aggregate of a query.
#[derive(Debug)]
pub struct AggregateFunction {
    pub output_name: String,
    pub kind: AggregateKind,
    /// `None` for a count of rows.
    pub arg: Option<Expr>,
}

/// The model of an aggregate.
pub struct AggregateView {
    pub output_name: Seq<char>,
    pub kind: AggregateKind,
    pub arg: Option<ExprView>,
}

/// The model of an optional expression.
pub open spec fn option_view(e: Option<Expr>) -> Option<ExprView> {
    match e {
        Some(e) => Some(e@),
        None => None,
    }
}

/// Copies an optional expression.
pub fn copy_option(e: &Option<Expr>) -> (r: Option<Expr>)
    ensures
        option_view(r) == option_view(*e),
{
    match e {
        Some(e) => Some(e.copy()),
        None => None,
    }
}

impl AggregateFunction {
    pub open spec fn view(&self) -> AggregateView {
        AggregateView {
            output_name: self.output_name@,
            kind: self.kind,
            arg: option_view(self.arg),
        }
    }

    pub fn copy(&self) -> (r: AggregateFunction)
        ensures
            r@ == self@,
    {
        AggregateFunction {
            output_name: self.output_name.clone(),
            kind: self.kind,
            arg: copy_option(&self.arg),
        }
    }
}

/// Where a table's rows come from.
#[derive(Debug)]
pub enum TableSource {
    /// Batches held in memory.
    Memory(Arc<MemoryTableSource>),
    /// A table that some other reader scans.
    External(SchemaRef),
}

/// The model of a source.
#[allow(inconsistent_fields)]
pub enum SourceView {
    Memory { schema: Seq<FieldView>, batches: Seq<BatchView> },
    External { schema: Seq<FieldView> },
}

impl SourceView {
    pub open spec fn schema(self) -> Seq<FieldView> {
        match self {
            SourceView::Memory { schema, batches } => schema,
            SourceView::External { schema } => schema,
        }
    }
}

impl TableSource {
    pub open spec fn view(&self) -> SourceView {
        match self {
            TableSource::Memory(m) => SourceView::Memory {
                schema: m.schema_view(),
                batches: m.batch_list(),
            },
            TableSource::External(s) => SourceView::External { schema: s@ },
        }
    }

    pub fn schema(&self) -> (r: SchemaRef)
        ensures
            r@ == self@.schema(),
    {
        match self {
            TableSource::Memory(m) => m.schema(),
            TableSource::External(s) => share(s),
        }
    }

    pub fn copy(&self) -> (r: TableSource)
        ensures
            r@ == self@,
    {
        match self {
            TableSource::Memory(m) => TableSource::Memory(share(m)),
            TableSource::External(s) => TableSource::External(share(s)),
        }
    }
}

#[allow(inconsistent_fields)]
#[derive(Debug)]
pub enum LogicalPlan {
    TableScan {
        table_name: String,
        source: TableSource,
        /// The columns that are needed; all of them when absent.
        projection: Option<Vec<usize>>,
        /// Conditions that every row needed satisfies, for skipping row groups.
        filters: Vec<Expr>,
        schema: SchemaRef,
    },
    Projection { input: Arc<LogicalPlan>, exprs: Vec<Expr>, schema: SchemaRef },
    Filter { input: Arc<LogicalPlan>, predicate: Expr },
    Join {
        left: Arc<LogicalPlan>,
        right: Arc<LogicalPlan>,
        /// Pairs of a left key and a right key that have to be equal, each over
        /// its own side's columns.
        on: Vec<(Expr, Expr)>,
        /// A further condition, over the columns of both sides.
        filter: Option<Expr>,
        join_type: JoinType,
        schema: SchemaRef,
    },
    Aggregate {
        input: Arc<LogicalPlan>,
        group_expr: Vec<Expr>,
        aggr_expr: Vec<AggregateFunction>,
        schema: SchemaRef,
    },
    Sort { input: Arc<LogicalPlan>, exprs: Vec<SortExpr> },
    Limit { input: Arc<LogicalPlan>, skip: usize, fetch: Option<usize> },
    /// No rows.
    EmptyRelation { schema: SchemaRef },
}

/// The model of a plan.
#[allow(inconsistent_fields)]
pub enum PlanView {
    TableScan {
        table_name: Seq<char>,
        source: SourceView,
        projection: Option<Seq<usize>>,
        filters: Seq<ExprView>,
        schema: Seq<FieldView>,
    },
    Projection { input: Box<PlanView>, exprs: Seq<ExprView>, schema: Seq<FieldView> },
    Filter { input: Box<PlanView>, predicate: ExprView },
    Join {
        left: Box<PlanView>,
        right: Box<PlanView>,
        on: Seq<(ExprView, ExprView)>,
        filter: Option<ExprView>,
        join_type: JoinType,
        schema: Seq<FieldView>,
    },
    Aggregate {
        input: Box<PlanView>,
        group_expr: Seq<ExprView>,
        aggr_expr: Seq<AggregateView>,
        schema: Seq<FieldView>,
    },
    Sort { input: Box<PlanView>, exprs: Seq<SortExprView> },
    Limit { input: Box<PlanView>, skip: usize, fetch: Option<usize> },
    EmptyRelation { schema: Seq<FieldView> },
}

/// The models of key pairs.
pub open spec fn pair_views(v: Seq<(Expr, Expr)>) -> Seq<(ExprView, ExprView)> {
    Seq::new(v.len(), |i: int| (v[i].0@, v[i].1@))
}

/// The models of aggregates.
pub open spec fn aggregate_views(v: Seq<AggregateFunction>) -> Seq<AggregateView> {
    Seq::new(v.len(), |i: int| v[i]@)
}

/// The models of sort keys.
pub open spec fn sort_expr_views(v: Seq<SortExpr>) -> Seq<SortExprView> {
    Seq::new(v.len(), |i: int| v[i]@)
}

/// The model of a column list.
pub open spec fn columns_view(v: Option<Vec<usize>>) -> Option<Seq<usize>> {
    match v {
        Some(v) => Some(v@),
        None => None,
    }
}

/// The columns a plan produces.
pub open spec fn plan_schema(p: PlanView) -> Seq<FieldView>
    decreases p,
{
    match p {
        PlanView::TableScan { table_name, source, projection, filters, schema } => schema,
        PlanView::Projection { input, exprs, schema } => schema,
        PlanView::Filter { input, predicate } => plan_schema(*input),
        PlanView::Join { left, right, on, filter, join_type, schema } => schema,
        PlanView::Aggregate { input, group_expr, aggr_expr, schema } => schema,
        PlanView::Sort { input, exprs } => plan_schema(*input),
        PlanView::Limit { input, skip, fetch } => plan_schema(*input),
        PlanView::EmptyRelation { schema } => schema,
    }
}

/// The plans a plan reads from.
pub open spec fn plan_inputs(p: PlanView) -> Seq<PlanView> {
    match p {
        PlanView::TableScan { table_name, source, projection, filters, schema } => seq![],
        PlanView::Projection { input, exprs, schema } => seq![*input],
        PlanView::Filter { input, predicate } => seq![*input],
        PlanView::Join { left, right, on, filter, join_type, schema } => seq![*left, *right],
        PlanView::Aggregate { input, group_expr, aggr_expr, schema } => seq![*input],
        PlanView::Sort { input, exprs } => seq![*input],
        PlanView::Limit { input, skip, fetch } => seq![*input],
        PlanView::EmptyRelation { schema } => seq![],
    }
}

/// The same plan over other inputs.
pub open spec fn plan_with_inputs(p: PlanView, c: Seq<PlanView>) -> PlanView {
    match p {
        PlanView::TableScan { table_name, source, projection, filters, schema } => p,
        PlanView::Projection { input, exprs, schema } => PlanView::Projection {
            input: Box::new(c[0]),
            exprs,
            schema,
        },
        PlanView::Filter { input, predicate } => PlanView::Filter {
            input: Box::new(c[0]),
            predicate,
        },
        PlanView::Join { left, right, on, filter, join_type, schema } => PlanView::Join {
            left: Box::new(c[0]),
            right: Box::new(c[1]),
            on,
            filter,
            join_type,
            schema,
        },
        PlanView::Aggregate { input, group_expr, aggr_expr, schema } => PlanView::Aggregate {
            input: Box::new(c[0]),
            group_expr,
            aggr_expr,
            schema,
        },
        PlanView::Sort { input, exprs } => PlanView::Sort { input: Box::new(c[0]), exprs },
        PlanView::Limit { input, skip, fetch } => PlanView::Limit {
            input: Box::new(c[0]),
            skip,
            fetch,
        },
        PlanView::EmptyRelation { schema } => p,
    }
}

/// A plan over its own inputs is the plan itself.
pub proof fn inputs_round_trip(p: PlanView)
    ensures
        plan_with_inputs(p, plan_inputs(p)) == p,
{
}

/// Copies a list of key pairs.
pub fn copy_pairs(v: &Vec<(Expr, Expr)>) -> (r: Vec<(Expr, Expr)>)
    ensures
        pair_views(r@) == pair_views(v@),
{
    let mut out: Vec<(Expr, Expr)> = Vec::new();
    let mut i: usize = 0;
    while i < v.len()
        invariant
            i <= v@.len(),
            out@.len() == i,
            forall|k: int|
                0 <= k < i ==> (#[trigger] out@[k]).0@ == v@[k].0@ && out@[k].1@ == v@[k].1@,
        decreases v@.len() - i,
    {
        out.push((v[i].0.copy(), v[i].1.copy()));
        i = i + 1;
    }
    assert(pair_views(out@) =~= pair_views(v@));
    out
}

/// Copies a list of aggregates.
pub fn copy_aggregates(v: &Vec<AggregateFunction>) -> (r: Vec<AggregateFunction>)
    ensures
        aggregate_views(r@) == aggregate_views(v@),
{
    let mut out: Vec<AggregateFunction> = Vec::new();
    let mut i: usize = 0;
    while i < v.len()
        invariant
            i <= v@.len(),
            out@.len() == i,
            forall|k: int| 0 <= k < i ==> (#[trigger] out@[k])@ == v@[k]@,
        decreases v@.len() - i,
    {
        out.push(v[i].copy());
        i = i + 1;
    }
    assert(aggregate_views(out@) =~= aggregate_views(v@));
    out
}

/// Copies a list of sort keys.
pub fn copy_sort_exprs(v: &Vec<SortExpr>) -> (r: Vec<SortExpr>)
    ensures
        sort_expr_views(r@) == sort_expr_views(v@),
{
    let mut out: Vec<SortExpr> = Vec::new();
    let mut i: usize = 0;
    while i < v.len()
        invariant
            i <= v@.len(),
            out@.len() == i,
            forall|k: int| 0 <= k < i ==> (#[trigger] out@[k])@ == v@[k]@,
        decreases v@.len() - i,
    {
        out.push(v[i].copy());
        i = i + 1;
    }
    assert(sort_expr_views(out@) =~= sort_expr_views(v@));
    out
}

/// Copies a column list.
pub fn copy_columns(v: &Option<Vec<usize>>) -> (r: Option<Vec<usize>>)
    ensures
        columns_view(r) == columns_view(*v),
{
    match v {
        None => None,
        Some(v) => {
            let mut out: Vec<usize> = Vec::new();
            let mut i: usize = 0;
            while i < v.len()
                invariant
                    i <= v@.len(),
                    out@ == v@.take(i as int),
                decreases v@.len() - i,
            {
                out.push(v[i]);
                assert(v@.take(i + 1) =~= v@.take(i as int).push(v@[i as int]));
                i = i + 1;
            }
            assert(out@ =~= v@);
            Some(out)
        },
    }
}

impl LogicalPlan {
    pub open spec fn view(&self) -> PlanView
        decreases self,
    {
        match self {
            LogicalPlan::TableScan { table_name, source, projection, filters, schema } =>
            PlanView::TableScan {
                table_name: table_name@,
                source: source@,
                projection: columns_view(*projection),
                filters: expr_views(filters@),
                schema: schema@,
            },
            LogicalPlan::Projection { input, exprs, schema } => PlanView::Projection {
                input: Box::new(input.view()),
                exprs: expr_views(exprs@),
                schema: schema@,
            },
            LogicalPlan::Filter { input, predicate } => PlanView::Filter {
                input: Box::new(input.view()),
                predicate: predicate@,
            },
            LogicalPlan::Join { left, right, on, filter, join_type, schema } => PlanView::Join {
                left: Box::new(left.view()),
                right: Box::new(right.view()),
                on: pair_views(on@),
                filter: option_view(*filter),
                join_type: *join_type,
                schema: schema@,
            },
            LogicalPlan::Aggregate { input, group_expr, aggr_expr, schema } =>
            PlanView::Aggregate {
                input: Box::new(input.view()),
                group_expr: expr_views(group_expr@),
                aggr_expr: aggregate_views(aggr_expr@),
                schema: schema@,
            },
            LogicalPlan::Sort { input, exprs } => PlanView::Sort {
                input: Box::new(input.view()),
                exprs: sort_expr_views(exprs@),
            },
            LogicalPlan::Limit { input, skip, fetch } => PlanView::Limit {
                input: Box::new(input.view()),
                skip: *skip,
                fetch: *fetch,
            },
            LogicalPlan::EmptyRelation { schema } => PlanView::EmptyRelation { schema: schema@ },
        }
    }

    /// The columns the plan produces.
    pub fn schema(&self) -> (r: &SchemaRef)
        ensures
            r@ == plan_schema(self@),
        decreases self,
    {
        match self {
            LogicalPlan::TableScan { table_name, source, projection, filters, schema } => schema,
            LogicalPlan::Projection { input, exprs, schema } => schema,
            LogicalPlan::Filter { input, predicate } => input.schema(),
            LogicalPlan::Join { left, right, on, filter, join_type, schema } => schema,
            LogicalPlan::Aggregate { input, group_expr, aggr_expr, schema } => schema,
            LogicalPlan::Sort { input, exprs } => input.schema(),
            LogicalPlan::Limit { input, skip, fetch } => input.schema(),
            LogicalPlan::EmptyRelation { schema } => schema,
        }
    }

    /// The plans this one reads from.
    pub fn inputs(&self) -> (r: Vec<&LogicalPlan>)
        ensures
            r@.len() == plan_inputs(self@).len(),
            forall|i: int| 0 <= i < r@.len() ==> (#[trigger] r@[i])@ == plan_inputs(self@)[i],
    {
        let mut v: Vec<&LogicalPlan> = Vec::new();
        match self {
            LogicalPlan::Projection { input, exprs, schema } => {
                v.push(input);
            },
            LogicalPlan::Filter { input, predicate } => {
                v.push(input);
            },
            LogicalPlan::Join { left, right, on, filter, join_type, schema } => {
                v.push(left);
                v.push(right);
            },
            LogicalPlan::Aggregate { input, group_expr, aggr_expr, schema } => {
                v.push(input);
            },
            LogicalPlan::Sort { input, exprs } => {
                v.push(input);
            },
            LogicalPlan::Limit { input, skip, fetch } => {
                v.push(input);
            },
            LogicalPlan::TableScan { table_name, source, projection, filters, schema } => {},
            LogicalPlan::EmptyRelation { schema } => {},
        }
        v
    }

    /// The same plan over other inputs.
    ///
    /// # Errors
    /// An internal error unless there are as many as the plan reads from.
    pub fn with_new_inputs(&self, inputs: Vec<Arc<LogicalPlan>>) -> (r: Result<
        LogicalPlan,
        BasaltError,
    >)
        ensures
            match r {
                Ok(p) => inputs@.len() == plan_inputs(self@).len() && p@ == plan_with_inputs(
                    self@,
                    input_views(inputs@),
                ),
                Err(e) => inputs@.len() != plan_inputs(self@).len() && e@ == ErrorKind::Internal,
            },
    {
        let arity: usize = match self {
            LogicalPlan::TableScan { table_name, source, projection, filters, schema } => 0,
            LogicalPlan::EmptyRelation { schema } => 0,
            LogicalPlan::Join { left, right, on, filter, join_type, schema } => 2,
            _ => 1,
        };
        if inputs.len() != arity {
            return Err(
                BasaltError::internal_with("a plan node got ", inputs.len(), " inputs"),
            );
        }
        proof {
            if arity > 0 {
                assert(input_views(inputs@)[0] == inputs@[0]@);
            }
            if arity > 1 {
                assert(input_views(inputs@)[1] == inputs@[1]@);
            }
        }
        Ok(
            match self {
                LogicalPlan::Projection { input, exprs, schema } => LogicalPlan::Projection {
                    input: share(&inputs[0]),
                    exprs: copy_exprs(exprs),
                    schema: share(schema),
                },
                LogicalPlan::Filter { input, predicate } => LogicalPlan::Filter {
                    input: share(&inputs[0]),
                    predicate: predicate.copy(),
                },
                LogicalPlan::Join { left, right, on, filter, join_type, schema } =>
                LogicalPlan::Join {
                    left: share(&inputs[0]),
                    right: share(&inputs[1]),
                    on: copy_pairs(on),
                    filter: copy_option(filter),
                    join_type: *join_type,
                    schema: share(schema),
                },
                LogicalPlan::Aggregate { input, group_expr, aggr_expr, schema } =>
                LogicalPlan::Aggregate {
                    input: share(&inputs[0]),
                    group_expr: copy_exprs(group_expr),
                    aggr_expr: copy_aggregates(aggr_expr),
                    schema: share(schema),
                },
                LogicalPlan::Sort { input, exprs } => LogicalPlan::Sort {
                    input: share(&inputs[0]),
                    exprs: copy_sort_exprs(exprs),
                },
                LogicalPlan::Limit { input, skip, fetch } => LogicalPlan::Limit {
                    input: share(&inputs[0]),
                    skip: *skip,
                    fetch: *fetch,
                },
                LogicalPlan::TableScan { table_name, source, projection, filters, schema } =>
                self.copy(),
                LogicalPlan::EmptyRelation { schema } => self.copy(),
            },
        )
    }

    /// A copy of the plan; its inputs are shared.
    pub fn copy(&self) -> (r: LogicalPlan)
        ensures
            r@ == self@,
    {
        match self {
            LogicalPlan::TableScan { table_name, source, projection, filters, schema } =>
            LogicalPlan::TableScan {
                table_name: table_name.clone(),
                source: source.copy(),
                projection: copy_columns(projection),
                filters: copy_exprs(filters),
                schema: share(schema),
            },
            LogicalPlan::Projection { input, exprs, schema } => LogicalPlan::Projection {
                input: share(input),
                exprs: copy_exprs(exprs),
                schema: share(schema),
            },
            LogicalPlan::Filter { input, predicate } => LogicalPlan::Filter {
                input: share(input),
                predicate: predicate.copy(),
            },
            LogicalPlan::Join { left, right, on, filter, join_type, schema } => LogicalPlan::Join {
                left: share(left),
                right: share(right),
                on: copy_pairs(on),
                filter: copy_option(filter),
                join_type: *join_type,
                schema: share(schema),
            },
            LogicalPlan::Aggregate { input, group_expr, aggr_expr, schema } =>
            LogicalPlan::Aggregate {
                input: share(input),
                group_expr: copy_exprs(group_expr),
                aggr_expr: copy_aggregates(aggr_expr),
                schema: share(schema),
            },
            LogicalPlan::Sort { input, exprs } => LogicalPlan::Sort {
                input: share(input),
                exprs: copy_sort_exprs(exprs),
            },
            LogicalPlan::Limit { input, skip, fetch } => LogicalPlan::Limit {
                input: share(input),
                skip: *skip,
                fetch: *fetch,
            },
            LogicalPlan::EmptyRelation { schema } => LogicalPlan::EmptyRelation {
                schema: share(schema),
            },
        }
    }
}

impl Clone for LogicalPlan {
    fn clone(&self) -> (r: LogicalPlan)
        ensures
            r@ == self@,
    {
        self.copy()
    }
}

/// The models of a list of plans.
pub open spec fn input_views(v: Seq<Arc<LogicalPlan>>) -> Seq<PlanView> {
    Seq::new(v.len(), |i: int| v[i]@)
}

} // verus!
