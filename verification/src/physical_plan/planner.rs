//! From logical plans to operators, one to one, but for `ORDER BY ... LIMIT`,
//! which becomes a single operator, and joins, which are hashed where they
//! have equal keys.

use std::sync::Arc;
use vstd::prelude::*;

use crate::array::share;
use crate::batch::BatchView;
use crate::compute::lemma_collect_rows;
use crate::error::{BasaltError, ErrorKind};
use crate::expr::expr::{eval, expr_type, expr_views, Expr, ExprView};
use crate::logical_plan::plan::{
    aggregate_views, pair_views, plan_schema, sort_expr_views, AggregateKind, AggregateView,
    JoinType, LogicalPlan, PlanView, SortExpr, SortExprView, SourceView, TableSource,
};
use crate::physical_expr::binary::BinaryExpr;
use crate::physical_expr::cast::CastExpr;
use crate::physical_expr::column::ColumnExpr;
use crate::physical_expr::expr::{eval_batch, PhysicalExpr, PhysicalExprRef, PhysicalExprView};
use crate::physical_expr::is_null::IsNullExpr;
use crate::physical_expr::literal::LiteralExpr;
use crate::physical_expr::unary::{NegExpr, NotExpr};
use crate::physical_plan::aggregate::{optional_expr, AggregateExec};
use crate::physical_plan::filter::FilterExec;
use crate::physical_plan::join::hash_join::HashJoinExec;
use crate::physical_plan::join::nested_loop::NestedLoopJoinExec;
use crate::physical_plan::limit::LimitExec;
use crate::physical_plan::plan::{
    batch_views, exec_schema, expr_list, lemma_eval_rows, ExecView, ExecutionPlan, ExecutionPlanRef,
    SortKeyView,
};
use crate::physical_plan::projection::ProjectionExec;
use crate::physical_plan::scan::{copy_batches, MemoryScanExec};
use crate::physical_plan::sort::{PhysicalSortExpr, SortExec, TopKExec};
use crate::scalar::ScalarValue;
use crate::types::coercion::UnaryOp;
use crate::types::data_type::DataType;
use crate::types::value::{binary_value, cast_value, unary_value, Value, ValueView};

verus! {

/// The operator form of an expression; a type error for a null literal, which
/// has no type unless it is cast to one.
pub open spec fn physical_of(e: ExprView) -> Result<PhysicalExprView, ErrorKind>
    decreases e,
{
    match e {
        ExprView::Column { index, data_type, nullable } => Ok(PhysicalExprView::Column(index)),
        ExprView::Literal(v) => match v.data_type() {
            None => Err(ErrorKind::Type),
            Some(t) => Ok(PhysicalExprView::Literal(t, v)),
        },
        ExprView::Binary { left, op, right } => match physical_of(*left) {
            Err(k) => Err(k),
            Ok(l) => match physical_of(*right) {
                Err(k) => Err(k),
                Ok(r) => Ok(PhysicalExprView::Binary(Box::new(l), op, Box::new(r))),
            },
        },
        ExprView::Unary { op, expr } => match physical_of(*expr) {
            Err(k) => Err(k),
            Ok(x) => match op {
                UnaryOp::Neg => Ok(PhysicalExprView::Neg(Box::new(x))),
                UnaryOp::Not => Ok(PhysicalExprView::Not(Box::new(x))),
            },
        },
        ExprView::Cast { expr, to } => if *expr == ExprView::Literal(ValueView::Null) {
            Ok(
                PhysicalExprView::Cast(
                    Box::new(PhysicalExprView::Literal(to, ValueView::Null)),
                    to,
                ),
            )
        } else {
            match physical_of(*expr) {
                Err(k) => Err(k),
                Ok(x) => Ok(PhysicalExprView::Cast(Box::new(x), to)),
            }
        },
        ExprView::IsNull(inner) => match physical_of(*inner) {
            Err(k) => Err(k),
            Ok(x) => Ok(PhysicalExprView::IsNull(Box::new(x), false)),
        },
        ExprView::IsNotNull(inner) => match physical_of(*inner) {
            Err(k) => Err(k),
            Ok(x) => Ok(PhysicalExprView::IsNull(Box::new(x), true)),
        },
    }
}

/// The operator forms of the first `n` expressions, or the first error.
pub open spec fn physical_all(exprs: Seq<ExprView>, n: nat) -> Result<
    Seq<PhysicalExprView>,
    ErrorKind,
>
    decreases n,
{
    if n == 0 {
        Ok(seq![])
    } else {
        match physical_all(exprs, (n - 1) as nat) {
            Err(k) => Err(k),
            Ok(done) => match physical_of(exprs[n - 1]) {
                Err(k) => Err(k),
                Ok(x) => Ok(done.push(x)),
            },
        }
    }
}

/// The types of the first `n` expressions; a type error where one has none.
pub open spec fn types_all(exprs: Seq<ExprView>, n: nat) -> Result<Seq<DataType>, ErrorKind>
    decreases n,
{
    if n == 0 {
        Ok(seq![])
    } else {
        match types_all(exprs, (n - 1) as nat) {
            Err(k) => Err(k),
            Ok(done) => match expr_type(exprs[n - 1]) {
                None => Err(ErrorKind::Type),
                Some(t) => Ok(done.push(t)),
            },
        }
    }
}

/// The sort keys of the first `n`, or the first error.
pub open spec fn physical_keys(exprs: Seq<SortExprView>, n: nat) -> Result<
    Seq<SortKeyView>,
    ErrorKind,
>
    decreases n,
{
    if n == 0 {
        Ok(seq![])
    } else {
        match physical_keys(exprs, (n - 1) as nat) {
            Err(k) => Err(k),
            Ok(done) => match physical_of(exprs[n - 1].expr) {
                Err(k) => Err(k),
                Ok(x) => Ok(done.push(SortKeyView { expr: x, options: exprs[n - 1].options })),
            },
        }
    }
}

/// The key pairs of the first `n`, or the first error.
pub open spec fn physical_pairs(on: Seq<(ExprView, ExprView)>, n: nat) -> Result<
    Seq<(PhysicalExprView, PhysicalExprView)>,
    ErrorKind,
>
    decreases n,
{
    if n == 0 {
        Ok(seq![])
    } else {
        match physical_pairs(on, (n - 1) as nat) {
            Err(k) => Err(k),
            Ok(done) => match physical_of(on[n - 1].0) {
                Err(k) => Err(k),
                Ok(l) => match physical_of(on[n - 1].1) {
                    Err(k) => Err(k),
                    Ok(r) => Ok(done.push((l, r))),
                },
            },
        }
    }
}

/// An aggregate's argument and its type; a count of rows has none, and stands
/// under a whole number.
pub open spec fn physical_argument(a: AggregateView) -> Result<
    (Option<PhysicalExprView>, DataType),
    ErrorKind,
> {
    match a.arg {
        None => Ok((None, DataType::Int64)),
        Some(e) => match physical_of(e) {
            Err(k) => Err(k),
            Ok(x) => match expr_type(e) {
                None => Err(ErrorKind::Type),
                Some(t) => Ok((Some(x), t)),
            },
        },
    }
}

/// The arguments of the first `n` aggregates, or the first error.
pub open spec fn physical_arguments(aggs: Seq<AggregateView>, n: nat) -> Result<
    Seq<(Option<PhysicalExprView>, DataType)>,
    ErrorKind,
>
    decreases n,
{
    if n == 0 {
        Ok(seq![])
    } else {
        match physical_arguments(aggs, (n - 1) as nat) {
            Err(k) => Err(k),
            Ok(done) => match physical_argument(aggs[n - 1]) {
                Err(k) => Err(k),
                Ok(x) => Ok(done.push(x)),
            },
        }
    }
}

/// The type under which an operator runs a join. The operator names its types
/// after the probe side, and the left input is its build side, so that the
/// sides change places.
pub open spec fn operator_type(t: JoinType) -> JoinType {
    match t {
        JoinType::Inner => JoinType::Inner,
        JoinType::Left => JoinType::Right,
        JoinType::Right => JoinType::Left,
        JoinType::Full => JoinType::Full,
        JoinType::LeftSemi => JoinType::RightSemi,
        JoinType::LeftAnti => JoinType::RightAnti,
        JoinType::RightSemi => JoinType::LeftSemi,
        JoinType::RightAnti => JoinType::LeftAnti,
    }
}

fn type_of_operator(t: JoinType) -> (r: JoinType)
    ensures
        r == operator_type(t),
{
    match t {
        JoinType::Inner => JoinType::Inner,
        JoinType::Left => JoinType::Right,
        JoinType::Right => JoinType::Left,
        JoinType::Full => JoinType::Full,
        JoinType::LeftSemi => JoinType::RightSemi,
        JoinType::LeftAnti => JoinType::RightAnti,
        JoinType::RightSemi => JoinType::LeftSemi,
        JoinType::RightAnti => JoinType::LeftAnti,
    }
}

/// The operator of a join over its two planned sides: the left one is hashed,
/// the right one probes.
pub open spec fn join_exec(p: PlanView, build: ExecView, probe: ExecView) -> Result<
    ExecView,
    ErrorKind,
> {
    match p {
        PlanView::Join { left, right, on, filter, join_type, schema } => if on.len() > 0 {
            match physical_pairs(on, on.len()) {
                Err(k) => Err(k),
                Ok(keys) => match filter {
                    None => Ok(
                        ExecView::HashJoin {
                            build: Box::new(build),
                            probe: Box::new(probe),
                            on: keys,
                            filter: None,
                            join_type: operator_type(join_type),
                            schema,
                        },
                    ),
                    Some(f) => match physical_of(f) {
                        Err(k) => Err(k),
                        Ok(x) => Ok(
                            ExecView::HashJoin {
                                build: Box::new(build),
                                probe: Box::new(probe),
                                on: keys,
                                filter: Some(x),
                                join_type: operator_type(join_type),
                                schema,
                            },
                        ),
                    },
                },
            }
        } else {
            match filter {
                None => Err(ErrorKind::Internal),
                Some(f) => if join_type != JoinType::Inner {
                    Err(ErrorKind::Internal)
                } else {
                    match physical_of(f) {
                        Err(k) => Err(k),
                        Ok(x) => Ok(
                            ExecView::NestedLoopJoin {
                                build: Box::new(build),
                                probe: Box::new(probe),
                                predicate: x,
                                schema,
                            },
                        ),
                    }
                },
            }
        },
        _ => Err(ErrorKind::Internal),
    }
}

/// The operator of an aggregation over its planned input.
pub open spec fn aggregate_exec(p: PlanView, child: ExecView) -> Result<ExecView, ErrorKind> {
    match p {
        PlanView::Aggregate { input, group_expr, aggr_expr, schema } => match physical_all(
            group_expr,
            group_expr.len(),
        ) {
            Err(k) => Err(k),
            Ok(groups) => match types_all(group_expr, group_expr.len()) {
                Err(k) => Err(k),
                Ok(types) => match physical_arguments(aggr_expr, aggr_expr.len()) {
                    Err(k) => Err(k),
                    Ok(args) => Ok(
                        ExecView::Aggregate {
                            input: Box::new(child),
                            group_exprs: groups,
                            group_types: types,
                            agg_args: Seq::new(args.len(), |i: int| args[i].0),
                            agg_kinds: Seq::new(aggr_expr.len(), |i: int| aggr_expr[i].kind),
                            agg_arg_types: Seq::new(args.len(), |i: int| args[i].1),
                            schema,
                        },
                    ),
                },
            },
        },
        _ => Err(ErrorKind::Internal),
    }
}

/// The operators of a logical plan.
pub open spec fn exec_of(p: PlanView) -> Result<ExecView, ErrorKind>
    decreases p,
{
    match p {
        PlanView::TableScan { table_name, source, projection, filters, schema } => match source {
            SourceView::Memory { schema: own, batches } => Ok(
                ExecView::MemoryScan { schema, batches },
            ),
            SourceView::External { schema: own } => Err(ErrorKind::Internal),
        },
        PlanView::EmptyRelation { schema } => Ok(
            ExecView::MemoryScan { schema, batches: seq![] },
        ),
        PlanView::Filter { input, predicate } => match exec_of(*input) {
            Err(k) => Err(k),
            Ok(child) => match physical_of(predicate) {
                Err(k) => Err(k),
                Ok(x) => Ok(ExecView::Filter { input: Box::new(child), predicate: x }),
            },
        },
        PlanView::Projection { input, exprs, schema } => match exec_of(*input) {
            Err(k) => Err(k),
            Ok(child) => match physical_all(exprs, exprs.len()) {
                Err(k) => Err(k),
                Ok(x) => Ok(ExecView::Projection { input: Box::new(child), exprs: x, schema }),
            },
        },
        PlanView::Limit { input, skip, fetch } => match *input {
            PlanView::Sort { input: inner, exprs } => if skip == 0 && fetch is Some {
                match exec_of(*inner) {
                    Err(k) => Err(k),
                    Ok(child) => match physical_keys(exprs, exprs.len()) {
                        Err(k) => Err(k),
                        Ok(keys) => Ok(
                            ExecView::TopK { input: Box::new(child), keys, k: fetch->0 },
                        ),
                    },
                }
            } else {
                match exec_of(*input) {
                    Err(k) => Err(k),
                    Ok(child) => Ok(ExecView::Limit { input: Box::new(child), skip, fetch }),
                }
            },
            _ => match exec_of(*input) {
                Err(k) => Err(k),
                Ok(child) => Ok(ExecView::Limit { input: Box::new(child), skip, fetch }),
            },
        },
        PlanView::Sort { input, exprs } => match exec_of(*input) {
            Err(k) => Err(k),
            Ok(child) => match physical_keys(exprs, exprs.len()) {
                Err(k) => Err(k),
                Ok(keys) => Ok(ExecView::Sort { input: Box::new(child), keys }),
            },
        },
        PlanView::Aggregate { input, group_expr, aggr_expr, schema } => match exec_of(*input) {
            Err(k) => Err(k),
            Ok(child) => aggregate_exec(p, child),
        },
        PlanView::Join { left, right, on, filter, join_type, schema } => match exec_of(*left) {
            Err(k) => Err(k),
            Ok(build) => match exec_of(*right) {
                Err(k) => Err(k),
                Ok(probe) => join_exec(p, build, probe),
            },
        },
    }
}

// ---------------------------------------------------------------------------
// Laws

/// The operators of a plan produce what the plan's schema says.
pub proof fn operators_keep_the_schema_of_plans(p: PlanView)
    ensures
        exec_of(p) matches Ok(x) ==> exec_schema(x) == plan_schema(p),
    decreases p,
{
    match p {
        PlanView::Filter { input, predicate } => {
            operators_keep_the_schema_of_plans(*input);
        },
        PlanView::Limit { input, skip, fetch } => {
            operators_keep_the_schema_of_plans(*input);
            match *input {
                PlanView::Sort { input: inner, exprs } => {
                    operators_keep_the_schema_of_plans(*inner);
                },
                _ => {},
            }
        },
        PlanView::Sort { input, exprs } => {
            operators_keep_the_schema_of_plans(*input);
        },
        _ => {},
    }
}

/// Evaluating an expression over a batch gives, for every row, what evaluating
/// it on that row alone gives.
pub proof fn batches_evaluate_like_rows(e: ExprView, b: BatchView, i: int)
    requires
        b.wf(),
        0 <= i < b.num_rows,
        physical_of(e) is Ok,
        eval_batch(physical_of(e)->Ok_0, b) is Ok,
    ensures
        eval(e, b.row(i)) == Ok::<ValueView, ErrorKind>(
            eval_batch(physical_of(e)->Ok_0, b)->Ok_0.at(i),
        ),
    decreases e,
{
    let x = physical_of(e)->Ok_0;
    lemma_eval_rows(x, b);
    match e {
        ExprView::Column { index, data_type, nullable } => {},
        ExprView::Literal(v) => {},
        ExprView::Binary { left, op, right } => {
            batches_evaluate_like_rows(*left, b, i);
            batches_evaluate_like_rows(*right, b, i);
            let lx = physical_of(*left)->Ok_0;
            let rx = physical_of(*right)->Ok_0;
            lemma_eval_rows(lx, b);
            lemma_eval_rows(rx, b);
            let l = eval_batch(lx, b)->Ok_0;
            let r = eval_batch(rx, b)->Ok_0;
            let n = crate::compute::span_rows(l, r)->0;
            lemma_collect_rows(n, |k: int| binary_value(op, l.at(k), r.at(k)));
            if l.scalar && r.scalar {
                assert(binary_value(op, l.at(0), r.at(0)) == binary_value(op, l.at(i), r.at(i)));
            }
        },
        ExprView::Unary { op, expr } => {
            batches_evaluate_like_rows(*expr, b, i);
            let lx = physical_of(*expr)->Ok_0;
            lemma_eval_rows(lx, b);
            let c = eval_batch(lx, b)->Ok_0;
            lemma_collect_rows(c.values.len(), |k: int| unary_value(op, c.values[k]));
        },
        ExprView::Cast { expr, to } => {
            let lx = if *expr == ExprView::Literal(ValueView::Null) {
                PhysicalExprView::Literal(to, ValueView::Null)
            } else {
                batches_evaluate_like_rows(*expr, b, i);
                physical_of(*expr)->Ok_0
            };
            assert(x == PhysicalExprView::Cast(Box::new(lx), to));
            lemma_eval_rows(lx, b);
            let c = eval_batch(lx, b)->Ok_0;
            lemma_collect_rows(c.values.len(), |k: int| cast_value(c.values[k], to));
        },
        ExprView::IsNull(inner) => {
            batches_evaluate_like_rows(*inner, b, i);
            lemma_eval_rows(physical_of(*inner)->Ok_0, b);
        },
        ExprView::IsNotNull(inner) => {
            batches_evaluate_like_rows(*inner, b, i);
            lemma_eval_rows(physical_of(*inner)->Ok_0, b);
        },
    }
}

// ---------------------------------------------------------------------------
// The planner

proof fn lemma_all_error(exprs: Seq<ExprView>, m: nat, n: nat)
    requires
        m <= n,
        physical_all(exprs, m) is Err,
    ensures
        physical_all(exprs, n) == physical_all(exprs, m),
    decreases n - m,
{
    if m < n {
        lemma_all_error(exprs, m, (n - 1) as nat);
    }
}

proof fn lemma_types_error(exprs: Seq<ExprView>, m: nat, n: nat)
    requires
        m <= n,
        types_all(exprs, m) is Err,
    ensures
        types_all(exprs, n) == types_all(exprs, m),
    decreases n - m,
{
    if m < n {
        lemma_types_error(exprs, m, (n - 1) as nat);
    }
}

proof fn lemma_keys_error(exprs: Seq<SortExprView>, m: nat, n: nat)
    requires
        m <= n,
        physical_keys(exprs, m) is Err,
    ensures
        physical_keys(exprs, n) == physical_keys(exprs, m),
    decreases n - m,
{
    if m < n {
        lemma_keys_error(exprs, m, (n - 1) as nat);
    }
}

proof fn lemma_pairs_error(on: Seq<(ExprView, ExprView)>, m: nat, n: nat)
    requires
        m <= n,
        physical_pairs(on, m) is Err,
    ensures
        physical_pairs(on, n) == physical_pairs(on, m),
    decreases n - m,
{
    if m < n {
        lemma_pairs_error(on, m, (n - 1) as nat);
    }
}

proof fn lemma_arguments_error(aggs: Seq<AggregateView>, m: nat, n: nat)
    requires
        m <= n,
        physical_arguments(aggs, m) is Err,
    ensures
        physical_arguments(aggs, n) == physical_arguments(aggs, m),
    decreases n - m,
{
    if m < n {
        lemma_arguments_error(aggs, m, (n - 1) as nat);
    }
}

/// A value that is not null as a scalar; a null takes the type given.
pub fn value_to_scalar(value: &Value, data_type: DataType) -> (r: ScalarValue)
    ensures
        r@ == value@,
        r.spec_data_type() == (match value@.data_type() {
            Some(t) => t,
            None => data_type,
        }),
{
    match value {
        Value::Null => match data_type {
            DataType::Int64 => ScalarValue::Int64(None),
            DataType::Float64 => ScalarValue::Float64(None),
            DataType::Utf8 => ScalarValue::Utf8(None),
            DataType::Boolean => ScalarValue::Boolean(None),
        },
        Value::Int64(v) => ScalarValue::Int64(Some(*v)),
        Value::Float64(v) => ScalarValue::Float64(Some(*v)),
        Value::Utf8(v) => ScalarValue::Utf8(Some(v.clone())),
        Value::Boolean(v) => ScalarValue::Boolean(Some(*v)),
    }
}

pub struct PhysicalPlanner;

impl PhysicalPlanner {
    /// The operators of a logical plan.
    ///
    /// # Errors
    /// An internal error for a table that is not in memory, and for a join
    /// with neither keys nor a condition, or with a condition alone that is
    /// not an inner join; a type error for an expression without a type.
    pub fn create_physical_plan(&self, logical: &LogicalPlan) -> (r: Result<
        ExecutionPlanRef,
        BasaltError,
    >)
        ensures
            match r {
                Ok(p) => exec_of(logical@) == Ok::<ExecView, ErrorKind>(p@),
                Err(e) => exec_of(logical@) == Err::<ExecView, ErrorKind>(e@),
            },
        decreases logical,
    {
        match logical {
            LogicalPlan::TableScan { table_name, source, projection, filters, schema } => {
                match source {
                    TableSource::Memory(m) => {
                        let batches = copy_batches(m.batches());
                        Ok(
                            Arc::new(
                                ExecutionPlan::MemoryScan(
                                    MemoryScanExec::new(share(schema), batches),
                                ),
                            ),
                        )
                    },
                    TableSource::External(s) => Err(
                        BasaltError::internal("only tables in memory can be scanned here"),
                    ),
                }
            },
            LogicalPlan::EmptyRelation { schema } => {
                let batches: Vec<crate::batch::ColumnarBatch> = Vec::new();
                assert(batch_views(batches@) =~= seq![]);
                Ok(
                    Arc::new(
                        ExecutionPlan::MemoryScan(MemoryScanExec::new(share(schema), batches)),
                    ),
                )
            },
            LogicalPlan::Filter { input, predicate } => {
                let child = match self.create_physical_plan(input) {
                    Ok(c) => c,
                    Err(e) => {
                        return Err(e);
                    },
                };
                match self.create_physical_expr(predicate) {
                    Ok(x) => Ok(Arc::new(ExecutionPlan::Filter(FilterExec::new(child, x)))),
                    Err(e) => Err(e),
                }
            },
            LogicalPlan::Projection { input, exprs, schema } => {
                let child = match self.create_physical_plan(input) {
                    Ok(c) => c,
                    Err(e) => {
                        return Err(e);
                    },
                };
                match self.physical_exprs(exprs) {
                    Ok(x) => Ok(
                        Arc::new(
                            ExecutionPlan::Projection(
                                ProjectionExec::new(child, x, share(schema)),
                            ),
                        ),
                    ),
                    Err(e) => Err(e),
                }
            },
            LogicalPlan::Limit { input, skip, fetch } => {
                if *skip == 0 {
                    if let Some(k) = fetch {
                        if let LogicalPlan::Sort { input: sort_input, exprs } = &**input {
                            assert(input@ == (PlanView::Sort {
                                input: Box::new(sort_input@),
                                exprs: sort_expr_views(exprs@),
                            }));
                            let child = match self.create_physical_plan(sort_input) {
                                Ok(c) => c,
                                Err(e) => {
                                    return Err(e);
                                },
                            };
                            return match self.physical_sort_exprs(exprs) {
                                Ok(keys) => {
                                    let node = TopKExec::new(child, keys, *k);
                                    Ok(Arc::new(ExecutionPlan::TopK(node)))
                                },
                                Err(e) => Err(e),
                            };
                        }
                    }
                }
                match self.create_physical_plan(input) {
                    Ok(child) => Ok(
                        Arc::new(ExecutionPlan::Limit(LimitExec::new(child, *skip, *fetch))),
                    ),
                    Err(e) => Err(e),
                }
            },
            LogicalPlan::Sort { input, exprs } => {
                let child = match self.create_physical_plan(input) {
                    Ok(c) => c,
                    Err(e) => {
                        return Err(e);
                    },
                };
                match self.physical_sort_exprs(exprs) {
                    Ok(keys) => {
                        let node = SortExec::new(child, keys);
                        Ok(Arc::new(ExecutionPlan::Sort(node)))
                    },
                    Err(e) => Err(e),
                }
            },
            LogicalPlan::Aggregate { input, group_expr, aggr_expr, schema } => {
                let child = match self.create_physical_plan(input) {
                    Ok(c) => c,
                    Err(e) => {
                        return Err(e);
                    },
                };
                let groups = match self.physical_exprs(group_expr) {
                    Ok(v) => v,
                    Err(e) => {
                        return Err(e);
                    },
                };
                let types = match expr_types(group_expr) {
                    Ok(v) => v,
                    Err(e) => {
                        return Err(e);
                    },
                };
                let ghost av = aggregate_views(aggr_expr@);
                let mut args: Vec<Option<PhysicalExprRef>> = Vec::new();
                let mut arg_types: Vec<DataType> = Vec::new();
                let mut kinds: Vec<AggregateKind> = Vec::new();
                let ghost mut done: Seq<(Option<PhysicalExprView>, DataType)> = seq![];
                let mut i: usize = 0;
                while i < aggr_expr.len()
                    invariant
                        i <= aggr_expr@.len(),
                        av == aggregate_views(aggr_expr@),
                        args@.len() == i,
                        arg_types@.len() == i,
                        kinds@.len() == i,
                        done.len() == i,
                        physical_arguments(av, i as nat) == Ok::<
                            Seq<(Option<PhysicalExprView>, DataType)>,
                            ErrorKind,
                        >(done),
                        forall|k: int|
                            0 <= k < i ==> optional_expr(#[trigger] args@[k]) == done[k].0,
                        forall|k: int| 0 <= k < i ==> (#[trigger] arg_types@[k]) == done[k].1,
                        forall|k: int| 0 <= k < i ==> (#[trigger] kinds@[k]) == av[k].kind,
                        exec_of(logical@) == aggregate_exec(logical@, child@),
                        logical@ matches PlanView::Aggregate { group_expr: g, aggr_expr: a, .. }
                            && a == av && physical_all(g, g.len()) == Ok::<
                            Seq<PhysicalExprView>,
                            ErrorKind,
                        >(expr_list(groups@)) && types_all(g, g.len()) == Ok::<
                            Seq<DataType>,
                            ErrorKind,
                        >(types@),
                    decreases aggr_expr@.len() - i,
                {
                    let agg = &aggr_expr[i];
                    assert(av[i as int] == agg@);
                    match &agg.arg {
                        None => {
                            args.push(None);
                            arg_types.push(DataType::Int64);
                            proof {
                                done = done.push((None, DataType::Int64));
                            }
                        },
                        Some(e) => {
                            let x = match self.create_physical_expr(e) {
                                Ok(x) => x,
                                Err(k) => {
                                    proof {
                                        lemma_arguments_error(av, (i + 1) as nat, av.len());
                                    }
                                    return Err(k);
                                },
                            };
                            let t = match e.data_type() {
                                Ok(t) => t,
                                Err(k) => {
                                    proof {
                                        lemma_arguments_error(av, (i + 1) as nat, av.len());
                                    }
                                    return Err(k);
                                },
                            };
                            proof {
                                done = done.push((Some(x@), t));
                            }
                            args.push(Some(x));
                            arg_types.push(t);
                        },
                    }
                    kinds.push(agg.kind);
                    i = i + 1;
                }
                let node = AggregateExec::new(
                    child,
                    groups,
                    types,
                    args,
                    kinds,
                    arg_types,
                    share(schema),
                );
                proof {
                    assert(node.arg_views() =~= Seq::new(done.len(), |i: int| done[i].0));
                    assert(node.agg_arg_types@ =~= Seq::new(done.len(), |i: int| done[i].1));
                    assert(node.agg_kinds@ =~= Seq::new(av.len(), |i: int| av[i].kind));
                }
                Ok(Arc::new(ExecutionPlan::Aggregate(node)))
            },
            LogicalPlan::Join { left, right, on, filter, join_type, schema } => {
                let build = match self.create_physical_plan(left) {
                    Ok(c) => c,
                    Err(e) => {
                        return Err(e);
                    },
                };
                let probe = match self.create_physical_plan(right) {
                    Ok(c) => c,
                    Err(e) => {
                        return Err(e);
                    },
                };
                if on.len() > 0 {
                    let keys = match self.physical_key_pairs(on) {
                        Ok(v) => v,
                        Err(e) => {
                            return Err(e);
                        },
                    };
                    let residual = match filter {
                        None => None,
                        Some(f) => match self.create_physical_expr(f) {
                            Ok(x) => Some(x),
                            Err(e) => {
                                return Err(e);
                            },
                        },
                    };
                    let node = HashJoinExec::with_filter(
                        build,
                        probe,
                        keys,
                        residual,
                        type_of_operator(*join_type),
                        share(schema),
                    );
                    assert(node.on_views() =~= key_pair_views(keys@));
                    return Ok(Arc::new(ExecutionPlan::HashJoin(node)));
                }
                match filter {
                    None => Err(
                        BasaltError::internal(
                            "a join requires either equi-join keys or a filter predicate",
                        ),
                    ),
                    Some(f) => {
                        if *join_type != JoinType::Inner {
                            return Err(
                                BasaltError::internal(
                                    "a join without equal keys can only be an inner join",
                                ),
                            );
                        }
                        match self.create_physical_expr(f) {
                            Ok(x) => Ok(
                                Arc::new(
                                    ExecutionPlan::NestedLoopJoin(
                                        NestedLoopJoinExec::new(build, probe, x, share(schema)),
                                    ),
                                ),
                            ),
                            Err(e) => Err(e),
                        }
                    },
                }
            },
        }
    }

    fn physical_exprs(&self, exprs: &Vec<Expr>) -> (r: Result<Vec<PhysicalExprRef>, BasaltError>)
        ensures
            match r {
                Ok(v) => physical_all(expr_views(exprs@), exprs@.len()) == Ok::<
                    Seq<PhysicalExprView>,
                    ErrorKind,
                >(expr_list(v@)),
                Err(e) => physical_all(expr_views(exprs@), exprs@.len()) == Err::<
                    Seq<PhysicalExprView>,
                    ErrorKind,
                >(e@),
            },
    {
        let ghost ev = expr_views(exprs@);
        let mut out: Vec<PhysicalExprRef> = Vec::new();
        let mut i: usize = 0;
        assert(expr_list(out@) =~= seq![]);
        while i < exprs.len()
            invariant
                i <= exprs@.len(),
                ev == expr_views(exprs@),
                physical_all(ev, i as nat) == Ok::<Seq<PhysicalExprView>, ErrorKind>(
                    expr_list(out@),
                ),
            decreases exprs@.len() - i,
        {
            assert(ev[i as int] == exprs@[i as int]@);
            match self.create_physical_expr(&exprs[i]) {
                Ok(x) => {
                    let ghost was = expr_list(out@);
                    out.push(x);
                    assert(expr_list(out@) =~= was.push(x@));
                },
                Err(e) => {
                    proof {
                        lemma_all_error(ev, (i + 1) as nat, ev.len());
                    }
                    return Err(e);
                },
            }
            i = i + 1;
        }
        Ok(out)
    }

    fn physical_key_pairs(&self, on: &Vec<(Expr, Expr)>) -> (r: Result<
        Vec<(PhysicalExprRef, PhysicalExprRef)>,
        BasaltError,
    >)
        ensures
            match r {
                Ok(v) => physical_pairs(pair_views(on@), on@.len()) == Ok::<
                    Seq<(PhysicalExprView, PhysicalExprView)>,
                    ErrorKind,
                >(key_pair_views(v@)),
                Err(e) => physical_pairs(pair_views(on@), on@.len()) == Err::<
                    Seq<(PhysicalExprView, PhysicalExprView)>,
                    ErrorKind,
                >(e@),
            },
    {
        let ghost pv = pair_views(on@);
        let mut out: Vec<(PhysicalExprRef, PhysicalExprRef)> = Vec::new();
        let mut i: usize = 0;
        assert(key_pair_views(out@) =~= seq![]);
        while i < on.len()
            invariant
                i <= on@.len(),
                pv == pair_views(on@),
                physical_pairs(pv, i as nat) == Ok::<
                    Seq<(PhysicalExprView, PhysicalExprView)>,
                    ErrorKind,
                >(key_pair_views(out@)),
            decreases on@.len() - i,
        {
            assert(pv[i as int] == (on@[i as int].0@, on@[i as int].1@));
            let l = match self.create_physical_expr(&on[i].0) {
                Ok(x) => x,
                Err(e) => {
                    proof {
                        lemma_pairs_error(pv, (i + 1) as nat, pv.len());
                    }
                    return Err(e);
                },
            };
            let r = match self.create_physical_expr(&on[i].1) {
                Ok(x) => x,
                Err(e) => {
                    proof {
                        lemma_pairs_error(pv, (i + 1) as nat, pv.len());
                    }
                    return Err(e);
                },
            };
            let ghost was = key_pair_views(out@);
            out.push((l, r));
            assert(key_pair_views(out@) =~= was.push((l@, r@)));
            i = i + 1;
        }
        Ok(out)
    }

    fn physical_sort_exprs(&self, exprs: &Vec<SortExpr>) -> (r: Result<
        Vec<PhysicalSortExpr>,
        BasaltError,
    >)
        ensures
            match r {
                Ok(v) => physical_keys(sort_expr_views(exprs@), exprs@.len()) == Ok::<
                    Seq<SortKeyView>,
                    ErrorKind,
                >(Seq::new(v@.len(), |i: int| v@[i]@)),
                Err(e) => physical_keys(sort_expr_views(exprs@), exprs@.len()) == Err::<
                    Seq<SortKeyView>,
                    ErrorKind,
                >(e@),
            },
    {
        let ghost ev = sort_expr_views(exprs@);
        let mut out: Vec<PhysicalSortExpr> = Vec::new();
        let mut i: usize = 0;
        let ghost mut done: Seq<SortKeyView> = seq![];
        assert(Seq::new(out@.len(), |i: int| out@[i]@) =~= seq![]);
        while i < exprs.len()
            invariant
                i <= exprs@.len(),
                ev == sort_expr_views(exprs@),
                physical_keys(ev, i as nat) == Ok::<Seq<SortKeyView>, ErrorKind>(done),
                done == Seq::new(out@.len(), |i: int| out@[i]@),
            decreases exprs@.len() - i,
        {
            assert(ev[i as int] == exprs@[i as int]@);
            match self.create_physical_expr(&exprs[i].expr) {
                Ok(x) => {
                    let key = PhysicalSortExpr { expr: x, options: exprs[i].options };
                    proof {
                        done = done.push(key@);
                    }
                    out.push(key);
                    assert(done =~= Seq::new(out@.len(), |i: int| out@[i]@));
                },
                Err(e) => {
                    proof {
                        lemma_keys_error(ev, (i + 1) as nat, ev.len());
                    }
                    return Err(e);
                },
            }
            i = i + 1;
        }
        Ok(out)
    }

    /// The operator form of an expression.
    ///
    /// # Errors
    /// A type error for a null literal, which has no type unless it is cast to
    /// one.
    pub fn create_physical_expr(&self, expr: &Expr) -> (r: Result<PhysicalExprRef, BasaltError>)
        ensures
            match r {
                Ok(x) => physical_of(expr@) == Ok::<PhysicalExprView, ErrorKind>(x@),
                Err(e) => physical_of(expr@) == Err::<PhysicalExprView, ErrorKind>(e@),
            },
        decreases expr,
    {
        match expr {
            Expr::Column { index, data_type, nullable } => Ok(
                Arc::new(PhysicalExpr::Column(ColumnExpr::new(*index))),
            ),
            Expr::Literal(value) => match expr.data_type() {
                Err(e) => Err(e),
                Ok(t) => Ok(
                    Arc::new(PhysicalExpr::Literal(LiteralExpr::new(value_to_scalar(value, t)))),
                ),
            },
            Expr::Binary { left, op, right } => {
                let l = match self.create_physical_expr(left) {
                    Ok(x) => x,
                    Err(e) => {
                        return Err(e);
                    },
                };
                match self.create_physical_expr(right) {
                    Ok(r) => Ok(Arc::new(PhysicalExpr::Binary(BinaryExpr::new(l, *op, r)))),
                    Err(e) => Err(e),
                }
            },
            Expr::Unary { op, expr: inner } => match self.create_physical_expr(inner) {
                Err(e) => Err(e),
                Ok(x) => match op {
                    UnaryOp::Neg => Ok(Arc::new(PhysicalExpr::Neg(NegExpr::new(x)))),
                    UnaryOp::Not => Ok(Arc::new(PhysicalExpr::Not(NotExpr::new(x)))),
                },
            },
            Expr::Cast { expr: inner, to } => {
                if let Expr::Literal(Value::Null) = &**inner {
                    let null = value_to_scalar(&Value::Null, *to);
                    let x: PhysicalExprRef = Arc::new(PhysicalExpr::Literal(LiteralExpr::new(null)));
                    assert(inner@ == ExprView::Literal(ValueView::Null));
                    assert(x@ == PhysicalExprView::Literal(*to, ValueView::Null));
                    return Ok(Arc::new(PhysicalExpr::Cast(CastExpr::new(x, *to))));
                }
                match self.create_physical_expr(inner) {
                    Err(e) => Err(e),
                    Ok(x) => Ok(Arc::new(PhysicalExpr::Cast(CastExpr::new(x, *to)))),
                }
            },
            Expr::IsNull(inner) => match self.create_physical_expr(inner) {
                Err(e) => Err(e),
                Ok(x) => Ok(Arc::new(PhysicalExpr::IsNull(IsNullExpr::new(x, false)))),
            },
            Expr::IsNotNull(inner) => match self.create_physical_expr(inner) {
                Err(e) => Err(e),
                Ok(x) => Ok(Arc::new(PhysicalExpr::IsNull(IsNullExpr::new(x, true)))),
            },
        }
    }
}

/// The models of key pairs.
pub open spec fn key_pair_views(v: Seq<(PhysicalExprRef, PhysicalExprRef)>) -> Seq<
    (PhysicalExprView, PhysicalExprView),
> {
    Seq::new(v.len(), |i: int| (v[i].0@, v[i].1@))
}

/// The types of expressions.
fn expr_types(exprs: &Vec<Expr>) -> (r: Result<Vec<DataType>, BasaltError>)
    ensures
        match r {
            Ok(v) => types_all(expr_views(exprs@), exprs@.len()) == Ok::<
                Seq<DataType>,
                ErrorKind,
            >(v@),
            Err(e) => types_all(expr_views(exprs@), exprs@.len()) == Err::<
                Seq<DataType>,
                ErrorKind,
            >(e@),
        },
{
    let ghost ev = expr_views(exprs@);
    let mut out: Vec<DataType> = Vec::new();
    let mut i: usize = 0;
    while i < exprs.len()
        invariant
            i <= exprs@.len(),
            ev == expr_views(exprs@),
            types_all(ev, i as nat) == Ok::<Seq<DataType>, ErrorKind>(out@),
        decreases exprs@.len() - i,
    {
        assert(ev[i as int] == exprs@[i as int]@);
        match exprs[i].data_type() {
            Ok(t) => {
                out.push(t);
            },
            Err(e) => {
                proof {
                    lemma_types_error(ev, (i + 1) as nat, ev.len());
                }
                return Err(e);
            },
        }
        i = i + 1;
    }
    Ok(out)
}

} // verus!
