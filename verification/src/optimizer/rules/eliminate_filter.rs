//! `WHERE true` drops the filter; `WHERE false` leaves no rows, under the same
//! schema.

use vstd::prelude::*;

use crate::array::share;
use crate::error::{BasaltError, ErrorKind};
use crate::expr::expr::{Expr, ExprView};
use crate::logical_plan::plan::{plan_schema, LogicalPlan, PlanView};
use crate::optimizer::rule::{ApplyOrder, Knowledge, OptimizerContext, OptimizerRule};
use crate::optimizer::tree_node::{Rewritten, Transformed};
use crate::types::value::{Value, ValueView};

verus! {

/// A node without a filter whose predicate is constant.
pub open spec fn without_constant_filter(p: PlanView) -> Rewritten<PlanView> {
    match p {
        PlanView::Filter { input, predicate } => match predicate {
            ExprView::Literal(ValueView::Boolean(true)) => Rewritten {
                changed: true,
                node: *input,
            },
            ExprView::Literal(ValueView::Boolean(false)) => Rewritten {
                changed: true,
                node: PlanView::EmptyRelation { schema: plan_schema(*input) },
            },
            _ => Rewritten { changed: false, node: p },
        },
        _ => Rewritten { changed: false, node: p },
    }
}

#[derive(Debug)]
pub struct EliminateFilter;

impl OptimizerRule for EliminateFilter {
    open spec fn rewrite(&self, known: Knowledge, plan: PlanView) -> Result<
        Rewritten<PlanView>,
        ErrorKind,
    > {
        Ok(without_constant_filter(plan))
    }

    open spec fn title(&self) -> Seq<char> {
        "eliminate_filter"@
    }

    open spec fn order(&self) -> ApplyOrder {
        ApplyOrder::BottomUp
    }

    open spec fn measure(&self, plan: PlanView) -> nat {
        0
    }

    proof fn ends(&self, known: Knowledge) {
    }

    fn name(&self) -> (r: &str) {
        "eliminate_filter"
    }

    fn apply<C: OptimizerContext>(&self, plan: LogicalPlan, ctx: &C) -> (r: Result<
        Transformed<LogicalPlan>,
        BasaltError,
    >) {
        match &plan {
            LogicalPlan::Filter { input, predicate } => match predicate {
                Expr::Literal(Value::Boolean(true)) => Ok(Transformed::Yes(input.copy())),
                Expr::Literal(Value::Boolean(false)) => Ok(
                    Transformed::Yes(LogicalPlan::EmptyRelation { schema: share(input.schema()) }),
                ),
                _ => Ok(Transformed::No(plan)),
            },
            _ => Ok(Transformed::No(plan)),
        }
    }

    fn apply_order(&self) -> (r: ApplyOrder) {
        ApplyOrder::BottomUp
    }
}

} // verus!
