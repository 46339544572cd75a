//! Two filters on top of each other become one, whose predicate is the
//! conjunction of theirs, the inner first.

use vstd::prelude::*;

use crate::array::share;
use crate::error::{BasaltError, ErrorKind};
use crate::expr::expr::{binary, eval, Expr, ExprView};
use crate::logical_plan::plan::{LogicalPlan, PlanView};
use crate::optimizer::rule::{ApplyOrder, Knowledge, OptimizerContext, OptimizerRule};
use crate::optimizer::tree_node::{Rewritten, Transformed};
use crate::types::coercion::BinaryOp;

use crate::types::value::ValueView;

verus! {

/// A filter over a filter as one.
pub open spec fn merged(p: PlanView) -> Rewritten<PlanView> {
    match p {
        PlanView::Filter { input, predicate: outer } => match *input {
            PlanView::Filter { input: innermost, predicate: inner } => Rewritten {
                changed: true,
                node: PlanView::Filter {
                    input: innermost,
                    predicate: binary(inner, BinaryOp::And, outer),
                },
            },
            _ => Rewritten { changed: false, node: p },
        },
        _ => Rewritten { changed: false, node: p },
    }
}

/// A row passes the merged filter exactly when it passes both.
pub proof fn merged_filters_pass_the_same_rows(
    inner: ExprView,
    outer: ExprView,
    row: Seq<ValueView>,
)
    ensures
        eval(binary(inner, BinaryOp::And, outer), row) == Ok::<ValueView, ErrorKind>(
            ValueView::Boolean(true),
        ) <==> {
            &&& eval(inner, row) == Ok::<ValueView, ErrorKind>(ValueView::Boolean(true))
            &&& eval(outer, row) == Ok::<ValueView, ErrorKind>(ValueView::Boolean(true))
        },
{
    reveal_with_fuel(eval, 2);
}

#[derive(Debug)]
pub struct MergeFilters;

impl OptimizerRule for MergeFilters {
    open spec fn rewrite(&self, known: Knowledge, plan: PlanView) -> Result<
        Rewritten<PlanView>,
        ErrorKind,
    > {
        Ok(merged(plan))
    }

    open spec fn title(&self) -> Seq<char> {
        "merge_filters"@
    }

    open spec fn order(&self) -> ApplyOrder {
        ApplyOrder::BottomUp
    }

    open spec fn measure(&self, plan: PlanView) -> nat {
        0
    }

    proof fn ends(&self, known: Knowledge) {
    }

    fn name(&self) -> (r: &str) {
        "merge_filters"
    }

    fn apply<C: OptimizerContext>(&self, plan: LogicalPlan, ctx: &C) -> (r: Result<
        Transformed<LogicalPlan>,
        BasaltError,
    >) {
        match &plan {
            LogicalPlan::Filter { input, predicate: outer } => match &**input {
                LogicalPlan::Filter { input: innermost, predicate: inner } => {
                    assert(input@ == (PlanView::Filter {
                        input: Box::new(innermost@),
                        predicate: inner@,
                    }));
                    Ok(
                        Transformed::Yes(
                            LogicalPlan::Filter {
                                input: share(innermost),
                                predicate: Expr::Binary {
                                    left: Box::new(inner.copy()),
                                    op: BinaryOp::And,
                                    right: Box::new(outer.copy()),
                                },
                            },
                        ),
                    )
                },
                _ => Ok(Transformed::No(plan)),
            },
            _ => Ok(Transformed::No(plan)),
        }
    }

    fn apply_order(&self) -> (r: ApplyOrder) {
        ApplyOrder::BottomUp
    }
}

} // verus!
