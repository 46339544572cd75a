//! A limit moves below a projection, which keeps the number of rows. It moves
//! below nothing else: a filter, a join or an aggregation changes how many rows
//! have to be read.

use std::sync::Arc;
use vstd::prelude::*;

use crate::array::share;
use crate::error::{BasaltError, ErrorKind};
use crate::expr::expr::copy_exprs;
use crate::logical_plan::plan::{LogicalPlan, PlanView};
use crate::optimizer::rule::{ApplyOrder, Knowledge, OptimizerContext, OptimizerRule};
use crate::optimizer::tree_node::{Rewritten, Transformed};

verus! {

/// A limit over a projection, the other way round.
pub open spec fn limit_below(p: PlanView) -> Rewritten<PlanView> {
    match p {
        PlanView::Limit { input, skip, fetch } => match *input {
            PlanView::Projection { input: innermost, exprs, schema } => Rewritten {
                changed: true,
                node: PlanView::Projection {
                    input: Box::new(PlanView::Limit { input: innermost, skip, fetch }),
                    exprs,
                    schema,
                },
            },
            _ => Rewritten { changed: false, node: p },
        },
        _ => Rewritten { changed: false, node: p },
    }
}

#[derive(Debug)]
pub struct LimitPushdown;

impl OptimizerRule for LimitPushdown {
    open spec fn rewrite(&self, known: Knowledge, plan: PlanView) -> Result<
        Rewritten<PlanView>,
        ErrorKind,
    > {
        Ok(limit_below(plan))
    }

    open spec fn title(&self) -> Seq<char> {
        "limit_pushdown"@
    }

    open spec fn order(&self) -> ApplyOrder {
        ApplyOrder::BottomUp
    }

    open spec fn measure(&self, plan: PlanView) -> nat {
        0
    }

    proof fn ends(&self, known: Knowledge) {
    }

    fn name(&self) -> (r: &str) {
        "limit_pushdown"
    }

    fn apply<C: OptimizerContext>(&self, plan: LogicalPlan, ctx: &C) -> (r: Result<
        Transformed<LogicalPlan>,
        BasaltError,
    >) {
        match &plan {
            LogicalPlan::Limit { input, skip, fetch } => match &**input {
                LogicalPlan::Projection { input: innermost, exprs, schema } => {
                    assert(input@ == (PlanView::Projection {
                        input: Box::new(innermost@),
                        exprs: crate::expr::expr::expr_views(exprs@),
                        schema: schema@,
                    }));
                    let below = LogicalPlan::Limit {
                        input: share(innermost),
                        skip: *skip,
                        fetch: *fetch,
                    };
                    assert(below@ == (PlanView::Limit {
                        input: Box::new(innermost@),
                        skip: *skip,
                        fetch: *fetch,
                    }));
                    Ok(
                        Transformed::Yes(
                            LogicalPlan::Projection {
                                input: Arc::new(below),
                                exprs: copy_exprs(exprs),
                                schema: share(schema),
                            },
                        ),
                    )
                },
                _ => Ok(Transformed::No(plan)),
            },
            _ => Ok(Transformed::No(plan)),
        }
    }

    fn apply_order(&self) -> (r: ApplyOrder) {
        ApplyOrder::BottomUp
    }
}

} // verus!
