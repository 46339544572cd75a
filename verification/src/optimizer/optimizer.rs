//! The standard rules, in their order: constants are folded and expressions
//! simplified before filters move, and cross joins become joins before filters
//! see them.

use std::sync::Arc;
use vstd::prelude::*;

use crate::error::{BasaltError, ErrorKind};
use crate::logical_plan::plan::{LogicalPlan, PlanView};
use crate::optimizer::rule::{ApplyOrder, Knowledge, Optimizer, OptimizerContext, OptimizerRule};
use crate::optimizer::rules::common_subexpr::CommonSubexprEliminate;
use crate::optimizer::rules::constant_folding::ConstantFolding;
use crate::optimizer::rules::eliminate_cross_join::EliminateCrossJoin;
use crate::optimizer::rules::eliminate_filter::EliminateFilter;
use crate::optimizer::rules::limit_pushdown::LimitPushdown;
use crate::optimizer::rules::merge_filters::MergeFilters;
use crate::optimizer::rules::predicate_pushdown::PredicatePushdown;
use crate::optimizer::rules::projection_pushdown::ProjectionPushdown;
use crate::optimizer::rules::simplify_expressions::SimplifyExpressions;
use crate::optimizer::tree_node::{Rewritten, Transformed};

verus! {

/// One of the standard rules.
#[derive(Debug)]
pub enum StandardRule {
    ConstantFolding(ConstantFolding),
    SimplifyExpressions(SimplifyExpressions),
    EliminateCrossJoin(EliminateCrossJoin),
    MergeFilters(MergeFilters),
    EliminateFilter(EliminateFilter),
    CommonSubexprEliminate(CommonSubexprEliminate),
    PredicatePushdown(PredicatePushdown),
    ProjectionPushdown(ProjectionPushdown),
    LimitPushdown(LimitPushdown),
}

impl OptimizerRule for StandardRule {
    open spec fn rewrite(&self, known: Knowledge, plan: PlanView) -> Result<
        Rewritten<PlanView>,
        ErrorKind,
    > {
        match self {
            StandardRule::ConstantFolding(r) => r.rewrite(known, plan),
            StandardRule::SimplifyExpressions(r) => r.rewrite(known, plan),
            StandardRule::EliminateCrossJoin(r) => r.rewrite(known, plan),
            StandardRule::MergeFilters(r) => r.rewrite(known, plan),
            StandardRule::EliminateFilter(r) => r.rewrite(known, plan),
            StandardRule::CommonSubexprEliminate(r) => r.rewrite(known, plan),
            StandardRule::PredicatePushdown(r) => r.rewrite(known, plan),
            StandardRule::ProjectionPushdown(r) => r.rewrite(known, plan),
            StandardRule::LimitPushdown(r) => r.rewrite(known, plan),
        }
    }

    open spec fn title(&self) -> Seq<char> {
        match self {
            StandardRule::ConstantFolding(r) => r.title(),
            StandardRule::SimplifyExpressions(r) => r.title(),
            StandardRule::EliminateCrossJoin(r) => r.title(),
            StandardRule::MergeFilters(r) => r.title(),
            StandardRule::EliminateFilter(r) => r.title(),
            StandardRule::CommonSubexprEliminate(r) => r.title(),
            StandardRule::PredicatePushdown(r) => r.title(),
            StandardRule::ProjectionPushdown(r) => r.title(),
            StandardRule::LimitPushdown(r) => r.title(),
        }
    }

    open spec fn order(&self) -> ApplyOrder {
        match self {
            StandardRule::ConstantFolding(r) => r.order(),
            StandardRule::SimplifyExpressions(r) => r.order(),
            StandardRule::EliminateCrossJoin(r) => r.order(),
            StandardRule::MergeFilters(r) => r.order(),
            StandardRule::EliminateFilter(r) => r.order(),
            StandardRule::CommonSubexprEliminate(r) => r.order(),
            StandardRule::PredicatePushdown(r) => r.order(),
            StandardRule::ProjectionPushdown(r) => r.order(),
            StandardRule::LimitPushdown(r) => r.order(),
        }
    }

    open spec fn measure(&self, plan: PlanView) -> nat {
        match self {
            StandardRule::ProjectionPushdown(r) => r.measure(plan),
            _ => 0,
        }
    }

    proof fn ends(&self, known: Knowledge) {
        match self {
            StandardRule::ProjectionPushdown(r) => {
                r.ends(known);
                assert((|p: PlanView| self.rewrite(known, p)) =~= (|p: PlanView|
                    r.rewrite(known, p)));
                assert((|p: PlanView| self.measure(p)) =~= (|p: PlanView| r.measure(p)));
            },
            _ => {},
        }
    }

    fn name(&self) -> (r: &str) {
        match self {
            StandardRule::ConstantFolding(r) => r.name(),
            StandardRule::SimplifyExpressions(r) => r.name(),
            StandardRule::EliminateCrossJoin(r) => r.name(),
            StandardRule::MergeFilters(r) => r.name(),
            StandardRule::EliminateFilter(r) => r.name(),
            StandardRule::CommonSubexprEliminate(r) => r.name(),
            StandardRule::PredicatePushdown(r) => r.name(),
            StandardRule::ProjectionPushdown(r) => r.name(),
            StandardRule::LimitPushdown(r) => r.name(),
        }
    }

    fn apply<C: OptimizerContext>(&self, plan: LogicalPlan, ctx: &C) -> (r: Result<
        Transformed<LogicalPlan>,
        BasaltError,
    >) {
        match self {
            StandardRule::ConstantFolding(r) => r.apply(plan, ctx),
            StandardRule::SimplifyExpressions(r) => r.apply(plan, ctx),
            StandardRule::EliminateCrossJoin(r) => r.apply(plan, ctx),
            StandardRule::MergeFilters(r) => r.apply(plan, ctx),
            StandardRule::EliminateFilter(r) => r.apply(plan, ctx),
            StandardRule::CommonSubexprEliminate(r) => r.apply(plan, ctx),
            StandardRule::PredicatePushdown(r) => r.apply(plan, ctx),
            StandardRule::ProjectionPushdown(r) => r.apply(plan, ctx),
            StandardRule::LimitPushdown(r) => r.apply(plan, ctx),
        }
    }

    fn apply_order(&self) -> (r: ApplyOrder) {
        match self {
            StandardRule::ConstantFolding(r) => r.apply_order(),
            StandardRule::SimplifyExpressions(r) => r.apply_order(),
            StandardRule::EliminateCrossJoin(r) => r.apply_order(),
            StandardRule::MergeFilters(r) => r.apply_order(),
            StandardRule::EliminateFilter(r) => r.apply_order(),
            StandardRule::CommonSubexprEliminate(r) => r.apply_order(),
            StandardRule::PredicatePushdown(r) => r.apply_order(),
            StandardRule::ProjectionPushdown(r) => r.apply_order(),
            StandardRule::LimitPushdown(r) => r.apply_order(),
        }
    }
}

/// The standard rules, in their order.
pub open spec fn standard_rules() -> Seq<StandardRule> {
    seq![
        StandardRule::ConstantFolding(ConstantFolding),
        StandardRule::SimplifyExpressions(SimplifyExpressions),
        StandardRule::EliminateCrossJoin(EliminateCrossJoin),
        StandardRule::MergeFilters(MergeFilters),
        StandardRule::EliminateFilter(EliminateFilter),
        StandardRule::CommonSubexprEliminate(CommonSubexprEliminate),
        StandardRule::PredicatePushdown(PredicatePushdown),
        StandardRule::ProjectionPushdown(ProjectionPushdown),
        StandardRule::LimitPushdown(LimitPushdown),
    ]
}

/// The names of the standard rules, in their order.
pub open spec fn standard_names() -> Seq<Seq<char>> {
    seq![
        "constant_folding"@,
        "simplify_expressions"@,
        "eliminate_cross_join"@,
        "merge_filters"@,
        "eliminate_filter"@,
        "common_subexpression_elimination"@,
        "predicate_pushdown"@,
        "projection_pushdown"@,
        "limit_pushdown"@,
    ]
}

/// The optimizer with the standard rules.
pub fn default_optimizer() -> (r: Optimizer<StandardRule>)
    ensures
        r.rules@.len() == standard_rules().len(),
        forall|i: int| 0 <= i < r.rules@.len() ==> *(#[trigger] r.rules@[i]) == standard_rules()[i],
        forall|i: int|
            0 <= i < r.rules@.len() ==> (#[trigger] r.rules@[i]).title() == standard_names()[i],
        r.max_iterations == 10,
{
    let mut rules: Vec<Arc<StandardRule>> = Vec::new();
    rules.push(Arc::new(StandardRule::ConstantFolding(ConstantFolding)));
    rules.push(Arc::new(StandardRule::SimplifyExpressions(SimplifyExpressions)));
    rules.push(Arc::new(StandardRule::EliminateCrossJoin(EliminateCrossJoin)));
    rules.push(Arc::new(StandardRule::MergeFilters(MergeFilters)));
    rules.push(Arc::new(StandardRule::EliminateFilter(EliminateFilter)));
    rules.push(Arc::new(StandardRule::CommonSubexprEliminate(CommonSubexprEliminate)));
    rules.push(Arc::new(StandardRule::PredicatePushdown(PredicatePushdown)));
    rules.push(Arc::new(StandardRule::ProjectionPushdown(ProjectionPushdown)));
    rules.push(Arc::new(StandardRule::LimitPushdown(LimitPushdown)));
    Optimizer::new(rules)
}

} // verus!
