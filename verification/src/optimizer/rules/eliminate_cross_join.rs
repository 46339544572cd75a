//! A filter over a join without a condition becomes the join's condition:
//! equalities between a column of each side become its keys, and the rest its
//! residual predicate. `FROM a, b WHERE a.id = b.id` comes in this shape.

use vstd::prelude::*;

use crate::array::share;
use crate::error::{BasaltError, ErrorKind};
use crate::expr::expr::{expr_views, Expr, ExprView};
use crate::logical_plan::plan::{pair_views, plan_schema, JoinType, LogicalPlan, PlanView};
use crate::optimizer::rule::{ApplyOrder, Knowledge, OptimizerContext, OptimizerRule};
use crate::optimizer::rules::common::{
    conjunction, conjuncts, equi_pair, flatten_conjuncts, rebuild_conjuncts,
    split_equi_join_conjunct,
};
use crate::optimizer::tree_node::{Rewritten, Transformed};

verus! {

/// The key pairs among the first `n` operands.
pub open spec fn promoted(s: Seq<ExprView>, left_width: int, n: nat) -> Seq<(ExprView, ExprView)>
    decreases n,
{
    if n == 0 {
        seq![]
    } else {
        let before = promoted(s, left_width, (n - 1) as nat);
        match equi_pair(s[n - 1], left_width) {
            Some(pair) => before.push(pair),
            None => before,
        }
    }
}

/// The operands among the first `n` that are no key pairs.
pub open spec fn leftover(s: Seq<ExprView>, left_width: int, n: nat) -> Seq<ExprView>
    decreases n,
{
    if n == 0 {
        seq![]
    } else {
        let before = leftover(s, left_width, (n - 1) as nat);
        match equi_pair(s[n - 1], left_width) {
            Some(pair) => before,
            None => before.push(s[n - 1]),
        }
    }
}

/// The conjunction of operands; `None` without any.
pub open spec fn conjunction_of(s: Seq<ExprView>) -> Option<ExprView> {
    if s.len() == 0 {
        None
    } else {
        Some(conjunction(s))
    }
}

/// A filtered cross join as an inner join.
pub open spec fn without_cross_join(p: PlanView) -> Rewritten<PlanView> {
    match p {
        PlanView::Filter { input, predicate } => match *input {
            PlanView::Join { left, right, on, filter, join_type, schema } => {
                let s = conjuncts(predicate);
                let width = plan_schema(*left).len() as int;
                if join_type != JoinType::Inner || on.len() > 0 || filter is Some || promoted(
                    s,
                    width,
                    s.len(),
                ).len() == 0 {
                    Rewritten { changed: false, node: p }
                } else {
                    Rewritten {
                        changed: true,
                        node: PlanView::Join {
                            left,
                            right,
                            on: promoted(s, width, s.len()),
                            filter: conjunction_of(leftover(s, width, s.len())),
                            join_type: JoinType::Inner,
                            schema,
                        },
                    }
                }
            },
            _ => Rewritten { changed: false, node: p },
        },
        _ => Rewritten { changed: false, node: p },
    }
}

#[derive(Debug)]
pub struct EliminateCrossJoin;

impl OptimizerRule for EliminateCrossJoin {
    open spec fn rewrite(&self, known: Knowledge, plan: PlanView) -> Result<
        Rewritten<PlanView>,
        ErrorKind,
    > {
        Ok(without_cross_join(plan))
    }

    open spec fn title(&self) -> Seq<char> {
        "eliminate_cross_join"@
    }

    open spec fn order(&self) -> ApplyOrder {
        ApplyOrder::BottomUp
    }

    open spec fn measure(&self, plan: PlanView) -> nat {
        0
    }

    proof fn ends(&self, known: Knowledge) {
    }

    fn name(&self) -> (r: &str) {
        "eliminate_cross_join"
    }

    fn apply<C: OptimizerContext>(&self, plan: LogicalPlan, ctx: &C) -> (r: Result<
        Transformed<LogicalPlan>,
        BasaltError,
    >) {
        match &plan {
            LogicalPlan::Filter { input, predicate } => match &**input {
                LogicalPlan::Join { left, right, on, filter, join_type, schema } => {
                    assert(input@ == (PlanView::Join {
                        left: Box::new(left@),
                        right: Box::new(right@),
                        on: pair_views(on@),
                        filter: crate::logical_plan::plan::option_view(*filter),
                        join_type: *join_type,
                        schema: schema@,
                    }));
                    if *join_type != JoinType::Inner || on.len() > 0 || filter.is_some() {
                        return Ok(Transformed::No(plan));
                    }
                    let left_width: usize = left.schema().len();
                    match promote(predicate, left_width) {
                        None => Ok(Transformed::No(plan)),
                        Some((on, filter)) => Ok(
                            Transformed::Yes(
                                LogicalPlan::Join {
                                    left: share(left),
                                    right: share(right),
                                    on,
                                    filter,
                                    join_type: JoinType::Inner,
                                    schema: share(schema),
                                },
                            ),
                        ),
                    }
                },
                _ => Ok(Transformed::No(plan)),
            },
            _ => Ok(Transformed::No(plan)),
        }
    }

    fn apply_order(&self) -> (r: ApplyOrder) {
        ApplyOrder::BottomUp
    }
}

/// The key pairs of a predicate and what is left of it; `None` without pairs.
fn promote(predicate: &Expr, left_width: usize) -> (r: Option<(Vec<(Expr, Expr)>, Option<Expr>)>)
    ensures
        ({
            let s = conjuncts(predicate@);
            match r {
                Some((on, rest)) => {
                    &&& promoted(s, left_width as int, s.len()).len() > 0
                    &&& pair_views(on@) == promoted(s, left_width as int, s.len())
                    &&& crate::logical_plan::plan::option_view(rest) == conjunction_of(
                        leftover(s, left_width as int, s.len()),
                    )
                },
                None => promoted(s, left_width as int, s.len()).len() == 0,
            }
        }),
{
    let list = flatten_conjuncts(predicate.copy());
    let ghost s = conjuncts(predicate@);
    let mut on: Vec<(Expr, Expr)> = Vec::new();
    let mut rest: Vec<Expr> = Vec::new();
    let mut i: usize = 0;
    proof {
        assert(pair_views(on@) =~= seq![]);
        assert(expr_views(rest@) =~= seq![]);
    }
    while i < list.len()
        invariant
            i <= list@.len(),
            expr_views(list@) == s,
            pair_views(on@) == promoted(s, left_width as int, i as nat),
            expr_views(rest@) == leftover(s, left_width as int, i as nat),
        decreases list@.len() - i,
    {
        assert(s[i as int] == list@[i as int]@);
        match split_equi_join_conjunct(&list[i], left_width) {
            Some((l, k)) => {
                let ghost was = pair_views(on@);
                on.push((l, k));
                assert(pair_views(on@) =~= was.push((l@, k@)));
            },
            None => {
                let ghost was = expr_views(rest@);
                rest.push(list[i].copy());
                assert(expr_views(rest@) =~= was.push(s[i as int]));
            },
        }
        i = i + 1;
    }
    assert(s.len() == list@.len());
    assert(pair_views(on@).len() == on@.len());
    if on.len() == 0 {
        return None;
    }
    assert(expr_views(rest@).len() == rest@.len());
    let filter = if rest.len() == 0 {
        None
    } else {
        Some(rebuild_conjuncts(rest))
    };
    Some((on, filter))
}

} // verus!
