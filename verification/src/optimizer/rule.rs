//! Rules and the pass manager that runs them to a fixed point.

use std::sync::Arc;
use vstd::prelude::*;

use crate::array::share;
use crate::error::{BasaltError, ErrorKind};
use crate::logical_plan::plan::{LogicalPlan, PlanView};
use crate::optimizer::tree_node::{
    bounds, descends, down, implements, outcome, up, Rewritten, Step, Transformed,
};
use crate::statistics::{TableStatistics, TableStatsView};

verus! {

/// Where in a plan a rule starts.
#[derive(Debug, Clone, Copy, PartialEq, Eq, Structural)]
pub enum ApplyOrder {
    BottomUp,
    TopDown,
}

/// What is known of the tables of a query. Without statistics a rule still has
/// to leave a correct plan.
pub trait OptimizerContext {
    spec fn known(&self, table_name: Seq<char>) -> Option<TableStatsView>;

    fn statistics_for(&self, table_name: &str) -> (r: Option<Arc<TableStatistics>>)
        ensures
            match r {
                Some(s) => self.known(table_name@) == Some(s@),
                None => self.known(table_name@) is None,
            },
    ;
}

/// No statistics at all.
pub struct NoStatistics;

impl OptimizerContext for NoStatistics {
    open spec fn known(&self, table_name: Seq<char>) -> Option<TableStatsView> {
        None
    }

    fn statistics_for(&self, table_name: &str) -> (r: Option<Arc<TableStatistics>>) {
        None
    }
}

/// Statistics held by table name; of two entries with one name the first
/// counts.
pub struct FixedStatistics {
    pub tables: Vec<(String, Arc<TableStatistics>)>,
}

/// The statistics of the first entry called `name`.
pub open spec fn first_entry(
    tables: Seq<(String, Arc<TableStatistics>)>,
    name: Seq<char>,
) -> Option<TableStatsView>
    decreases tables.len(),
{
    if tables.len() == 0 {
        None
    } else if tables[0].0@ == name {
        Some(tables[0].1@)
    } else {
        first_entry(tables.skip(1), name)
    }
}

impl OptimizerContext for FixedStatistics {
    open spec fn known(&self, table_name: Seq<char>) -> Option<TableStatsView> {
        first_entry(self.tables@, table_name)
    }

    fn statistics_for(&self, table_name: &str) -> (r: Option<Arc<TableStatistics>>) {
        let wanted = table_name.to_owned();
        let mut i: usize = 0;
        assert(self.tables@.skip(0) =~= self.tables@);
        while i < self.tables.len()
            invariant
                i <= self.tables@.len(),
                wanted@ == table_name@,
                first_entry(self.tables@.skip(i as int), table_name@) == first_entry(
                    self.tables@,
                    table_name@,
                ),
            decreases self.tables@.len() - i,
        {
            assert(self.tables@.skip(i as int).skip(1) =~= self.tables@.skip(i + 1));
            if self.tables[i].0 == wanted {
                return Some(share(&self.tables[i].1));
            }
            i = i + 1;
        }
        None
    }
}

/// What is known of tables, by name.
pub type Knowledge = spec_fn(Seq<char>) -> Option<TableStatsView>;

/// What a context knows.
pub open spec fn knowledge<C: OptimizerContext>(ctx: C) -> Knowledge {
    |name: Seq<char>| ctx.known(name)
}

/// The name of a rule.
pub type RuleName = Seq<char>;

/// What bounds the passes of a rule down a plan.
pub type RuleMeasure = nat;

/// A rewrite of plans, node by node.
pub trait OptimizerRule {
    /// What the rule makes of a node.
    spec fn rewrite(&self, known: Knowledge, plan: PlanView) -> Result<
        Rewritten<PlanView>,
        ErrorKind,
    >;

    /// The rule's name.
    spec fn title(&self) -> RuleName;

    spec fn order(&self) -> ApplyOrder;

    /// What a rule that starts at the root leaves below a node is less than
    /// the node was, by this measure.
    spec fn measure(&self, plan: PlanView) -> RuleMeasure;

    proof fn ends(&self, known: Knowledge)
        requires
            self.order() is TopDown,
        ensures
            descends::<LogicalPlan>(
                |p: PlanView| self.rewrite(known, p),
                |p: PlanView| self.measure(p),
            ),
    ;

    fn name(&self) -> (r: &str)
        ensures
            r@ == self.title(),
    ;

    /// # Errors
    /// An error where the plan is malformed; a rule that does not apply
    /// reports no change.
    fn apply<C: OptimizerContext>(&self, plan: LogicalPlan, ctx: &C) -> (r: Result<
        Transformed<LogicalPlan>,
        BasaltError,
    >)
        ensures
            outcome(r) == self.rewrite(knowledge(*ctx), plan@),
    ;

    fn apply_order(&self) -> (r: ApplyOrder)
        ensures
            r == self.order(),
    ;
}

/// What a rule makes of a whole plan.
pub open spec fn rule_pass<R: OptimizerRule>(
    rule: R,
    known: Knowledge,
    plan: PlanView,
) -> Result<Rewritten<PlanView>, ErrorKind> {
    match rule.order() {
        ApplyOrder::BottomUp => up::<LogicalPlan>(plan, |p: PlanView| rule.rewrite(known, p)),
        ApplyOrder::TopDown => down::<LogicalPlan>(
            plan,
            |p: PlanView| rule.rewrite(known, p),
            |p: PlanView| rule.measure(p),
        ),
    }
}

/// What the first `n` rules, one after the other, make of a plan.
pub open spec fn rules_pass<R: OptimizerRule>(
    rules: Seq<Arc<R>>,
    known: Knowledge,
    plan: PlanView,
    n: nat,
) -> Result<Rewritten<PlanView>, ErrorKind>
    decreases n,
{
    if n == 0 {
        Ok(Rewritten { changed: false, node: plan })
    } else {
        match rules_pass(rules, known, plan, (n - 1) as nat) {
            Err(k) => Err(k),
            Ok(before) => match rule_pass(*rules[n - 1], known, before.node) {
                Err(k) => Err(k),
                Ok(r) => Ok(
                    Rewritten { changed: before.changed || r.changed, node: r.node },
                ),
            },
        }
    }
}

/// The plan after at most `iterations` passes over all rules, and whether the
/// last pass changed nothing.
pub open spec fn optimized<R: OptimizerRule>(
    rules: Seq<Arc<R>>,
    known: Knowledge,
    plan: PlanView,
    iterations: nat,
) -> Result<(PlanView, bool), ErrorKind>
    decreases iterations,
{
    if iterations == 0 {
        Ok((plan, false))
    } else {
        match rules_pass(rules, known, plan, rules.len()) {
            Err(k) => Err(k),
            Ok(r) => if r.changed {
                optimized(rules, known, r.node, (iterations - 1) as nat)
            } else {
                Ok((r.node, true))
            },
        }
    }
}

proof fn lemma_rules_error<R: OptimizerRule>(
    rules: Seq<Arc<R>>,
    known: Knowledge,
    plan: PlanView,
    m: nat,
    n: nat,
)
    requires
        m <= n,
        rules_pass(rules, known, plan, m) is Err,
    ensures
        rules_pass(rules, known, plan, n) == rules_pass(rules, known, plan, m),
    decreases n - m,
{
    if m < n {
        lemma_rules_error(rules, known, plan, m, (n - 1) as nat);
    }
}

/// Runs rules until none of them changes the plan.
pub struct Optimizer<R> {
    pub rules: Vec<Arc<R>>,
    /// The greatest number of passes. Rules that undo each other would never
    /// come to an end by themselves.
    pub max_iterations: usize,
}

impl<R: OptimizerRule> Optimizer<R> {
    pub fn new(rules: Vec<Arc<R>>) -> (r: Optimizer<R>)
        ensures
            r.rules == rules,
            r.max_iterations == 10,
    {
        Optimizer { rules, max_iterations: 10 }
    }

    /// The plan after the rules have come to a fixed point, or after the
    /// greatest number of passes.
    ///
    /// # Errors
    /// The first error of a rule.
    pub fn optimize<C: OptimizerContext>(&self, plan: LogicalPlan, ctx: &C) -> (r: Result<
        LogicalPlan,
        BasaltError,
    >)
        ensures
            match r {
                Ok(p) => optimized(self.rules@, knowledge(*ctx), plan@, self.max_iterations as nat) is Ok
                    && (optimized(
                    self.rules@,
                    knowledge(*ctx),
                    plan@,
                    self.max_iterations as nat,
                )->Ok_0).0 == p@,
                Err(e) => optimized(self.rules@, knowledge(*ctx), plan@, self.max_iterations as nat) == Err::<
                    (PlanView, bool),
                    ErrorKind,
                >(e@),
            },
    {
        match self.optimize_to_fixed_point(plan, ctx) {
            Ok((p, _)) => Ok(p),
            Err(e) => Err(e),
        }
    }

    /// The same, together with whether a fixed point was reached. If not, two
    /// rules undo each other, which is a fault of the rules.
    ///
    /// # Errors
    /// The first error of a rule.
    pub fn optimize_to_fixed_point<C: OptimizerContext>(&self, plan: LogicalPlan, ctx: &C) -> (r:
        Result<(LogicalPlan, bool), BasaltError>)
        ensures
            match r {
                Ok((p, fixed)) => optimized(
                    self.rules@,
                    knowledge(*ctx),
                    plan@,
                    self.max_iterations as nat,
                ) == Ok::<(PlanView, bool), ErrorKind>((p@, fixed)),
                Err(e) => optimized(self.rules@, knowledge(*ctx), plan@, self.max_iterations as nat) == Err::<
                    (PlanView, bool),
                    ErrorKind,
                >(e@),
            },
    {
        let ghost want = optimized(self.rules@, knowledge(*ctx), plan@, self.max_iterations as nat);
        let mut current = plan;
        let mut left: usize = self.max_iterations;
        while left > 0
            invariant
                want == optimized(self.rules@, knowledge(*ctx), current@, left as nat),
                want == optimized(self.rules@, knowledge(*ctx), plan@, self.max_iterations as nat),
            decreases left,
        {
            let ghost start = current@;
            let mut changed_this_pass = false;
            let mut i: usize = 0;
            while i < self.rules.len()
                invariant
                    i <= self.rules@.len(),
                    left > 0,
                    rules_pass(self.rules@, knowledge(*ctx), start, i as nat) == Ok::<
                        Rewritten<PlanView>,
                        ErrorKind,
                    >((Rewritten { changed: changed_this_pass, node: current@ })),
                    want == optimized(self.rules@, knowledge(*ctx), start, left as nat),
                    want == optimized(self.rules@, knowledge(*ctx), plan@, self.max_iterations as nat),
                decreases self.rules@.len() - i,
            {
                match apply_rule(&self.rules[i], current, ctx) {
                    Err(e) => {
                        proof {
                            lemma_rules_error(
                                self.rules@,
                                knowledge(*ctx),
                                start,
                                (i + 1) as nat,
                                self.rules@.len(),
                            );
                        }
                        return Err(e);
                    },
                    Ok(t) => {
                        if t.is_yes() {
                            changed_this_pass = true;
                        }
                        current = t.into_inner();
                    },
                }
                i = i + 1;
            }
            if !changed_this_pass {
                return Ok((current, true));
            }
            left = left - 1;
        }
        Ok((current, false))
    }
}

/// Applies a rule to a whole plan.
pub fn apply_rule<R: OptimizerRule, C: OptimizerContext>(
    rule: &Arc<R>,
    plan: LogicalPlan,
    ctx: &C,
) -> (r: Result<Transformed<LogicalPlan>, BasaltError>)
    ensures
        outcome(r) == rule_pass(**rule, knowledge(*ctx), plan@),
{
    let f = |node: LogicalPlan| -> (r: Result<Transformed<LogicalPlan>, BasaltError>)
        ensures
            outcome(r) == rule.rewrite(knowledge(*ctx), node@),
        { rule.apply(node, ctx) };
    let ghost step: Step<PlanView> = |p: PlanView| rule.rewrite(knowledge(*ctx), p);
    assert(implements::<LogicalPlan, _>(f, step));
    match rule.apply_order() {
        ApplyOrder::BottomUp => plan.transform_up(&f),
        ApplyOrder::TopDown => {
            proof {
                rule.ends(knowledge(*ctx));
                let measure = |p: PlanView| rule.measure(p);
                assert(descends::<LogicalPlan>(step, measure));
                assert(bounds::<LogicalPlan, _>(f, measure));
            }
            plan.transform_down(&f)
        },
    }
}

} // verus!
