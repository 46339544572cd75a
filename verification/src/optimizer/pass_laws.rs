//! What running rules comes to: one after the other, over and over, until
//! nothing changes.

use std::sync::Arc;
use vstd::prelude::*;

use crate::error::ErrorKind;
use crate::logical_plan::plan::PlanView;
use crate::optimizer::rule::{
    first_entry, optimized, rule_pass, rules_pass, Knowledge, OptimizerRule,
};
use crate::optimizer::tree_node::Rewritten;
use crate::statistics::TableStatistics;

verus! {

/// Rules run one after the other, each on what those before it left; what one
/// of them changes counts as changed.
pub proof fn rules_run_one_after_the_other<R: OptimizerRule>(
    rules: Seq<Arc<R>>,
    last: Arc<R>,
    known: Knowledge,
    plan: PlanView,
)
    ensures
        rules_pass(rules, known, plan, 0) == Ok::<_, ErrorKind>(
            Rewritten { changed: false, node: plan },
        ),
        ({
            let before = rules_pass(rules, known, plan, rules.len());
            let after = rules_pass(rules.push(last), known, plan, rules.len() + 1);
            match before {
                Err(k) => after == Err::<Rewritten<PlanView>, ErrorKind>(k),
                Ok(b) => match rule_pass(*last, known, b.node) {
                    Err(k) => after == Err::<Rewritten<PlanView>, ErrorKind>(k),
                    Ok(r) => {
                        &&& after is Ok
                        &&& after->Ok_0.node == r.node
                        &&& after->Ok_0.changed <==> b.changed || r.changed
                    },
                },
            }
        }),
{
    lemma_rules_pass(rules, last, known, plan, rules.len());
    assert(rules.push(last)[rules.len() as int] == last);
}

proof fn lemma_rules_pass<R: OptimizerRule>(
    rules: Seq<Arc<R>>,
    last: Arc<R>,
    known: Knowledge,
    plan: PlanView,
    n: nat,
)
    requires
        n <= rules.len(),
    ensures
        rules_pass(rules.push(last), known, plan, n) == rules_pass(rules, known, plan, n),
    decreases n,
{
    if n > 0 {
        lemma_rules_pass(rules, last, known, plan, (n - 1) as nat);
        assert(rules.push(last)[n - 1] == rules[n - 1]);
    }
}

/// Whether a pass over all rules succeeds and leaves a plan unchanged.
pub open spec fn settled<R: OptimizerRule>(
    rules: Seq<Arc<R>>,
    known: Knowledge,
    from: PlanView,
    to: PlanView,
) -> bool {
    rules_pass(rules, known, from, rules.len()) == Ok::<_, ErrorKind>(
        Rewritten { changed: false, node: to },
    )
}

/// Optimizing ends well where a pass changes nothing, and only there: it says
/// that it has reached a fixed point exactly when the last pass left the plan
/// as it was.
pub proof fn fixed_points_are_left_alone<R: OptimizerRule>(
    rules: Seq<Arc<R>>,
    known: Knowledge,
    plan: PlanView,
    iterations: nat,
    more: nat,
)
    requires
        optimized(rules, known, plan, iterations) matches Ok(r) && r.1,
    ensures
        exists|q: PlanView|
            #[trigger] settled(
                rules,
                known,
                q,
                (optimized(rules, known, plan, iterations)->Ok_0).0,
            ),
        optimized(rules, known, plan, iterations + more) == optimized(
            rules,
            known,
            plan,
            iterations,
        ),
    decreases iterations,
{
    if iterations > 0 {
        let r = rules_pass(rules, known, plan, rules.len())->Ok_0;
        if r.changed {
            fixed_points_are_left_alone(rules, known, r.node, (iterations - 1) as nat, more);
            assert((iterations + more - 1) as nat == (iterations - 1) as nat + more);
            let to = (optimized(rules, known, r.node, (iterations - 1) as nat)->Ok_0).0;
            let q = choose|q: PlanView| #[trigger] settled(rules, known, q, to);
            assert(settled(rules, known, q, (optimized(rules, known, plan, iterations)->Ok_0).0));
        } else {
            assert(settled(rules, known, plan, r.node));
            assert((optimized(rules, known, plan, iterations)->Ok_0).0 == r.node);
            assert(settled(rules, known, plan, (optimized(rules, known, plan, iterations)->Ok_0).0));
        }
    }
}

/// As long as every pass changes something, optimizing goes on where it left
/// off: more passes are passes over the result of the first ones.
pub proof fn passes_go_on<R: OptimizerRule>(
    rules: Seq<Arc<R>>,
    known: Knowledge,
    plan: PlanView,
    iterations: nat,
    more: nat,
)
    requires
        optimized(rules, known, plan, iterations) matches Ok(r) && !r.1,
    ensures
        optimized(rules, known, plan, iterations + more) == optimized(
            rules,
            known,
            (optimized(rules, known, plan, iterations)->Ok_0).0,
            more,
        ),
    decreases iterations,
{
    if iterations > 0 {
        let r = rules_pass(rules, known, plan, rules.len())->Ok_0;
        passes_go_on(rules, known, r.node, (iterations - 1) as nat, more);
        assert((iterations + more - 1) as nat == (iterations - 1) as nat + more);
    }
}

/// Of the statistics that are kept by name, those of a table are the first that
/// bear its name.
pub proof fn statistics_are_found_by_name(
    tables: Seq<(String, Arc<TableStatistics>)>,
    name: Seq<char>,
)
    ensures
        match first_entry(tables, name) {
            Some(s) => exists|i: int|
                0 <= i < tables.len() && (#[trigger] tables[i]).0@ == name && tables[i].1@ == s && forall|
                    j: int,
                | 0 <= j < i ==> (#[trigger] tables[j]).0@ != name,
            None => forall|i: int| 0 <= i < tables.len() ==> (#[trigger] tables[i]).0@ != name,
        },
    decreases tables.len(),
{
    if tables.len() > 0 && tables[0].0@ != name {
        let rest = tables.skip(1);
        statistics_are_found_by_name(rest, name);
        match first_entry(rest, name) {
            Some(s) => {
                let i = choose|i: int|
                    0 <= i < rest.len() && (#[trigger] rest[i]).0@ == name && rest[i].1@ == s && forall|
                        j: int,
                    | 0 <= j < i ==> (#[trigger] rest[j]).0@ != name;
                assert(tables[i + 1] == rest[i]);
                assert forall|j: int| 0 <= j < i + 1 implies (#[trigger] tables[j]).0@ != name by {
                    if j > 0 {
                        assert(rest[j - 1] == tables[j]);
                    }
                }
            },
            None => {
                assert forall|i: int| 0 <= i < tables.len() implies (#[trigger] tables[i]).0@ != name by {
                    if i > 0 {
                        assert(rest[i - 1] == tables[i]);
                    }
                }
            },
        }
    } else if tables.len() > 0 {
        assert(tables[0].0@ == name);
    }
}

} // verus!
