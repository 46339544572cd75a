//! What a walk over a tree sees, in which order, and where it ends.

use vstd::prelude::*;

use crate::error::ErrorKind;
use crate::expr::expr::{expr_children, Expr, ExprView};
use crate::logical_plan::plan::{plan_inputs, LogicalPlan, PlanView};
use crate::optimizer::tree_node::{
    descends, down, parts_down, parts_preorder, parts_up, preorder, up, walk, Step, TreeNode,
    VisitRecursion,
};

verus! {

/// A walk ends at the first tree that stops it or fails, with what was decided
/// there; where none does, it goes on to the end.
pub proof fn walks_end_at_the_first_stop<V>(
    trees: Seq<V>,
    decide: spec_fn(V) -> Result<VisitRecursion, ErrorKind>,
    i: int,
)
    requires
        0 <= i <= trees.len(),
        forall|j: int|
            0 <= j < i ==> decide(#[trigger] trees[j]) == Ok::<VisitRecursion, ErrorKind>(
                VisitRecursion::Continue,
            ),
        i < trees.len() ==> decide(trees[i]) != Ok::<VisitRecursion, ErrorKind>(
            VisitRecursion::Continue,
        ),
    ensures
        walk(trees, decide) == (if i < trees.len() {
            decide(trees[i])
        } else {
            Ok(VisitRecursion::Continue)
        }),
    decreases trees.len(),
{
    if trees.len() > 0 {
        let rest = trees.drop_last();
        assert forall|j: int| 0 <= j < rest.len() implies rest[j] == #[trigger] trees[j] by {}
        if i < rest.len() {
            assert(rest[i] == trees[i]);
            assert forall|j: int| 0 <= j < i implies decide(#[trigger] rest[j]) == Ok::<
                VisitRecursion,
                ErrorKind,
            >(VisitRecursion::Continue) by {
                assert(rest[j] == trees[j]);
            }
            walks_end_at_the_first_stop(rest, decide, i);
        } else {
            assert forall|j: int| 0 <= j < rest.len() implies decide(#[trigger] rest[j]) == Ok::<
                VisitRecursion,
                ErrorKind,
            >(VisitRecursion::Continue) by {
                assert(rest[j] == trees[j]);
            }
            walks_end_at_the_first_stop(rest, decide, rest.len() as int);
            if i == rest.len() {
                assert(trees.last() == trees[i]);
            } else {
                assert(decide(trees[trees.len() - 1]) == Ok::<VisitRecursion, ErrorKind>(
                    VisitRecursion::Continue,
                ));
            }
        }
    }
}

/// A walk sees an expression before its operands, and all of its first operand
/// before its second.
pub proof fn expressions_are_seen_before_their_operands(e: ExprView)
    ensures
        preorder::<Expr>(e) == seq![e] + (if expr_children(e).len() == 0 {
            seq![]
        } else if expr_children(e).len() == 1 {
            preorder::<Expr>(expr_children(e)[0])
        } else {
            preorder::<Expr>(expr_children(e)[0]) + preorder::<Expr>(expr_children(e)[1])
        }),
{
    let c = expr_children(e);
    assert(<Expr as TreeNode>::parts(e) == c);
    assert(c.len() <= 2);
    assert(parts_preorder::<Expr>(e, 0) =~= seq![]);
    if c.len() >= 1 {
        assert(parts_preorder::<Expr>(e, 1) =~= preorder::<Expr>(c[0]));
    }
    if c.len() == 2 {
        assert(parts_preorder::<Expr>(e, 2) =~= preorder::<Expr>(c[0]) + preorder::<Expr>(c[1]));
    }
}

/// A walk sees a plan before its inputs, and all of its first input before its
/// second.
pub proof fn plans_are_seen_before_their_inputs(p: PlanView)
    ensures
        preorder::<LogicalPlan>(p) == seq![p] + (if plan_inputs(p).len() == 0 {
            seq![]
        } else if plan_inputs(p).len() == 1 {
            preorder::<LogicalPlan>(plan_inputs(p)[0])
        } else {
            preorder::<LogicalPlan>(plan_inputs(p)[0]) + preorder::<LogicalPlan>(plan_inputs(p)[1])
        }),
{
    let c = plan_inputs(p);
    assert(<LogicalPlan as TreeNode>::parts(p) == c);
    assert(c.len() <= 2);
    assert(parts_preorder::<LogicalPlan>(p, 0) =~= seq![]);
    if c.len() >= 1 {
        assert(parts_preorder::<LogicalPlan>(p, 1) =~= preorder::<LogicalPlan>(c[0]));
    }
    if c.len() == 2 {
        assert(parts_preorder::<LogicalPlan>(p, 2) =~= preorder::<LogicalPlan>(c[0])
            + preorder::<LogicalPlan>(c[1]));
    }
}

proof fn lemma_parts_up<T: TreeNode>(m: T::Model, step: Step<T::Model>, n: nat)
    requires
        n <= T::parts(m).len(),
        parts_up::<T>(m, step, n) is Ok,
    ensures
        parts_up::<T>(m, step, n)->Ok_0.node.len() == n,
        forall|i: int|
            0 <= i < n ==> (#[trigger] parts_up::<T>(m, step, n)->Ok_0.node[i]) == up::<T>(
                T::parts(m)[i],
                step,
            )->Ok_0.node,
    decreases n,
{
    if n > 0 {
        lemma_parts_up::<T>(m, step, (n - 1) as nat);
        let before = parts_up::<T>(m, step, (n - 1) as nat)->Ok_0.node;
        let now = parts_up::<T>(m, step, n)->Ok_0.node;
        assert(now == before.push(up::<T>(T::parts(m)[n - 1], step)->Ok_0.node));
        assert forall|i: int| 0 <= i < n implies (#[trigger] now[i]) == up::<T>(
            T::parts(m)[i],
            step,
        )->Ok_0.node by {
            if i < n - 1 {
                assert(now[i] == before[i]);
            }
        }
    }
}

/// From the leaves up, what is below a root is rewritten first, each tree by
/// itself, and the root is then rewritten over what has become of it.
pub proof fn leaves_are_rewritten_first<T: TreeNode>(m: T::Model, step: Step<T::Model>)
    requires
        up::<T>(m, step) is Ok,
    ensures
        ({
            let below = Seq::new(
                T::parts(m).len(),
                |i: int| up::<T>(T::parts(m)[i], step)->Ok_0.node,
            );
            &&& step(T::with_parts(m, below)) is Ok
            &&& up::<T>(m, step)->Ok_0.node == step(T::with_parts(m, below))->Ok_0.node
        }),
{
    let n = T::parts(m).len();
    lemma_parts_up::<T>(m, step, n);
    let below = Seq::new(n, |i: int| up::<T>(T::parts(m)[i], step)->Ok_0.node);
    assert(parts_up::<T>(m, step, n)->Ok_0.node =~= below);
}

proof fn lemma_parts_down<T: TreeNode>(
    m: T::Model,
    step: Step<T::Model>,
    measure: spec_fn(T::Model) -> nat,
    n: nat,
)
    requires
        descends::<T>(step, measure),
        step(m) is Ok,
        n <= T::parts(step(m)->Ok_0.node).len(),
        parts_down::<T>(m, step, measure, n) is Ok,
    ensures
        parts_down::<T>(m, step, measure, n)->Ok_0.node.len() == n,
        forall|i: int|
            0 <= i < n ==> #[trigger] parts_down::<T>(m, step, measure, n)->Ok_0.node[i] == down::<T>(
                T::parts(step(m)->Ok_0.node)[i],
                step,
                measure,
            )->Ok_0.node,
    decreases n,
{
    if n > 0 {
        lemma_parts_down::<T>(m, step, measure, (n - 1) as nat);
        let before = parts_down::<T>(m, step, measure, (n - 1) as nat)->Ok_0.node;
        let now = parts_down::<T>(m, step, measure, n)->Ok_0.node;
        assert forall|i: int| 0 <= i < n implies #[trigger] now[i] == down::<T>(
            T::parts(step(m)->Ok_0.node)[i],
            step,
            measure,
        )->Ok_0.node by {
            if i < n - 1 {
                assert(now[i] == before[i]);
            }
        }
    }
}

/// From the root down, the root is rewritten first, and then each tree below
/// what has become of it.
pub proof fn roots_are_rewritten_first<T: TreeNode>(
    m: T::Model,
    step: Step<T::Model>,
    measure: spec_fn(T::Model) -> nat,
)
    requires
        descends::<T>(step, measure),
        down::<T>(m, step, measure) is Ok,
    ensures
        step(m) is Ok,
        ({
            let top = step(m)->Ok_0.node;
            down::<T>(m, step, measure)->Ok_0.node == T::with_parts(
                top,
                Seq::new(
                    T::parts(top).len(),
                    |i: int| down::<T>(T::parts(top)[i], step, measure)->Ok_0.node,
                ),
            )
        }),
{
    let top = step(m)->Ok_0.node;
    let n = T::parts(top).len();
    lemma_parts_down::<T>(m, step, measure, n);
    let below = Seq::new(n, |i: int| down::<T>(T::parts(top)[i], step, measure)->Ok_0.node);
    assert(parts_down::<T>(m, step, measure, n)->Ok_0.node =~= below);
}

} // verus!
