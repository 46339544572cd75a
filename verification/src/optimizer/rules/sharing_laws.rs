//! Which subexpression is computed once: the one that occurs most often.

use vstd::prelude::*;

use crate::expr::expr::{expr_children, expr_equal, expr_with_children, Expr, ExprView};
use crate::logical_plan::plan::{plan_schema, PlanView};
use crate::optimizer::rules::common::{lemma_up_expr, whole};
use crate::optimizer::rules::common_subexpr::{
    all_subexprs, counted_at, counts, lemma_equal_is_same, most_repeated, no_zero_literal, node_count,
    pick, replace_step, replaced, subexprs, without_repetition,
};
use crate::optimizer::tree_node::up;
use crate::types::schema::FieldView;

verus! {

/// How often an expression occurs among the first `n`.
pub open spec fn times(all: Seq<ExprView>, e: ExprView, n: nat) -> nat
    decreases n,
{
    if n == 0 {
        0
    } else {
        times(all, e, (n - 1) as nat) + if all[n - 1] == e {
            1nat
        } else {
            0
        }
    }
}

/// Whether an expression is the same as itself and as no other: it holds no
/// literal double that is a zero or no number.
pub open spec fn steady(e: ExprView) -> bool {
    no_zero_literal(e) && expr_equal(e, e)
}

proof fn lemma_counted_at(counted: Seq<(ExprView, int)>, e: ExprView, n: nat)
    requires
        n <= counted.len(),
        steady(e),
    ensures
        match counted_at(counted, e, n) {
            Some(i) => 0 <= i < n && counted[i].0 == e,
            None => forall|i: int| 0 <= i < n ==> (#[trigger] counted[i]).0 != e,
        },
    decreases n,
{
    if n > 0 {
        lemma_counted_at(counted, e, (n - 1) as nat);
        if expr_equal(counted[n - 1].0, e) {
            lemma_equal_is_same(counted[n - 1].0, e);
        }
    }
}

/// Every expression is counted once for each time it occurs, and in one place.
pub proof fn expressions_are_counted(all: Seq<ExprView>, n: nat)
    requires
        n <= all.len(),
        forall|i: int| 0 <= i < all.len() ==> steady(#[trigger] all[i]),
    ensures
        forall|i: int|
            0 <= i < counts(all, n).len() ==> (#[trigger] counts(all, n)[i]).1 == times(
                all,
                counts(all, n)[i].0,
                n,
            ),
        forall|i: int, j: int|
            0 <= i < j < counts(all, n).len() ==> (#[trigger] counts(all, n)[i]).0 != (
            #[trigger] counts(all, n)[j]).0,
        forall|e: ExprView|
            #[trigger] times(all, e, n) > 0 ==> exists|i: int|
                0 <= i < counts(all, n).len() && (#[trigger] counts(all, n)[i]).0 == e,
    decreases n,
{
    if n > 0 {
        let m = (n - 1) as nat;
        expressions_are_counted(all, m);
        let before = counts(all, m);
        let now = counts(all, n);
        let x = all[n - 1];
        lemma_counted_at(before, x, before.len());
        match counted_at(before, x, before.len()) {
            Some(k) => {
                assert forall|i: int| 0 <= i < now.len() implies (#[trigger] now[i]).1 == times(
                    all,
                    now[i].0,
                    n,
                ) by {
                    assert(before[i].1 == times(all, before[i].0, m));
                    if i != k {
                        if i < k {
                            assert(before[i].0 != before[k].0);
                        } else {
                            assert(before[k].0 != before[i].0);
                        }
                    }
                }
                assert forall|i: int, j: int| 0 <= i < j < now.len() implies (#[trigger] now[i]).0 != (
                #[trigger] now[j]).0 by {
                    assert(before[i].0 != before[j].0);
                }
                assert forall|e: ExprView| #[trigger] times(all, e, n) > 0 implies exists|i: int|
                    0 <= i < now.len() && (#[trigger] now[i]).0 == e by {
                    if e == x {
                        assert(now[k].0 == e);
                    } else {
                        assert(times(all, e, m) > 0);
                        let i = choose|i: int| 0 <= i < before.len() && (#[trigger] before[i]).0 == e;
                        assert(now[i].0 == e);
                    }
                }
            },
            None => {
                if times(all, x, m) > 0 {
                    let i = choose|i: int| 0 <= i < before.len() && (#[trigger] before[i]).0 == x;
                    assert(before[i].0 != x);
                }
                assert forall|i: int| 0 <= i < now.len() implies (#[trigger] now[i]).1 == times(
                    all,
                    now[i].0,
                    n,
                ) by {
                    if i < before.len() {
                        assert(now[i] == before[i]);
                        assert(before[i].0 != x);
                    }
                }
                assert forall|i: int, j: int| 0 <= i < j < now.len() implies (#[trigger] now[i]).0 != (
                #[trigger] now[j]).0 by {
                    assert(now[i] == before[i]);
                    if j < before.len() {
                        assert(now[j] == before[j]);
                    } else {
                        assert(before[i].0 != x);
                    }
                }
                assert forall|e: ExprView| #[trigger] times(all, e, n) > 0 implies exists|i: int|
                    0 <= i < now.len() && (#[trigger] now[i]).0 == e by {
                    if e == x {
                        assert(now[before.len() as int].0 == e);
                    } else {
                        assert(times(all, e, m) > 0);
                        let i = choose|i: int| 0 <= i < before.len() && (#[trigger] before[i]).0 == e;
                        assert(now[i].0 == e);
                    }
                }
            },
        }
    }
}

proof fn lemma_pick(counted: Seq<(ExprView, int)>, n: nat)
    requires
        n <= counted.len(),
    ensures
        match pick(counted, n) {
            None => forall|i: int| 0 <= i < n ==> (#[trigger] counted[i]).1 <= 1,
            Some(c) => {
                &&& c.1 > 1
                &&& exists|i: int| 0 <= i < n && (#[trigger] counted[i]) == c
                &&& forall|i: int|
                    0 <= i < n ==> (#[trigger] counted[i]).1 <= c.1 && (counted[i].1 == c.1
                        ==> node_count(counted[i].0) <= node_count(c.0))
            },
        },
    decreases n,
{
    if n > 0 {
        lemma_pick(counted, (n - 1) as nat);
        match pick(counted, n) {
            Some(c) => {
                if pick(counted, (n - 1) as nat) == Some(c) {
                    let i = choose|i: int| 0 <= i < n - 1 && (#[trigger] counted[i]) == c;
                    assert(counted[i] == c);
                } else {
                    assert(counted[n - 1] == c);
                }
            },
            None => {},
        }
    }
}

/// Of expressions that occur as often and are as large, the last one is taken.
pub proof fn the_last_of_equal_expressions_is_taken(
    counted: Seq<(ExprView, int)>,
    n: nat,
    c: (ExprView, int),
)
    requires
        n < counted.len(),
        pick(counted, n) == Some(c),
        counted[n as int].1 == c.1,
        node_count(counted[n as int].0) == node_count(c.0),
    ensures
        pick(counted, n + 1) == Some(counted[n as int]),
{
    lemma_pick(counted, n);
}

/// The subexpression that is shared occurs more than once, no other occurs more
/// often, and of those that occur as often none is larger. Where none is shared,
/// none occurs twice.
pub proof fn the_most_frequent_is_shared(exprs: Seq<ExprView>, d: ExprView)
    requires
        ({
            let all = all_subexprs(exprs, exprs.len());
            forall|i: int| 0 <= i < all.len() ==> steady(#[trigger] all[i])
        }),
    ensures
        ({
            let all = all_subexprs(exprs, exprs.len());
            match most_repeated(exprs) {
                Some(e) => {
                    &&& times(all, e, all.len()) > 1
                    &&& times(all, d, all.len()) <= times(all, e, all.len())
                    &&& times(all, d, all.len()) == times(all, e, all.len()) ==> node_count(d)
                        <= node_count(e)
                },
                None => times(all, d, all.len()) <= 1,
            }
        }),
{
    let all = all_subexprs(exprs, exprs.len());
    let counted = counts(all, all.len());
    expressions_are_counted(all, all.len());
    lemma_pick(counted, counted.len());
    if times(all, d, all.len()) > 0 {
        let i = choose|i: int| 0 <= i < counted.len() && (#[trigger] counted[i]).0 == d;
        assert(counted[i].1 == times(all, d, all.len()));
    }
    match pick(counted, counted.len()) {
        Some(c) => {
            let i = choose|i: int| 0 <= i < counted.len() && (#[trigger] counted[i]) == c;
            assert(counted[i].1 == times(all, c.0, all.len()));
        },
        None => {},
    }
}

/// The subexpressions of an expression that computes something are itself and
/// those of its operands; a column and a literal have none.
pub proof fn operands_are_looked_into(e: ExprView, x: ExprView)
    ensures
        subexprs(e).contains(x) <==> !(e is Column) && !(e is Literal) && (x == e || exists|i: int|
            0 <= i < expr_children(e).len() && subexprs(#[trigger] expr_children(e)[i]).contains(x)),
{
    let c = expr_children(e);
    let all = subexprs(e);
    if all.contains(x) {
        let k = choose|k: int| 0 <= k < all.len() && all[k] == x;
        if k > 0 {
            let a = subexprs(c[0]);
            if k - 1 < a.len() {
                assert(a[k - 1] == x);
                assert(subexprs(c[0]).contains(x));
            } else {
                let b = subexprs(c[1]);
                assert(b[k - 1 - a.len()] == x);
                assert(subexprs(c[1]).contains(x));
            }
        }
    }
    if !(e is Column) && !(e is Literal) {
        assert(all[0] == e);
        if exists|i: int| 0 <= i < c.len() && subexprs(#[trigger] c[i]).contains(x) {
            let i = choose|i: int| 0 <= i < c.len() && subexprs(#[trigger] c[i]).contains(x);
            let a = subexprs(c[i]);
            let k = choose|k: int| 0 <= k < a.len() && a[k] == x;
            if i == 0 {
                assert(all[1 + k] == x);
            } else {
                assert(all[1 + subexprs(c[0]).len() + k] == x);
            }
        }
    }
}

proof fn lemma_replaced_node(e: ExprView, target: ExprView, column: ExprView)
    requires
        column is Column,
    ensures
        up::<Expr>(e, replace_step(target, column)) is Ok,
        ({
            let r = up::<Expr>(e, replace_step(target, column))->Ok_0.node;
            forall|i: int|
                0 <= i < subexprs(r).len() ==> !expr_equal(#[trigger] subexprs(r)[i], target)
        }),
    decreases e,
{
    let step = replace_step(target, column);
    lemma_up_expr(e, step);
    let r = up::<Expr>(e, step)->Ok_0.node;
    match e {
        ExprView::Column { index, data_type, nullable } => {},
        ExprView::Literal(v) => {},
        ExprView::Binary { left, op, right } => {
            lemma_replaced_node(*left, target, column);
            lemma_replaced_node(*right, target, column);
        },
        ExprView::Unary { op, expr } => {
            lemma_replaced_node(*expr, target, column);
        },
        ExprView::Cast { expr, to } => {
            lemma_replaced_node(*expr, target, column);
        },
        ExprView::IsNull(inner) => {
            lemma_replaced_node(*inner, target, column);
        },
        ExprView::IsNotNull(inner) => {
            lemma_replaced_node(*inner, target, column);
        },
    }
    let c = expr_children(e);
    if c.len() == 0 {
        assert(c =~= seq![]);
        assert(subexprs(r) =~= seq![]);
    } else if c.len() == 1 {
        let a = up::<Expr>(c[0], step)->Ok_0.node;
        let m = expr_with_children(e, seq![a]);
        if r == m {
            assert(subexprs(r) =~= seq![m] + subexprs(a));
        } else {
            assert(subexprs(r) =~= seq![]);
        }
    } else {
        let a = up::<Expr>(c[0], step)->Ok_0.node;
        let b = up::<Expr>(c[1], step)->Ok_0.node;
        let m = expr_with_children(e, seq![a, b]);
        if r == m {
            assert(subexprs(r) =~= seq![m] + subexprs(a) + subexprs(b));
        } else {
            assert(subexprs(r) =~= seq![]);
        }
    }
}

proof fn lemma_replaced(exprs: Seq<ExprView>, target: ExprView, column: ExprView, n: nat)
    requires
        column is Column,
        n <= exprs.len(),
    ensures
        replaced(exprs, target, column, n) is Ok,
        replaced(exprs, target, column, n)->Ok_0.len() == n,
        forall|k: int, i: int|
            0 <= k < n && 0 <= i < subexprs(replaced(exprs, target, column, n)->Ok_0[k]).len()
                ==> !expr_equal(
                #[trigger] subexprs(replaced(exprs, target, column, n)->Ok_0[k])[i],
                target,
            ),
    decreases n,
{
    if n > 0 {
        lemma_replaced(exprs, target, column, (n - 1) as nat);
        lemma_replaced_node(exprs[n - 1], target, column);
        let before = replaced(exprs, target, column, (n - 1) as nat)->Ok_0;
        let now = replaced(exprs, target, column, n)->Ok_0;
        assert(now == before.push(whole(replace_step(target, column))(exprs[n - 1])->Ok_0));
        assert forall|k: int, i: int|
            0 <= k < n && 0 <= i < subexprs(now[k]).len() implies !expr_equal(
            #[trigger] subexprs(now[k])[i],
            target,
        ) by {
            if k < n - 1 {
                assert(now[k] == before[k]);
            }
        }
    }
}

/// What is shared is computed once: a projection below computes it behind the
/// columns that are there, and nothing above computes it again.
pub proof fn shared_expressions_are_computed_once(
    p: PlanView,
    exprs: Seq<ExprView>,
    schema: Seq<FieldView>,
    k: int,
    i: int,
)
    requires
        without_repetition(PlanView::Projection { input: Box::new(p), exprs, schema }) is Ok,
        without_repetition(
            PlanView::Projection { input: Box::new(p), exprs, schema },
        )->Ok_0.changed,
    ensures
        ({
            let r = without_repetition(
                PlanView::Projection { input: Box::new(p), exprs, schema },
            )->Ok_0.node;
            let e = most_repeated(exprs)->0;
            let lower = *r->Projection_input;
            let upper = r->Projection_exprs;
            &&& most_repeated(exprs) is Some
            &&& r is Projection && lower is Projection
            &&& *lower->Projection_input == p
            &&& lower->Projection_exprs.len() == plan_schema(p).len() + 1
            &&& lower->Projection_exprs.last() == e
            &&& 0 <= i < plan_schema(p).len() ==> lower->Projection_exprs[i] is Column
                && lower->Projection_exprs[i]->Column_index == i as usize
            &&& upper.len() == exprs.len()
            &&& 0 <= k < upper.len() && 0 <= i < subexprs(upper[k]).len() ==> !expr_equal(
                subexprs(upper[k])[i],
                e,
            )
        }),
{
    let e = most_repeated(exprs)->0;
    let column = ExprView::Column {
        index: plan_schema(p).len() as usize,
        data_type: crate::expr::expr::expr_type(e)->0,
        nullable: crate::expr::expr::expr_nullable(e),
    };
    lemma_replaced(exprs, e, column, exprs.len());
}

/// Where a subexpression occurs twice and has a type, the projection changes.
pub proof fn repetition_is_removed(
    p: PlanView,
    exprs: Seq<ExprView>,
    schema: Seq<FieldView>,
)
    requires
        most_repeated(exprs) matches Some(e) && crate::expr::expr::expr_type(e) is Some,
    ensures
        without_repetition(PlanView::Projection { input: Box::new(p), exprs, schema }) is Ok,
        without_repetition(
            PlanView::Projection { input: Box::new(p), exprs, schema },
        )->Ok_0.changed,
{
    let e = most_repeated(exprs)->0;
    let column = ExprView::Column {
        index: plan_schema(p).len() as usize,
        data_type: crate::expr::expr::expr_type(e)->0,
        nullable: crate::expr::expr::expr_nullable(e),
    };
    lemma_replaced(exprs, e, column, exprs.len());
}

} // verus!
