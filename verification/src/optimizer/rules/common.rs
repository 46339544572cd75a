//! What the rules share: rewriting every expression of a node, taking
//! conjunctions apart, and renumbering columns.

use vstd::prelude::*;

use crate::error::{BasaltError, ErrorKind};
use crate::expr::expr::{
    binary, eval, expr_children, expr_equal, expr_views, expr_with_children, Expr, ExprView,
};
use crate::logical_plan::plan::{
    aggregate_views, pair_views, sort_expr_views, AggregateFunction, AggregateView, LogicalPlan,
    PlanView, SortExpr, SortExprView,
};
use crate::optimizer::tree_node::{
    outcome, parts_up, up, Rewritten, Step, Transformed, TreeNode,
};
use crate::types::coercion::BinaryOp;
use crate::types::value::{kleene_and, ValueView};

verus! {

/// A rewrite of expressions.
pub type ExprMap = spec_fn(ExprView) -> Result<ExprView, ErrorKind>;

/// The model of a rewritten expression.
pub open spec fn expr_outcome(r: Result<Expr, BasaltError>) -> Result<ExprView, ErrorKind> {
    match r {
        Ok(e) => Ok(e@),
        Err(e) => Err(e@),
    }
}

/// Whether a function rewrites as a map says.
pub open spec fn realizes<F: Fn(Expr) -> Result<Expr, BasaltError>>(f: F, g: ExprMap) -> bool {
    forall|x: Expr, y: Result<Expr, BasaltError>| #[trigger]
        f.ensures((x,), y) ==> expr_outcome(y) == g(x@)
}

/// One expression rewritten; it counts as changed when it is not the same
/// afterwards.
pub open spec fn map_one(e: ExprView, g: ExprMap) -> Result<Rewritten<ExprView>, ErrorKind> {
    match g(e) {
        Err(k) => Err(k),
        Ok(x) => Ok(Rewritten { changed: !expr_equal(x, e), node: x }),
    }
}

/// The first `n` expressions rewritten, or the first error.
pub open spec fn map_list(exprs: Seq<ExprView>, g: ExprMap, n: nat) -> Result<
    Rewritten<Seq<ExprView>>,
    ErrorKind,
>
    decreases n,
{
    if n == 0 {
        Ok(Rewritten { changed: false, node: seq![] })
    } else {
        match map_list(exprs, g, (n - 1) as nat) {
            Err(k) => Err(k),
            Ok(done) => match map_one(exprs[n - 1], g) {
                Err(k) => Err(k),
                Ok(r) => Ok(
                    Rewritten {
                        changed: done.changed || r.changed,
                        node: done.node.push(r.node),
                    },
                ),
            },
        }
    }
}

/// The first `n` key pairs rewritten, or the first error.
pub open spec fn map_pairs(on: Seq<(ExprView, ExprView)>, g: ExprMap, n: nat) -> Result<
    Rewritten<Seq<(ExprView, ExprView)>>,
    ErrorKind,
>
    decreases n,
{
    if n == 0 {
        Ok(Rewritten { changed: false, node: seq![] })
    } else {
        match map_pairs(on, g, (n - 1) as nat) {
            Err(k) => Err(k),
            Ok(done) => match map_one(on[n - 1].0, g) {
                Err(k) => Err(k),
                Ok(l) => match map_one(on[n - 1].1, g) {
                    Err(k) => Err(k),
                    Ok(r) => Ok(
                        Rewritten {
                            changed: done.changed || l.changed || r.changed,
                            node: done.node.push((l.node, r.node)),
                        },
                    ),
                },
            },
        }
    }
}

/// The expressions of sort keys.
pub open spec fn sort_key_exprs(keys: Seq<SortExprView>) -> Seq<ExprView> {
    Seq::new(keys.len(), |i: int| keys[i].expr)
}

/// Sort keys over other expressions.
pub open spec fn with_key_exprs(keys: Seq<SortExprView>, exprs: Seq<ExprView>) -> Seq<
    SortExprView,
> {
    Seq::new(keys.len(), |i: int| SortExprView { expr: exprs[i], options: keys[i].options })
}

/// An aggregate with its argument rewritten; a count of rows has none.
pub open spec fn map_argument(a: AggregateView, g: ExprMap) -> Result<
    Rewritten<AggregateView>,
    ErrorKind,
> {
    match a.arg {
        None => Ok(Rewritten { changed: false, node: a }),
        Some(e) => match map_one(e, g) {
            Err(k) => Err(k),
            Ok(r) => Ok(
                Rewritten {
                    changed: r.changed,
                    node: AggregateView {
                        output_name: a.output_name,
                        kind: a.kind,
                        arg: Some(r.node),
                    },
                },
            ),
        },
    }
}

/// The first `n` aggregates with their arguments rewritten, or the first error.
pub open spec fn map_arguments(aggs: Seq<AggregateView>, g: ExprMap, n: nat) -> Result<
    Rewritten<Seq<AggregateView>>,
    ErrorKind,
>
    decreases n,
{
    if n == 0 {
        Ok(Rewritten { changed: false, node: seq![] })
    } else {
        match map_arguments(aggs, g, (n - 1) as nat) {
            Err(k) => Err(k),
            Ok(done) => match map_argument(aggs[n - 1], g) {
                Err(k) => Err(k),
                Ok(r) => Ok(
                    Rewritten {
                        changed: done.changed || r.changed,
                        node: done.node.push(r.node),
                    },
                ),
            },
        }
    }
}

/// A node with every expression that it carries itself rewritten.
pub open spec fn mapped(p: PlanView, g: ExprMap) -> Result<Rewritten<PlanView>, ErrorKind> {
    match p {
        PlanView::Projection { input, exprs, schema } => match map_list(exprs, g, exprs.len()) {
            Err(k) => Err(k),
            Ok(r) => Ok(
                Rewritten {
                    changed: r.changed,
                    node: PlanView::Projection { input, exprs: r.node, schema },
                },
            ),
        },
        PlanView::Filter { input, predicate } => match map_one(predicate, g) {
            Err(k) => Err(k),
            Ok(r) => Ok(
                Rewritten {
                    changed: r.changed,
                    node: PlanView::Filter { input, predicate: r.node },
                },
            ),
        },
        PlanView::Join { left, right, on, filter, join_type, schema } => match map_pairs(
            on,
            g,
            on.len(),
        ) {
            Err(k) => Err(k),
            Ok(pairs) => match filter {
                None => Ok(
                    Rewritten {
                        changed: pairs.changed,
                        node: PlanView::Join {
                            left,
                            right,
                            on: pairs.node,
                            filter: None,
                            join_type,
                            schema,
                        },
                    },
                ),
                Some(f) => match map_one(f, g) {
                    Err(k) => Err(k),
                    Ok(r) => Ok(
                        Rewritten {
                            changed: pairs.changed || r.changed,
                            node: PlanView::Join {
                                left,
                                right,
                                on: pairs.node,
                                filter: Some(r.node),
                                join_type,
                                schema,
                            },
                        },
                    ),
                },
            },
        },
        PlanView::TableScan { table_name, source, projection, filters, schema } => match map_list(
            filters,
            g,
            filters.len(),
        ) {
            Err(k) => Err(k),
            Ok(r) => Ok(
                Rewritten {
                    changed: r.changed,
                    node: PlanView::TableScan {
                        table_name,
                        source,
                        projection,
                        filters: r.node,
                        schema,
                    },
                },
            ),
        },
        PlanView::Sort { input, exprs } => match map_list(
            sort_key_exprs(exprs),
            g,
            exprs.len(),
        ) {
            Err(k) => Err(k),
            Ok(r) => Ok(
                Rewritten {
                    changed: r.changed,
                    node: PlanView::Sort { input, exprs: with_key_exprs(exprs, r.node) },
                },
            ),
        },
        PlanView::Aggregate { input, group_expr, aggr_expr, schema } => match map_list(
            group_expr,
            g,
            group_expr.len(),
        ) {
            Err(k) => Err(k),
            Ok(groups) => match map_arguments(aggr_expr, g, aggr_expr.len()) {
                Err(k) => Err(k),
                Ok(aggs) => Ok(
                    Rewritten {
                        changed: groups.changed || aggs.changed,
                        node: PlanView::Aggregate {
                            input,
                            group_expr: groups.node,
                            aggr_expr: aggs.node,
                            schema,
                        },
                    },
                ),
            },
        },
        _ => Ok(Rewritten { changed: false, node: p }),
    }
}

proof fn lemma_map_list_error(exprs: Seq<ExprView>, g: ExprMap, m: nat, n: nat)
    requires
        m <= n,
        map_list(exprs, g, m) is Err,
    ensures
        map_list(exprs, g, n) == map_list(exprs, g, m),
    decreases n - m,
{
    if m < n {
        lemma_map_list_error(exprs, g, m, (n - 1) as nat);
    }
}

proof fn lemma_map_list_len(exprs: Seq<ExprView>, g: ExprMap, n: nat)
    requires
        map_list(exprs, g, n) is Ok,
    ensures
        map_list(exprs, g, n)->Ok_0.node.len() == n,
    decreases n,
{
    if n > 0 {
        lemma_map_list_len(exprs, g, (n - 1) as nat);
    }
}

proof fn lemma_map_pairs_error(on: Seq<(ExprView, ExprView)>, g: ExprMap, m: nat, n: nat)
    requires
        m <= n,
        map_pairs(on, g, m) is Err,
    ensures
        map_pairs(on, g, n) == map_pairs(on, g, m),
    decreases n - m,
{
    if m < n {
        lemma_map_pairs_error(on, g, m, (n - 1) as nat);
    }
}

proof fn lemma_map_arguments_error(aggs: Seq<AggregateView>, g: ExprMap, m: nat, n: nat)
    requires
        m <= n,
        map_arguments(aggs, g, m) is Err,
    ensures
        map_arguments(aggs, g, n) == map_arguments(aggs, g, m),
    decreases n - m,
{
    if m < n {
        lemma_map_arguments_error(aggs, g, m, (n - 1) as nat);
    }
}

/// Rewrites one expression, and says whether it changed.
fn rewrite_one<F: Fn(Expr) -> Result<Expr, BasaltError>>(e: &Expr, f: &F) -> (r: Result<
    (Expr, bool),
    BasaltError,
>)
    requires
        forall|x: Expr| #[trigger] f.requires((x,)),
    ensures
        forall|g: ExprMap| #[trigger]
            realizes(*f, g) ==> match r {
                Ok((x, changed)) => map_one(e@, g) == Ok::<Rewritten<ExprView>, ErrorKind>(
                    (Rewritten { changed, node: x@ }),
                ),
                Err(k) => map_one(e@, g) == Err::<Rewritten<ExprView>, ErrorKind>(k@),
            },
{
    let copy = e.copy();
    assert(f.requires((copy,)));
    match f(copy) {
        Err(k) => Err(k),
        Ok(x) => {
            let changed = !x.equals(e);
            Ok((x, changed))
        },
    }
}

/// Rewrites a list of expressions, and says whether one changed.
fn rewrite_list<F: Fn(Expr) -> Result<Expr, BasaltError>>(exprs: &Vec<Expr>, f: &F) -> (r: Result<
    (Vec<Expr>, bool),
    BasaltError,
>)
    requires
        forall|x: Expr| #[trigger] f.requires((x,)),
    ensures
        forall|g: ExprMap| #[trigger]
            realizes(*f, g) ==> match r {
                Ok((v, changed)) => map_list(expr_views(exprs@), g, exprs@.len()) == Ok::<
                    Rewritten<Seq<ExprView>>,
                    ErrorKind,
                >((Rewritten { changed, node: expr_views(v@) })),
                Err(k) => map_list(expr_views(exprs@), g, exprs@.len()) == Err::<
                    Rewritten<Seq<ExprView>>,
                    ErrorKind,
                >(k@),
            },
        r matches Ok((v, _)) ==> v@.len() == exprs@.len(),
{
    let ghost ev = expr_views(exprs@);
    let mut out: Vec<Expr> = Vec::new();
    let mut changed = false;
    let mut i: usize = 0;
    assert(expr_views(out@) =~= seq![]);
    while i < exprs.len()
        invariant
            i <= exprs@.len(),
            ev == expr_views(exprs@),
            out@.len() == i,
            forall|x: Expr| #[trigger] f.requires((x,)),
            forall|g: ExprMap| #[trigger]
                realizes(*f, g) ==> map_list(ev, g, i as nat) == Ok::<
                    Rewritten<Seq<ExprView>>,
                    ErrorKind,
                >((Rewritten { changed, node: expr_views(out@) })),
        decreases exprs@.len() - i,
    {
        assert(ev[i as int] == exprs@[i as int]@);
        match rewrite_one(&exprs[i], f) {
            Err(k) => {
                proof {
                    assert forall|g: ExprMap| #[trigger] realizes(*f, g) implies map_list(
                        ev,
                        g,
                        ev.len(),
                    ) == Err::<Rewritten<Seq<ExprView>>, ErrorKind>(k@) by {
                        lemma_map_list_error(ev, g, (i + 1) as nat, ev.len());
                    }
                }
                return Err(k);
            },
            Ok((x, c)) => {
                let ghost was = expr_views(out@);
                if c {
                    changed = true;
                }
                out.push(x);
                assert(expr_views(out@) =~= was.push(x@));
            },
        }
        i = i + 1;
    }
    Ok((out, changed))
}

/// Rewrites key pairs, and says whether one changed.
fn rewrite_pairs<F: Fn(Expr) -> Result<Expr, BasaltError>>(on: &Vec<(Expr, Expr)>, f: &F) -> (r:
    Result<(Vec<(Expr, Expr)>, bool), BasaltError>)
    requires
        forall|x: Expr| #[trigger] f.requires((x,)),
    ensures
        forall|g: ExprMap| #[trigger]
            realizes(*f, g) ==> match r {
                Ok((v, changed)) => map_pairs(pair_views(on@), g, on@.len()) == Ok::<
                    Rewritten<Seq<(ExprView, ExprView)>>,
                    ErrorKind,
                >((Rewritten { changed, node: pair_views(v@) })),
                Err(k) => map_pairs(pair_views(on@), g, on@.len()) == Err::<
                    Rewritten<Seq<(ExprView, ExprView)>>,
                    ErrorKind,
                >(k@),
            },
{
    let ghost pv = pair_views(on@);
    let mut out: Vec<(Expr, Expr)> = Vec::new();
    let mut changed = false;
    let mut i: usize = 0;
    assert(pair_views(out@) =~= seq![]);
    while i < on.len()
        invariant
            i <= on@.len(),
            pv == pair_views(on@),
            forall|x: Expr| #[trigger] f.requires((x,)),
            forall|g: ExprMap| #[trigger]
                realizes(*f, g) ==> map_pairs(pv, g, i as nat) == Ok::<
                    Rewritten<Seq<(ExprView, ExprView)>>,
                    ErrorKind,
                >((Rewritten { changed, node: pair_views(out@) })),
        decreases on@.len() - i,
    {
        assert(pv[i as int] == (on@[i as int].0@, on@[i as int].1@));
        let (l, lc) = match rewrite_one(&on[i].0, f) {
            Ok(x) => x,
            Err(k) => {
                proof {
                    assert forall|g: ExprMap| #[trigger] realizes(*f, g) implies map_pairs(
                        pv,
                        g,
                        pv.len(),
                    ) == Err::<Rewritten<Seq<(ExprView, ExprView)>>, ErrorKind>(k@) by {
                        lemma_map_pairs_error(pv, g, (i + 1) as nat, pv.len());
                    }
                }
                return Err(k);
            },
        };
        let (r, rc) = match rewrite_one(&on[i].1, f) {
            Ok(x) => x,
            Err(k) => {
                proof {
                    assert forall|g: ExprMap| #[trigger] realizes(*f, g) implies map_pairs(
                        pv,
                        g,
                        pv.len(),
                    ) == Err::<Rewritten<Seq<(ExprView, ExprView)>>, ErrorKind>(k@) by {
                        lemma_map_pairs_error(pv, g, (i + 1) as nat, pv.len());
                    }
                }
                return Err(k);
            },
        };
        let ghost was = pair_views(out@);
        if lc || rc {
            changed = true;
        }
        out.push((l, r));
        assert(pair_views(out@) =~= was.push((l@, r@)));
        i = i + 1;
    }
    Ok((out, changed))
}

/// Rewrites the argument of an aggregate, and says whether it changed.
fn rewrite_argument<F: Fn(Expr) -> Result<Expr, BasaltError>>(a: &AggregateFunction, f: &F) -> (r:
    Result<(AggregateFunction, bool), BasaltError>)
    requires
        forall|x: Expr| #[trigger] f.requires((x,)),
    ensures
        forall|g: ExprMap| #[trigger]
            realizes(*f, g) ==> match r {
                Ok((x, changed)) => map_argument(a@, g) == Ok::<
                    Rewritten<AggregateView>,
                    ErrorKind,
                >((Rewritten { changed, node: x@ })),
                Err(k) => map_argument(a@, g) == Err::<Rewritten<AggregateView>, ErrorKind>(k@),
            },
{
    match &a.arg {
        None => Ok((a.copy(), false)),
        Some(e) => match rewrite_one(e, f) {
            Err(k) => Err(k),
            Ok((x, changed)) => Ok(
                (
                    AggregateFunction {
                        output_name: a.output_name.clone(),
                        kind: a.kind,
                        arg: Some(x),
                    },
                    changed,
                ),
            ),
        },
    }
}

/// Rewrites the arguments of aggregates, and says whether one changed.
fn rewrite_arguments<F: Fn(Expr) -> Result<Expr, BasaltError>>(
    aggs: &Vec<AggregateFunction>,
    f: &F,
) -> (r: Result<(Vec<AggregateFunction>, bool), BasaltError>)
    requires
        forall|x: Expr| #[trigger] f.requires((x,)),
    ensures
        forall|g: ExprMap| #[trigger]
            realizes(*f, g) ==> match r {
                Ok((v, changed)) => map_arguments(aggregate_views(aggs@), g, aggs@.len()) == Ok::<
                    Rewritten<Seq<AggregateView>>,
                    ErrorKind,
                >((Rewritten { changed, node: aggregate_views(v@) })),
                Err(k) => map_arguments(aggregate_views(aggs@), g, aggs@.len()) == Err::<
                    Rewritten<Seq<AggregateView>>,
                    ErrorKind,
                >(k@),
            },
{
    let ghost av = aggregate_views(aggs@);
    let mut out: Vec<AggregateFunction> = Vec::new();
    let mut changed = false;
    let mut i: usize = 0;
    assert(aggregate_views(out@) =~= seq![]);
    while i < aggs.len()
        invariant
            i <= aggs@.len(),
            av == aggregate_views(aggs@),
            forall|x: Expr| #[trigger] f.requires((x,)),
            forall|g: ExprMap| #[trigger]
                realizes(*f, g) ==> map_arguments(av, g, i as nat) == Ok::<
                    Rewritten<Seq<AggregateView>>,
                    ErrorKind,
                >((Rewritten { changed, node: aggregate_views(out@) })),
        decreases aggs@.len() - i,
    {
        assert(av[i as int] == aggs@[i as int]@);
        match rewrite_argument(&aggs[i], f) {
            Err(k) => {
                proof {
                    assert forall|g: ExprMap| #[trigger] realizes(*f, g) implies map_arguments(
                        av,
                        g,
                        av.len(),
                    ) == Err::<Rewritten<Seq<AggregateView>>, ErrorKind>(k@) by {
                        lemma_map_arguments_error(av, g, (i + 1) as nat, av.len());
                    }
                }
                return Err(k);
            },
            Ok((x, c)) => {
                let ghost was = aggregate_views(out@);
                if c {
                    changed = true;
                }
                out.push(x);
                assert(aggregate_views(out@) =~= was.push(x@));
            },
        }
        i = i + 1;
    }
    Ok((out, changed))
}

/// Marks a rewritten plan as changed or not.
pub fn transformed(plan: LogicalPlan, changed: bool) -> (r: Transformed<LogicalPlan>)
    ensures
        outcome(Ok::<Transformed<LogicalPlan>, BasaltError>(r)) == Ok::<
            Rewritten<PlanView>,
            ErrorKind,
        >((Rewritten { changed, node: plan@ })),
        r.inner() == plan,
        (r is Yes) == changed,
{
    if changed {
        Transformed::Yes(plan)
    } else {
        Transformed::No(plan)
    }
}

/// Applies `f` to every expression that a node carries itself.
///
/// # Errors
/// The first error of `f`.
pub fn map_all_exprs<F: Fn(Expr) -> Result<Expr, BasaltError>>(plan: LogicalPlan, f: &F) -> (r:
    Result<Transformed<LogicalPlan>, BasaltError>)
    requires
        forall|x: Expr| #[trigger] f.requires((x,)),
    ensures
        forall|g: ExprMap| #[trigger] realizes(*f, g) ==> outcome(r) == mapped(plan@, g),
{
    match plan {
        LogicalPlan::Projection { input, exprs, schema } => match rewrite_list(&exprs, f) {
            Err(k) => Err(k),
            Ok((exprs, changed)) => Ok(
                transformed(LogicalPlan::Projection { input, exprs, schema }, changed),
            ),
        },
        LogicalPlan::Filter { input, predicate } => match rewrite_one(&predicate, f) {
            Err(k) => Err(k),
            Ok((predicate, changed)) => Ok(
                transformed(LogicalPlan::Filter { input, predicate }, changed),
            ),
        },
        LogicalPlan::Join { left, right, on, filter, join_type, schema } => {
            let (on, pairs_changed) = match rewrite_pairs(&on, f) {
                Ok(x) => x,
                Err(k) => {
                    return Err(k);
                },
            };
            let (filter, filter_changed) = match &filter {
                None => (None, false),
                Some(p) => match rewrite_one(p, f) {
                    Ok((x, c)) => (Some(x), c),
                    Err(k) => {
                        return Err(k);
                    },
                },
            };
            Ok(
                transformed(
                    LogicalPlan::Join { left, right, on, filter, join_type, schema },
                    pairs_changed || filter_changed,
                ),
            )
        },
        LogicalPlan::TableScan { table_name, source, projection, filters, schema } => {
            match rewrite_list(&filters, f) {
                Err(k) => Err(k),
                Ok((filters, changed)) => Ok(
                    transformed(
                        LogicalPlan::TableScan { table_name, source, projection, filters, schema },
                        changed,
                    ),
                ),
            }
        },
        LogicalPlan::Sort { input, exprs } => {
            let ghost sv = sort_expr_views(exprs@);
            let mut keys: Vec<Expr> = Vec::new();
            let mut i: usize = 0;
            while i < exprs.len()
                invariant
                    i <= exprs@.len(),
                    sv == sort_expr_views(exprs@),
                    keys@.len() == i,
                    forall|k: int| 0 <= k < i ==> (#[trigger] keys@[k])@ == sv[k].expr,
                decreases exprs@.len() - i,
            {
                keys.push(exprs[i].expr.copy());
                i = i + 1;
            }
            assert(expr_views(keys@) =~= sort_key_exprs(sv));
            match rewrite_list(&keys, f) {
                Err(k) => Err(k),
                Ok((new_keys, changed)) => {
                    let mut out: Vec<SortExpr> = Vec::new();
                    let mut i: usize = 0;
                    while i < exprs.len()
                        invariant
                            i <= exprs@.len(),
                            sv == sort_expr_views(exprs@),
                            new_keys@.len() == exprs@.len(),
                            out@.len() == i,
                            forall|k: int|
                                0 <= k < i ==> (#[trigger] out@[k])@ == with_key_exprs(
                                    sv,
                                    expr_views(new_keys@),
                                )[k],
                        decreases exprs@.len() - i,
                    {
                        out.push(SortExpr { expr: new_keys[i].copy(), options: exprs[i].options });
                        i = i + 1;
                    }
                    assert(sort_expr_views(out@) =~= with_key_exprs(sv, expr_views(new_keys@)));
                    Ok(transformed(LogicalPlan::Sort { input, exprs: out }, changed))
                },
            }
        },
        LogicalPlan::Aggregate { input, group_expr, aggr_expr, schema } => {
            let (group_expr, groups_changed) = match rewrite_list(&group_expr, f) {
                Ok(x) => x,
                Err(k) => {
                    return Err(k);
                },
            };
            match rewrite_arguments(&aggr_expr, f) {
                Err(k) => Err(k),
                Ok((aggr_expr, aggs_changed)) => Ok(
                    transformed(
                        LogicalPlan::Aggregate { input, group_expr, aggr_expr, schema },
                        groups_changed || aggs_changed,
                    ),
                ),
            }
        },
        other => Ok(transformed(other, false)),
    }
}

// ---------------------------------------------------------------------------
// Rewriting expressions

/// The map that rewrites a whole expression, step by step from the leaves up.
pub open spec fn whole(step: Step<ExprView>) -> ExprMap {
    |e: ExprView|
        match up::<Expr>(e, step) {
            Ok(r) => Ok(r.node),
            Err(k) => Err(k),
        }
}

/// Whether a step that succeeds keeps the outcome of evaluation on a row.
pub open spec fn keeps_values(step: Step<ExprView>, row: Seq<ValueView>) -> bool {
    forall|m: ExprView|
        (#[trigger] step(m)) is Ok ==> eval(step(m)->Ok_0.node, row) == eval(m, row)
}

/// A root over rewritten parts, itself rewritten.
pub open spec fn finished(
    e: ExprView,
    step: Step<ExprView>,
    changed: bool,
    parts: Seq<ExprView>,
) -> Result<Rewritten<ExprView>, ErrorKind> {
    match step(expr_with_children(e, parts)) {
        Err(k) => Err(k),
        Ok(r) => Ok(Rewritten { changed: r.changed || changed, node: r.node }),
    }
}

/// What rewriting an expression from the leaves up comes to, by the number of
/// its operands.
pub proof fn lemma_up_expr(e: ExprView, step: Step<ExprView>)
    ensures
        expr_children(e).len() <= 2,
        expr_children(e).len() == 0 ==> up::<Expr>(e, step) == finished(e, step, false, seq![]),
        expr_children(e).len() == 1 ==> up::<Expr>(e, step) == (match up::<Expr>(
            expr_children(e)[0],
            step,
        ) {
            Err(k) => Err(k),
            Ok(a) => finished(e, step, a.changed, seq![a.node]),
        }),
        expr_children(e).len() == 2 ==> up::<Expr>(e, step) == (match up::<Expr>(
            expr_children(e)[0],
            step,
        ) {
            Err(k) => Err(k),
            Ok(a) => match up::<Expr>(expr_children(e)[1], step) {
                Err(k) => Err(k),
                Ok(b) => finished(e, step, a.changed || b.changed, seq![a.node, b.node]),
            },
        }),
{
    let c = expr_children(e);
    assert(<Expr as TreeNode>::parts(e) == c);
    let p0 = parts_up::<Expr>(e, step, 0);
    assert(p0 == Ok::<Rewritten<Seq<ExprView>>, ErrorKind>(
        Rewritten { changed: false, node: seq![] },
    ));
    if c.len() >= 1 {
        let p1 = parts_up::<Expr>(e, step, 1);
        match up::<Expr>(c[0], step) {
            Err(k) => {
                assert(p1 == Err::<Rewritten<Seq<ExprView>>, ErrorKind>(k));
                if c.len() == 2 {
                    assert(parts_up::<Expr>(e, step, 2) == Err::<
                        Rewritten<Seq<ExprView>>,
                        ErrorKind,
                    >(k));
                }
            },
            Ok(a) => {
                assert(seq![].push(a.node) =~= seq![a.node]);
                assert(p1 == Ok::<Rewritten<Seq<ExprView>>, ErrorKind>(
                    Rewritten { changed: a.changed, node: seq![a.node] },
                ));
                if c.len() == 2 {
                    let p2 = parts_up::<Expr>(e, step, 2);
                    match up::<Expr>(c[1], step) {
                        Err(k) => {
                            assert(p2 == Err::<Rewritten<Seq<ExprView>>, ErrorKind>(k));
                        },
                        Ok(b) => {
                            assert(seq![a.node].push(b.node) =~= seq![a.node, b.node]);
                            assert(p2 == Ok::<Rewritten<Seq<ExprView>>, ErrorKind>(
                                Rewritten {
                                    changed: a.changed || b.changed,
                                    node: seq![a.node, b.node],
                                },
                            ));
                        },
                    }
                }
            },
        }
    }
}

/// If every step keeps the outcome of evaluation, so does rewriting a whole
/// expression.
pub proof fn lemma_up_keeps_values(e: ExprView, step: Step<ExprView>, row: Seq<ValueView>)
    requires
        keeps_values(step, row),
        up::<Expr>(e, step) is Ok,
    ensures
        eval(up::<Expr>(e, step)->Ok_0.node, row) == eval(e, row),
    decreases e,
{
    lemma_up_expr(e, step);
    match e {
        ExprView::Column { index, data_type, nullable } => {},
        ExprView::Literal(v) => {},
        ExprView::Binary { left, op, right } => {
            lemma_up_keeps_values(*left, step, row);
            lemma_up_keeps_values(*right, step, row);
        },
        ExprView::Unary { op, expr } => {
            lemma_up_keeps_values(*expr, step, row);
        },
        ExprView::Cast { expr, to } => {
            lemma_up_keeps_values(*expr, step, row);
        },
        ExprView::IsNull(inner) => {
            lemma_up_keeps_values(*inner, step, row);
        },
        ExprView::IsNotNull(inner) => {
            lemma_up_keeps_values(*inner, step, row);
        },
    }
}

// ---------------------------------------------------------------------------
// Conjunctions

/// The operands of a conjunction, left to right; any other expression is its
/// own only operand.
pub open spec fn conjuncts(e: ExprView) -> Seq<ExprView>
    decreases e,
{
    match e {
        ExprView::Binary { left, op: BinaryOp::And, right } => conjuncts(*left) + conjuncts(*right),
        _ => seq![e],
    }
}

/// The conjunction of a list of operands, associated to the left.
pub open spec fn conjunction(s: Seq<ExprView>) -> ExprView
    decreases s.len(),
{
    if s.len() <= 1 {
        s[0]
    } else {
        binary(conjunction(s.drop_last()), BinaryOp::And, s.last())
    }
}

pub proof fn lemma_conjuncts_nonempty(e: ExprView)
    ensures
        conjuncts(e).len() > 0,
    decreases e,
{
    match e {
        ExprView::Binary { left, op: BinaryOp::And, right } => {
            lemma_conjuncts_nonempty(*left);
        },
        _ => {},
    }
}

/// Splits a predicate into the operands of its conjunction.
pub fn flatten_conjuncts(predicate: Expr) -> (r: Vec<Expr>)
    ensures
        expr_views(r@) == conjuncts(predicate@),
        r@.len() > 0,
    decreases predicate,
{
    match predicate {
        Expr::Binary { left, op: BinaryOp::And, right } => {
            let mut out = flatten_conjuncts(*left);
            let more = flatten_conjuncts(*right);
            let ghost first = expr_views(out@);
            let mut i: usize = 0;
            assert(expr_views(out@) =~= first + expr_views(more@).take(0));
            while i < more.len()
                invariant
                    i <= more@.len(),
                    out@.len() >= first.len(),
                    expr_views(out@) == first + expr_views(more@).take(i as int),
                decreases more@.len() - i,
            {
                let ghost was = expr_views(out@);
                out.push(more[i].copy());
                proof {
                    assert(expr_views(out@) =~= was.push(more@[i as int]@));
                    assert(first + expr_views(more@).take(i + 1) =~= (first + expr_views(
                        more@,
                    ).take(i as int)).push(more@[i as int]@));
                }
                i = i + 1;
            }
            assert(expr_views(more@).take(i as int) =~= expr_views(more@));
            out
        },
        other => {
            let mut out: Vec<Expr> = Vec::new();
            out.push(other);
            assert(expr_views(out@) =~= seq![other@]);
            out
        },
    }
}

/// Puts operands back together into one conjunction.
pub fn rebuild_conjuncts(conjuncts: Vec<Expr>) -> (r: Expr)
    requires
        conjuncts@.len() > 0,
    ensures
        r@ == conjunction(expr_views(conjuncts@)),
{
    let ghost ev = expr_views(conjuncts@);
    let mut acc = conjuncts[0].copy();
    let mut i: usize = 1;
    assert(ev.take(1) =~= seq![ev[0]]);
    while i < conjuncts.len()
        invariant
            1 <= i <= conjuncts@.len(),
            ev == expr_views(conjuncts@),
            acc@ == conjunction(ev.take(i as int)),
        decreases conjuncts@.len() - i,
    {
        acc = Expr::Binary {
            left: Box::new(acc),
            op: BinaryOp::And,
            right: Box::new(conjuncts[i].copy()),
        };
        proof {
            assert(ev.take(i + 1).drop_last() =~= ev.take(i as int));
            assert(ev.take(i + 1).last() == conjuncts@[i as int]@);
        }
        i = i + 1;
    }
    assert(ev.take(i as int) =~= ev);
    acc
}

/// Three-valued conjunction does not depend on how it is bracketed.
proof fn lemma_and_associates(a: ValueView, b: ValueView, c: ValueView)
    requires
        is_truth(a),
        is_truth(b),
        is_truth(c),
    ensures
        kleene_and(kleene_and(a, b), c) == kleene_and(a, kleene_and(b, c)),
        is_truth(kleene_and(a, b)),
{
}

/// Whether a value is a boolean or null.
pub open spec fn is_truth(v: ValueView) -> bool {
    v == ValueView::Null || v is Boolean
}

proof fn lemma_append_conjuncts(s: Seq<ExprView>, t: Seq<ExprView>, row: Seq<ValueView>, v: ValueView)
    requires
        s.len() > 0,
        t.len() > 0,
    ensures
        eval(conjunction(s + t), row) == Ok::<ValueView, ErrorKind>(v) <==> eval(
            binary(conjunction(s), BinaryOp::And, conjunction(t)),
            row,
        ) == Ok::<ValueView, ErrorKind>(v),
    decreases t.len(),
{
    reveal_with_fuel(eval, 3);
    if t.len() == 1 {
        assert((s + t).drop_last() =~= s);
        assert((s + t).last() == t[0]);
    } else {
        let front = t.drop_last();
        assert((s + t).drop_last() =~= s + front);
        assert((s + t).last() == t.last());
        let x = eval(conjunction(s), row);
        let y = eval(conjunction(front), row);
        let z = eval(t.last(), row);
        match eval(conjunction(s + front), row) {
            Ok(w) => {
                lemma_append_conjuncts(s, front, row, w);
            },
            Err(k) => {},
        }
        match eval(binary(conjunction(s), BinaryOp::And, conjunction(front)), row) {
            Ok(w) => {
                lemma_append_conjuncts(s, front, row, w);
            },
            Err(k) => {},
        }
        if x is Ok && y is Ok && z is Ok {
            if is_truth(x->Ok_0) && is_truth(y->Ok_0) && is_truth(z->Ok_0) {
                lemma_and_associates(x->Ok_0, y->Ok_0, z->Ok_0);
            }
        }
    }
}

/// Taking a predicate apart and putting it together again keeps its value on
/// every row.
pub proof fn rebuilding_conjuncts_keeps_values(e: ExprView, row: Seq<ValueView>, v: ValueView)
    ensures
        eval(e, row) == Ok::<ValueView, ErrorKind>(v) <==> eval(conjunction(conjuncts(e)), row)
            == Ok::<ValueView, ErrorKind>(v),
    decreases e,
{
    match e {
        ExprView::Binary { left, op: BinaryOp::And, right } => {
            lemma_conjuncts_nonempty(*left);
            lemma_conjuncts_nonempty(*right);
            let s = conjuncts(*left);
            let t = conjuncts(*right);
            lemma_append_conjuncts(s, t, row, v);
            match eval(*left, row) {
                Ok(w) => {
                    rebuilding_conjuncts_keeps_values(*left, row, w);
                },
                Err(k) => {},
            }
            match eval(conjunction(s), row) {
                Ok(w) => {
                    rebuilding_conjuncts_keeps_values(*left, row, w);
                },
                Err(k) => {},
            }
            match eval(*right, row) {
                Ok(w) => {
                    rebuilding_conjuncts_keeps_values(*right, row, w);
                },
                Err(k) => {},
            }
            match eval(conjunction(t), row) {
                Ok(w) => {
                    rebuilding_conjuncts_keeps_values(*right, row, w);
                },
                Err(k) => {},
            }
        },
        _ => {},
    }
}

// ---------------------------------------------------------------------------
// Columns

/// The columns an expression refers to, left to right.
pub open spec fn columns_of(e: ExprView) -> Seq<usize>
    decreases e,
{
    match e {
        ExprView::Column { index, data_type, nullable } => seq![index],
        ExprView::Literal(v) => seq![],
        ExprView::Binary { left, op, right } => columns_of(*left) + columns_of(*right),
        ExprView::Unary { op, expr } => columns_of(*expr),
        ExprView::Cast { expr, to } => columns_of(*expr),
        ExprView::IsNull(inner) => columns_of(*inner),
        ExprView::IsNotNull(inner) => columns_of(*inner),
    }
}

/// The columns an expression refers to.
pub fn referenced_columns(expr: &Expr) -> (r: Vec<usize>)
    ensures
        r@ == columns_of(expr@),
{
    let mut out: Vec<usize> = Vec::new();
    collect_columns(expr, &mut out);
    assert(out@ =~= columns_of(expr@));
    out
}

fn collect_columns(expr: &Expr, out: &mut Vec<usize>)
    ensures
        final(out)@ == old(out)@ + columns_of(expr@),
    decreases expr,
{
    let ghost before = out@;
    match expr {
        Expr::Column { index, data_type, nullable } => {
            out.push(*index);
            assert(out@ =~= before + columns_of(expr@));
        },
        Expr::Literal(v) => {
            assert(out@ =~= before + columns_of(expr@));
        },
        Expr::Binary { left, op, right } => {
            collect_columns(left, out);
            collect_columns(right, out);
            assert(out@ =~= before + columns_of(expr@));
        },
        Expr::Unary { op, expr: inner } => {
            collect_columns(inner, out);
        },
        Expr::Cast { expr: inner, to } => {
            collect_columns(inner, out);
        },
        Expr::IsNull(inner) => {
            collect_columns(inner, out);
        },
        Expr::IsNotNull(inner) => {
            collect_columns(inner, out);
        },
    }
}

/// An expression with its columns renumbered.
pub open spec fn with_columns(e: ExprView, g: spec_fn(usize) -> usize) -> ExprView
    decreases e,
{
    match e {
        ExprView::Column { index, data_type, nullable } => ExprView::Column {
            index: g(index),
            data_type,
            nullable,
        },
        ExprView::Literal(v) => e,
        ExprView::Binary { left, op, right } => binary(
            with_columns(*left, g),
            op,
            with_columns(*right, g),
        ),
        ExprView::Unary { op, expr } => ExprView::Unary {
            op,
            expr: Box::new(with_columns(*expr, g)),
        },
        ExprView::Cast { expr, to } => ExprView::Cast {
            expr: Box::new(with_columns(*expr, g)),
            to,
        },
        ExprView::IsNull(inner) => ExprView::IsNull(Box::new(with_columns(*inner, g))),
        ExprView::IsNotNull(inner) => ExprView::IsNotNull(Box::new(with_columns(*inner, g))),
    }
}

/// Renumbering columns keeps an expression's value where the new columns hold
/// what the old ones held.
pub proof fn renumbering_keeps_values(
    e: ExprView,
    g: spec_fn(usize) -> usize,
    old_row: Seq<ValueView>,
    new_row: Seq<ValueView>,
)
    requires
        forall|i: int|
            0 <= i < columns_of(e).len() ==> {
                let c = #[trigger] columns_of(e)[i];
                &&& c < old_row.len() <==> g(c) < new_row.len()
                &&& c < old_row.len() ==> old_row[c as int] == new_row[g(c) as int]
            },
    ensures
        eval(with_columns(e, g), new_row) == eval(e, old_row),
    decreases e,
{
    match e {
        ExprView::Column { index, data_type, nullable } => {
            assert(columns_of(e)[0] == index);
        },
        ExprView::Literal(v) => {},
        ExprView::Binary { left, op, right } => {
            let l = columns_of(*left);
            let r = columns_of(*right);
            let all = columns_of(e);
            assert forall|i: int| 0 <= i < l.len() implies {
                let c = #[trigger] l[i];
                &&& c < old_row.len() <==> g(c) < new_row.len()
                &&& c < old_row.len() ==> old_row[c as int] == new_row[g(c) as int]
            } by {
                assert(all[i] == l[i]);
            }
            assert forall|i: int| 0 <= i < r.len() implies {
                let c = #[trigger] r[i];
                &&& c < old_row.len() <==> g(c) < new_row.len()
                &&& c < old_row.len() ==> old_row[c as int] == new_row[g(c) as int]
            } by {
                assert(all[l.len() + i] == r[i]);
            }
            renumbering_keeps_values(*left, g, old_row, new_row);
            renumbering_keeps_values(*right, g, old_row, new_row);
        },
        ExprView::Unary { op, expr } => {
            assert(columns_of(e) == columns_of(*expr));
            renumbering_keeps_values(*expr, g, old_row, new_row);
        },
        ExprView::Cast { expr, to } => {
            assert(columns_of(e) == columns_of(*expr));
            renumbering_keeps_values(*expr, g, old_row, new_row);
        },
        ExprView::IsNull(inner) => {
            assert(columns_of(e) == columns_of(*inner));
            renumbering_keeps_values(*inner, g, old_row, new_row);
        },
        ExprView::IsNotNull(inner) => {
            assert(columns_of(e) == columns_of(*inner));
            renumbering_keeps_values(*inner, g, old_row, new_row);
        },
    }
}

/// Whether every column of an expression satisfies a condition.
pub open spec fn columns_satisfy(e: ExprView, p: spec_fn(usize) -> bool) -> bool {
    forall|i: int| 0 <= i < columns_of(e).len() ==> p(#[trigger] columns_of(e)[i])
}

/// Whether a function renumbers as a map says.
pub open spec fn renumbers<F: Fn(usize) -> usize>(f: F, g: spec_fn(usize) -> usize) -> bool {
    forall|x: usize, y: usize| #[trigger] f.ensures((x,), y) ==> y == g(x)
}

/// Renumbers the columns of an expression.
pub fn rewrite_columns<F: Fn(usize) -> usize>(expr: &Expr, f: &F) -> (r: Expr)
    requires
        forall|i: int|
            0 <= i < columns_of(expr@).len() ==> f.requires((#[trigger] columns_of(expr@)[i],)),
    ensures
        forall|g: spec_fn(usize) -> usize| #[trigger]
            renumbers(*f, g) ==> r@ == with_columns(expr@, g),
    decreases expr,
{
    match expr {
        Expr::Column { index, data_type, nullable } => {
            assert(columns_of(expr@)[0] == *index);
            Expr::Column { index: f(*index), data_type: *data_type, nullable: *nullable }
        },
        Expr::Literal(v) => expr.copy(),
        Expr::Binary { left, op, right } => {
            proof {
                let l = columns_of(left@);
                let r = columns_of(right@);
                let all = columns_of(expr@);
                assert forall|i: int| 0 <= i < l.len() implies f.requires((#[trigger] l[i],)) by {
                    assert(all[i] == l[i]);
                }
                assert forall|i: int| 0 <= i < r.len() implies f.requires((#[trigger] r[i],)) by {
                    assert(all[l.len() + i] == r[i]);
                }
            }
            let l = rewrite_columns(left, f);
            let r = rewrite_columns(right, f);
            Expr::Binary { left: Box::new(l), op: *op, right: Box::new(r) }
        },
        Expr::Unary { op, expr: inner } => {
            assert(columns_of(expr@) == columns_of(inner@));
            Expr::Unary { op: *op, expr: Box::new(rewrite_columns(inner, f)) }
        },
        Expr::Cast { expr: inner, to } => {
            assert(columns_of(expr@) == columns_of(inner@));
            Expr::Cast { expr: Box::new(rewrite_columns(inner, f)), to: *to }
        },
        Expr::IsNull(inner) => {
            assert(columns_of(expr@) == columns_of(inner@));
            Expr::IsNull(Box::new(rewrite_columns(inner, f)))
        },
        Expr::IsNotNull(inner) => {
            assert(columns_of(expr@) == columns_of(inner@));
            Expr::IsNotNull(Box::new(rewrite_columns(inner, f)))
        },
    }
}

/// The map that shifts columns down.
pub open spec fn shift_down(offset: usize) -> spec_fn(usize) -> usize {
    |i: usize| (i - offset) as usize
}

/// Shifts every column of an expression down by `offset`, from the columns of
/// both sides of a join to those of the right side.
pub fn rebase_columns(expr: Expr, offset: usize) -> (r: Expr)
    requires
        columns_satisfy(expr@, |c: usize| c >= offset),
    ensures
        r@ == with_columns(expr@, shift_down(offset)),
{
    let f = |i: usize| -> (r: usize)
        requires
            i >= offset,
        ensures
            r == i - offset,
        { i - offset };
    proof {
        let p = |c: usize| c >= offset;
        assert forall|i: int| 0 <= i < columns_of(expr@).len() implies f.requires(
            (#[trigger] columns_of(expr@)[i],),
        ) by {
            assert(p(columns_of(expr@)[i]));
        }
        assert(renumbers(f, shift_down(offset)));
    }
    rewrite_columns(&expr, &f)
}

/// A column of one side equated with a column of the other, each over its own
/// side's columns; `None` for anything else.
pub open spec fn equi_pair(e: ExprView, left_width: int) -> Option<(ExprView, ExprView)> {
    match e {
        ExprView::Binary { left, op: BinaryOp::Eq, right } => match (*left, *right) {
            (
                ExprView::Column { index: i, data_type: t, nullable: n },
                ExprView::Column { index: j, data_type: u, nullable: m },
            ) => if (i < left_width) == (j < left_width) {
                None
            } else if i < left_width {
                Some(
                    (
                        *left,
                        ExprView::Column {
                            index: (j - left_width) as usize,
                            data_type: u,
                            nullable: m,
                        },
                    ),
                )
            } else {
                Some(
                    (
                        *right,
                        ExprView::Column {
                            index: (i - left_width) as usize,
                            data_type: t,
                            nullable: n,
                        },
                    ),
                )
            },
            _ => None,
        },
        _ => None,
    }
}

/// A column of one side equated with a column of the other.
pub fn split_equi_join_conjunct(conjunct: &Expr, left_width: usize) -> (r: Option<(Expr, Expr)>)
    ensures
        match r {
            Some((l, k)) => equi_pair(conjunct@, left_width as int) == Some((l@, k@)),
            None => equi_pair(conjunct@, left_width as int) is None,
        },
{
    match conjunct {
        Expr::Binary { left, op: BinaryOp::Eq, right } => match (&**left, &**right) {
            (
                Expr::Column { index: i, data_type: t, nullable: n },
                Expr::Column { index: j, data_type: u, nullable: m },
            ) => {
                proof {
                    assert(left@ == (ExprView::Column { index: *i, data_type: *t, nullable: *n }));
                    assert(right@ == (ExprView::Column { index: *j, data_type: *u, nullable: *m }));
                }
                let i_is_left = *i < left_width;
                let j_is_left = *j < left_width;
                if i_is_left == j_is_left {
                    None
                } else if i_is_left {
                    Some(
                        (
                            left.copy(),
                            Expr::Column { index: *j - left_width, data_type: *u, nullable: *m },
                        ),
                    )
                } else {
                    Some(
                        (
                            right.copy(),
                            Expr::Column { index: *i - left_width, data_type: *t, nullable: *n },
                        ),
                    )
                }
            },
            _ => None,
        },
        _ => None,
    }
}

} // verus!
