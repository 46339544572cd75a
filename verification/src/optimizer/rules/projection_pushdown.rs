//! Tells a table scan which columns are needed: those that a projection above it
//! refers to, and those of a filter between the two. The traversal from the root
//! down reaches every such projection. A filter without a projection above it
//! passes every column on, so that none of them can be left out.

use std::sync::Arc;
use vstd::prelude::*;

use crate::array::share;
use crate::error::{BasaltError, ErrorKind};
use crate::expr::expr::{copy_exprs, expr_views, Expr, ExprView};
use crate::logical_plan::plan::{LogicalPlan, PlanView};
use crate::optimizer::rule::{ApplyOrder, Knowledge, OptimizerContext, OptimizerRule};
use crate::optimizer::rules::common::{columns_of, referenced_columns};
use crate::optimizer::tree_node::{plan_height, Rewritten, Transformed, TreeNode};

verus! {

/// A column added to columns in ascending order; one that is there already is
/// not added again.
pub open spec fn with_column(s: Seq<usize>, c: usize) -> Seq<usize>
    decreases s.len(),
{
    if s.len() == 0 || s.last() < c {
        s.push(c)
    } else if s.last() == c {
        s
    } else {
        with_column(s.drop_last(), c).push(s.last())
    }
}

/// The first `n` columns in ascending order, each once.
pub open spec fn column_set(s: Seq<usize>, n: nat) -> Seq<usize>
    decreases n,
{
    if n == 0 {
        seq![]
    } else {
        with_column(column_set(s, (n - 1) as nat), s[n - 1])
    }
}

/// The columns that the first `n` expressions refer to.
pub open spec fn columns_of_all(exprs: Seq<ExprView>, n: nat) -> Seq<usize>
    decreases n,
{
    if n == 0 {
        seq![]
    } else {
        columns_of_all(exprs, (n - 1) as nat) + columns_of(exprs[n - 1])
    }
}

/// Columns in ascending order, each once.
pub open spec fn ascending(s: Seq<usize>) -> bool {
    forall|i: int, j: int| 0 <= i < j < s.len() ==> #[trigger] s[i] < #[trigger] s[j]
}

proof fn lemma_with_column(s: Seq<usize>, c: usize, x: usize)
    requires
        ascending(s),
    ensures
        ascending(with_column(s, c)),
        with_column(s, c).contains(x) <==> s.contains(x) || x == c,
        with_column(s, c).len() > 0,
        with_column(s, c).last() == (if s.len() == 0 || s.last() < c {
            c
        } else {
            s.last()
        }),
    decreases s.len(),
{
    let t = with_column(s, c);
    if s.len() == 0 || s.last() < c {
        assert(t[s.len() as int] == c);
        assert forall|i: int, j: int| 0 <= i < j < t.len() implies #[trigger] t[i] < #[trigger] t[j] by {
            if j == s.len() {
                assert(s[i] <= s.last());
            } else {
                assert(s[i] < s[j]);
            }
        }
        if s.contains(x) {
            let i = choose|i: int| 0 <= i < s.len() && s[i] == x;
            assert(t[i] == x);
        }
    } else if s.last() != c {
        let front = s.drop_last();
        assert forall|i: int, j: int| 0 <= i < j < front.len() implies #[trigger] front[i]
            < #[trigger] front[j] by {
            assert(s[i] < s[j]);
        }
        lemma_with_column(front, c, x);
        let u = with_column(front, c);
        if front.len() > 0 {
            assert(s[front.len() - 1] < s[s.len() - 1]);
        }
        assert forall|i: int, j: int| 0 <= i < j < t.len() implies #[trigger] t[i] < #[trigger] t[j] by {
            if j == u.len() {
                if i < u.len() - 1 {
                    assert(u[i] < u[u.len() - 1]);
                }
                assert(u[i] <= u.last());
                assert(u.last() < s.last());
            } else {
                assert(u[i] < u[j]);
            }
        }
        if u.contains(x) {
            let i = choose|i: int| 0 <= i < u.len() && u[i] == x;
            assert(t[i] == x);
        }
        if x == s.last() {
            assert(t[u.len() as int] == x);
        }
        if s.contains(x) {
            let i = choose|i: int| 0 <= i < s.len() && s[i] == x;
            if i < front.len() {
                assert(front[i] == x);
            }
        }
        if front.contains(x) {
            let i = choose|i: int| 0 <= i < front.len() && front[i] == x;
            assert(s[i] == x);
        }
        if t.contains(x) {
            let i = choose|i: int| 0 <= i < t.len() && t[i] == x;
            if i < u.len() {
                assert(u[i] == x);
            } else {
                assert(s[s.len() - 1] == x);
            }
        }
    }
}

/// The columns recorded for a scan are in ascending order, and are exactly
/// those referred to.
pub proof fn recorded_columns_are_those_referred_to(s: Seq<usize>, n: nat, x: usize)
    requires
        n <= s.len(),
    ensures
        ascending(column_set(s, n)),
        column_set(s, n).contains(x) <==> s.take(n as int).contains(x),
    decreases n,
{
    if n > 0 {
        recorded_columns_are_those_referred_to(s, (n - 1) as nat, x);
        lemma_with_column(column_set(s, (n - 1) as nat), s[n - 1], x);
        let a = s.take(n - 1);
        let b = s.take(n as int);
        if a.contains(x) {
            let i = choose|i: int| 0 <= i < a.len() && a[i] == x;
            assert(b[i] == x);
        }
        if x == s[n - 1] {
            assert(b[n - 1] == x);
        }
        if b.contains(x) {
            let i = choose|i: int| 0 <= i < b.len() && b[i] == x;
            if i < n - 1 {
                assert(a[i] == x);
            }
        }
    }
}

/// A scan that knows which columns are needed; `None` when it knew already, or
/// when as many are needed as there are.
pub open spec fn narrowed(scan: PlanView, referred: Seq<usize>) -> Option<PlanView> {
    match scan {
        PlanView::TableScan { table_name, source, projection, filters, schema } => {
            let needed = column_set(referred, referred.len());
            if projection is Some || needed.len() == schema.len() {
                None
            } else {
                Some(
                    PlanView::TableScan {
                        table_name,
                        source,
                        projection: Some(needed),
                        filters,
                        schema,
                    },
                )
            }
        },
        _ => None,
    }
}

/// A projection over a scan, or over a filter of one, with the columns recorded
/// that are needed.
pub open spec fn with_recorded_columns(p: PlanView) -> Rewritten<PlanView> {
    match p {
        PlanView::Projection { input, exprs, schema } => {
            let referred = columns_of_all(exprs, exprs.len());
            match *input {
                PlanView::Filter { input: scan, predicate } => match narrowed(
                    *scan,
                    referred + columns_of(predicate),
                ) {
                    Some(scan) => Rewritten {
                        changed: true,
                        node: PlanView::Projection {
                            input: Box::new(
                                PlanView::Filter { input: Box::new(scan), predicate },
                            ),
                            exprs,
                            schema,
                        },
                    },
                    None => Rewritten { changed: false, node: p },
                },
                _ => match narrowed(*input, referred) {
                    Some(scan) => Rewritten {
                        changed: true,
                        node: PlanView::Projection { input: Box::new(scan), exprs, schema },
                    },
                    None => Rewritten { changed: false, node: p },
                },
            }
        },
        _ => Rewritten { changed: false, node: p },
    }
}

/// Adds a column to columns in ascending order.
fn add_column(s: &mut Vec<usize>, c: usize)
    ensures
        final(s)@ == with_column(old(s)@, c),
{
    let ghost all = s@;
    let mut tail: Vec<usize> = Vec::new();
    let ghost mut rest: Seq<usize> = seq![];
    assert(with_column(s@, c) + rest =~= with_column(all, c));
    while s.len() > 0 && s[s.len() - 1] > c
        invariant
            with_column(s@, c) + rest == with_column(all, c),
            rest.len() == tail@.len(),
            forall|k: int| 0 <= k < tail@.len() ==> #[trigger] tail@[k] == rest[rest.len() - 1 - k],
        decreases s@.len(),
    {
        let ghost before = s@;
        match s.pop() {
            Some(x) => {
                proof {
                    assert(with_column(before, c) == with_column(before.drop_last(), c).push(x));
                    assert(with_column(before, c) + rest =~= with_column(s@, c) + (seq![x] + rest));
                    rest = seq![x] + rest;
                }
                tail.push(x);
            },
            None => {},
        }
    }
    if s.len() == 0 || s[s.len() - 1] < c {
        s.push(c);
    }
    let ghost head = s@;
    assert(head + rest == with_column(all, c));
    assert(rest.take(0) =~= seq![]);
    assert(head + rest.take(0) =~= head);
    let ghost total = tail@.len();
    while tail.len() > 0
        invariant
            rest.len() == total,
            tail@.len() <= total,
            forall|k: int| 0 <= k < tail@.len() ==> #[trigger] tail@[k] == rest[rest.len() - 1 - k],
            s@ == head + rest.take(total - tail@.len()),
        decreases tail@.len(),
    {
        let ghost at = total - tail@.len();
        match tail.pop() {
            Some(x) => {
                s.push(x);
                assert(head + rest.take(at + 1) =~= (head + rest.take(at)).push(rest[at]));
            },
            None => {},
        }
    }
    assert(rest.take(total as int) =~= rest);
}

/// Columns in ascending order, each once.
fn distinct_columns(referred: &Vec<usize>) -> (r: Vec<usize>)
    ensures
        r@ == column_set(referred@, referred@.len()),
{
    let mut out: Vec<usize> = Vec::new();
    let mut i: usize = 0;
    while i < referred.len()
        invariant
            i <= referred@.len(),
            out@ == column_set(referred@, i as nat),
        decreases referred@.len() - i,
    {
        add_column(&mut out, referred[i]);
        i = i + 1;
    }
    out
}

fn append_columns(out: &mut Vec<usize>, more: &Vec<usize>)
    ensures
        final(out)@ == old(out)@ + more@,
{
    let ghost before = out@;
    let mut k: usize = 0;
    assert(before + more@.take(0) =~= before);
    while k < more.len()
        invariant
            k <= more@.len(),
            out@ == before + more@.take(k as int),
        decreases more@.len() - k,
    {
        out.push(more[k]);
        assert(before + more@.take(k + 1) =~= (before + more@.take(k as int)).push(
            more@[k as int],
        ));
        k = k + 1;
    }
    assert(more@.take(k as int) =~= more@);
}

fn required_columns_for_exprs(exprs: &Vec<Expr>) -> (r: Vec<usize>)
    ensures
        r@ == columns_of_all(expr_views(exprs@), exprs@.len()),
{
    let ghost ev = expr_views(exprs@);
    let mut out: Vec<usize> = Vec::new();
    let mut i: usize = 0;
    while i < exprs.len()
        invariant
            i <= exprs@.len(),
            ev == expr_views(exprs@),
            out@ == columns_of_all(ev, i as nat),
        decreases exprs@.len() - i,
    {
        assert(ev[i as int] == exprs@[i as int]@);
        let more = referenced_columns(&exprs[i]);
        append_columns(&mut out, &more);
        i = i + 1;
    }
    out
}

/// A scan that knows which columns are needed.
fn narrow_scan(scan: &LogicalPlan, referred: &Vec<usize>) -> (r: Option<LogicalPlan>)
    ensures
        match r {
            Some(p) => narrowed(scan@, referred@) == Some(p@),
            None => narrowed(scan@, referred@) is None,
        },
{
    match scan {
        LogicalPlan::TableScan { table_name, source, projection, filters, schema } => {
            if projection.is_some() {
                return None;
            }
            let columns = distinct_columns(referred);
            if columns.len() == schema.len() {
                return None;
            }
            Some(
                LogicalPlan::TableScan {
                    table_name: table_name.clone(),
                    source: source.copy(),
                    projection: Some(columns),
                    filters: copy_exprs(filters),
                    schema: share(schema),
                },
            )
        },
        _ => None,
    }
}

#[derive(Debug)]
pub struct ProjectionPushdown;

impl OptimizerRule for ProjectionPushdown {
    open spec fn rewrite(&self, known: Knowledge, plan: PlanView) -> Result<
        Rewritten<PlanView>,
        ErrorKind,
    > {
        Ok(with_recorded_columns(plan))
    }

    open spec fn title(&self) -> Seq<char> {
        "projection_pushdown"@
    }

    open spec fn order(&self) -> ApplyOrder {
        ApplyOrder::TopDown
    }

    open spec fn measure(&self, plan: PlanView) -> nat {
        plan_height(plan)
    }

    proof fn ends(&self, known: Knowledge) {
        let step = |p: PlanView| self.rewrite(known, p);
        assert forall|m: PlanView, i: int|
            #![trigger step(m), <LogicalPlan as TreeNode>::parts(step(m)->Ok_0.node)[i]]
            step(m) is Ok && 0 <= i < <LogicalPlan as TreeNode>::parts(
                step(m)->Ok_0.node,
            ).len() implies plan_height(
            <LogicalPlan as TreeNode>::parts(step(m)->Ok_0.node)[i],
        ) < plan_height(m) by {
            let r = with_recorded_columns(m);
            reveal_with_fuel(plan_height, 4);
            <LogicalPlan as TreeNode>::parts_are_lower(r.node, i);
            assert(plan_height(r.node) <= plan_height(m));
        }
    }

    fn name(&self) -> (r: &str) {
        "projection_pushdown"
    }

    fn apply<C: OptimizerContext>(&self, plan: LogicalPlan, ctx: &C) -> (r: Result<
        Transformed<LogicalPlan>,
        BasaltError,
    >) {
        match &plan {
            LogicalPlan::Projection { input, exprs, schema } => {
                let mut referred = required_columns_for_exprs(exprs);
                match &**input {
                    LogicalPlan::Filter { input: scan, predicate } => {
                        assert(input@ == (PlanView::Filter {
                            input: Box::new(scan@),
                            predicate: predicate@,
                        }));
                        let more = referenced_columns(predicate);
                        append_columns(&mut referred, &more);
                        match narrow_scan(scan, &referred) {
                            Some(scan) => {
                                let filter = LogicalPlan::Filter {
                                    input: Arc::new(scan),
                                    predicate: predicate.copy(),
                                };
                                assert(filter@ == (PlanView::Filter {
                                    input: Box::new(scan@),
                                    predicate: predicate@,
                                }));
                                Ok(
                                    Transformed::Yes(
                                        LogicalPlan::Projection {
                                            input: Arc::new(filter),
                                            exprs: copy_exprs(exprs),
                                            schema: share(schema),
                                        },
                                    ),
                                )
                            },
                            None => Ok(Transformed::No(plan)),
                        }
                    },
                    _ => {
                        assert(!(input@ is Filter));
                        match narrow_scan(input, &referred) {
                            Some(scan) => Ok(
                                Transformed::Yes(
                                    LogicalPlan::Projection {
                                        input: Arc::new(scan),
                                        exprs: copy_exprs(exprs),
                                        schema: share(schema),
                                    },
                                ),
                            ),
                            None => Ok(Transformed::No(plan)),
                        }
                    },
                }
            },
            _ => Ok(Transformed::No(plan)),
        }
    }

    fn apply_order(&self) -> (r: ApplyOrder) {
        ApplyOrder::TopDown
    }
}

} // verus!
