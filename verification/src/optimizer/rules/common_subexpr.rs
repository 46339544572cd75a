//! A subexpression that a projection computes more than once is computed once,
//! by a projection below, and referred to as a column. One is taken out at a
//! time; further passes find the others.

use std::sync::Arc;
use vstd::prelude::*;

use crate::array::share;
use crate::error::{BasaltError, ErrorKind};
use crate::expr::expr::{
    eval, expr_equal, expr_nullable, expr_type, expr_views, expr_with_children, Expr, ExprView,
};
use crate::logical_plan::plan::{plan_schema, LogicalPlan, PlanView};
use crate::optimizer::rule::{ApplyOrder, Knowledge, OptimizerContext, OptimizerRule};
use crate::optimizer::rules::common::{
    columns_of, columns_satisfy, expr_outcome, lemma_up_expr, whole,
};
use crate::optimizer::tree_node::{callable, implements, outcome, Rewritten, Step, Transformed};
use crate::types::data_type::DataType;
use crate::types::value::ValueView;
use crate::types::schema::{copy_fields, field_views, Field, FieldView, Schema, SchemaRef};

verus! {

/// The subexpressions of an expression that are worth computing once, each
/// before those within it.
pub open spec fn subexprs(e: ExprView) -> Seq<ExprView>
    decreases e,
{
    match e {
        ExprView::Column { index, data_type, nullable } => seq![],
        ExprView::Literal(v) => seq![],
        ExprView::Binary { left, op, right } => seq![e] + subexprs(*left) + subexprs(*right),
        ExprView::Unary { op, expr } => seq![e] + subexprs(*expr),
        ExprView::Cast { expr, to } => seq![e] + subexprs(*expr),
        ExprView::IsNull(inner) => seq![e] + subexprs(*inner),
        ExprView::IsNotNull(inner) => seq![e] + subexprs(*inner),
    }
}

/// The same for the first `n` expressions of a list.
pub open spec fn all_subexprs(exprs: Seq<ExprView>, n: nat) -> Seq<ExprView>
    decreases n,
{
    if n == 0 {
        seq![]
    } else {
        all_subexprs(exprs, (n - 1) as nat) + subexprs(exprs[n - 1])
    }
}

/// The first of the counted expressions that is the same as `e`.
pub open spec fn counted_at(counted: Seq<(ExprView, int)>, e: ExprView, n: nat) -> Option<int>
    decreases n,
{
    if n == 0 {
        None
    } else {
        match counted_at(counted, e, (n - 1) as nat) {
            Some(i) => Some(i),
            None => if expr_equal(counted[n - 1].0, e) {
                Some(n - 1)
            } else {
                None
            },
        }
    }
}

/// How often each of the first `n` expressions occurs, in the order of first
/// occurrence.
pub open spec fn counts(exprs: Seq<ExprView>, n: nat) -> Seq<(ExprView, int)>
    decreases n,
{
    if n == 0 {
        seq![]
    } else {
        let before = counts(exprs, (n - 1) as nat);
        match counted_at(before, exprs[n - 1], before.len()) {
            Some(i) => before.update(i, (before[i].0, before[i].1 + 1)),
            None => before.push((exprs[n - 1], 1)),
        }
    }
}

/// A sum of sizes, cut off at the greatest count.
pub open spec fn capped(n: int) -> int {
    if n > usize::MAX {
        usize::MAX as int
    } else {
        n
    }
}

/// The number of nodes of an expression, cut off at the greatest count.
pub open spec fn node_count(e: ExprView) -> int
    decreases e,
{
    match e {
        ExprView::Column { index, data_type, nullable } => 1,
        ExprView::Literal(v) => 1,
        ExprView::Binary { left, op, right } => capped(
            capped(1 + node_count(*left)) + node_count(*right),
        ),
        ExprView::Unary { op, expr } => capped(1 + node_count(*expr)),
        ExprView::Cast { expr, to } => capped(1 + node_count(*expr)),
        ExprView::IsNull(inner) => capped(1 + node_count(*inner)),
        ExprView::IsNotNull(inner) => capped(1 + node_count(*inner)),
    }
}

/// Whether `a` is to be taken rather than `b`: it occurs more often, or as
/// often and is as large or larger.
pub open spec fn preferred(a: (ExprView, int), b: (ExprView, int)) -> bool {
    a.1 > b.1 || (a.1 == b.1 && node_count(a.0) >= node_count(b.0))
}

/// The one to take among the first `n`; of equals the last.
pub open spec fn pick(counted: Seq<(ExprView, int)>, n: nat) -> Option<(ExprView, int)>
    decreases n,
{
    if n == 0 {
        None
    } else {
        let best = pick(counted, (n - 1) as nat);
        let c = counted[n - 1];
        if c.1 <= 1 {
            best
        } else {
            match best {
                None => Some(c),
                Some(b) => if preferred(c, b) {
                    Some(c)
                } else {
                    Some(b)
                },
            }
        }
    }
}

/// The subexpression that expressions compute most often, if any more than
/// once.
pub open spec fn most_repeated(exprs: Seq<ExprView>) -> Option<ExprView> {
    let all = all_subexprs(exprs, exprs.len());
    let counted = counts(all, all.len());
    match pick(counted, counted.len()) {
        Some(c) => Some(c.0),
        None => None,
    }
}

/// One node replaced where it is the target.
pub open spec fn replace_step(target: ExprView, replacement: ExprView) -> Step<ExprView> {
    |e: ExprView|
        if expr_equal(e, target) {
            Ok(Rewritten { changed: true, node: replacement })
        } else {
            Ok(Rewritten { changed: false, node: e })
        }
}

/// The first `n` expressions with the target replaced, or the first error.
pub open spec fn replaced(
    exprs: Seq<ExprView>,
    target: ExprView,
    replacement: ExprView,
    n: nat,
) -> Result<Seq<ExprView>, ErrorKind>
    decreases n,
{
    if n == 0 {
        Ok(seq![])
    } else {
        match replaced(exprs, target, replacement, (n - 1) as nat) {
            Err(k) => Err(k),
            Ok(done) => match whole(replace_step(target, replacement))(exprs[n - 1]) {
                Err(k) => Err(k),
                Ok(x) => Ok(done.push(x)),
            },
        }
    }
}

/// A reference to each field of a schema.
pub open spec fn all_columns(schema: Seq<FieldView>) -> Seq<ExprView> {
    Seq::new(
        schema.len(),
        |i: int|
            ExprView::Column {
                index: i as usize,
                data_type: schema[i].data_type,
                nullable: schema[i].nullable,
            },
    )
}

/// The field of the shared column.
pub open spec fn shared_field(e: ExprView) -> FieldView {
    FieldView { name: "__cse"@, data_type: expr_type(e)->0, nullable: expr_nullable(e) }
}

/// A projection with its most repeated subexpression taken out.
pub open spec fn without_repetition(p: PlanView) -> Result<Rewritten<PlanView>, ErrorKind> {
    match p {
        PlanView::Projection { input, exprs, schema } => match most_repeated(exprs) {
            None => Ok(Rewritten { changed: false, node: p }),
            Some(e) => if expr_type(e) is None {
                Ok(Rewritten { changed: false, node: p })
            } else {
                let own = plan_schema(*input);
                let column = ExprView::Column {
                    index: own.len() as usize,
                    data_type: expr_type(e)->0,
                    nullable: expr_nullable(e),
                };
                match replaced(exprs, e, column, exprs.len()) {
                    Err(k) => Err(k),
                    Ok(upper) => Ok(
                        Rewritten {
                            changed: true,
                            node: PlanView::Projection {
                                input: Box::new(
                                    PlanView::Projection {
                                        input,
                                        exprs: all_columns(own).push(e),
                                        schema: own.push(shared_field(e)),
                                    },
                                ),
                                exprs: upper,
                                schema,
                            },
                        },
                    ),
                }
            },
        },
        _ => Ok(Rewritten { changed: false, node: p }),
    }
}

/// Whether an expression holds no literal zero. A zero with a sign is the same
/// as one without where literals are compared, but does not compute the same.
pub open spec fn no_zero_literal(e: ExprView) -> bool
    decreases e,
{
    match e {
        ExprView::Column { index, data_type, nullable } => true,
        ExprView::Literal(v) => v matches ValueView::Float64(x) ==> x.magnitude() != 0,
        ExprView::Binary { left, op, right } => no_zero_literal(*left) && no_zero_literal(*right),
        ExprView::Unary { op, expr } => no_zero_literal(*expr),
        ExprView::Cast { expr, to } => no_zero_literal(*expr),
        ExprView::IsNull(inner) => no_zero_literal(*inner),
        ExprView::IsNotNull(inner) => no_zero_literal(*inner),
    }
}

pub proof fn lemma_equal_is_same(a: ExprView, b: ExprView)
    requires
        expr_equal(a, b),
        no_zero_literal(b),
    ensures
        a == b,
    decreases a,
{
    match (a, b) {
        (
            ExprView::Binary { left: l, op: o, right: r },
            ExprView::Binary { left: m, op: p, right: s },
        ) => {
            lemma_equal_is_same(*l, *m);
            lemma_equal_is_same(*r, *s);
        },
        (ExprView::Unary { op: o, expr: x }, ExprView::Unary { op: p, expr: y }) => {
            lemma_equal_is_same(*x, *y);
        },
        (ExprView::Cast { expr: x, to: t }, ExprView::Cast { expr: y, to: u }) => {
            lemma_equal_is_same(*x, *y);
        },
        (ExprView::IsNull(x), ExprView::IsNull(y)) => {
            lemma_equal_is_same(*x, *y);
        },
        (ExprView::IsNotNull(x), ExprView::IsNotNull(y)) => {
            lemma_equal_is_same(*x, *y);
        },
        _ => {},
    }
}

/// An expression that refers to the shared column has, on a row with the shared
/// value at its end, the value that it had before on the row without.
pub proof fn sharing_keeps_values(
    e: ExprView,
    target: ExprView,
    row: Seq<ValueView>,
    v: ValueView,
    data_type: DataType,
    nullable: bool,
)
    requires
        no_zero_literal(target),
        row.len() < usize::MAX,
        eval(target, row) == Ok::<ValueView, ErrorKind>(v),
        columns_satisfy(e, |c: usize| c < row.len()),
    ensures
        ({
            let column = ExprView::Column { index: row.len() as usize, data_type, nullable };
            &&& whole(replace_step(target, column))(e) is Ok
            &&& eval(whole(replace_step(target, column))(e)->Ok_0, row.push(v)) == eval(e, row)
        }),
    decreases e,
{
    let column = ExprView::Column { index: row.len() as usize, data_type, nullable };
    let step = replace_step(target, column);
    let p = |c: usize| c < row.len();
    lemma_up_expr(e, step);
    match e {
        ExprView::Column { index, data_type: t, nullable: n } => {
            assert(columns_of(e)[0] == index);
            assert(p(columns_of(e)[0]));
            lemma_replaced_node(e, e, target, row, v, data_type, nullable);
        },
        ExprView::Literal(x) => {
            lemma_replaced_node(e, e, target, row, v, data_type, nullable);
        },
        ExprView::Binary { left, op, right } => {
            let l = columns_of(*left);
            let r = columns_of(*right);
            assert forall|i: int| 0 <= i < l.len() implies p(#[trigger] l[i]) by {
                assert(columns_of(e)[i] == l[i]);
            }
            assert forall|i: int| 0 <= i < r.len() implies p(#[trigger] r[i]) by {
                assert(columns_of(e)[l.len() + i] == r[i]);
            }
            sharing_keeps_values(*left, target, row, v, data_type, nullable);
            sharing_keeps_values(*right, target, row, v, data_type, nullable);
            let a = whole(step)(*left)->Ok_0;
            let b = whole(step)(*right)->Ok_0;
            lemma_replaced_node(
                e,
                expr_with_children(e, seq![a, b]),
                target,
                row,
                v,
                data_type,
                nullable,
            );
        },
        ExprView::Unary { op, expr } => {
            assert(columns_of(e) == columns_of(*expr));
            sharing_keeps_values(*expr, target, row, v, data_type, nullable);
            let a = whole(step)(*expr)->Ok_0;
            lemma_replaced_node(
                e,
                expr_with_children(e, seq![a]),
                target,
                row,
                v,
                data_type,
                nullable,
            );
        },
        ExprView::Cast { expr, to } => {
            assert(columns_of(e) == columns_of(*expr));
            sharing_keeps_values(*expr, target, row, v, data_type, nullable);
            let a = whole(step)(*expr)->Ok_0;
            lemma_replaced_node(
                e,
                expr_with_children(e, seq![a]),
                target,
                row,
                v,
                data_type,
                nullable,
            );
        },
        ExprView::IsNull(inner) => {
            assert(columns_of(e) == columns_of(*inner));
            sharing_keeps_values(*inner, target, row, v, data_type, nullable);
            let a = whole(step)(*inner)->Ok_0;
            lemma_replaced_node(
                e,
                expr_with_children(e, seq![a]),
                target,
                row,
                v,
                data_type,
                nullable,
            );
        },
        ExprView::IsNotNull(inner) => {
            assert(columns_of(e) == columns_of(*inner));
            sharing_keeps_values(*inner, target, row, v, data_type, nullable);
            let a = whole(step)(*inner)->Ok_0;
            lemma_replaced_node(
                e,
                expr_with_children(e, seq![a]),
                target,
                row,
                v,
                data_type,
                nullable,
            );
        },
    }
}

/// One node over replaced operands.
proof fn lemma_replaced_node(
    e: ExprView,
    node: ExprView,
    target: ExprView,
    row: Seq<ValueView>,
    v: ValueView,
    data_type: DataType,
    nullable: bool,
)
    requires
        no_zero_literal(target),
        row.len() < usize::MAX,
        eval(target, row) == Ok::<ValueView, ErrorKind>(v),
        eval(node, row.push(v)) == eval(e, row),
    ensures
        ({
            let column = ExprView::Column { index: row.len() as usize, data_type, nullable };
            let r = replace_step(target, column)(node)->Ok_0;
            eval(r.node, row.push(v)) == eval(e, row)
        }),
{
    if expr_equal(node, target) {
        lemma_equal_is_same(node, target);
        lemma_longer_row(target, row, v);
    }
}

proof fn lemma_longer_row(e: ExprView, row: Seq<ValueView>, v: ValueView)
    requires
        eval(e, row) is Ok,
    ensures
        eval(e, row.push(v)) == eval(e, row),
    decreases e,
{
    match e {
        ExprView::Binary { left, op, right } => {
            lemma_longer_row(*left, row, v);
            lemma_longer_row(*right, row, v);
        },
        ExprView::Unary { op, expr } => {
            lemma_longer_row(*expr, row, v);
        },
        ExprView::Cast { expr, to } => {
            lemma_longer_row(*expr, row, v);
        },
        ExprView::IsNull(inner) => {
            lemma_longer_row(*inner, row, v);
        },
        ExprView::IsNotNull(inner) => {
            lemma_longer_row(*inner, row, v);
        },
        _ => {},
    }
}

proof fn lemma_counted_at(counted: Seq<(ExprView, int)>, e: ExprView, n: nat)
    requires
        n <= counted.len(),
        counted_at(counted, e, n) is Some,
    ensures
        counted_at(counted, e, counted.len()) == counted_at(counted, e, n),
    decreases counted.len() - n,
{
    if n < counted.len() {
        lemma_counted_at(counted, e, n + 1);
    }
}

proof fn lemma_counted_range(counted: Seq<(ExprView, int)>, e: ExprView, n: nat)
    ensures
        counted_at(counted, e, n) matches Some(i) ==> 0 <= i < n,
    decreases n,
{
    if n > 0 {
        lemma_counted_range(counted, e, (n - 1) as nat);
    }
}

proof fn lemma_replaced_error(
    exprs: Seq<ExprView>,
    target: ExprView,
    replacement: ExprView,
    m: nat,
    n: nat,
)
    requires
        m <= n,
        replaced(exprs, target, replacement, m) is Err,
    ensures
        replaced(exprs, target, replacement, n) == replaced(exprs, target, replacement, m),
    decreases n - m,
{
    if m < n {
        lemma_replaced_error(exprs, target, replacement, m, (n - 1) as nat);
    }
}

fn add_capped(a: usize, b: usize) -> (r: usize)
    ensures
        r == capped(a + b),
{
    match a.checked_add(b) {
        Some(n) => n,
        None => usize::MAX,
    }
}

/// The number of nodes of an expression.
fn count_nodes(expr: &Expr) -> (r: usize)
    ensures
        r == node_count(expr@),
    decreases expr,
{
    match expr {
        Expr::Column { index, data_type, nullable } => 1,
        Expr::Literal(v) => 1,
        Expr::Binary { left, op, right } => {
            let l: usize = count_nodes(left);
            let r: usize = count_nodes(right);
            add_capped(add_capped(1, l), r)
        },
        Expr::Unary { op, expr: inner } => add_capped(1, count_nodes(inner)),
        Expr::Cast { expr: inner, to } => add_capped(1, count_nodes(inner)),
        Expr::IsNull(inner) => add_capped(1, count_nodes(inner)),
        Expr::IsNotNull(inner) => add_capped(1, count_nodes(inner)),
    }
}

/// Appends the subexpressions that are worth computing once.
fn collect_subexprs(expr: &Expr, out: &mut Vec<Expr>)
    ensures
        expr_views(final(out)@) == expr_views(old(out)@) + subexprs(expr@),
    decreases expr,
{
    let ghost before = expr_views(out@);
    match expr {
        Expr::Column { index, data_type, nullable } => {
            assert(before + subexprs(expr@) =~= before);
            return;
        },
        Expr::Literal(v) => {
            assert(before + subexprs(expr@) =~= before);
            return;
        },
        _ => {},
    }
    out.push(expr.copy());
    assert(expr_views(out@) =~= before + seq![expr@]);
    match expr {
        Expr::Binary { left, op, right } => {
            collect_subexprs(left, out);
            collect_subexprs(right, out);
        },
        Expr::Unary { op, expr: inner } => {
            collect_subexprs(inner, out);
        },
        Expr::Cast { expr: inner, to } => {
            collect_subexprs(inner, out);
        },
        Expr::IsNull(inner) => {
            collect_subexprs(inner, out);
        },
        Expr::IsNotNull(inner) => {
            collect_subexprs(inner, out);
        },
        _ => {},
    }
    assert(expr_views(out@) =~= before + subexprs(expr@));
}

/// The models of counted expressions.
pub open spec fn counted_views(v: Seq<(Expr, usize)>) -> Seq<(ExprView, int)> {
    Seq::new(v.len(), |i: int| (v[i].0@, v[i].1 as int))
}

/// The subexpression that expressions compute most often.
fn find_most_repeated_subexpr(exprs: &Vec<Expr>) -> (r: Option<Expr>)
    ensures
        match r {
            Some(e) => most_repeated(expr_views(exprs@)) == Some(e@),
            None => most_repeated(expr_views(exprs@)) is None,
        },
{
    let ghost ev = expr_views(exprs@);
    let mut candidates: Vec<Expr> = Vec::new();
    let mut i: usize = 0;
    assert(expr_views(candidates@) =~= seq![]);
    while i < exprs.len()
        invariant
            i <= exprs@.len(),
            ev == expr_views(exprs@),
            expr_views(candidates@) == all_subexprs(ev, i as nat),
        decreases exprs@.len() - i,
    {
        assert(ev[i as int] == exprs@[i as int]@);
        collect_subexprs(&exprs[i], &mut candidates);
        i = i + 1;
    }
    let ghost all = all_subexprs(ev, ev.len());
    let mut counted: Vec<(Expr, usize)> = Vec::new();
    let mut i: usize = 0;
    assert(counted_views(counted@) =~= seq![]);
    while i < candidates.len()
        invariant
            i <= candidates@.len(),
            expr_views(candidates@) == all,
            counted_views(counted@) == counts(all, i as nat),
            forall|k: int| 0 <= k < counted@.len() ==> (#[trigger] counted@[k]).1 <= i,
        decreases candidates@.len() - i,
    {
        let ghost cv = counted_views(counted@);
        let e = &candidates[i];
        assert(all[i as int] == e@);
        let mut k: usize = 0;
        while k < counted.len() && !counted[k].0.equals(e)
            invariant
                k <= counted@.len(),
                cv == counted_views(counted@),
                counted_at(cv, e@, k as nat) is None,
            decreases counted@.len() - k,
        {
            assert(cv[k as int] == (counted@[k as int].0@, counted@[k as int].1 as int));
            k = k + 1;
        }
        if k < counted.len() {
            proof {
                assert(cv[k as int] == (counted@[k as int].0@, counted@[k as int].1 as int));
                lemma_counted_at(cv, e@, (k + 1) as nat);
                assert(counted@[k as int].1 <= i);
            }
            let n: usize = counted[k].1 + 1;
            let again = counted[k].0.copy();
            let ghost before = counted@;
            counted.set(k, (again, n));
            proof {
                assert(counted_views(counted@) =~= cv.update(k as int, (cv[k as int].0, n as int)));
                assert forall|q: int| 0 <= q < counted@.len() implies (#[trigger] counted@[q]).1 <= i
                    + 1 by {
                    if q != k {
                        assert(counted@[q] == before[q]);
                    }
                }
            }
        } else {
            let ghost before = counted@;
            counted.push((e.copy(), 1));
            proof {
                assert(counted_views(counted@) =~= cv.push((e@, 1)));
                assert forall|q: int| 0 <= q < counted@.len() implies (#[trigger] counted@[q]).1 <= i
                    + 1 by {
                    if q < before.len() {
                        assert(counted@[q] == before[q]);
                    }
                }
            }
        }
        i = i + 1;
    }
    assert(all.len() == candidates@.len());
    let ghost cv = counted_views(counted@);
    let mut best: Option<usize> = None;
    let mut i: usize = 0;
    while i < counted.len()
        invariant
            i <= counted@.len(),
            cv == counted_views(counted@),
            match best {
                Some(b) => b < i && pick(cv, i as nat) == Some(cv[b as int]),
                None => pick(cv, i as nat) is None,
            },
        decreases counted@.len() - i,
    {
        assert(cv[i as int] == (counted@[i as int].0@, counted@[i as int].1 as int));
        if counted[i].1 > 1 {
            match best {
                None => {
                    best = Some(i);
                },
                Some(b) => {
                    assert(cv[b as int] == (counted@[b as int].0@, counted@[b as int].1 as int));
                    let more = counted[i].1 > counted[b].1;
                    let as_often = counted[i].1 == counted[b].1;
                    if more || (as_often && count_nodes(&counted[i].0) >= count_nodes(
                        &counted[b].0,
                    )) {
                        best = Some(i);
                    }
                },
            }
        }
        i = i + 1;
    }
    match best {
        Some(b) => {
            assert(cv[b as int].0 == counted@[b as int].0@);
            Some(counted[b].0.copy())
        },
        None => None,
    }
}

/// Replaces every occurrence of `target` in an expression.
fn replace_subexpr(expr: &Expr, target: &Expr, replacement: &Expr) -> (r: Result<
    Expr,
    BasaltError,
>)
    ensures
        expr_outcome(r) == whole(replace_step(target@, replacement@))(expr@),
{
    let f = |e: Expr| -> (r: Result<Transformed<Expr>, BasaltError>)
        ensures
            outcome(r) == replace_step(target@, replacement@)(e@),
        {
            if e.equals(target) {
                Ok(Transformed::Yes(replacement.copy()))
            } else {
                Ok(Transformed::No(e))
            }
        };
    assert(callable::<Expr, _>(f));
    assert(implements::<Expr, _>(f, replace_step(target@, replacement@)));
    match expr.transform_up(&f) {
        Ok(t) => Ok(t.into_inner()),
        Err(e) => Err(e),
    }
}

#[derive(Debug)]
pub struct CommonSubexprEliminate;

impl OptimizerRule for CommonSubexprEliminate {
    open spec fn rewrite(&self, known: Knowledge, plan: PlanView) -> Result<
        Rewritten<PlanView>,
        ErrorKind,
    > {
        without_repetition(plan)
    }

    open spec fn title(&self) -> Seq<char> {
        "common_subexpression_elimination"@
    }

    open spec fn order(&self) -> ApplyOrder {
        ApplyOrder::BottomUp
    }

    open spec fn measure(&self, plan: PlanView) -> nat {
        0
    }

    proof fn ends(&self, known: Knowledge) {
    }

    fn name(&self) -> (r: &str) {
        "common_subexpression_elimination"
    }

    fn apply<C: OptimizerContext>(&self, plan: LogicalPlan, ctx: &C) -> (r: Result<
        Transformed<LogicalPlan>,
        BasaltError,
    >) {
        match &plan {
            LogicalPlan::Projection { input, exprs, schema } => {
                let repeated = match find_most_repeated_subexpr(exprs) {
                    Some(e) => e,
                    None => {
                        return Ok(Transformed::No(plan));
                    },
                };
                let data_type = match repeated.data_type() {
                    Ok(t) => t,
                    Err(_) => {
                        return Ok(Transformed::No(plan));
                    },
                };
                let nullable = repeated.nullable();
                let own = input.schema();
                let fields = own.fields();
                let width: usize = fields.len();
                let mut lower_fields: Vec<Field> = copy_fields(fields);
                let shared = Field::new("__cse", data_type, nullable);
                let mut lower_exprs: Vec<Expr> = Vec::new();
                let mut i: usize = 0;
                assert(expr_views(lower_exprs@) =~= all_columns(own@).take(0));
                while i < width
                    invariant
                        i <= width,
                        width == own@.len(),
                        fields@.len() == width,
                        field_views(fields@) == own@,
                        expr_views(lower_exprs@) == all_columns(own@).take(i as int),
                    decreases width - i,
                {
                    let ghost was = expr_views(lower_exprs@);
                    assert(own@[i as int] == fields@[i as int]@);
                    lower_exprs.push(
                        Expr::Column {
                            index: i,
                            data_type: fields[i].data_type,
                            nullable: fields[i].nullable,
                        },
                    );
                    proof {
                        let c = all_columns(own@)[i as int];
                        assert(expr_views(lower_exprs@) =~= was.push(c));
                        assert(all_columns(own@).take(i + 1) =~= all_columns(own@).take(
                            i as int,
                        ).push(c));
                    }
                    i = i + 1;
                }
                assert(all_columns(own@).take(i as int) =~= all_columns(own@));
                lower_fields.push(shared);
                proof {
                    assert(field_views(lower_fields@) =~= own@.push(shared_field(repeated@)));
                }
                let lower_schema: SchemaRef = Arc::new(
                    Schema::new_allow_duplicate_names(lower_fields),
                );
                let replacement = Expr::Column { index: width, data_type, nullable };
                let ghost ev = expr_views(exprs@);
                let mut upper: Vec<Expr> = Vec::new();
                let mut i: usize = 0;
                assert(expr_views(upper@) =~= seq![]);
                while i < exprs.len()
                    invariant
                        i <= exprs@.len(),
                        ev == expr_views(exprs@),
                        replaced(ev, repeated@, replacement@, i as nat) == Ok::<
                            Seq<ExprView>,
                            ErrorKind,
                        >(expr_views(upper@)),
                        plan@ == (PlanView::Projection {
                            input: Box::new(input@),
                            exprs: ev,
                            schema: schema@,
                        }),
                        own@ == plan_schema(input@),
                        width == own@.len(),
                        most_repeated(ev) == Some(repeated@),
                        expr_type(repeated@) == Some(data_type),
                        expr_nullable(repeated@) == nullable,
                        replacement@ == (ExprView::Column { index: width, data_type, nullable }),
                    decreases exprs@.len() - i,
                {
                    assert(ev[i as int] == exprs@[i as int]@);
                    match replace_subexpr(&exprs[i], &repeated, &replacement) {
                        Ok(x) => {
                            let ghost was = expr_views(upper@);
                            upper.push(x);
                            assert(expr_views(upper@) =~= was.push(x@));
                        },
                        Err(k) => {
                            proof {
                                lemma_replaced_error(
                                    ev,
                                    repeated@,
                                    replacement@,
                                    (i + 1) as nat,
                                    ev.len(),
                                );
                            }
                            return Err(k);
                        },
                    }
                    i = i + 1;
                }
                let ghost was = expr_views(lower_exprs@);
                lower_exprs.push(repeated);
                assert(expr_views(lower_exprs@) =~= was.push(repeated@));
                let lower = LogicalPlan::Projection {
                    input: share(input),
                    exprs: lower_exprs,
                    schema: lower_schema,
                };
                assert(lower@ == (PlanView::Projection {
                    input: Box::new(input@),
                    exprs: all_columns(own@).push(repeated@),
                    schema: own@.push(shared_field(repeated@)),
                }));
                Ok(
                    Transformed::Yes(
                        LogicalPlan::Projection {
                            input: Arc::new(lower),
                            exprs: upper,
                            schema: share(schema),
                        },
                    ),
                )
            },
            _ => Ok(Transformed::No(plan)),
        }
    }

    fn apply_order(&self) -> (r: ApplyOrder) {
        ApplyOrder::BottomUp
    }
}

} // verus!
