//! Filters move towards the scans, so that rows go before anything expensive
//! touches them.
//!
//! | Below the filter | What moves |
//! |---|---|
//! | `Projection` | conjuncts over columns that the projection passes on as they are |
//! | inner `Join` | left-only conjuncts to the left, right-only ones to the right; an equality of a column of each side becomes a key, and what else looks at both sides the join's condition |
//! | left `Join` | left-only conjuncts to the left, nothing to the right |
//! | right `Join` | right-only conjuncts to the right, nothing to the left |
//! | left semi or anti `Join` | left-only conjuncts to the left |
//! | full `Join`, right semi or anti `Join` | nothing |
//! | `Aggregate` | conjuncts over grouping columns |
//! | `Sort` | all |
//! | `Limit` | nothing: a filter below would change which rows the limit keeps |
//! | `TableScan` | the conjuncts are noted on the scan, for skipping row groups, and the filter stays |
//!
//! A filter that moved into the null-producing side of an outer join would
//! remove rows before the join fills in nulls for those that found no partner:
//! a row whose partner was removed would come out padded instead of not at
//! all. The side whose rows are all kept has no such problem.

use std::sync::Arc;
use vstd::prelude::*;

use crate::array::share;
use crate::error::{BasaltError, ErrorKind};
use crate::expr::expr::{
    copy_exprs, eval, expr_equal, expr_views, Expr, ExprView,
};
use crate::logical_plan::plan::{
    aggregate_views, columns_view, copy_aggregates, copy_columns, copy_option, copy_pairs,
    copy_sort_exprs, option_view, pair_views, plan_schema, sort_expr_views, JoinType, LogicalPlan,
    PlanView, AggregateView,
};
use crate::optimizer::rule::{ApplyOrder, Knowledge, OptimizerContext, OptimizerRule};
use crate::optimizer::rules::common::{
    columns_of, columns_satisfy, conjunction, conjuncts, equi_pair, flatten_conjuncts,
    lemma_conjuncts_nonempty, rebase_columns, rebuild_conjuncts, rebuilding_conjuncts_keeps_values,
    referenced_columns, renumbering_keeps_values, renumbers, rewrite_columns, shift_down,
    split_equi_join_conjunct, with_columns,
};
use crate::optimizer::tree_node::{Rewritten, Transformed};
use crate::types::coercion::BinaryOp;
use crate::types::schema::FieldView;
use crate::types::value::{binary_value, ValueView};

verus! {

// ---------------------------------------------------------------------------
// Scans

/// Whether a list holds an expression that is the same as `e`.
pub open spec fn noted(filters: Seq<ExprView>, e: ExprView) -> bool {
    exists|k: int| 0 <= k < filters.len() && expr_equal(#[trigger] filters[k], e)
}

/// Those of the first `n` expressions that a list does not hold.
pub open spec fn not_noted(filters: Seq<ExprView>, s: Seq<ExprView>, n: nat) -> Seq<ExprView>
    decreases n,
{
    if n == 0 {
        seq![]
    } else {
        let before = not_noted(filters, s, (n - 1) as nat);
        if noted(filters, s[n - 1]) {
            before
        } else {
            before.push(s[n - 1])
        }
    }
}

/// A filter over a scan, its conjuncts noted on the scan.
pub open spec fn into_scan(scan: PlanView, predicate: ExprView) -> Rewritten<PlanView> {
    match scan {
        PlanView::TableScan { table_name, source, projection, filters, schema } => {
            let s = conjuncts(predicate);
            let added = not_noted(filters, s, s.len());
            if added.len() == 0 {
                Rewritten {
                    changed: false,
                    node: PlanView::Filter { input: Box::new(scan), predicate },
                }
            } else {
                Rewritten {
                    changed: true,
                    node: PlanView::Filter {
                        input: Box::new(
                            PlanView::TableScan {
                                table_name,
                                source,
                                projection,
                                filters: filters + added,
                                schema,
                            },
                        ),
                        predicate,
                    },
                }
            }
        },
        _ => Rewritten {
            changed: false,
            node: PlanView::Filter { input: Box::new(scan), predicate },
        },
    }
}

// ---------------------------------------------------------------------------
// Projections and aggregates

/// Whether every column of a conjunct is passed on as it is.
pub open spec fn passed_on(c: ExprView, exprs: Seq<ExprView>) -> bool {
    columns_satisfy(c, |i: usize| i < exprs.len() && exprs[i as int] is Column)
}

/// The input column that an output column passes on.
pub open spec fn source_column(exprs: Seq<ExprView>) -> spec_fn(usize) -> usize {
    |i: usize|
        if i < exprs.len() && exprs[i as int] is Column {
            exprs[i as int]->index
        } else {
            i
        }
}

/// Those of the first `n` conjuncts whose columns are all passed on, over the
/// input's columns.
pub open spec fn below(s: Seq<ExprView>, exprs: Seq<ExprView>, n: nat) -> Seq<ExprView>
    decreases n,
{
    if n == 0 {
        seq![]
    } else {
        let before = below(s, exprs, (n - 1) as nat);
        if passed_on(s[n - 1], exprs) {
            before.push(with_columns(s[n - 1], source_column(exprs)))
        } else {
            before
        }
    }
}

/// The others.
pub open spec fn above(s: Seq<ExprView>, exprs: Seq<ExprView>, n: nat) -> Seq<ExprView>
    decreases n,
{
    if n == 0 {
        seq![]
    } else {
        let before = above(s, exprs, (n - 1) as nat);
        if passed_on(s[n - 1], exprs) {
            before
        } else {
            before.push(s[n - 1])
        }
    }
}

/// A plan with a filter over it; the plan itself without conjuncts.
pub open spec fn filtered(input: PlanView, s: Seq<ExprView>) -> PlanView {
    if s.len() == 0 {
        input
    } else {
        PlanView::Filter { input: Box::new(input), predicate: conjunction(s) }
    }
}

/// A filter over a projection.
pub open spec fn through_projection(
    input: PlanView,
    exprs: Seq<ExprView>,
    schema: Seq<FieldView>,
    predicate: ExprView,
) -> Rewritten<PlanView> {
    let s = conjuncts(predicate);
    let moved = below(s, exprs, s.len());
    let stays = above(s, exprs, s.len());
    Rewritten {
        changed: moved.len() > 0,
        node: filtered(
            PlanView::Projection { input: Box::new(filtered(input, moved)), exprs, schema },
            stays,
        ),
    }
}

/// A filter over an aggregation. Without grouping columns nothing moves: the
/// one row of such an aggregation is there whatever its input holds.
pub open spec fn through_aggregate(
    input: PlanView,
    group_expr: Seq<ExprView>,
    aggr_expr: Seq<AggregateView>,
    schema: Seq<FieldView>,
    predicate: ExprView,
) -> Rewritten<PlanView> {
    let s = conjuncts(predicate);
    let moved = if group_expr.len() == 0 {
        seq![]
    } else {
        below(s, group_expr, s.len())
    };
    let stays = if group_expr.len() == 0 {
        s
    } else {
        above(s, group_expr, s.len())
    };
    Rewritten {
        changed: moved.len() > 0,
        node: filtered(
            PlanView::Aggregate {
                input: Box::new(filtered(input, moved)),
                group_expr,
                aggr_expr,
                schema,
            },
            stays,
        ),
    }
}

// ---------------------------------------------------------------------------
// Joins

/// Where a conjunct over a join belongs.
#[derive(Clone, Copy, Debug, PartialEq, Eq, Structural)]
pub enum Place {
    Left,
    Right,
    /// It equates a column of each side and becomes a key.
    Key,
    /// It stays behind; in an inner join it becomes part of the condition where
    /// anything moves.
    Stays,
}

/// Whether some column of an expression is one of the left side's.
pub open spec fn touches_left(c: ExprView, left_width: int) -> bool {
    exists|i: int| 0 <= i < columns_of(c).len() && (#[trigger] columns_of(c)[i]) < left_width
}

/// Whether some column of an expression is one of the right side's.
pub open spec fn touches_right(c: ExprView, left_width: int) -> bool {
    exists|i: int| 0 <= i < columns_of(c).len() && (#[trigger] columns_of(c)[i]) >= left_width
}

/// Whether the rows that a join delivers begin with the rows of its left side,
/// none of which it makes up.
pub open spec fn keeps_left_rows(join_type: JoinType) -> bool {
    ||| join_type == JoinType::Inner
    ||| join_type == JoinType::Left
    ||| join_type == JoinType::LeftSemi
    ||| join_type == JoinType::LeftAnti
}

/// Where a conjunct over a join belongs. Nothing goes to the side that the
/// join fills with nulls. Of the semi and anti joins, those that deliver left
/// rows take conjuncts over them on the left.
pub open spec fn place(c: ExprView, left_width: int, join_type: JoinType) -> Place {
    let l = touches_left(c, left_width);
    let r = touches_right(c, left_width);
    if l && !r {
        if keeps_left_rows(join_type) {
            Place::Left
        } else {
            Place::Stays
        }
    } else if r && !l {
        if join_type == JoinType::Inner || join_type == JoinType::Right {
            Place::Right
        } else {
            Place::Stays
        }
    } else if l && r && join_type == JoinType::Inner && equi_pair(c, left_width) is Some {
        Place::Key
    } else {
        Place::Stays
    }
}

/// Those of the first `n` conjuncts that belong in a place.
pub open spec fn placed(
    s: Seq<ExprView>,
    left_width: int,
    join_type: JoinType,
    at: Place,
    n: nat,
) -> Seq<ExprView>
    decreases n,
{
    if n == 0 {
        seq![]
    } else {
        let before = placed(s, left_width, join_type, at, (n - 1) as nat);
        if place(s[n - 1], left_width, join_type) == at {
            before.push(s[n - 1])
        } else {
            before
        }
    }
}

/// Conjuncts over the right side's own columns.
pub open spec fn rebased(s: Seq<ExprView>, left_width: int) -> Seq<ExprView> {
    Seq::new(s.len(), |i: int| with_columns(s[i], shift_down(left_width as usize)))
}

/// The keys that conjuncts become.
pub open spec fn keys_of(s: Seq<ExprView>, left_width: int) -> Seq<(ExprView, ExprView)> {
    Seq::new(s.len(), |i: int| equi_pair(s[i], left_width)->Some_0)
}

/// The condition of a join with conjuncts added behind it.
pub open spec fn joined_condition(filter: Option<ExprView>, s: Seq<ExprView>) -> Option<ExprView> {
    if s.len() == 0 {
        filter
    } else {
        match filter {
            Some(e) => Some(conjunction(seq![e] + s)),
            None => Some(conjunction(s)),
        }
    }
}

/// Whether some of the conjuncts looks at both sides of a join.
pub open spec fn some_mixed(s: Seq<ExprView>, left_width: int) -> bool {
    exists|i: int|
        0 <= i < s.len() && touches_left(#[trigger] s[i], left_width) && touches_right(
            s[i],
            left_width,
        )
}

/// Whether nothing of a filter over a join moves. In an inner join, a conjunct
/// that looks at both sides does: it becomes part of the join's condition.
pub open spec fn nothing_moves(s: Seq<ExprView>, left_width: int, join_type: JoinType) -> bool {
    &&& placed(s, left_width, join_type, Place::Left, s.len()).len() == 0
    &&& placed(s, left_width, join_type, Place::Right, s.len()).len() == 0
    &&& placed(s, left_width, join_type, Place::Key, s.len()).len() == 0
    &&& !(join_type == JoinType::Inner && some_mixed(s, left_width))
}

/// A filter over a join.
pub open spec fn through_join(join: PlanView, predicate: ExprView) -> Rewritten<PlanView> {
    match join {
        PlanView::Join { left, right, on, filter, join_type, schema } => if join_type
            == JoinType::Full {
            Rewritten {
                changed: false,
                node: PlanView::Filter { input: Box::new(join), predicate },
            }
        } else {
            let s = conjuncts(predicate);
            let w = plan_schema(*left).len() as int;
            let to_left = placed(s, w, join_type, Place::Left, s.len());
            let to_right = placed(s, w, join_type, Place::Right, s.len());
            let to_keys = placed(s, w, join_type, Place::Key, s.len());
            let stays = placed(s, w, join_type, Place::Stays, s.len());
            if nothing_moves(s, w, join_type) {
                Rewritten {
                    changed: false,
                    node: PlanView::Filter { input: Box::new(join), predicate: conjunction(stays) },
                }
            } else {
                let inner = join_type == JoinType::Inner;
                let new_join = PlanView::Join {
                    left: Box::new(filtered(*left, to_left)),
                    right: Box::new(filtered(*right, rebased(to_right, w))),
                    on: on + keys_of(to_keys, w),
                    filter: if inner {
                        joined_condition(filter, stays)
                    } else {
                        filter
                    },
                    join_type,
                    schema,
                };
                Rewritten {
                    changed: true,
                    node: if inner {
                        new_join
                    } else {
                        filtered(new_join, stays)
                    },
                }
            }
        },
        _ => Rewritten {
            changed: false,
            node: PlanView::Filter { input: Box::new(join), predicate },
        },
    }
}

/// A filter moved one step towards the scans.
pub open spec fn pushed_down(p: PlanView) -> Rewritten<PlanView> {
    match p {
        PlanView::Filter { input, predicate } => match *input {
            PlanView::TableScan { table_name, source, projection, filters, schema } => into_scan(
                *input,
                predicate,
            ),
            PlanView::Projection { input: below, exprs, schema } => through_projection(
                *below,
                exprs,
                schema,
                predicate,
            ),
            PlanView::Join { left, right, on, filter, join_type, schema } => through_join(
                *input,
                predicate,
            ),
            PlanView::Aggregate { input: below, group_expr, aggr_expr, schema } => through_aggregate(
                *below,
                group_expr,
                aggr_expr,
                schema,
                predicate,
            ),
            PlanView::Sort { input: below, exprs } => Rewritten {
                changed: true,
                node: PlanView::Sort {
                    input: Box::new(PlanView::Filter { input: below, predicate }),
                    exprs,
                },
            },
            _ => Rewritten { changed: false, node: p },
        },
        _ => Rewritten { changed: false, node: p },
    }
}

// ---------------------------------------------------------------------------
// What moving a filter leaves unchanged

/// Whether a row passes a condition.
pub open spec fn passes(e: ExprView, row: Seq<ValueView>) -> bool {
    eval(e, row) == Ok::<ValueView, ErrorKind>(ValueView::Boolean(true))
}

/// Whether a row passes every condition of a list.
pub open spec fn passes_all(s: Seq<ExprView>, row: Seq<ValueView>) -> bool {
    forall|i: int| 0 <= i < s.len() ==> passes(#[trigger] s[i], row)
}

pub proof fn lemma_conjunction_passes(s: Seq<ExprView>, row: Seq<ValueView>)
    requires
        s.len() > 0,
    ensures
        passes(conjunction(s), row) <==> passes_all(s, row),
    decreases s.len(),
{
    if s.len() > 1 {
        let front = s.drop_last();
        lemma_conjunction_passes(front, row);
        reveal_with_fuel(eval, 2);
        assert(passes(conjunction(s), row) <==> passes(conjunction(front), row) && passes(
            s.last(),
            row,
        ));
        if passes_all(s, row) {
            assert forall|i: int| 0 <= i < front.len() implies passes(#[trigger] front[i], row) by {
                assert(front[i] == s[i]);
            }
            assert(passes(s[s.len() - 1], row));
        }
        if passes_all(front, row) && passes(s.last(), row) {
            assert forall|i: int| 0 <= i < s.len() implies passes(#[trigger] s[i], row) by {
                if i < front.len() {
                    assert(s[i] == front[i]);
                }
            }
        }
    } else {
        if passes(s[0], row) {
            assert(passes_all(s, row));
        }
    }
}

pub proof fn lemma_predicate_passes(predicate: ExprView, row: Seq<ValueView>)
    ensures
        passes(predicate, row) <==> passes_all(conjuncts(predicate), row),
{
    lemma_conjuncts_nonempty(predicate);
    lemma_conjunction_passes(conjuncts(predicate), row);
    rebuilding_conjuncts_keeps_values(predicate, row, ValueView::Boolean(true));
}

/// A conjunct that moves to one side of a join has the same value on that
/// side's row as on the joined row, whatever the other side contributed: its
/// partner's values, or nulls.
pub proof fn conjuncts_mean_the_same_below_a_join(
    c: ExprView,
    join_type: JoinType,
    l: Seq<ValueView>,
    r: Seq<ValueView>,
)
    requires
        l.len() <= usize::MAX,
    ensures
        place(c, l.len() as int, join_type) == Place::Left ==> eval(c, l) == eval(c, l + r),
        place(c, l.len() as int, join_type) == Place::Right ==> eval(
            with_columns(c, shift_down(l.len() as usize)),
            r,
        ) == eval(c, l + r),
{
    let w = l.len() as int;
    let cols = columns_of(c);
    if place(c, w, join_type) == Place::Left {
        let same = |i: usize| i;
        assert forall|i: int| 0 <= i < cols.len() implies {
            let k = #[trigger] cols[i];
            &&& k < l.len() <==> same(k) < (l + r).len()
            &&& k < l.len() ==> l[k as int] == (l + r)[same(k) as int]
        } by {
            assert(cols[i] < w);
        }
        renumbering_keeps_values(c, same, l, l + r);
        lemma_same_columns(c, same);
    }
    if place(c, w, join_type) == Place::Right {
        let g = shift_down(l.len() as usize);
        assert forall|i: int| 0 <= i < cols.len() implies {
            let k = #[trigger] cols[i];
            &&& k < (l + r).len() <==> g(k) < r.len()
            &&& k < (l + r).len() ==> (l + r)[k as int] == r[g(k) as int]
        } by {
            assert(cols[i] >= w);
        }
        renumbering_keeps_values(c, g, l + r, r);
    }
}

proof fn lemma_same_columns(e: ExprView, g: spec_fn(usize) -> usize)
    requires
        forall|i: usize| #[trigger] g(i) == i,
    ensures
        with_columns(e, g) == e,
    decreases e,
{
    match e {
        ExprView::Binary { left, op, right } => {
            lemma_same_columns(*left, g);
            lemma_same_columns(*right, g);
        },
        ExprView::Unary { op, expr } => {
            lemma_same_columns(*expr, g);
        },
        ExprView::Cast { expr, to } => {
            lemma_same_columns(*expr, g);
        },
        ExprView::IsNull(inner) => {
            lemma_same_columns(*inner, g);
        },
        ExprView::IsNotNull(inner) => {
            lemma_same_columns(*inner, g);
        },
        _ => {},
    }
}

/// No conjunct moves into the side of an outer join that is filled with nulls,
/// nor into the side of a semi or anti join that it delivers no rows of.
pub proof fn null_producing_sides_get_no_filter(c: ExprView, left_width: int)
    ensures
        place(c, left_width, JoinType::Left) != Place::Right,
        place(c, left_width, JoinType::Right) != Place::Left,
        place(c, left_width, JoinType::Full) == Place::Stays,
        place(c, left_width, JoinType::LeftSemi) != Place::Right,
        place(c, left_width, JoinType::LeftAnti) != Place::Right,
        place(c, left_width, JoinType::RightSemi) != Place::Left,
        place(c, left_width, JoinType::RightAnti) != Place::Left,
{
}

/// An equality that becomes a key compares the two sides' values, each taken
/// from its own row.
pub proof fn keys_compare_the_same_values(c: ExprView, l: Seq<ValueView>, r: Seq<ValueView>)
    requires
        l.len() + r.len() <= usize::MAX,
        equi_pair(c, l.len() as int) is Some,
    ensures
        ({
            let pair = equi_pair(c, l.len() as int)->Some_0;
            match (eval(pair.0, l), eval(pair.1, r)) {
                (Ok(x), Ok(y)) => {
                    ||| eval(c, l + r) == binary_value(BinaryOp::Eq, x, y)
                    ||| eval(c, l + r) == binary_value(BinaryOp::Eq, y, x)
                },
                _ => eval(c, l + r) is Err,
            }
        }),
{
    reveal_with_fuel(eval, 2);
}

pub proof fn lemma_placed_pass(
    s: Seq<ExprView>,
    w: int,
    join_type: JoinType,
    row: Seq<ValueView>,
    n: nat,
)
    requires
        n <= s.len(),
    ensures
        passes_all(s.take(n as int), row) <==> {
            &&& passes_all(placed(s, w, join_type, Place::Left, n), row)
            &&& passes_all(placed(s, w, join_type, Place::Right, n), row)
            &&& passes_all(placed(s, w, join_type, Place::Key, n), row)
            &&& passes_all(placed(s, w, join_type, Place::Stays, n), row)
        },
    decreases n,
{
    if n > 0 {
        let m = (n - 1) as nat;
        lemma_placed_pass(s, w, join_type, row, m);
        lemma_passes_push(s.take(m as int), s[m as int], row);
        assert(s.take(n as int) =~= s.take(m as int).push(s[m as int]));
        lemma_passes_push(placed(s, w, join_type, Place::Left, m), s[m as int], row);
        lemma_passes_push(placed(s, w, join_type, Place::Right, m), s[m as int], row);
        lemma_passes_push(placed(s, w, join_type, Place::Key, m), s[m as int], row);
        lemma_passes_push(placed(s, w, join_type, Place::Stays, m), s[m as int], row);
    }
}

proof fn lemma_passes_push(s: Seq<ExprView>, e: ExprView, row: Seq<ValueView>)
    ensures
        passes_all(s.push(e), row) <==> passes_all(s, row) && passes(e, row),
{
    let t = s.push(e);
    if passes_all(t, row) {
        assert forall|i: int| 0 <= i < s.len() implies passes(#[trigger] s[i], row) by {
            assert(t[i] == s[i]);
        }
        assert(t[s.len() as int] == e);
    }
    if passes_all(s, row) && passes(e, row) {
        assert forall|i: int| 0 <= i < t.len() implies passes(#[trigger] t[i], row) by {
            if i < s.len() {
                assert(t[i] == s[i]);
            }
        }
    }
}

pub proof fn lemma_placed_at(
    s: Seq<ExprView>,
    w: int,
    join_type: JoinType,
    at: Place,
    n: nat,
    i: int,
)
    requires
        0 <= i < placed(s, w, join_type, at, n).len(),
    ensures
        place(placed(s, w, join_type, at, n)[i], w, join_type) == at,
    decreases n,
{
    if n > 0 {
        let before = placed(s, w, join_type, at, (n - 1) as nat);
        if i < before.len() {
            lemma_placed_at(s, w, join_type, at, (n - 1) as nat, i);
        }
    }
}

/// A joined row passes a filter exactly when its left part passes what moves to
/// the left, its right part what moves to the right, and the whole row what
/// becomes a key and what stays.
pub proof fn split_filters_pass_the_same_rows(
    predicate: ExprView,
    join_type: JoinType,
    l: Seq<ValueView>,
    r: Seq<ValueView>,
)
    requires
        l.len() <= usize::MAX,
    ensures
        ({
            let s = conjuncts(predicate);
            let w = l.len() as int;
            passes(predicate, l + r) <==> {
                &&& passes_all(placed(s, w, join_type, Place::Left, s.len()), l)
                &&& passes_all(rebased(placed(s, w, join_type, Place::Right, s.len()), w), r)
                &&& passes_all(placed(s, w, join_type, Place::Key, s.len()), l + r)
                &&& passes_all(placed(s, w, join_type, Place::Stays, s.len()), l + r)
            }
        }),
{
    let s = conjuncts(predicate);
    let w = l.len() as int;
    let row = l + r;
    lemma_predicate_passes(predicate, row);
    assert(s.take(s.len() as int) =~= s);
    lemma_placed_pass(s, w, join_type, row, s.len());
    let a = placed(s, w, join_type, Place::Left, s.len());
    assert forall|i: int| 0 <= i < a.len() implies passes(#[trigger] a[i], l) == passes(a[i], row) by {
        lemma_placed_at(s, w, join_type, Place::Left, s.len(), i);
        conjuncts_mean_the_same_below_a_join(a[i], join_type, l, r);
    }
    let b = placed(s, w, join_type, Place::Right, s.len());
    let c = rebased(b, w);
    assert forall|i: int| 0 <= i < b.len() implies passes(#[trigger] c[i], r) == passes(
        b[i],
        row,
    ) by {
        lemma_placed_at(s, w, join_type, Place::Right, s.len(), i);
        conjuncts_mean_the_same_below_a_join(b[i], join_type, l, r);
    }
    assert(passes_all(a, l) <==> passes_all(a, row));
    if passes_all(c, r) {
        assert forall|i: int| 0 <= i < b.len() implies passes(#[trigger] b[i], row) by {
            assert(passes(c[i], r));
        }
    }
    if passes_all(b, row) {
        assert forall|i: int| 0 <= i < c.len() implies passes(#[trigger] c[i], r) by {
            assert(passes(b[i], row));
        }
    }
}

/// A conjunct that moves below a projection or an aggregation has the same
/// value on the row below as on the row above.
pub proof fn conjuncts_mean_the_same_below_columns(
    c: ExprView,
    exprs: Seq<ExprView>,
    lower: Seq<ValueView>,
    upper: Seq<ValueView>,
)
    requires
        passed_on(c, exprs),
        upper.len() >= exprs.len(),
        forall|i: int|
            0 <= i < exprs.len() && exprs[i] is Column ==> eval(#[trigger] exprs[i], lower) == Ok::<
                ValueView,
                ErrorKind,
            >(upper[i]),
    ensures
        eval(with_columns(c, source_column(exprs)), lower) == eval(c, upper),
{
    let g = source_column(exprs);
    let cols = columns_of(c);
    let p = |i: usize| i < exprs.len() && exprs[i as int] is Column;
    assert forall|i: int| 0 <= i < cols.len() implies {
        let k = #[trigger] cols[i];
        &&& k < upper.len() <==> g(k) < lower.len()
        &&& k < upper.len() ==> upper[k as int] == lower[g(k) as int]
    } by {
        assert(p(cols[i]));
        assert(eval(exprs[cols[i] as int], lower) is Ok);
    }
    renumbering_keeps_values(c, g, upper, lower);
}

// ---------------------------------------------------------------------------
// The rule

/// Whether a list holds an expression that is the same as `e`.
fn is_noted(filters: &Vec<Expr>, e: &Expr) -> (r: bool)
    ensures
        r == noted(expr_views(filters@), e@),
{
    let ghost fv = expr_views(filters@);
    let mut k: usize = 0;
    while k < filters.len()
        invariant
            k <= filters@.len(),
            fv == expr_views(filters@),
            forall|q: int| 0 <= q < k ==> !expr_equal(#[trigger] fv[q], e@),
        decreases filters@.len() - k,
    {
        assert(fv[k as int] == filters@[k as int]@);
        if filters[k].equals(e) {
            return true;
        }
        k = k + 1;
    }
    false
}

/// Notes the conjuncts of a filter on the scan below it.
fn push_into_scan(input: &Arc<LogicalPlan>, predicate: &Expr) -> (r: Transformed<LogicalPlan>)
    requires
        input@ is TableScan,
    ensures
        r is Yes == into_scan(input@, predicate@).changed,
        r.inner()@ == into_scan(input@, predicate@).node,
{
    match &**input {
        LogicalPlan::TableScan { table_name, source, projection, filters, schema } => {
            let ghost fv = expr_views(filters@);
            let ghost s = conjuncts(predicate@);
            assert(input@ == (PlanView::TableScan {
                table_name: table_name@,
                source: source@,
                projection: columns_view(*projection),
                filters: fv,
                schema: schema@,
            }));
            let list = flatten_conjuncts(predicate.copy());
            let mut all = copy_exprs(filters);
            let mut added: usize = 0;
            let mut i: usize = 0;
            assert(fv + not_noted(fv, s, 0) =~= fv);
            while i < list.len()
                invariant
                    i <= list@.len(),
                    fv == expr_views(filters@),
                    expr_views(list@) == s,
                    expr_views(all@) == fv + not_noted(fv, s, i as nat),
                    added == not_noted(fv, s, i as nat).len(),
                    added <= i,
                decreases list@.len() - i,
            {
                assert(s[i as int] == list@[i as int]@);
                if !is_noted(filters, &list[i]) {
                    let ghost was = expr_views(all@);
                    all.push(list[i].copy());
                    added = added + 1;
                    assert(expr_views(all@) =~= was.push(s[i as int]));
                    assert(was.push(s[i as int]) =~= fv + not_noted(fv, s, i as nat).push(
                        s[i as int],
                    ));
                }
                i = i + 1;
            }
            assert(s.len() == list@.len());
            if added == 0 {
                return Transformed::No(
                    LogicalPlan::Filter { input: share(input), predicate: predicate.copy() },
                );
            }
            let scan = LogicalPlan::TableScan {
                table_name: table_name.clone(),
                source: source.copy(),
                projection: copy_columns(projection),
                filters: all,
                schema: share(schema),
            };
            assert(scan@ == (PlanView::TableScan {
                table_name: table_name@,
                source: source@,
                projection: columns_view(*projection),
                filters: fv + not_noted(fv, s, s.len()),
                schema: schema@,
            }));
            Transformed::Yes(
                LogicalPlan::Filter { input: Arc::new(scan), predicate: predicate.copy() },
            )
        },
        _ => Transformed::No(
            LogicalPlan::Filter { input: share(input), predicate: predicate.copy() },
        ),
    }
}

/// A plan with a filter over it.
fn filter_over(input: Arc<LogicalPlan>, list: Vec<Expr>) -> (r: Arc<LogicalPlan>)
    ensures
        r@ == filtered(input@, expr_views(list@)),
{
    assert(expr_views(list@).len() == list@.len());
    if list.len() == 0 {
        input
    } else {
        Arc::new(LogicalPlan::Filter { input, predicate: rebuild_conjuncts(list) })
    }
}

/// The columns that expressions pass on as they are.
fn rewrite_through_passthrough(conjunct: &Expr, exprs: &Vec<Expr>) -> (r: Option<Expr>)
    ensures
        match r {
            Some(e) => passed_on(conjunct@, expr_views(exprs@)) && e@ == with_columns(
                conjunct@,
                source_column(expr_views(exprs@)),
            ),
            None => !passed_on(conjunct@, expr_views(exprs@)),
        },
{
    let ghost ev = expr_views(exprs@);
    let ghost p = |i: usize| i < ev.len() && ev[i as int] is Column;
    let cols = referenced_columns(conjunct);
    let mut k: usize = 0;
    while k < cols.len()
        invariant
            k <= cols@.len(),
            ev == expr_views(exprs@),
            cols@ == columns_of(conjunct@),
            p == (|i: usize| i < ev.len() && ev[i as int] is Column),
            forall|q: int| 0 <= q < k ==> p(#[trigger] cols@[q]),
        decreases cols@.len() - k,
    {
        let c: usize = cols[k];
        if c >= exprs.len() {
            assert(!p(columns_of(conjunct@)[k as int]));
            return None;
        }
        assert(ev[c as int] == exprs@[c as int]@);
        match &exprs[c] {
            Expr::Column { index, data_type, nullable } => {},
            _ => {
                assert(!p(columns_of(conjunct@)[k as int]));
                return None;
            },
        }
        k = k + 1;
    }
    let f = |i: usize| -> (r: usize)
        requires
            i < exprs@.len(),
            exprs@[i as int]@ is Column,
        ensures
            r == source_column(expr_views(exprs@))(i),
        {
            match &exprs[i] {
                Expr::Column { index, data_type, nullable } => *index,
                _ => i,
            }
        };
    proof {
        assert forall|i: int| 0 <= i < columns_of(conjunct@).len() implies f.requires(
            (#[trigger] columns_of(conjunct@)[i],),
        ) by {
            assert(p(cols@[i]));
            assert(ev[cols@[i] as int] == exprs@[cols@[i] as int]@);
        }
        assert(renumbers(f, source_column(ev)));
    }
    Some(rewrite_columns(conjunct, &f))
}

/// The conjuncts that go below expressions, and those that stay above.
fn split_passthrough(predicate: &Expr, exprs: &Vec<Expr>) -> (r: (Vec<Expr>, Vec<Expr>))
    ensures
        ({
            let s = conjuncts(predicate@);
            let ev = expr_views(exprs@);
            &&& expr_views(r.0@) == below(s, ev, s.len())
            &&& expr_views(r.1@) == above(s, ev, s.len())
        }),
{
    let ghost s = conjuncts(predicate@);
    let ghost ev = expr_views(exprs@);
    let list = flatten_conjuncts(predicate.copy());
    let mut pushable: Vec<Expr> = Vec::new();
    let mut residual: Vec<Expr> = Vec::new();
    let mut i: usize = 0;
    assert(expr_views(pushable@) =~= seq![]);
    assert(expr_views(residual@) =~= seq![]);
    while i < list.len()
        invariant
            i <= list@.len(),
            ev == expr_views(exprs@),
            expr_views(list@) == s,
            expr_views(pushable@) == below(s, ev, i as nat),
            expr_views(residual@) == above(s, ev, i as nat),
        decreases list@.len() - i,
    {
        assert(s[i as int] == list@[i as int]@);
        match rewrite_through_passthrough(&list[i], exprs) {
            Some(e) => {
                let ghost was = expr_views(pushable@);
                pushable.push(e);
                assert(expr_views(pushable@) =~= was.push(e@));
            },
            None => {
                let ghost was = expr_views(residual@);
                residual.push(list[i].copy());
                assert(expr_views(residual@) =~= was.push(s[i as int]));
            },
        }
        i = i + 1;
    }
    assert(s.len() == list@.len());
    (pushable, residual)
}

/// Moves a filter below a projection, as far as it can go.
fn push_through_projection(input: &LogicalPlan, predicate: &Expr) -> (r: Transformed<LogicalPlan>)
    requires
        input@ is Projection,
    ensures
        r is Yes == pushed_down(
            PlanView::Filter { input: Box::new(input@), predicate: predicate@ },
        ).changed,
        r.inner()@ == pushed_down(
            PlanView::Filter { input: Box::new(input@), predicate: predicate@ },
        ).node,
{
    match input {
        LogicalPlan::Projection { input: lower, exprs, schema } => {
            let ghost ev = expr_views(exprs@);
            assert(input@ == (PlanView::Projection {
                input: Box::new(lower@),
                exprs: ev,
                schema: schema@,
            }));
            let (pushable, residual) = split_passthrough(predicate, exprs);
            assert(expr_views(pushable@).len() == pushable@.len());
            let changed = pushable.len() > 0;
            let new_input = filter_over(share(lower), pushable);
            let projection = LogicalPlan::Projection {
                input: new_input,
                exprs: copy_exprs(exprs),
                schema: share(schema),
            };
            assert(projection@ == (PlanView::Projection {
                input: Box::new(new_input@),
                exprs: ev,
                schema: schema@,
            }));
            let out = filter_over(Arc::new(projection), residual);
            let plan = out.copy();
            if changed {
                Transformed::Yes(plan)
            } else {
                Transformed::No(plan)
            }
        },
        _ => Transformed::No(input.copy()),
    }
}

/// Moves a filter on grouping columns below an aggregation.
fn push_through_aggregate(input: &LogicalPlan, predicate: &Expr) -> (r: Transformed<LogicalPlan>)
    requires
        input@ is Aggregate,
    ensures
        r is Yes == pushed_down(
            PlanView::Filter { input: Box::new(input@), predicate: predicate@ },
        ).changed,
        r.inner()@ == pushed_down(
            PlanView::Filter { input: Box::new(input@), predicate: predicate@ },
        ).node,
{
    match input {
        LogicalPlan::Aggregate { input: lower, group_expr, aggr_expr, schema } => {
            let ghost ev = expr_views(group_expr@);
            assert(input@ == (PlanView::Aggregate {
                input: Box::new(lower@),
                group_expr: ev,
                aggr_expr: aggregate_views(aggr_expr@),
                schema: schema@,
            }));
            let (pushable, residual) = if group_expr.len() == 0 {
                let none: Vec<Expr> = Vec::new();
                assert(expr_views(none@) =~= seq![]);
                (none, flatten_conjuncts(predicate.copy()))
            } else {
                split_passthrough(predicate, group_expr)
            };
            assert(expr_views(pushable@).len() == pushable@.len());
            let changed = pushable.len() > 0;
            let new_input = filter_over(share(lower), pushable);
            let aggregate = LogicalPlan::Aggregate {
                input: new_input,
                group_expr: copy_exprs(group_expr),
                aggr_expr: copy_aggregates(aggr_expr),
                schema: share(schema),
            };
            assert(aggregate@ == (PlanView::Aggregate {
                input: Box::new(new_input@),
                group_expr: ev,
                aggr_expr: aggregate_views(aggr_expr@),
                schema: schema@,
            }));
            let out = filter_over(Arc::new(aggregate), residual);
            let plan = out.copy();
            if changed {
                Transformed::Yes(plan)
            } else {
                Transformed::No(plan)
            }
        },
        _ => Transformed::No(input.copy()),
    }
}

/// Whether a conjunct looks at the left side of a join, and at the right one.
fn sides_of(conjunct: &Expr, left_width: usize) -> (r: (bool, bool))
    ensures
        r.0 == touches_left(conjunct@, left_width as int),
        r.1 == touches_right(conjunct@, left_width as int),
{
    let cols = referenced_columns(conjunct);
    let ghost w = left_width as int;
    let mut on_left = false;
    let mut on_right = false;
    let mut k: usize = 0;
    while k < cols.len()
        invariant
            k <= cols@.len(),
            cols@ == columns_of(conjunct@),
            w == left_width,
            on_left <==> exists|i: int| 0 <= i < k && (#[trigger] columns_of(conjunct@)[i]) < w,
            on_right <==> exists|i: int| 0 <= i < k && (#[trigger] columns_of(conjunct@)[i]) >= w,
        decreases cols@.len() - k,
    {
        assert(cols@[k as int] == columns_of(conjunct@)[k as int]);
        if cols[k] < left_width {
            on_left = true;
        } else {
            on_right = true;
        }
        k = k + 1;
    }
    (on_left, on_right)
}

/// Where a conjunct over a join belongs.
fn place_of(conjunct: &Expr, left_width: usize, join_type: JoinType) -> (r: Place)
    ensures
        r == place(conjunct@, left_width as int, join_type),
{
    let (on_left, on_right) = sides_of(conjunct, left_width);
    if on_left && !on_right {
        match join_type {
            JoinType::Inner | JoinType::Left | JoinType::LeftSemi | JoinType::LeftAnti => {
                Place::Left
            },
            _ => Place::Stays,
        }
    } else if on_right && !on_left {
        if join_type == JoinType::Inner || join_type == JoinType::Right {
            Place::Right
        } else {
            Place::Stays
        }
    } else if on_left && on_right && join_type == JoinType::Inner && split_equi_join_conjunct(
        conjunct,
        left_width,
    ).is_some() {
        Place::Key
    } else {
        Place::Stays
    }
}

/// The conjuncts of a filter over a join, sorted by where they belong.
struct Placed {
    left: Vec<Expr>,
    right: Vec<Expr>,
    keys: Vec<(Expr, Expr)>,
    stays: Vec<Expr>,
    /// Whether any of them looks at both sides.
    mixed: bool,
}

fn place_conjuncts(predicate: &Expr, left_width: usize, join_type: JoinType) -> (r: Placed)
    ensures
        ({
            let s = conjuncts(predicate@);
            let w = left_width as int;
            &&& expr_views(r.left@) == placed(s, w, join_type, Place::Left, s.len())
            &&& expr_views(r.right@) == rebased(
                placed(s, w, join_type, Place::Right, s.len()),
                w,
            )
            &&& pair_views(r.keys@) == keys_of(placed(s, w, join_type, Place::Key, s.len()), w)
            &&& expr_views(r.stays@) == placed(s, w, join_type, Place::Stays, s.len())
            &&& r.mixed == some_mixed(s, w)
        }),
{
    let ghost s = conjuncts(predicate@);
    let ghost w = left_width as int;
    let list = flatten_conjuncts(predicate.copy());
    let mut left: Vec<Expr> = Vec::new();
    let mut right: Vec<Expr> = Vec::new();
    let mut keys: Vec<(Expr, Expr)> = Vec::new();
    let mut stays: Vec<Expr> = Vec::new();
    let mut mixed = false;
    let mut i: usize = 0;
    proof {
        assert(expr_views(left@) =~= seq![]);
        assert(expr_views(right@) =~= rebased(seq![], w));
        assert(pair_views(keys@) =~= keys_of(seq![], w));
        assert(expr_views(stays@) =~= seq![]);
    }
    while i < list.len()
        invariant
            i <= list@.len(),
            w == left_width,
            expr_views(list@) == s,
            expr_views(left@) == placed(s, w, join_type, Place::Left, i as nat),
            expr_views(right@) == rebased(placed(s, w, join_type, Place::Right, i as nat), w),
            pair_views(keys@) == keys_of(placed(s, w, join_type, Place::Key, i as nat), w),
            expr_views(stays@) == placed(s, w, join_type, Place::Stays, i as nat),
            mixed <==> exists|k: int|
                0 <= k < i && touches_left(#[trigger] s[k], w) && touches_right(s[k], w),
        decreases list@.len() - i,
    {
        let ghost c = s[i as int];
        assert(c == list@[i as int]@);
        let (on_left, on_right) = sides_of(&list[i], left_width);
        if on_left && on_right {
            mixed = true;
        }
        match place_of(&list[i], left_width, join_type) {
            Place::Left => {
                let ghost was = expr_views(left@);
                left.push(list[i].copy());
                assert(expr_views(left@) =~= was.push(c));
            },
            Place::Right => {
                let ghost was = expr_views(right@);
                proof {
                    let p = |k: usize| k >= left_width;
                    assert forall|q: int| 0 <= q < columns_of(c).len() implies p(
                        #[trigger] columns_of(c)[q],
                    ) by {
                        if columns_of(c)[q] < w {
                            assert(touches_left(c, w));
                        }
                    }
                }
                let e = rebase_columns(list[i].copy(), left_width);
                right.push(e);
                proof {
                    assert(expr_views(right@) =~= was.push(e@));
                    assert(was.push(e@) =~= rebased(
                        placed(s, w, join_type, Place::Right, i as nat).push(c),
                        w,
                    ));
                }
            },
            Place::Key => {
                match split_equi_join_conjunct(&list[i], left_width) {
                    Some((a, b)) => {
                        let ghost was = pair_views(keys@);
                        keys.push((a, b));
                        proof {
                            assert(pair_views(keys@) =~= was.push((a@, b@)));
                            assert(was.push((a@, b@)) =~= keys_of(
                                placed(s, w, join_type, Place::Key, i as nat).push(c),
                                w,
                            ));
                        }
                    },
                    None => {},
                }
            },
            Place::Stays => {
                let ghost was = expr_views(stays@);
                stays.push(list[i].copy());
                assert(expr_views(stays@) =~= was.push(c));
            },
        }
        i = i + 1;
    }
    assert(s.len() == list@.len());
    Placed { left, right, keys, stays, mixed }
}

/// The condition of a join with conjuncts added behind it.
fn add_to_condition(filter: &Option<Expr>, list: Vec<Expr>) -> (r: Option<Expr>)
    ensures
        option_view(r) == joined_condition(option_view(*filter), expr_views(list@)),
{
    assert(expr_views(list@).len() == list@.len());
    if list.len() == 0 {
        return copy_option(filter);
    }
    match filter {
        None => Some(rebuild_conjuncts(list)),
        Some(e) => {
            let ghost lv = expr_views(list@);
            let mut all: Vec<Expr> = Vec::new();
            all.push(e.copy());
            let mut i: usize = 0;
            assert(expr_views(all@) =~= seq![e@] + lv.take(0));
            while i < list.len()
                invariant
                    i <= list@.len(),
                    lv == expr_views(list@),
                    expr_views(all@) == seq![e@] + lv.take(i as int),
                decreases list@.len() - i,
            {
                let ghost was = expr_views(all@);
                all.push(list[i].copy());
                proof {
                    assert(expr_views(all@) =~= was.push(lv[i as int]));
                    assert(seq![e@] + lv.take(i + 1) =~= (seq![e@] + lv.take(i as int)).push(
                        lv[i as int],
                    ));
                }
                i = i + 1;
            }
            assert(lv.take(i as int) =~= lv);
            assert(expr_views(all@).len() == all@.len());
            Some(rebuild_conjuncts(all))
        },
    }
}

/// One list of key pairs behind another.
fn append_pairs(a: &Vec<(Expr, Expr)>, b: Vec<(Expr, Expr)>) -> (r: Vec<(Expr, Expr)>)
    ensures
        pair_views(r@) == pair_views(a@) + pair_views(b@),
{
    let mut out = copy_pairs(a);
    let ghost bv = pair_views(b@);
    let ghost av = pair_views(a@);
    let mut i: usize = 0;
    assert(av + bv.take(0) =~= av);
    while i < b.len()
        invariant
            i <= b@.len(),
            bv == pair_views(b@),
            pair_views(out@) == av + bv.take(i as int),
        decreases b@.len() - i,
    {
        let ghost was = pair_views(out@);
        out.push((b[i].0.copy(), b[i].1.copy()));
        proof {
            assert(pair_views(out@) =~= was.push(bv[i as int]));
            assert(av + bv.take(i + 1) =~= (av + bv.take(i as int)).push(bv[i as int]));
        }
        i = i + 1;
    }
    assert(bv.take(i as int) =~= bv);
    out
}

proof fn lemma_all_stay(s: Seq<ExprView>, w: int, join_type: JoinType, n: nat)
    ensures
        placed(s, w, join_type, Place::Left, n).len() + placed(
            s,
            w,
            join_type,
            Place::Right,
            n,
        ).len() + placed(s, w, join_type, Place::Key, n).len() + placed(
            s,
            w,
            join_type,
            Place::Stays,
            n,
        ).len() == n,
    decreases n,
{
    if n > 0 {
        lemma_all_stay(s, w, join_type, (n - 1) as nat);
    }
}

/// Moves the conjuncts of a filter over a join to where they belong.
fn push_through_join(input: &Arc<LogicalPlan>, predicate: &Expr) -> (r: Transformed<LogicalPlan>)
    requires
        input@ is Join,
    ensures
        r is Yes == through_join(input@, predicate@).changed,
        r.inner()@ == through_join(input@, predicate@).node,
{
    match &**input {
        LogicalPlan::Join { left, right, on, filter, join_type, schema } => {
            assert(input@ == (PlanView::Join {
                left: Box::new(left@),
                right: Box::new(right@),
                on: pair_views(on@),
                filter: option_view(*filter),
                join_type: *join_type,
                schema: schema@,
            }));
            if *join_type == JoinType::Full {
                return Transformed::No(
                    LogicalPlan::Filter { input: share(input), predicate: predicate.copy() },
                );
            }
            let left_width: usize = left.schema().len();
            let split = place_conjuncts(predicate, left_width, *join_type);
            let ghost s = conjuncts(predicate@);
            let ghost w = left_width as int;
            proof {
                lemma_conjuncts_nonempty(predicate@);
                lemma_all_stay(s, w, *join_type, s.len());
                assert(expr_views(split.left@).len() == split.left@.len());
                assert(expr_views(split.right@).len() == split.right@.len());
                assert(pair_views(split.keys@).len() == split.keys@.len());
                assert(expr_views(split.stays@).len() == split.stays@.len());
            }
            if split.left.len() == 0 && split.right.len() == 0 && split.keys.len() == 0 && !(
            *join_type == JoinType::Inner && split.mixed) {
                return Transformed::No(
                    LogicalPlan::Filter {
                        input: share(input),
                        predicate: rebuild_conjuncts(split.stays),
                    },
                );
            }
            let new_left = filter_over(share(left), split.left);
            let new_right = filter_over(share(right), split.right);
            let new_on = append_pairs(on, split.keys);
            if *join_type == JoinType::Inner {
                let new_filter = add_to_condition(filter, split.stays);
                return Transformed::Yes(
                    LogicalPlan::Join {
                        left: new_left,
                        right: new_right,
                        on: new_on,
                        filter: new_filter,
                        join_type: *join_type,
                        schema: share(schema),
                    },
                );
            }
            let join = LogicalPlan::Join {
                left: new_left,
                right: new_right,
                on: new_on,
                filter: copy_option(filter),
                join_type: *join_type,
                schema: share(schema),
            };
            assert(join@ == (PlanView::Join {
                left: Box::new(new_left@),
                right: Box::new(new_right@),
                on: pair_views(new_on@),
                filter: option_view(*filter),
                join_type: *join_type,
                schema: schema@,
            }));
            let out = filter_over(Arc::new(join), split.stays);
            Transformed::Yes(out.copy())
        },
        _ => Transformed::No(
            LogicalPlan::Filter { input: share(input), predicate: predicate.copy() },
        ),
    }
}

#[derive(Debug)]
pub struct PredicatePushdown;

impl OptimizerRule for PredicatePushdown {
    open spec fn rewrite(&self, known: Knowledge, plan: PlanView) -> Result<
        Rewritten<PlanView>,
        ErrorKind,
    > {
        Ok(pushed_down(plan))
    }

    open spec fn title(&self) -> Seq<char> {
        "predicate_pushdown"@
    }

    open spec fn order(&self) -> ApplyOrder {
        ApplyOrder::BottomUp
    }

    open spec fn measure(&self, plan: PlanView) -> nat {
        0
    }

    proof fn ends(&self, known: Knowledge) {
    }

    fn name(&self) -> (r: &str) {
        "predicate_pushdown"
    }

    fn apply<C: OptimizerContext>(&self, plan: LogicalPlan, ctx: &C) -> (r: Result<
        Transformed<LogicalPlan>,
        BasaltError,
    >) {
        match &plan {
            LogicalPlan::Filter { input, predicate } => {
                assert(plan@ == (PlanView::Filter {
                    input: Box::new(input@),
                    predicate: predicate@,
                }));
                match &**input {
                    LogicalPlan::TableScan { table_name, source, projection, filters, schema } => Ok(
                        push_into_scan(input, predicate),
                    ),
                    LogicalPlan::Projection { input: lower, exprs, schema } => Ok(
                        push_through_projection(input, predicate),
                    ),
                    LogicalPlan::Join { left, right, on, filter, join_type, schema } => Ok(
                        push_through_join(input, predicate),
                    ),
                    LogicalPlan::Aggregate { input: lower, group_expr, aggr_expr, schema } => Ok(
                        push_through_aggregate(input, predicate),
                    ),
                    LogicalPlan::Sort { input: lower, exprs } => {
                        assert(input@ == (PlanView::Sort {
                            input: Box::new(lower@),
                            exprs: sort_expr_views(exprs@),
                        }));
                        let filter = LogicalPlan::Filter {
                            input: share(lower),
                            predicate: predicate.copy(),
                        };
                        assert(filter@ == (PlanView::Filter {
                            input: Box::new(lower@),
                            predicate: predicate@,
                        }));
                        Ok(
                            Transformed::Yes(
                                LogicalPlan::Sort {
                                    input: Arc::new(filter),
                                    exprs: copy_sort_exprs(exprs),
                                },
                            ),
                        )
                    },
                    _ => Ok(Transformed::No(plan)),
                }
            },
            _ => Ok(Transformed::No(plan)),
        }
    }

    fn apply_order(&self) -> (r: ApplyOrder) {
        ApplyOrder::BottomUp
    }
}

} // verus!
