//! What the rules achieve: what is gone after a rule, and where what it moved
//! has gone to.

use vstd::prelude::*;

use crate::error::ErrorKind;
use crate::expr::expr::{
    binary, eval, expr_children, expr_equal, expr_nullable, expr_with_children, Expr, ExprView,
};
use crate::logical_plan::plan::{plan_schema, AggregateView, JoinType, PlanView, SortExprView};
use crate::optimizer::rules::common::{
    columns_of, columns_satisfy, conjunction, conjuncts, lemma_conjuncts_nonempty, lemma_up_expr,
    map_arguments, map_list, map_pairs, mapped, shift_down, with_columns, ExprMap,
};
use crate::optimizer::rules::constant_folding::fold_step;
use crate::optimizer::rules::eliminate_cross_join::{promoted, without_cross_join};
use crate::optimizer::rules::eliminate_filter::without_constant_filter;
use crate::optimizer::rules::limit_pushdown::limit_below;
use crate::optimizer::rules::merge_filters::merged;
use crate::optimizer::rules::predicate_pushdown::{
    below, not_noted, noted, placed, pushed_down, source_column, Place,
};
use crate::optimizer::rules::projection_pushdown::{
    ascending, column_set, columns_of_all, recorded_columns_are_those_referred_to,
    with_recorded_columns,
};
use crate::optimizer::rules::simplify_expressions::{simple, simplify_step, truth, whole_number};
use crate::optimizer::tree_node::up;
use crate::types::coercion::{BinaryOp, UnaryOp};
use crate::types::data_type::DataType;
use crate::types::schema::FieldView;
use crate::types::value::ValueView;

verus! {

// ---------------------------------------------------------------------------
// Expressions

/// The type of an expression of constants alone: integers, doubles and
/// booleans, arithmetic on numbers of one type, comparisons of integers, and
/// logic on booleans.
pub open spec fn constant_type(e: ExprView) -> Option<DataType>
    decreases e,
{
    match e {
        ExprView::Literal(v) => match v {
            ValueView::Int64(_) => Some(DataType::Int64),
            ValueView::Float64(_) => Some(DataType::Float64),
            ValueView::Boolean(_) => Some(DataType::Boolean),
            _ => None,
        },
        ExprView::Binary { left, op, right } => match (constant_type(*left), constant_type(*right)) {
            (Some(DataType::Int64), Some(DataType::Int64)) => if op.spec_is_arithmetic() {
                Some(DataType::Int64)
            } else if op.spec_is_comparison() {
                Some(DataType::Boolean)
            } else {
                None
            },
            (Some(DataType::Float64), Some(DataType::Float64)) => if op.spec_is_arithmetic() {
                Some(DataType::Float64)
            } else {
                None
            },
            (Some(DataType::Boolean), Some(DataType::Boolean)) => if op is And || op is Or {
                Some(DataType::Boolean)
            } else {
                None
            },
            _ => None,
        },
        ExprView::Unary { op, expr } => match (op, constant_type(*expr)) {
            (UnaryOp::Neg, Some(DataType::Int64)) => Some(DataType::Int64),
            (UnaryOp::Neg, Some(DataType::Float64)) => Some(DataType::Float64),
            (UnaryOp::Not, Some(DataType::Boolean)) => Some(DataType::Boolean),
            _ => None,
        },
        ExprView::IsNull(inner) => if constant_type(*inner) is Some {
            Some(DataType::Boolean)
        } else {
            None
        },
        ExprView::IsNotNull(inner) => if constant_type(*inner) is Some {
            Some(DataType::Boolean)
        } else {
            None
        },
        _ => None,
    }
}

/// An expression folded.
pub open spec fn fold(e: ExprView) -> ExprView {
    up::<Expr>(e, fold_step())->Ok_0.node
}

proof fn lemma_fold(e: ExprView)
    ensures
        up::<Expr>(e, fold_step()) is Ok,
        fold(e) == fold_step()(
            expr_with_children(
                e,
                Seq::new(expr_children(e).len(), |i: int| fold(expr_children(e)[i])),
            ),
        )->Ok_0.node,
    decreases e,
{
    lemma_up_expr(e, fold_step());
    let c = expr_children(e);
    let parts = Seq::new(c.len(), |i: int| fold(c[i]));
    match e {
        ExprView::Column { index, data_type, nullable } => {},
        ExprView::Literal(v) => {},
        ExprView::Binary { left, op, right } => {
            lemma_fold(*left);
            lemma_fold(*right);
        },
        ExprView::Unary { op, expr } => {
            lemma_fold(*expr);
        },
        ExprView::Cast { expr, to } => {
            lemma_fold(*expr);
        },
        ExprView::IsNull(inner) => {
            lemma_fold(*inner);
        },
        ExprView::IsNotNull(inner) => {
            lemma_fold(*inner);
        },
    }
    if c.len() == 0 {
        assert(parts =~= seq![]);
    } else if c.len() == 1 {
        assert(parts =~= seq![fold(c[0])]);
    } else {
        assert(parts =~= seq![fold(c[0]), fold(c[1])]);
    }
}

/// An expression of constants alone that has a value folds to that value,
/// however large it is.
pub proof fn constants_fold_to_their_value(e: ExprView, row: Seq<ValueView>)
    requires
        constant_type(e) is Some,
        eval(e, row) is Ok,
    ensures
        up::<Expr>(e, fold_step()) is Ok,
        up::<Expr>(e, fold_step())->Ok_0.node == ExprView::Literal(eval(e, row)->Ok_0),
        eval(e, row)->Ok_0.data_type() == constant_type(e),
    decreases e,
{
    reveal_with_fuel(eval, 2);
    lemma_fold(e);
    let c = expr_children(e);
    let parts = Seq::new(c.len(), |i: int| fold(c[i]));
    match e {
        ExprView::Binary { left, op, right } => {
            constants_fold_to_their_value(*left, row);
            constants_fold_to_their_value(*right, row);
            assert(parts =~= seq![fold(*left), fold(*right)]);
        },
        ExprView::Unary { op, expr } => {
            constants_fold_to_their_value(*expr, row);
            assert(parts =~= seq![fold(*expr)]);
        },
        ExprView::IsNull(inner) => {
            constants_fold_to_their_value(*inner, row);
            assert(parts =~= seq![fold(*inner)]);
        },
        ExprView::IsNotNull(inner) => {
            constants_fold_to_their_value(*inner, row);
            assert(parts =~= seq![fold(*inner)]);
        },
        _ => {},
    }
}

proof fn lemma_simple_leaf(v: ValueView)
    ensures
        up::<Expr>(ExprView::Literal(v), simplify_step()) is Ok,
        simple(ExprView::Literal(v)) == ExprView::Literal(v),
{
    lemma_up_expr(ExprView::Literal(v), simplify_step());
    assert(expr_children(ExprView::Literal(v)) =~= seq![]);
}

proof fn lemma_simple(e: ExprView)
    ensures
        up::<Expr>(e, simplify_step()) is Ok,
    decreases e,
{
    lemma_up_expr(e, simplify_step());
    match e {
        ExprView::Binary { left, op, right } => {
            lemma_simple(*left);
            lemma_simple(*right);
        },
        ExprView::Unary { op, expr } => {
            lemma_simple(*expr);
        },
        ExprView::Cast { expr, to } => {
            lemma_simple(*expr);
        },
        ExprView::IsNull(inner) => {
            lemma_simple(*inner);
        },
        ExprView::IsNotNull(inner) => {
            lemma_simple(*inner);
        },
        _ => {},
    }
}

proof fn lemma_simple_binary(l: ExprView, op: BinaryOp, r: ExprView)
    ensures
        simple(binary(l, op, r)) == simplify_step()(binary(simple(l), op, simple(r)))->Ok_0.node,
{
    lemma_simple(l);
    lemma_simple(r);
    lemma_up_expr(binary(l, op, r), simplify_step());
    assert(expr_children(binary(l, op, r)) =~= seq![l, r]);
    assert(expr_with_children(binary(l, op, r), seq![simple(l), simple(r)]) == binary(
        simple(l),
        op,
        simple(r),
    ));
}

/// Operands that change nothing disappear, on either side: `true` of an `AND`,
/// `false` of an `OR`, zero of a sum, one of a product. What decides alone takes
/// the place of the whole: `false` of an `AND`, `true` of an `OR`, and zero of a
/// product with what is never null.
pub proof fn idle_operands_disappear(x: ExprView)
    ensures
        simple(binary(x, BinaryOp::And, truth(true))) == simple(x),
        simple(binary(truth(true), BinaryOp::And, x)) == simple(x),
        simple(binary(x, BinaryOp::Or, truth(false))) == simple(x),
        simple(binary(truth(false), BinaryOp::Or, x)) == simple(x),
        simple(binary(x, BinaryOp::Add, whole_number(0))) == simple(x),
        simple(binary(whole_number(0), BinaryOp::Add, x)) == simple(x),
        simple(binary(x, BinaryOp::Mul, whole_number(1))) == simple(x),
        simple(binary(whole_number(1), BinaryOp::Mul, x)) == simple(x),
        simple(binary(x, BinaryOp::And, truth(false))) == truth(false),
        simple(binary(truth(false), BinaryOp::And, x)) == truth(false),
        simple(binary(x, BinaryOp::Or, truth(true))) == truth(true),
        simple(binary(truth(true), BinaryOp::Or, x)) == truth(true),
        !expr_nullable(simple(x)) && simple(x) != whole_number(1) ==> simple(
            binary(x, BinaryOp::Mul, whole_number(0)),
        ) == whole_number(0) && simple(binary(whole_number(0), BinaryOp::Mul, x)) == whole_number(
            0,
        ),
{
    lemma_simple_leaf(ValueView::Boolean(true));
    lemma_simple_leaf(ValueView::Boolean(false));
    lemma_simple_leaf(ValueView::Int64(0));
    lemma_simple_leaf(ValueView::Int64(1));
    let t = truth(true);
    let f = truth(false);
    let zero = whole_number(0);
    let one = whole_number(1);
    lemma_simple_binary(x, BinaryOp::And, t);
    lemma_simple_binary(t, BinaryOp::And, x);
    lemma_simple_binary(x, BinaryOp::And, f);
    lemma_simple_binary(f, BinaryOp::And, x);
    lemma_simple_binary(x, BinaryOp::Or, t);
    lemma_simple_binary(t, BinaryOp::Or, x);
    lemma_simple_binary(x, BinaryOp::Or, f);
    lemma_simple_binary(f, BinaryOp::Or, x);
    lemma_simple_binary(x, BinaryOp::Add, zero);
    lemma_simple_binary(zero, BinaryOp::Add, x);
    lemma_simple_binary(x, BinaryOp::Mul, one);
    lemma_simple_binary(one, BinaryOp::Mul, x);
    lemma_simple_binary(x, BinaryOp::Mul, zero);
    lemma_simple_binary(zero, BinaryOp::Mul, x);
}

/// What is compared with itself is equal, and taken from itself leaves nothing,
/// where it is never null. Two negations cancel.
pub proof fn expressions_meet_themselves(x: ExprView)
    ensures
        !expr_nullable(simple(x)) && expr_equal(simple(x), simple(x)) ==> simple(
            binary(x, BinaryOp::Eq, x),
        ) == truth(true) && simple(binary(x, BinaryOp::Sub, x)) == whole_number(0),
        expr_nullable(simple(x)) ==> simple(binary(x, BinaryOp::Eq, x)) == binary(
            simple(x),
            BinaryOp::Eq,
            simple(x),
        ),
        !(simple(x) is Unary) ==> ({
            let n = ExprView::Unary { op: UnaryOp::Not, expr: Box::new(x) };
            simple(ExprView::Unary { op: UnaryOp::Not, expr: Box::new(n) }) == simple(x)
        }),
{
    lemma_simple_binary(x, BinaryOp::Eq, x);
    lemma_simple_binary(x, BinaryOp::Sub, x);
    lemma_simple(x);
    let n = ExprView::Unary { op: UnaryOp::Not, expr: Box::new(x) };
    let m = ExprView::Unary { op: UnaryOp::Not, expr: Box::new(n) };
    lemma_up_expr(n, simplify_step());
    lemma_up_expr(m, simplify_step());
    lemma_simple(n);
    assert(expr_children(n) =~= seq![x]);
    assert(expr_children(m) =~= seq![n]);
}

// ---------------------------------------------------------------------------
// Filters and limits

/// A filter that lets everything through is gone, its input in its place; one
/// that lets nothing through is an empty relation of the same schema. Another
/// filter stays.
pub proof fn constant_filters_disappear(p: PlanView, c: ExprView)
    ensures
        without_constant_filter(
            PlanView::Filter { input: Box::new(p), predicate: truth(true) },
        ).node == p,
        without_constant_filter(
            PlanView::Filter { input: Box::new(p), predicate: truth(false) },
        ).node == (PlanView::EmptyRelation { schema: plan_schema(p) }),
        ({
            let f = PlanView::Filter { input: Box::new(p), predicate: c };
            c != truth(true) && c != truth(false) ==> without_constant_filter(f).node == f
                && !without_constant_filter(f).changed
        }),
{
}

/// A filter over a filter is one filter over what the lower one was over; it
/// tests what the lower one tested first.
pub proof fn two_filters_become_one(p: PlanView, a: ExprView, b: ExprView)
    ensures
        ({
            let both = merged(
                PlanView::Filter {
                    input: Box::new(PlanView::Filter { input: Box::new(p), predicate: a }),
                    predicate: b,
                },
            );
            &&& both.changed
            &&& both.node is Filter
            &&& *both.node->Filter_input == p
            &&& conjuncts(both.node->Filter_predicate) == conjuncts(a) + conjuncts(b)
        }),
{
}

/// A limit over a projection is taken before it.
pub proof fn limits_go_below_projections(
    p: PlanView,
    exprs: Seq<ExprView>,
    schema: Seq<FieldView>,
    skip: usize,
    fetch: Option<usize>,
)
    ensures
        ({
            let projection = PlanView::Projection { input: Box::new(p), exprs, schema };
            let r = limit_below(PlanView::Limit { input: Box::new(projection), skip, fetch });
            &&& r.changed
            &&& r.node is Projection
            &&& r.node->Projection_exprs == exprs
            &&& *r.node->Projection_input == (PlanView::Limit { input: Box::new(p), skip, fetch })
        }),
{
}

/// The operands of a conjunction of expressions that are no conjunctions are
/// those expressions.
pub proof fn lemma_operands(s: Seq<ExprView>)
    requires
        s.len() > 0,
        forall|i: int| 0 <= i < s.len() ==> conjuncts(#[trigger] s[i]) == seq![s[i]],
    ensures
        conjuncts(conjunction(s)) == s,
    decreases s.len(),
{
    if s.len() == 1 {
        assert(s =~= seq![s[0]]);
    } else {
        let t = s.drop_last();
        assert forall|i: int| 0 <= i < t.len() implies conjuncts(#[trigger] t[i]) == seq![t[i]] by {
            assert(t[i] == s[i]);
        }
        lemma_operands(t);
        assert(conjuncts(s[s.len() - 1]) == seq![s.last()]);
        assert(conjuncts(conjunction(s)) =~= conjuncts(conjunction(t)) + conjuncts(s.last()));
        assert(s =~= t + seq![s.last()]);
    }
}

pub proof fn lemma_operands_are_single(e: ExprView)
    ensures
        forall|i: int|
            0 <= i < conjuncts(e).len() ==> conjuncts(#[trigger] conjuncts(e)[i]) == seq![conjuncts(e)[i]],
    decreases e,
{
    match e {
        ExprView::Binary { left, op: BinaryOp::And, right } => {
            lemma_operands_are_single(*left);
            lemma_operands_are_single(*right);
            let l = conjuncts(*left);
            let r = conjuncts(*right);
            assert forall|i: int| 0 <= i < conjuncts(e).len() implies conjuncts(
                #[trigger] conjuncts(e)[i],
            ) == seq![conjuncts(e)[i]] by {
                if i < l.len() {
                    assert(conjuncts(e)[i] == l[i]);
                } else {
                    assert(conjuncts(e)[i] == r[i - l.len()]);
                }
            }
        },
        _ => {
            assert(conjuncts(e) == seq![e]);
        },
    }
}

// ---------------------------------------------------------------------------
// Joins

/// Whether an expression equates a column of a join's left side with one of its
/// right side, and which: both numbered by their own side.
pub open spec fn equates(c: ExprView, left_width: int, i: usize, j: usize) -> bool {
    c matches ExprView::Binary { left, op: BinaryOp::Eq, right } && {
        ||| *left is Column && *right is Column && i < left_width && left->Column_index == i
            && right->Column_index == left_width + j
        ||| *left is Column && *right is Column && i < left_width && right->Column_index == i
            && left->Column_index == left_width + j
    }
}

proof fn lemma_promoted(s: Seq<ExprView>, w: int, n: nat, k: int, i: usize, j: usize)
    requires
        0 <= k < n <= s.len(),
        0 <= w,
        w + j <= usize::MAX,
        equates(s[k], w, i, j),
    ensures
        exists|m: int|
            0 <= m < promoted(s, w, n).len() && {
                &&& (#[trigger] promoted(s, w, n)[m]).0 is Column
                &&& promoted(s, w, n)[m].1 is Column
                &&& promoted(s, w, n)[m].0->Column_index == i
                &&& promoted(s, w, n)[m].1->Column_index == j
            },
    decreases n,
{
    let before = promoted(s, w, (n - 1) as nat);
    let now = promoted(s, w, n);
    if k == n - 1 {
        let m = before.len() as int;
        assert(now.len() == m + 1);
        assert(now[m].0->Column_index == i);
    } else {
        lemma_promoted(s, w, (n - 1) as nat, k, i, j);
        let m = choose|m: int|
            0 <= m < before.len() && {
                &&& (#[trigger] before[m]).0 is Column
                &&& before[m].1 is Column
                &&& before[m].0->Column_index == i
                &&& before[m].1->Column_index == j
            };
        assert(now[m] == before[m]);
    }
}

/// A cross product that a filter equates columns of both sides over becomes an
/// inner join: every such equation is one of its keys.
pub proof fn equations_over_cross_products_become_keys(
    l: PlanView,
    r: PlanView,
    schema: Seq<FieldView>,
    predicate: ExprView,
    k: int,
    i: usize,
    j: usize,
)
    requires
        0 <= k < conjuncts(predicate).len(),
        equates(conjuncts(predicate)[k], plan_schema(l).len() as int, i, j),
        plan_schema(l).len() + j <= usize::MAX,
    ensures
        ({
            let cross = PlanView::Join {
                left: Box::new(l),
                right: Box::new(r),
                on: seq![],
                filter: None,
                join_type: JoinType::Inner,
                schema,
            };
            let p = without_cross_join(PlanView::Filter { input: Box::new(cross), predicate });
            &&& p.changed
            &&& p.node is Join
            &&& *p.node->Join_left == l && *p.node->Join_right == r
            &&& p.node->Join_join_type == JoinType::Inner
            &&& exists|m: int|
                0 <= m < p.node->on.len() && {
                    &&& (#[trigger] p.node->on[m]).0 is Column
                    &&& p.node->on[m].1 is Column
                    &&& p.node->on[m].0->Column_index == i
                    &&& p.node->on[m].1->Column_index == j
                }
        }),
{
    let s = conjuncts(predicate);
    let w = plan_schema(l).len() as int;
    lemma_promoted(s, w, s.len(), k, i, j);
    let keys = promoted(s, w, s.len());
    let m = choose|m: int|
        0 <= m < keys.len() && {
            &&& (#[trigger] keys[m]).0 is Column
            &&& keys[m].1 is Column
            &&& keys[m].0->Column_index == i
            &&& keys[m].1->Column_index == j
        };
    let cross = PlanView::Join {
        left: Box::new(l),
        right: Box::new(r),
        on: seq![],
        filter: None,
        join_type: JoinType::Inner,
        schema,
    };
    let p = without_cross_join(PlanView::Filter { input: Box::new(cross), predicate });
    assert(p.node->on == keys);
    assert(p.node->on[m].0->Column_index == i);
}

/// Whether every column of an expression belongs to the left side of a join, and
/// there is one.
pub open spec fn on_the_left(c: ExprView, left_width: int) -> bool {
    columns_of(c).len() > 0 && forall|i: int|
        0 <= i < columns_of(c).len() ==> (#[trigger] columns_of(c)[i]) < left_width
}

/// Whether every column of an expression belongs to the right side of a join,
/// and there is one.
pub open spec fn on_the_right(c: ExprView, left_width: int) -> bool {
    columns_of(c).len() > 0 && forall|i: int|
        0 <= i < columns_of(c).len() ==> (#[trigger] columns_of(c)[i]) >= left_width
}

proof fn lemma_placed(s: Seq<ExprView>, w: int, t: JoinType, at: Place, n: nat)
    requires
        n <= s.len(),
    ensures
        forall|i: int|
            0 <= i < n && crate::optimizer::rules::predicate_pushdown::place(#[trigger] s[i], w, t) == at
                ==> placed(s, w, t, at, n).contains(s[i]),
        forall|i: int|
            0 <= i < placed(s, w, t, at, n).len() ==> s.contains(#[trigger] placed(s, w, t, at, n)[i]),
    decreases n,
{
    if n > 0 {
        lemma_placed(s, w, t, at, (n - 1) as nat);
        let before = placed(s, w, t, at, (n - 1) as nat);
        let now = placed(s, w, t, at, n);
        assert forall|i: int|
            0 <= i < n && crate::optimizer::rules::predicate_pushdown::place(#[trigger] s[i], w, t)
                == at implies now.contains(s[i]) by {
            if i < n - 1 {
                let m = choose|m: int| 0 <= m < before.len() && before[m] == s[i];
                assert(now[m] == before[m]);
            } else {
                assert(now[before.len() as int] == s[i]);
            }
        }
        assert forall|i: int| 0 <= i < now.len() implies s.contains(#[trigger] now[i]) by {
            if i < before.len() {
                assert(now[i] == before[i]);
            } else {
                assert(now[i] == s[n - 1]);
            }
        }
    }
}

proof fn lemma_with_columns_single(c: ExprView, g: spec_fn(usize) -> usize)
    requires
        conjuncts(c) == seq![c],
    ensures
        conjuncts(with_columns(c, g)) == seq![with_columns(c, g)],
{
    match c {
        ExprView::Binary { left, op: BinaryOp::And, right } => {
            lemma_conjuncts_nonempty(*left);
            lemma_conjuncts_nonempty(*right);
            assert(conjuncts(c).len() >= 2);
        },
        _ => {},
    }
}

/// A condition over one side of an inner join is tested on that side before the
/// join: it is one of those that a filter below it tests, its columns numbered
/// by that side.
pub proof fn conditions_on_one_side_go_below(
    l: PlanView,
    r: PlanView,
    on: Seq<(ExprView, ExprView)>,
    filter: Option<ExprView>,
    schema: Seq<FieldView>,
    predicate: ExprView,
    k: int,
)
    requires
        0 <= k < conjuncts(predicate).len(),
        plan_schema(l).len() <= usize::MAX,
    ensures
        ({
            let join = PlanView::Join {
                left: Box::new(l),
                right: Box::new(r),
                on,
                filter,
                join_type: JoinType::Inner,
                schema,
            };
            let p = pushed_down(PlanView::Filter { input: Box::new(join), predicate });
            let c = conjuncts(predicate)[k];
            let w = plan_schema(l).len() as int;
            &&& on_the_left(c, w) ==> {
                &&& p.changed && p.node is Join
                &&& *p.node->Join_left is Filter
                &&& *p.node->Join_left->Filter_input == l
                &&& conjuncts(p.node->Join_left->Filter_predicate).contains(c)
            }
            &&& on_the_right(c, w) ==> {
                &&& p.changed && p.node is Join
                &&& *p.node->Join_right is Filter
                &&& *p.node->Join_right->Filter_input == r
                &&& conjuncts(p.node->Join_right->Filter_predicate).contains(
                    with_columns(c, shift_down(w as usize)),
                )
            }
        }),
{
    let s = conjuncts(predicate);
    let c = s[k];
    let w = plan_schema(l).len() as int;
    let t = JoinType::Inner;
    lemma_operands_are_single(predicate);
    lemma_placed(s, w, t, Place::Left, s.len());
    lemma_placed(s, w, t, Place::Right, s.len());
    if on_the_left(c, w) {
        assert(columns_of(c)[0] < w);
        assert(crate::optimizer::rules::predicate_pushdown::place(c, w, t) == Place::Left);
        let moved = placed(s, w, t, Place::Left, s.len());
        assert(moved.contains(c));
        assert forall|i: int| 0 <= i < moved.len() implies conjuncts(#[trigger] moved[i]) == seq![
            moved[i],
        ] by {
            assert(s.contains(moved[i]));
            let m = choose|m: int| 0 <= m < s.len() && s[m] == moved[i];
            assert(conjuncts(s[m]) == seq![s[m]]);
        }
        lemma_operands(moved);
    }
    if on_the_right(c, w) {
        assert(columns_of(c)[0] >= w);
        assert(crate::optimizer::rules::predicate_pushdown::place(c, w, t) == Place::Right);
        let moved = placed(s, w, t, Place::Right, s.len());
        assert(moved.contains(c));
        let turned = crate::optimizer::rules::predicate_pushdown::rebased(moved, w);
        assert forall|i: int| 0 <= i < turned.len() implies conjuncts(#[trigger] turned[i]) == seq![
            turned[i],
        ] by {
            assert(s.contains(moved[i]));
            let m = choose|m: int| 0 <= m < s.len() && s[m] == moved[i];
            assert(conjuncts(s[m]) == seq![s[m]]);
            lemma_with_columns_single(moved[i], shift_down(w as usize));
        }
        let m = choose|m: int| 0 <= m < moved.len() && moved[m] == c;
        assert(turned[m] == with_columns(c, shift_down(w as usize)));
        lemma_operands(turned);
    }
}

/// Whether every row that a join delivers begins with a row of its left side.
pub open spec fn begins_with_left_rows(t: JoinType) -> bool {
    t == JoinType::Inner || t == JoinType::Left || t == JoinType::LeftSemi || t == JoinType::LeftAnti
}

/// Whether every row that a join delivers ends with a row of its right side.
pub open spec fn ends_with_right_rows(t: JoinType) -> bool {
    t == JoinType::Inner || t == JoinType::Right
}

/// A condition over the left side of a join that makes up no left rows is tested
/// on that side before the join, and likewise over the right side. Where the
/// join could make up the rows that the condition is about, it stays above.
pub proof fn conditions_go_below_where_rows_are_kept(
    l: PlanView,
    r: PlanView,
    on: Seq<(ExprView, ExprView)>,
    filter: Option<ExprView>,
    t: JoinType,
    schema: Seq<FieldView>,
    predicate: ExprView,
    k: int,
)
    requires
        0 <= k < conjuncts(predicate).len(),
        plan_schema(l).len() <= usize::MAX,
        t != JoinType::Full,
    ensures
        ({
            let join = PlanView::Join {
                left: Box::new(l),
                right: Box::new(r),
                on,
                filter,
                join_type: t,
                schema,
            };
            let p = pushed_down(PlanView::Filter { input: Box::new(join), predicate });
            let j = if p.node is Filter {
                *p.node->Filter_input
            } else {
                p.node
            };
            let c = conjuncts(predicate)[k];
            let w = plan_schema(l).len() as int;
            &&& on_the_left(c, w) && begins_with_left_rows(t) ==> {
                &&& p.changed && j is Join && j->Join_join_type == t
                &&& *j->Join_left is Filter
                &&& *j->Join_left->Filter_input == l
                &&& conjuncts(j->Join_left->Filter_predicate).contains(c)
            }
            &&& on_the_right(c, w) && ends_with_right_rows(t) ==> {
                &&& p.changed && j is Join && j->Join_join_type == t
                &&& *j->Join_right is Filter
                &&& *j->Join_right->Filter_input == r
                &&& conjuncts(j->Join_right->Filter_predicate).contains(
                    with_columns(c, shift_down(w as usize)),
                )
            }
            &&& (on_the_left(c, w) && !begins_with_left_rows(t)) || (on_the_right(c, w)
                && !ends_with_right_rows(t)) ==> {
                &&& p.node is Filter
                &&& conjuncts(p.node->Filter_predicate).contains(c)
            }
        }),
{
    let s = conjuncts(predicate);
    let c = s[k];
    let w = plan_schema(l).len() as int;
    lemma_operands_are_single(predicate);
    lemma_placed(s, w, t, Place::Left, s.len());
    lemma_placed(s, w, t, Place::Right, s.len());
    lemma_placed(s, w, t, Place::Stays, s.len());
    let to_left = placed(s, w, t, Place::Left, s.len());
    let to_right = placed(s, w, t, Place::Right, s.len());
    let stays = placed(s, w, t, Place::Stays, s.len());
    lemma_singles(s, to_left);
    lemma_singles(s, stays);
    if on_the_left(c, w) {
        assert(columns_of(c)[0] < w);
        if begins_with_left_rows(t) {
            assert(crate::optimizer::rules::predicate_pushdown::place(c, w, t) == Place::Left);
            assert(to_left.contains(c));
            lemma_operands(to_left);
        } else {
            assert(crate::optimizer::rules::predicate_pushdown::place(c, w, t) == Place::Stays);
            assert(stays.contains(c));
            lemma_operands(stays);
        }
    }
    if on_the_right(c, w) {
        assert(columns_of(c)[0] >= w);
        if ends_with_right_rows(t) {
            assert(crate::optimizer::rules::predicate_pushdown::place(c, w, t) == Place::Right);
            assert(to_right.contains(c));
            let turned = crate::optimizer::rules::predicate_pushdown::rebased(to_right, w);
            assert forall|i: int| 0 <= i < turned.len() implies conjuncts(#[trigger] turned[i])
                == seq![turned[i]] by {
                assert(s.contains(to_right[i]));
                let m = choose|m: int| 0 <= m < s.len() && s[m] == to_right[i];
                assert(conjuncts(s[m]) == seq![s[m]]);
                lemma_with_columns_single(to_right[i], shift_down(w as usize));
            }
            let m = choose|m: int| 0 <= m < to_right.len() && to_right[m] == c;
            assert(turned[m] == with_columns(c, shift_down(w as usize)));
            lemma_operands(turned);
        } else {
            assert(crate::optimizer::rules::predicate_pushdown::place(c, w, t) == Place::Stays);
            assert(stays.contains(c));
            lemma_operands(stays);
        }
    }
}

proof fn lemma_singles(s: Seq<ExprView>, some: Seq<ExprView>)
    requires
        forall|i: int| 0 <= i < s.len() ==> conjuncts(#[trigger] s[i]) == seq![s[i]],
        forall|i: int| 0 <= i < some.len() ==> s.contains(#[trigger] some[i]),
    ensures
        forall|i: int| 0 <= i < some.len() ==> conjuncts(#[trigger] some[i]) == seq![some[i]],
{
    assert forall|i: int| 0 <= i < some.len() implies conjuncts(#[trigger] some[i]) == seq![
        some[i],
    ] by {
        assert(s.contains(some[i]));
        let m = choose|m: int| 0 <= m < s.len() && s[m] == some[i];
        assert(conjuncts(s[m]) == seq![s[m]]);
    }
}

/// A filter over a sort is taken before it.
pub proof fn filters_go_below_sorts(p: PlanView, keys: Seq<SortExprView>, predicate: ExprView)
    ensures
        ({
            let sort = PlanView::Sort { input: Box::new(p), exprs: keys };
            let r = pushed_down(PlanView::Filter { input: Box::new(sort), predicate });
            &&& r.changed && r.node is Sort
            &&& r.node->Sort_exprs == keys
            &&& *r.node->Sort_input == (PlanView::Filter { input: Box::new(p), predicate })
        }),
{
}

proof fn lemma_not_noted(filters: Seq<ExprView>, s: Seq<ExprView>, n: nat, k: int)
    requires
        0 <= k < n <= s.len(),
    ensures
        noted(filters, s[k]) || not_noted(filters, s, n).contains(s[k]),
    decreases n,
{
    let before = not_noted(filters, s, (n - 1) as nat);
    let now = not_noted(filters, s, n);
    if k < n - 1 {
        lemma_not_noted(filters, s, (n - 1) as nat, k);
        if !noted(filters, s[k]) {
            let m = choose|m: int| 0 <= m < before.len() && before[m] == s[k];
            assert(now[m] == before[m]);
        }
    } else if !noted(filters, s[k]) {
        assert(now[before.len() as int] == s[k]);
    }
}

/// A filter over a scan stays, and the scan learns of every one of its
/// conditions, beside those that it knew.
pub proof fn scans_learn_of_their_filters(scan: PlanView, predicate: ExprView, k: int)
    requires
        scan is TableScan,
        0 <= k < conjuncts(predicate).len(),
    ensures
        ({
            let r = pushed_down(PlanView::Filter { input: Box::new(scan), predicate }).node;
            let c = conjuncts(predicate)[k];
            &&& r is Filter && r->Filter_predicate == predicate
            &&& *r->Filter_input is TableScan
            &&& r->Filter_input->table_name == scan->table_name
            &&& r->Filter_input->projection == scan->projection
            &&& noted(scan->filters, c) || r->Filter_input->filters.contains(c)
            &&& r->Filter_input->filters.take(scan->filters.len() as int) == scan->filters
        }),
{
    let s = conjuncts(predicate);
    lemma_not_noted(scan->filters, s, s.len(), k);
    let added = not_noted(scan->filters, s, s.len());
    let all = scan->filters + added;
    assert(all.take(scan->filters.len() as int) =~= scan->filters);
    assert(scan->filters.take(scan->filters.len() as int) =~= scan->filters);
    if added.contains(s[k]) {
        let m = choose|m: int| 0 <= m < added.len() && added[m] == s[k];
        assert(all[scan->filters.len() + m] == s[k]);
    }
}

proof fn lemma_below(s: Seq<ExprView>, exprs: Seq<ExprView>, n: nat)
    requires
        n <= s.len(),
    ensures
        forall|i: int|
            0 <= i < n && columns_satisfy(
                #[trigger] s[i],
                |c: usize| c < exprs.len() && exprs[c as int] is Column,
            ) ==> below(s, exprs, n).contains(with_columns(s[i], source_column(exprs))),
        forall|i: int|
            0 <= i < below(s, exprs, n).len() ==> exists|m: int|
                0 <= m < s.len() && #[trigger] below(s, exprs, n)[i] == with_columns(
                    #[trigger] s[m],
                    source_column(exprs),
                ),
    decreases n,
{
    if n > 0 {
        lemma_below(s, exprs, (n - 1) as nat);
        let before = below(s, exprs, (n - 1) as nat);
        let now = below(s, exprs, n);
        assert forall|i: int|
            0 <= i < n && columns_satisfy(
                #[trigger] s[i],
                |c: usize| c < exprs.len() && exprs[c as int] is Column,
            ) implies now.contains(with_columns(s[i], source_column(exprs))) by {
            if i < n - 1 {
                let m = choose|m: int|
                    0 <= m < before.len() && before[m] == with_columns(s[i], source_column(exprs));
                assert(now[m] == before[m]);
            } else {
                assert(now[before.len() as int] == with_columns(s[i], source_column(exprs)));
            }
        }
        assert forall|i: int| 0 <= i < now.len() implies exists|m: int|
            0 <= m < s.len() && #[trigger] now[i] == with_columns(
                #[trigger] s[m],
                source_column(exprs),
            ) by {
            if i < before.len() {
                assert(now[i] == before[i]);
            } else {
                assert(now[i] == with_columns(s[n - 1], source_column(exprs)));
            }
        }
    }
}

/// A condition over columns that a projection passes on is tested before the
/// projection, on the columns that they were.
pub proof fn conditions_go_below_projections(
    input: PlanView,
    exprs: Seq<ExprView>,
    schema: Seq<FieldView>,
    predicate: ExprView,
    k: int,
)
    requires
        0 <= k < conjuncts(predicate).len(),
        forall|i: int|
            0 <= i < columns_of(conjuncts(predicate)[k]).len() ==> (#[trigger] columns_of(
                conjuncts(predicate)[k],
            )[i]) < exprs.len() && exprs[columns_of(conjuncts(predicate)[k])[i] as int] is Column,
    ensures
        ({
            let projection = PlanView::Projection { input: Box::new(input), exprs, schema };
            let r = pushed_down(PlanView::Filter { input: Box::new(projection), predicate });
            let p = if r.node is Filter {
                *r.node->Filter_input
            } else {
                r.node
            };
            &&& r.changed
            &&& p is Projection && p->Projection_exprs == exprs
            &&& *p->Projection_input is Filter
            &&& *p->Projection_input->Filter_input == input
            &&& conjuncts(p->Projection_input->Filter_predicate).contains(
                with_columns(
                    conjuncts(predicate)[k],
                    |i: usize|
                        if i < exprs.len() && exprs[i as int] is Column {
                            exprs[i as int]->index
                        } else {
                            i
                        },
                ),
            )
        }),
{
    let s = conjuncts(predicate);
    let moved = below(s, exprs, s.len());
    lemma_below(s, exprs, s.len());
    lemma_operands_are_single(predicate);
    assert(columns_satisfy(s[k], |c: usize| c < exprs.len() && exprs[c as int] is Column));
    assert(moved.contains(with_columns(s[k], source_column(exprs))));
    assert forall|i: int| 0 <= i < moved.len() implies conjuncts(#[trigger] moved[i]) == seq![
        moved[i],
    ] by {
        let m = choose|m: int|
            0 <= m < s.len() && moved[i] == with_columns(#[trigger] s[m], source_column(exprs));
        assert(conjuncts(s[m]) == seq![s[m]]);
        lemma_with_columns_single(s[m], source_column(exprs));
    }
    lemma_operands(moved);
}

/// A condition over the columns that an aggregation groups by is tested before
/// it, on the columns that they were. Without grouping nothing moves.
pub proof fn conditions_go_below_groups(
    input: PlanView,
    groups: Seq<ExprView>,
    aggr: Seq<AggregateView>,
    schema: Seq<FieldView>,
    predicate: ExprView,
    k: int,
)
    requires
        0 <= k < conjuncts(predicate).len(),
        forall|i: int|
            0 <= i < columns_of(conjuncts(predicate)[k]).len() ==> (#[trigger] columns_of(
                conjuncts(predicate)[k],
            )[i]) < groups.len() && groups[columns_of(conjuncts(predicate)[k])[i] as int] is Column,
    ensures
        ({
            let a = PlanView::Aggregate {
                input: Box::new(input),
                group_expr: groups,
                aggr_expr: aggr,
                schema,
            };
            let r = pushed_down(PlanView::Filter { input: Box::new(a), predicate });
            let p = if r.node is Filter {
                *r.node->Filter_input
            } else {
                r.node
            };
            &&& p is Aggregate && p->group_expr == groups && p->aggr_expr == aggr
            &&& groups.len() > 0 ==> {
                &&& r.changed
                &&& *p->Aggregate_input is Filter
                &&& *p->Aggregate_input->Filter_input == input
                &&& conjuncts(p->Aggregate_input->Filter_predicate).contains(
                    with_columns(conjuncts(predicate)[k], source_column(groups)),
                )
            }
            &&& groups.len() == 0 ==> !r.changed && p == a
        }),
{
    let s = conjuncts(predicate);
    let moved = below(s, groups, s.len());
    lemma_conjuncts_nonempty(predicate);
    lemma_below(s, groups, s.len());
    lemma_operands_are_single(predicate);
    assert(columns_satisfy(s[k], |c: usize| c < groups.len() && groups[c as int] is Column));
    assert(moved.contains(with_columns(s[k], source_column(groups))));
    assert forall|i: int| 0 <= i < moved.len() implies conjuncts(#[trigger] moved[i]) == seq![
        moved[i],
    ] by {
        let m = choose|m: int|
            0 <= m < s.len() && moved[i] == with_columns(#[trigger] s[m], source_column(groups));
        assert(conjuncts(s[m]) == seq![s[m]]);
        lemma_with_columns_single(s[m], source_column(groups));
    }
    lemma_operands(moved);
}

// ---------------------------------------------------------------------------
// Columns

proof fn lemma_columns_of_all(exprs: Seq<ExprView>, n: nat, x: usize)
    requires
        n <= exprs.len(),
    ensures
        columns_of_all(exprs, n).contains(x) <==> exists|i: int|
            0 <= i < n && columns_of(#[trigger] exprs[i]).contains(x),
    decreases n,
{
    if n > 0 {
        let m = (n - 1) as nat;
        lemma_columns_of_all(exprs, m, x);
        let before = columns_of_all(exprs, m);
        let last = columns_of(exprs[n - 1]);
        let now = columns_of_all(exprs, n);
        if now.contains(x) {
            let k = choose|k: int| 0 <= k < now.len() && now[k] == x;
            if k < before.len() {
                assert(before[k] == x);
            } else {
                assert(last[k - before.len()] == x);
            }
        }
        if before.contains(x) {
            let k = choose|k: int| 0 <= k < before.len() && before[k] == x;
            assert(now[k] == x);
        }
        if last.contains(x) {
            let k = choose|k: int| 0 <= k < last.len() && last[k] == x;
            assert(now[before.len() + k] == x);
        }
    }
}

/// A projection over a scan of all columns makes the scan read those columns
/// alone that its expressions refer to.
pub proof fn scans_read_what_is_referred_to(
    scan: PlanView,
    exprs: Seq<ExprView>,
    schema: Seq<FieldView>,
    x: usize,
)
    requires
        scan is TableScan,
        scan->projection is None,
        with_recorded_columns(
            PlanView::Projection { input: Box::new(scan), exprs, schema },
        ).changed,
    ensures
        ({
            let r = with_recorded_columns(
                PlanView::Projection { input: Box::new(scan), exprs, schema },
            ).node;
            &&& r is Projection && r->Projection_exprs == exprs
            &&& *r->Projection_input is TableScan
            &&& r->Projection_input->table_name == scan->table_name
            &&& r->Projection_input->filters == scan->filters
            &&& r->Projection_input->projection matches Some(read) && (read.contains(x)
                <==> exists|i: int| 0 <= i < exprs.len() && columns_of(#[trigger] exprs[i]).contains(x))
        }),
{
    let referred = columns_of_all(exprs, exprs.len());
    lemma_columns_of_all(exprs, exprs.len(), x);
    recorded_columns_are_those_referred_to(referred, referred.len(), x);
    assert(referred.take(referred.len() as int) =~= referred);
}

proof fn lemma_ascending_places(s: Seq<usize>, n: int, i: int)
    requires
        ascending(s),
        0 <= i < s.len(),
        forall|k: int| 0 <= k < s.len() ==> (#[trigger] s[k]) < n,
    ensures
        i <= s[i] <= n - (s.len() - i),
{
    lemma_at_least(s, i);
    lemma_at_most(s, n, i);
}

proof fn lemma_at_least(s: Seq<usize>, i: int)
    requires
        ascending(s),
        0 <= i < s.len(),
    ensures
        i <= s[i],
    decreases i,
{
    if i > 0 {
        lemma_at_least(s, i - 1);
        assert(s[i - 1] < s[i]);
    }
}

proof fn lemma_at_most(s: Seq<usize>, n: int, i: int)
    requires
        ascending(s),
        0 <= i < s.len(),
        forall|k: int| 0 <= k < s.len() ==> (#[trigger] s[k]) < n,
    ensures
        s[i] <= n - (s.len() - i),
    decreases s.len() - i,
{
    if i < s.len() - 1 {
        lemma_at_most(s, n, i + 1);
        assert(s[i] < s[i + 1]);
    }
}

/// A scan of all columns is narrowed as soon as one of them is not referred to.
pub proof fn scans_are_narrowed_where_columns_are_idle(
    scan: PlanView,
    exprs: Seq<ExprView>,
    schema: Seq<FieldView>,
    idle: usize,
)
    requires
        scan is TableScan,
        scan->projection is None,
        idle < plan_schema(scan).len(),
        forall|i: int, j: int|
            0 <= i < exprs.len() && 0 <= j < columns_of(exprs[i]).len() ==> (
            #[trigger] columns_of(exprs[i])[j]) < plan_schema(scan).len() && columns_of(exprs[i])[j]
                != idle,
    ensures
        with_recorded_columns(
            PlanView::Projection { input: Box::new(scan), exprs, schema },
        ).changed,
{
    let referred = columns_of_all(exprs, exprs.len());
    let needed = column_set(referred, referred.len());
    let n = plan_schema(scan).len() as int;
    assert(referred.take(referred.len() as int) =~= referred);
    recorded_columns_are_those_referred_to(referred, referred.len(), idle);
    assert forall|k: int| 0 <= k < needed.len() implies (#[trigger] needed[k]) < n && needed[k]
        != idle by {
        let x = needed[k];
        assert(needed.contains(x));
        recorded_columns_are_those_referred_to(referred, referred.len(), x);
        lemma_columns_of_all(exprs, exprs.len(), x);
        let i = choose|i: int| 0 <= i < exprs.len() && columns_of(#[trigger] exprs[i]).contains(x);
        let j = choose|j: int| 0 <= j < columns_of(exprs[i]).len() && columns_of(exprs[i])[j] == x;
        assert(columns_of(exprs[i])[j] < n);
    }
    if needed.len() == n {
        lemma_ascending_places(needed, n, idle as int);
        assert(needed[idle as int] == idle);
    }
}

/// Where a filter stands between a projection and a scan, the scan reads what
/// either of them refers to.
pub proof fn filtered_scans_read_what_is_referred_to(
    scan: PlanView,
    predicate: ExprView,
    exprs: Seq<ExprView>,
    schema: Seq<FieldView>,
    x: usize,
)
    requires
        scan is TableScan,
        scan->projection is None,
        ({
            let f = PlanView::Filter { input: Box::new(scan), predicate };
            with_recorded_columns(PlanView::Projection { input: Box::new(f), exprs, schema }).changed
        }),
    ensures
        ({
            let f = PlanView::Filter { input: Box::new(scan), predicate };
            let r = with_recorded_columns(
                PlanView::Projection { input: Box::new(f), exprs, schema },
            ).node;
            &&& r is Projection && r->Projection_exprs == exprs
            &&& *r->Projection_input is Filter
            &&& r->Projection_input->Filter_predicate == predicate
            &&& *r->Projection_input->Filter_input is TableScan
            &&& r->Projection_input->Filter_input->projection matches Some(read) && (read.contains(x)
                <==> columns_of(predicate).contains(x) || exists|i: int|
                0 <= i < exprs.len() && columns_of(#[trigger] exprs[i]).contains(x))
        }),
{
    let some = columns_of_all(exprs, exprs.len());
    let referred = some + columns_of(predicate);
    lemma_columns_of_all(exprs, exprs.len(), x);
    recorded_columns_are_those_referred_to(referred, referred.len(), x);
    assert(referred.take(referred.len() as int) =~= referred);
    if referred.contains(x) {
        let k = choose|k: int| 0 <= k < referred.len() && referred[k] == x;
        if k < some.len() {
            assert(some[k] == x);
        } else {
            assert(columns_of(predicate)[k - some.len()] == x);
        }
    }
    if some.contains(x) {
        let k = choose|k: int| 0 <= k < some.len() && some[k] == x;
        assert(referred[k] == x);
    }
    if columns_of(predicate).contains(x) {
        let k = choose|k: int| 0 <= k < columns_of(predicate).len() && columns_of(predicate)[k] == x;
        assert(referred[some.len() + k] == x);
    }
}

// ---------------------------------------------------------------------------
// Whole nodes

proof fn lemma_map_list(exprs: Seq<ExprView>, g: ExprMap, n: nat)
    requires
        n <= exprs.len(),
        map_list(exprs, g, n) is Ok,
    ensures
        map_list(exprs, g, n)->Ok_0.node.len() == n,
        forall|i: int|
            0 <= i < n ==> g(exprs[i]) == Ok::<ExprView, ErrorKind>(
                #[trigger] map_list(exprs, g, n)->Ok_0.node[i],
            ),
    decreases n,
{
    if n > 0 {
        lemma_map_list(exprs, g, (n - 1) as nat);
        let before = map_list(exprs, g, (n - 1) as nat)->Ok_0.node;
        let now = map_list(exprs, g, n)->Ok_0.node;
        assert forall|i: int| 0 <= i < n implies g(exprs[i]) == Ok::<ExprView, ErrorKind>(
            #[trigger] now[i],
        ) by {
            if i < n - 1 {
                assert(now[i] == before[i]);
            }
        }
    }
}

proof fn lemma_map_pairs(on: Seq<(ExprView, ExprView)>, g: ExprMap, n: nat)
    requires
        n <= on.len(),
        map_pairs(on, g, n) is Ok,
    ensures
        map_pairs(on, g, n)->Ok_0.node.len() == n,
        forall|i: int|
            0 <= i < n ==> g(on[i].0) == Ok::<ExprView, ErrorKind>(
                (#[trigger] map_pairs(on, g, n)->Ok_0.node[i]).0,
            ) && g(on[i].1) == Ok::<ExprView, ErrorKind>(map_pairs(on, g, n)->Ok_0.node[i].1),
    decreases n,
{
    if n > 0 {
        lemma_map_pairs(on, g, (n - 1) as nat);
        let before = map_pairs(on, g, (n - 1) as nat)->Ok_0.node;
        let now = map_pairs(on, g, n)->Ok_0.node;
        assert forall|i: int| 0 <= i < n implies g(on[i].0) == Ok::<ExprView, ErrorKind>(
            (#[trigger] now[i]).0,
        ) && g(on[i].1) == Ok::<ExprView, ErrorKind>(now[i].1) by {
            if i < n - 1 {
                assert(now[i] == before[i]);
            }
        }
    }
}

proof fn lemma_map_arguments(aggs: Seq<AggregateView>, g: ExprMap, n: nat)
    requires
        n <= aggs.len(),
        map_arguments(aggs, g, n) is Ok,
    ensures
        map_arguments(aggs, g, n)->Ok_0.node.len() == n,
        forall|i: int|
            0 <= i < n ==> {
                let b = #[trigger] map_arguments(aggs, g, n)->Ok_0.node[i];
                &&& b.output_name == aggs[i].output_name && b.kind == aggs[i].kind
                &&& b.arg is Some <==> aggs[i].arg is Some
                &&& aggs[i].arg is Some ==> g(aggs[i].arg->0) == Ok::<ExprView, ErrorKind>(b.arg->0)
            },
    decreases n,
{
    if n > 0 {
        lemma_map_arguments(aggs, g, (n - 1) as nat);
        let before = map_arguments(aggs, g, (n - 1) as nat)->Ok_0.node;
        let now = map_arguments(aggs, g, n)->Ok_0.node;
        assert forall|i: int| 0 <= i < n implies {
            let b = #[trigger] now[i];
            &&& b.output_name == aggs[i].output_name && b.kind == aggs[i].kind
            &&& b.arg is Some <==> aggs[i].arg is Some
            &&& aggs[i].arg is Some ==> g(aggs[i].arg->0) == Ok::<ExprView, ErrorKind>(b.arg->0)
        } by {
            if i < n - 1 {
                assert(now[i] == before[i]);
            }
        }
    }
}

/// A rule that rewrites expressions rewrites every one that a node carries, and
/// nothing else of it: the expressions of a projection, the predicate of a
/// filter, the conditions noted on a scan, the keys of a sort with their
/// directions, both sides of a join's keys and its condition, and what an
/// aggregation groups by and aggregates.
pub proof fn every_expression_is_rewritten(p: PlanView, g: ExprMap, i: int)
    requires
        mapped(p, g) is Ok,
    ensures
        match (p, mapped(p, g)->Ok_0.node) {
            (
                PlanView::Projection { input, exprs, schema },
                PlanView::Projection { input: input2, exprs: exprs2, schema: schema2 },
            ) => input2 == input && schema2 == schema && exprs2.len() == exprs.len() && (0 <= i
                < exprs.len() ==> g(exprs[i]) == Ok::<ExprView, ErrorKind>(exprs2[i])),
            (
                PlanView::Filter { input, predicate },
                PlanView::Filter { input: input2, predicate: predicate2 },
            ) => input2 == input && g(predicate) == Ok::<ExprView, ErrorKind>(predicate2),
            (
                PlanView::Sort { input, exprs },
                PlanView::Sort { input: input2, exprs: exprs2 },
            ) => input2 == input && exprs2.len() == exprs.len() && (0 <= i < exprs.len() ==> g(
                exprs[i].expr,
            ) == Ok::<ExprView, ErrorKind>(exprs2[i].expr) && exprs2[i].options
                == exprs[i].options),
            (
                PlanView::TableScan { table_name, source, projection, filters, schema },
                PlanView::TableScan {
                    table_name: table_name2,
                    source: source2,
                    projection: projection2,
                    filters: filters2,
                    schema: schema2,
                },
            ) => table_name2 == table_name && source2 == source && projection2 == projection && schema2
                == schema && filters2.len() == filters.len() && (0 <= i < filters.len() ==> g(
                filters[i],
            ) == Ok::<ExprView, ErrorKind>(filters2[i])),
            (
                PlanView::Join { left, right, on, filter, join_type, schema },
                PlanView::Join {
                    left: left2,
                    right: right2,
                    on: on2,
                    filter: filter2,
                    join_type: join_type2,
                    schema: schema2,
                },
            ) => left2 == left && right2 == right && join_type2 == join_type && schema2 == schema
                && on2.len() == on.len() && (filter2 is Some <==> filter is Some) && (
            filter is Some ==> g(filter->0) == Ok::<ExprView, ErrorKind>(filter2->0)) && (0 <= i
                < on.len() ==> g(on[i].0) == Ok::<ExprView, ErrorKind>(on2[i].0) && g(on[i].1)
                == Ok::<ExprView, ErrorKind>(on2[i].1)),
            (
                PlanView::Aggregate { input, group_expr, aggr_expr, schema },
                PlanView::Aggregate {
                    input: input2,
                    group_expr: group_expr2,
                    aggr_expr: aggr_expr2,
                    schema: schema2,
                },
            ) => input2 == input && schema2 == schema && group_expr2.len() == group_expr.len()
                && aggr_expr2.len() == aggr_expr.len() && (0 <= i < group_expr.len() ==> g(
                group_expr[i],
            ) == Ok::<ExprView, ErrorKind>(group_expr2[i])) && (0 <= i < aggr_expr.len() ==> {
                &&& aggr_expr2[i].output_name == aggr_expr[i].output_name
                &&& aggr_expr2[i].kind == aggr_expr[i].kind
                &&& aggr_expr2[i].arg is Some <==> aggr_expr[i].arg is Some
                &&& aggr_expr[i].arg is Some ==> g(aggr_expr[i].arg->0) == Ok::<
                    ExprView,
                    ErrorKind,
                >(aggr_expr2[i].arg->0)
            }),
            (q, r) => q == r && (q is Limit || q is EmptyRelation),
        },
{
    match p {
        PlanView::Projection { input, exprs, schema } => {
            lemma_map_list(exprs, g, exprs.len());
        },
        PlanView::Sort { input, exprs } => {
            lemma_map_list(crate::optimizer::rules::common::sort_key_exprs(exprs), g, exprs.len());
        },
        PlanView::TableScan { table_name, source, projection, filters, schema } => {
            lemma_map_list(filters, g, filters.len());
        },
        PlanView::Join { left, right, on, filter, join_type, schema } => {
            lemma_map_pairs(on, g, on.len());
        },
        PlanView::Aggregate { input, group_expr, aggr_expr, schema } => {
            lemma_map_list(group_expr, g, group_expr.len());
            lemma_map_arguments(aggr_expr, g, aggr_expr.len());
        },
        _ => {},
    }
}

} // verus!
