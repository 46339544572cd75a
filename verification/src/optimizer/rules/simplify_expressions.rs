//! Expression simplification. `x * 0` is `0`, `x = x` is true and `x - x` is
//! `0` only when `x` is never null: with a null they are null. Those rewrites
//! are made only where the expression cannot be null.

use vstd::prelude::*;

use crate::error::{BasaltError, ErrorKind};
use crate::expr::expr::{
    eval, expr_equal, expr_nullable, non_nullable_is_never_null, row_conforms, Expr, ExprView,
};
use crate::logical_plan::plan::{LogicalPlan, PlanView};
use crate::optimizer::rule::{ApplyOrder, Knowledge, OptimizerContext, OptimizerRule};
use crate::optimizer::rules::common::{
    expr_outcome, lemma_up_expr, map_all_exprs, mapped, realizes, whole,
};
use crate::optimizer::tree_node::{callable, implements, outcome, up, Rewritten, Step, Transformed};
use crate::types::coercion::{BinaryOp, UnaryOp};
use crate::types::value::{Value, ValueView};

verus! {

/// A boolean constant.
pub open spec fn truth(b: bool) -> ExprView {
    ExprView::Literal(ValueView::Boolean(b))
}

/// An integer constant.
pub open spec fn whole_number(n: i64) -> ExprView {
    ExprView::Literal(ValueView::Int64(n))
}

/// What a node can be replaced by.
pub open spec fn simplified(e: ExprView) -> Option<ExprView> {
    match e {
        ExprView::Binary { left, op, right } => match op {
            BinaryOp::And => if *left == truth(true) {
                Some(*right)
            } else if *right == truth(true) {
                Some(*left)
            } else if *left == truth(false) || *right == truth(false) {
                Some(truth(false))
            } else {
                None
            },
            BinaryOp::Or => if *left == truth(true) || *right == truth(true) {
                Some(truth(true))
            } else if *left == truth(false) {
                Some(*right)
            } else if *right == truth(false) {
                Some(*left)
            } else {
                None
            },
            BinaryOp::Add => if *right == whole_number(0) {
                Some(*left)
            } else if *left == whole_number(0) {
                Some(*right)
            } else {
                None
            },
            BinaryOp::Mul => if *right == whole_number(1) {
                Some(*left)
            } else if *left == whole_number(1) {
                Some(*right)
            } else if *right == whole_number(0) && !expr_nullable(*left) {
                Some(whole_number(0))
            } else if *left == whole_number(0) && !expr_nullable(*right) {
                Some(whole_number(0))
            } else {
                None
            },
            BinaryOp::Eq => if expr_equal(*left, *right) && !expr_nullable(*left) {
                Some(truth(true))
            } else {
                None
            },
            BinaryOp::Sub => if expr_equal(*left, *right) && !expr_nullable(*left) {
                Some(whole_number(0))
            } else {
                None
            },
            _ => None,
        },
        ExprView::Unary { op: UnaryOp::Not, expr } => match *expr {
            ExprView::Unary { op: UnaryOp::Not, expr: innermost } => Some(*innermost),
            _ => None,
        },
        _ => None,
    }
}

/// One node simplified.
pub open spec fn simplify_step() -> Step<ExprView> {
    |e: ExprView|
        match simplified(e) {
            Some(x) => Ok(Rewritten { changed: true, node: x }),
            None => Ok(Rewritten { changed: false, node: e }),
        }
}

/// A whole expression simplified.
pub open spec fn simple(e: ExprView) -> ExprView {
    up::<Expr>(e, simplify_step())->Ok_0.node
}

/// Whether a row meets what an expression declares of its columns, and the
/// other expression then gives the same value wherever this one gives one.
pub open spec fn refines(e: ExprView, x: ExprView, row: Seq<ValueView>) -> bool {
    row_conforms(e, row) ==> {
        &&& row_conforms(x, row)
        &&& eval(e, row) is Ok ==> eval(x, row) == eval(e, row)
    }
}

/// Where an expression equates something with itself, or takes it from itself,
/// that is one and the same expression and no double spoils it: a NaN is not
/// equal to itself, and a difference of doubles is a double.
pub open spec fn no_double_meets_itself(e: ExprView, row: Seq<ValueView>) -> bool
    decreases e,
{
    match e {
        ExprView::Column { index, data_type, nullable } => true,
        ExprView::Literal(v) => true,
        ExprView::Binary { left, op, right } => {
            &&& no_double_meets_itself(*left, row)
            &&& no_double_meets_itself(*right, row)
            &&& (op == BinaryOp::Eq || op == BinaryOp::Sub) && expr_equal(
                simple(*left),
                simple(*right),
            ) ==> simple(*left) == simple(*right)
            &&& op == BinaryOp::Eq && expr_equal(simple(*left), simple(*right)) ==> !(eval(
                simple(*left),
                row,
            ) matches Ok(ValueView::Float64(x)) && x.is_nan())
            &&& op == BinaryOp::Sub && expr_equal(simple(*left), simple(*right)) ==> !(eval(
                simple(*left),
                row,
            ) matches Ok(ValueView::Float64(x)))
        },
        ExprView::Unary { op, expr } => no_double_meets_itself(*expr, row),
        ExprView::Cast { expr, to } => no_double_meets_itself(*expr, row),
        ExprView::IsNull(inner) => no_double_meets_itself(*inner, row),
        ExprView::IsNotNull(inner) => no_double_meets_itself(*inner, row),
    }
}

proof fn lemma_step_refines(e: ExprView, row: Seq<ValueView>)
    requires
        e matches ExprView::Binary { left, op: BinaryOp::Eq, right } ==> (expr_equal(
            *left,
            *right,
        ) ==> *left == *right && !(eval(*left, row) matches Ok(ValueView::Float64(x))
            && x.is_nan())),
        e matches ExprView::Binary { left, op: BinaryOp::Sub, right } ==> (expr_equal(
            *left,
            *right,
        ) ==> *left == *right && !(eval(*left, row) matches Ok(ValueView::Float64(x)))),
    ensures
        refines(e, simplify_step()(e)->Ok_0.node, row),
{
    reveal_with_fuel(eval, 3);
    reveal_with_fuel(row_conforms, 3);
    if row_conforms(e, row) && eval(e, row) is Ok {
        match e {
            ExprView::Binary { left, op, right } => {
                if !expr_nullable(*left) {
                    non_nullable_is_never_null(*left, row);
                }
                if !expr_nullable(*right) {
                    non_nullable_is_never_null(*right, row);
                }
                let a = eval(*left, row)->Ok_0;
                let b = eval(*right, row)->Ok_0;
                if op == BinaryOp::Mul {
                    if *left == whole_number(0) && b is Int64 {
                        assert(0 * b->Int64_0 == 0);
                    }
                    if *right == whole_number(0) && a is Int64 {
                        assert(a->Int64_0 * 0 == 0);
                    }
                    if *left == whole_number(1) && b is Int64 {
                        assert(1 * b->Int64_0 == b->Int64_0);
                    }
                    if *right == whole_number(1) && a is Int64 {
                        assert(a->Int64_0 * 1 == a->Int64_0);
                    }
                }
            },
            _ => {},
        }
    }
}

/// Simplifying keeps the value of an expression on every row that meets what
/// the expression declares of its columns.
pub proof fn simplifying_keeps_values(e: ExprView, row: Seq<ValueView>)
    requires
        no_double_meets_itself(e, row),
    ensures
        up::<Expr>(e, simplify_step()) is Ok,
        refines(e, simple(e), row),
    decreases e,
{
    lemma_up_expr(e, simplify_step());
    match e {
        ExprView::Column { index, data_type, nullable } => {
            lemma_step_refines(e, row);
        },
        ExprView::Literal(v) => {
            lemma_step_refines(e, row);
        },
        ExprView::Binary { left, op, right } => {
            simplifying_keeps_values(*left, row);
            simplifying_keeps_values(*right, row);
            let m = crate::expr::expr::binary(simple(*left), op, simple(*right));
            assert(crate::expr::expr::expr_with_children(
                e,
                seq![simple(*left), simple(*right)],
            ) == m);
            lemma_step_refines(m, row);
            assert(refines(e, m, row));
        },
        ExprView::Unary { op, expr } => {
            simplifying_keeps_values(*expr, row);
            let m = ExprView::Unary { op, expr: Box::new(simple(*expr)) };
            assert(crate::expr::expr::expr_with_children(e, seq![simple(*expr)]) == m);
            lemma_step_refines(m, row);
            assert(refines(e, m, row));
        },
        ExprView::Cast { expr, to } => {
            simplifying_keeps_values(*expr, row);
            let m = ExprView::Cast { expr: Box::new(simple(*expr)), to };
            assert(crate::expr::expr::expr_with_children(e, seq![simple(*expr)]) == m);
            lemma_step_refines(m, row);
            assert(refines(e, m, row));
        },
        ExprView::IsNull(inner) => {
            simplifying_keeps_values(*inner, row);
            let m = ExprView::IsNull(Box::new(simple(*inner)));
            assert(crate::expr::expr::expr_with_children(e, seq![simple(*inner)]) == m);
            lemma_step_refines(m, row);
            assert(refines(e, m, row));
        },
        ExprView::IsNotNull(inner) => {
            simplifying_keeps_values(*inner, row);
            let m = ExprView::IsNotNull(Box::new(simple(*inner)));
            assert(crate::expr::expr::expr_with_children(e, seq![simple(*inner)]) == m);
            lemma_step_refines(m, row);
            assert(refines(e, m, row));
        },
    }
}

fn is_literal_bool(e: &Expr, want: bool) -> (r: bool)
    ensures
        r == (e@ == truth(want)),
{
    match e {
        Expr::Literal(Value::Boolean(b)) => *b == want,
        _ => false,
    }
}

fn is_literal_int(e: &Expr, want: i64) -> (r: bool)
    ensures
        r == (e@ == whole_number(want)),
{
    match e {
        Expr::Literal(Value::Int64(n)) => *n == want,
        _ => false,
    }
}

/// What a node can be replaced by.
fn simplify(expr: &Expr) -> (r: Option<Expr>)
    ensures
        match r {
            Some(x) => simplified(expr@) == Some(x@),
            None => simplified(expr@) is None,
        },
{
    match expr {
        Expr::Binary { left, op, right } => match op {
            BinaryOp::And => {
                if is_literal_bool(left, true) {
                    Some(right.copy())
                } else if is_literal_bool(right, true) {
                    Some(left.copy())
                } else if is_literal_bool(left, false) || is_literal_bool(right, false) {
                    Some(Expr::Literal(Value::Boolean(false)))
                } else {
                    None
                }
            },
            BinaryOp::Or => {
                if is_literal_bool(left, true) || is_literal_bool(right, true) {
                    Some(Expr::Literal(Value::Boolean(true)))
                } else if is_literal_bool(left, false) {
                    Some(right.copy())
                } else if is_literal_bool(right, false) {
                    Some(left.copy())
                } else {
                    None
                }
            },
            BinaryOp::Add => {
                if is_literal_int(right, 0) {
                    Some(left.copy())
                } else if is_literal_int(left, 0) {
                    Some(right.copy())
                } else {
                    None
                }
            },
            BinaryOp::Mul => {
                if is_literal_int(right, 1) {
                    Some(left.copy())
                } else if is_literal_int(left, 1) {
                    Some(right.copy())
                } else if is_literal_int(right, 0) && !left.nullable() {
                    Some(Expr::Literal(Value::Int64(0)))
                } else if is_literal_int(left, 0) && !right.nullable() {
                    Some(Expr::Literal(Value::Int64(0)))
                } else {
                    None
                }
            },
            BinaryOp::Eq => {
                if left.equals(right) && !left.nullable() {
                    Some(Expr::Literal(Value::Boolean(true)))
                } else {
                    None
                }
            },
            BinaryOp::Sub => {
                if left.equals(right) && !left.nullable() {
                    Some(Expr::Literal(Value::Int64(0)))
                } else {
                    None
                }
            },
            _ => None,
        },
        Expr::Unary { op: UnaryOp::Not, expr: inner } => match &**inner {
            Expr::Unary { op: UnaryOp::Not, expr: innermost } => {
                assert(inner@ == (ExprView::Unary {
                    op: UnaryOp::Not,
                    expr: Box::new(innermost@),
                }));
                Some(innermost.copy())
            },
            _ => None,
        },
        _ => None,
    }
}

/// Simplifies one node.
pub fn simplify_node(expr: Expr) -> (r: Transformed<Expr>)
    ensures
        outcome(Ok::<Transformed<Expr>, BasaltError>(r)) == simplify_step()(expr@),
{
    match simplify(&expr) {
        Some(x) => Transformed::Yes(x),
        None => Transformed::No(expr),
    }
}

/// Simplifies a whole expression.
///
/// # Errors
/// None of its own.
pub fn simplify_one(expr: Expr) -> (r: Result<Expr, BasaltError>)
    ensures
        expr_outcome(r) == whole(simplify_step())(expr@),
{
    let f = |e: Expr| -> (r: Result<Transformed<Expr>, BasaltError>)
        ensures
            outcome(r) == simplify_step()(e@),
        { Ok(simplify_node(e)) };
    assert(callable::<Expr, _>(f));
    assert(implements::<Expr, _>(f, simplify_step()));
    match expr.transform_up(&f) {
        Ok(t) => Ok(t.into_inner()),
        Err(e) => Err(e),
    }
}

#[derive(Debug)]
pub struct SimplifyExpressions;

impl OptimizerRule for SimplifyExpressions {
    open spec fn rewrite(&self, known: Knowledge, plan: PlanView) -> Result<
        Rewritten<PlanView>,
        ErrorKind,
    > {
        mapped(plan, whole(simplify_step()))
    }

    open spec fn title(&self) -> Seq<char> {
        "simplify_expressions"@
    }

    open spec fn order(&self) -> ApplyOrder {
        ApplyOrder::BottomUp
    }

    open spec fn measure(&self, plan: PlanView) -> nat {
        0
    }

    proof fn ends(&self, known: Knowledge) {
    }

    fn name(&self) -> (r: &str) {
        "simplify_expressions"
    }

    fn apply<C: OptimizerContext>(&self, plan: LogicalPlan, ctx: &C) -> (r: Result<
        Transformed<LogicalPlan>,
        BasaltError,
    >) {
        let f = |e: Expr| -> (r: Result<Expr, BasaltError>)
            ensures
                expr_outcome(r) == whole(simplify_step())(e@),
            { simplify_one(e) };
        assert(realizes(f, whole(simplify_step())));
        map_all_exprs(plan, &f)
    }

    fn apply_order(&self) -> (r: ApplyOrder) {
        ApplyOrder::BottomUp
    }
}

} // verus!
