//! Constant folding: `2 * 3` becomes `6`, `CAST('5' AS INT)` becomes `5`. What
//! would fail, such as an overflow, stays as it is, and fails only if it is
//! ever evaluated.

use vstd::prelude::*;

use crate::error::{BasaltError, ErrorKind};
use crate::expr::expr::{binary, eval, expr_type, expr_with_children, Expr, ExprView};
use crate::logical_plan::plan::{LogicalPlan, PlanView};
use crate::optimizer::rule::{ApplyOrder, Knowledge, OptimizerContext, OptimizerRule};
use crate::optimizer::rules::common::{
    expr_outcome, keeps_values, lemma_up_expr, lemma_up_keeps_values, map_all_exprs, mapped,
    realizes, whole,
};
use crate::optimizer::tree_node::{callable, implements, outcome, up, Rewritten, Step, Transformed};
use crate::types::coercion::{BinaryOp, UnaryOp};
use crate::types::value::{binary_value, cast_value, unary_value, Value, ValueView};

verus! {

/// The value of an operation, if it has one.
pub open spec fn succeeded(r: Result<ValueView, ErrorKind>) -> Option<ValueView> {
    match r {
        Ok(v) => Some(v),
        Err(k) => None,
    }
}

/// The constant that two constants fold to: integers under any operator,
/// doubles under arithmetic, booleans under `AND` and `OR`.
pub open spec fn folded_binary(l: ValueView, op: BinaryOp, r: ValueView) -> Option<ValueView> {
    match (l, r) {
        (ValueView::Int64(_), ValueView::Int64(_)) => succeeded(binary_value(op, l, r)),
        (ValueView::Float64(_), ValueView::Float64(_)) => if op.spec_is_arithmetic() {
            succeeded(binary_value(op, l, r))
        } else {
            None
        },
        (ValueView::Boolean(_), ValueView::Boolean(_)) => if op == BinaryOp::And || op
            == BinaryOp::Or {
            succeeded(binary_value(op, l, r))
        } else {
            None
        },
        _ => None,
    }
}

/// The constant that a constant folds to.
pub open spec fn folded_unary(op: UnaryOp, v: ValueView) -> Option<ValueView> {
    if v == ValueView::Null {
        None
    } else {
        succeeded(unary_value(op, v))
    }
}

/// The constant that a node over constants folds to.
pub open spec fn folded(e: ExprView) -> Option<ValueView> {
    match e {
        ExprView::Binary { left, op, right } => match (*left, *right) {
            (ExprView::Literal(l), ExprView::Literal(r)) => folded_binary(l, op, r),
            _ => None,
        },
        ExprView::Unary { op, expr } => match *expr {
            ExprView::Literal(v) => folded_unary(op, v),
            _ => None,
        },
        ExprView::Cast { expr, to } => match *expr {
            ExprView::Literal(v) => succeeded(cast_value(v, to)),
            _ => None,
        },
        ExprView::IsNull(inner) => match *inner {
            ExprView::Literal(v) => Some(ValueView::Boolean(v == ValueView::Null)),
            _ => None,
        },
        ExprView::IsNotNull(inner) => match *inner {
            ExprView::Literal(v) => Some(ValueView::Boolean(v != ValueView::Null)),
            _ => None,
        },
        _ => None,
    }
}

/// One node folded.
pub open spec fn fold_step() -> Step<ExprView> {
    |e: ExprView|
        match folded(e) {
            Some(v) => Ok(Rewritten { changed: true, node: ExprView::Literal(v) }),
            None => Ok(Rewritten { changed: false, node: e }),
        }
}

/// Folding constants keeps what an expression evaluates to on every row, its
/// errors included.
pub proof fn folding_keeps_values(e: ExprView, row: Seq<ValueView>)
    requires
        up::<Expr>(e, fold_step()) is Ok,
    ensures
        eval(up::<Expr>(e, fold_step())->Ok_0.node, row) == eval(e, row),
{
    assert forall|m: ExprView| (#[trigger] fold_step()(m)) is Ok implies eval(
        fold_step()(m)->Ok_0.node,
        row,
    ) == eval(m, row) by {
        reveal_with_fuel(eval, 3);
    }
    assert(keeps_values(fold_step(), row));
    lemma_up_keeps_values(e, fold_step(), row);
}

proof fn lemma_step_keeps_types(m: ExprView)
    ensures
        fold_step()(m) is Ok,
        expr_type(fold_step()(m)->Ok_0.node) is Some ==> expr_type(fold_step()(m)->Ok_0.node)
            == expr_type(m),
{
    reveal_with_fuel(expr_type, 3);
}

/// Folding constants keeps the type of an expression, where what is left has
/// one: a null constant has none.
pub proof fn folding_keeps_types(e: ExprView)
    ensures
        up::<Expr>(e, fold_step()) is Ok,
        expr_type(up::<Expr>(e, fold_step())->Ok_0.node) is Some ==> expr_type(
            up::<Expr>(e, fold_step())->Ok_0.node,
        ) == expr_type(e),
    decreases e,
{
    lemma_up_expr(e, fold_step());
    match e {
        ExprView::Column { index, data_type, nullable } => {
            lemma_step_keeps_types(e);
        },
        ExprView::Literal(v) => {
            lemma_step_keeps_types(e);
        },
        ExprView::Binary { left, op, right } => {
            folding_keeps_types(*left);
            folding_keeps_types(*right);
            let l = up::<Expr>(*left, fold_step())->Ok_0.node;
            let r = up::<Expr>(*right, fold_step())->Ok_0.node;
            let m = binary(l, op, r);
            assert(expr_with_children(e, seq![l, r]) == m);
            lemma_step_keeps_types(m);
        },
        ExprView::Unary { op, expr } => {
            folding_keeps_types(*expr);
            let x = up::<Expr>(*expr, fold_step())->Ok_0.node;
            let m = ExprView::Unary { op, expr: Box::new(x) };
            assert(expr_with_children(e, seq![x]) == m);
            lemma_step_keeps_types(m);
        },
        ExprView::Cast { expr, to } => {
            folding_keeps_types(*expr);
            let x = up::<Expr>(*expr, fold_step())->Ok_0.node;
            let m = ExprView::Cast { expr: Box::new(x), to };
            assert(expr_with_children(e, seq![x]) == m);
            lemma_step_keeps_types(m);
        },
        ExprView::IsNull(inner) => {
            folding_keeps_types(*inner);
            let x = up::<Expr>(*inner, fold_step())->Ok_0.node;
            let m = ExprView::IsNull(Box::new(x));
            assert(expr_with_children(e, seq![x]) == m);
            lemma_step_keeps_types(m);
        },
        ExprView::IsNotNull(inner) => {
            folding_keeps_types(*inner);
            let x = up::<Expr>(*inner, fold_step())->Ok_0.node;
            let m = ExprView::IsNotNull(Box::new(x));
            assert(expr_with_children(e, seq![x]) == m);
            lemma_step_keeps_types(m);
        },
    }
}

fn fold_binary(l: &Value, op: BinaryOp, r: &Value) -> (out: Option<Value>)
    ensures
        match out {
            Some(v) => folded_binary(l@, op, r@) == Some(v@),
            None => folded_binary(l@, op, r@) is None,
        },
{
    let foldable = match (l, r) {
        (Value::Int64(_), Value::Int64(_)) => true,
        (Value::Float64(_), Value::Float64(_)) => op.is_arithmetic(),
        (Value::Boolean(_), Value::Boolean(_)) => op == BinaryOp::And || op == BinaryOp::Or,
        _ => false,
    };
    if !foldable {
        return None;
    }
    match l.binary(op, r) {
        Ok(v) => Some(v),
        Err(_) => None,
    }
}

fn fold_unary(op: UnaryOp, v: &Value) -> (out: Option<Value>)
    ensures
        match out {
            Some(x) => folded_unary(op, v@) == Some(x@),
            None => folded_unary(op, v@) is None,
        },
{
    if v.is_null() {
        return None;
    }
    match v.unary(op) {
        Ok(x) => Some(x),
        Err(_) => None,
    }
}

/// The constant that a node over constants folds to.
fn fold_value(expr: &Expr) -> (out: Option<Value>)
    ensures
        match out {
            Some(v) => folded(expr@) == Some(v@),
            None => folded(expr@) is None,
        },
{
    match expr {
        Expr::Binary { left, op, right } => match (&**left, &**right) {
            (Expr::Literal(l), Expr::Literal(r)) => {
                assert(left@ == ExprView::Literal(l@));
                assert(right@ == ExprView::Literal(r@));
                fold_binary(l, *op, r)
            },
            _ => None,
        },
        Expr::Unary { op, expr: inner } => match &**inner {
            Expr::Literal(v) => {
                assert(inner@ == ExprView::Literal(v@));
                fold_unary(*op, v)
            },
            _ => None,
        },
        Expr::Cast { expr: inner, to } => match &**inner {
            Expr::Literal(v) => {
                assert(inner@ == ExprView::Literal(v@));
                match v.cast_to(*to) {
                    Ok(x) => Some(x),
                    Err(_) => None,
                }
            },
            _ => None,
        },
        Expr::IsNull(inner) => match &**inner {
            Expr::Literal(v) => {
                assert(inner@ == ExprView::Literal(v@));
                Some(Value::Boolean(v.is_null()))
            },
            _ => None,
        },
        Expr::IsNotNull(inner) => match &**inner {
            Expr::Literal(v) => {
                assert(inner@ == ExprView::Literal(v@));
                Some(Value::Boolean(!v.is_null()))
            },
            _ => None,
        },
        _ => None,
    }
}

/// Folds one node.
pub fn fold_node(expr: Expr) -> (r: Transformed<Expr>)
    ensures
        outcome(Ok::<Transformed<Expr>, BasaltError>(r)) == fold_step()(expr@),
{
    match fold_value(&expr) {
        Some(v) => Transformed::Yes(Expr::Literal(v)),
        None => Transformed::No(expr),
    }
}

/// Folds a whole expression.
///
/// # Errors
/// None of its own.
pub fn fold_one(expr: Expr) -> (r: Result<Expr, BasaltError>)
    ensures
        expr_outcome(r) == whole(fold_step())(expr@),
{
    let f = |e: Expr| -> (r: Result<Transformed<Expr>, BasaltError>)
        ensures
            outcome(r) == fold_step()(e@),
        { Ok(fold_node(e)) };
    assert(callable::<Expr, _>(f));
    assert(implements::<Expr, _>(f, fold_step()));
    match expr.transform_up(&f) {
        Ok(t) => Ok(t.into_inner()),
        Err(e) => Err(e),
    }
}

#[derive(Debug)]
pub struct ConstantFolding;

impl OptimizerRule for ConstantFolding {
    open spec fn rewrite(&self, known: Knowledge, plan: PlanView) -> Result<
        Rewritten<PlanView>,
        ErrorKind,
    > {
        mapped(plan, whole(fold_step()))
    }

    open spec fn title(&self) -> Seq<char> {
        "constant_folding"@
    }

    open spec fn order(&self) -> ApplyOrder {
        ApplyOrder::BottomUp
    }

    open spec fn measure(&self, plan: PlanView) -> nat {
        0
    }

    proof fn ends(&self, known: Knowledge) {
    }

    fn name(&self) -> (r: &str) {
        "constant_folding"
    }

    fn apply<C: OptimizerContext>(&self, plan: LogicalPlan, ctx: &C) -> (r: Result<
        Transformed<LogicalPlan>,
        BasaltError,
    >) {
        let f = |e: Expr| -> (r: Result<Expr, BasaltError>)
            ensures
                expr_outcome(r) == whole(fold_step())(e@),
            { fold_one(e) };
        assert(realizes(f, whole(fold_step())));
        map_all_exprs(plan, &f)
    }

    fn apply_order(&self) -> (r: ApplyOrder) {
        ApplyOrder::BottomUp
    }
}

} // verus!
