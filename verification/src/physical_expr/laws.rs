//! What is said of an expression before it runs holds of what it gives.

use vstd::prelude::*;

use crate::batch::BatchView;
use crate::compute::ColumnView;
use crate::compute_laws::{binary_kernels_work_row_by_row, other_kernels_work_row_by_row};
use crate::physical_expr::expr::{
    eval_batch, physical_children, physical_nullable, physical_type, PhysicalExprView,
};
use crate::types::coercion::{BinaryOp, UnaryOp};
use crate::types::data_type::DataType;
use crate::types::value::{binary_value, ValueView};

verus! {

/// An expression that has a value over a batch has the type that it was said to
/// have over its schema.
pub proof fn expressions_have_their_type(e: PhysicalExprView, b: BatchView)
    requires
        b.wf(),
        eval_batch(e, b) is Ok,
    ensures
        physical_type(e, b.schema) == Ok::<DataType, crate::error::ErrorKind>(
            eval_batch(e, b)->Ok_0.data_type,
        ),
    decreases e,
{
    match e {
        PhysicalExprView::Column(i) => {
            assert(b.columns[i as int].data_type == b.schema[i as int].data_type);
        },
        PhysicalExprView::Literal(t, v) => {},
        PhysicalExprView::Binary(l, op, r) => {
            expressions_have_their_type(*l, b);
            expressions_have_their_type(*r, b);
        },
        PhysicalExprView::Cast(inner, to) => {},
        PhysicalExprView::IsNull(inner, negated) => {},
        PhysicalExprView::Not(inner) => {
            expressions_have_their_type(*inner, b);
        },
        PhysicalExprView::Neg(inner) => {
            expressions_have_their_type(*inner, b);
        },
    }
}

/// Whether no column of a batch that may not hold nulls holds one.
pub open spec fn nulls_allowed(b: BatchView) -> bool {
    forall|c: int, i: int|
        0 <= c < b.columns.len() && 0 <= i < b.num_rows && !b.schema[c].nullable
            ==> #[trigger] b.columns[c].values[i] != ValueView::Null
}

/// Whether a column holds no null.
pub open spec fn without_nulls(c: ColumnView) -> bool {
    forall|i: int| 0 <= i < c.values.len() ==> #[trigger] c.values[i] != ValueView::Null
}

/// An expression that was said to give no nulls gives none.
pub proof fn expressions_give_nulls_only_where_they_may(e: PhysicalExprView, b: BatchView)
    requires
        b.wf(),
        nulls_allowed(b),
        eval_batch(e, b) is Ok,
        physical_nullable(e, b.schema) == Ok::<bool, crate::error::ErrorKind>(false),
    ensures
        without_nulls(eval_batch(e, b)->Ok_0),
    decreases e,
{
    let c = eval_batch(e, b)->Ok_0;
    match e {
        PhysicalExprView::Column(i) => {
            assert forall|k: int| 0 <= k < c.values.len() implies #[trigger] c.values[k]
                != ValueView::Null by {
                assert(b.columns[i as int].values.len() == b.num_rows);
                assert(b.columns[i as int].values[k] != ValueView::Null);
            }
        },
        PhysicalExprView::Literal(t, v) => {},
        PhysicalExprView::Binary(l, op, r) => {
            expressions_give_nulls_only_where_they_may(*l, b);
            expressions_give_nulls_only_where_they_may(*r, b);
            let x = eval_batch(*l, b)->Ok_0;
            let y = eval_batch(*r, b)->Ok_0;
            assert forall|k: int| 0 <= k < c.values.len() implies #[trigger] c.values[k]
                != ValueView::Null by {
                binary_kernels_work_row_by_row(op, x, y, k);
                let u = if x.scalar {
                    x.values[0]
                } else {
                    x.values[k]
                };
                let v = if y.scalar {
                    y.values[0]
                } else {
                    y.values[k]
                };
                lemma_scalars_have_one_value(*l, b);
                lemma_scalars_have_one_value(*r, b);
                assert(u != ValueView::Null && v != ValueView::Null);
                assert(binary_value(op, u, v)->Ok_0 == c.values[k]);
            }
        },
        PhysicalExprView::Cast(inner, to) => {
            expressions_give_nulls_only_where_they_may(*inner, b);
            let x = eval_batch(*inner, b)->Ok_0;
            lemma_same_length(*inner, b, to);
            assert forall|k: int| 0 <= k < c.values.len() implies #[trigger] c.values[k]
                != ValueView::Null by {
                other_kernels_work_row_by_row(x, UnaryOp::Not, to, k);
                assert(x.values[k] != ValueView::Null);
            }
        },
        PhysicalExprView::IsNull(inner, negated) => {},
        PhysicalExprView::Not(inner) => {
            expressions_give_nulls_only_where_they_may(*inner, b);
            let x = eval_batch(*inner, b)->Ok_0;
            lemma_unary_length(UnaryOp::Not, x);
            assert forall|k: int| 0 <= k < c.values.len() implies #[trigger] c.values[k]
                != ValueView::Null by {
                other_kernels_work_row_by_row(x, UnaryOp::Not, x.data_type, k);
                assert(x.values[k] != ValueView::Null);
            }
        },
        PhysicalExprView::Neg(inner) => {
            expressions_give_nulls_only_where_they_may(*inner, b);
            let x = eval_batch(*inner, b)->Ok_0;
            lemma_unary_length(UnaryOp::Neg, x);
            assert forall|k: int| 0 <= k < c.values.len() implies #[trigger] c.values[k]
                != ValueView::Null by {
                other_kernels_work_row_by_row(x, UnaryOp::Neg, x.data_type, k);
                assert(x.values[k] != ValueView::Null);
            }
        },
    }
}

proof fn lemma_unary_length(op: UnaryOp, c: ColumnView)
    requires
        crate::compute::unary_column(op, c) is Ok,
    ensures
        crate::compute::unary_column(op, c)->Ok_0.values.len() == c.values.len(),
        crate::compute::unary_column(op, c)->Ok_0.scalar == c.scalar,
{
    if c.values.len() > 0 {
        other_kernels_work_row_by_row(c, op, c.data_type, 0);
    }
}

proof fn lemma_cast_length(c: ColumnView, to: DataType)
    requires
        crate::compute::cast_column(c, to) is Ok,
    ensures
        crate::compute::cast_column(c, to)->Ok_0.values.len() == c.values.len(),
        crate::compute::cast_column(c, to)->Ok_0.scalar == c.scalar,
{
    if c.values.len() > 0 {
        other_kernels_work_row_by_row(c, UnaryOp::Not, to, 0);
    }
}

proof fn lemma_same_length(e: PhysicalExprView, b: BatchView, to: DataType)
    requires
        eval_batch(e, b) is Ok,
        crate::compute::cast_column(eval_batch(e, b)->Ok_0, to) is Ok,
    ensures
        crate::compute::cast_column(eval_batch(e, b)->Ok_0, to)->Ok_0.values.len() == eval_batch(
            e,
            b,
        )->Ok_0.values.len(),
{
    lemma_cast_length(eval_batch(e, b)->Ok_0, to);
}

proof fn lemma_scalars_have_one_value(e: PhysicalExprView, b: BatchView)
    requires
        eval_batch(e, b) is Ok,
    ensures
        eval_batch(e, b)->Ok_0.scalar ==> eval_batch(e, b)->Ok_0.values.len() == 1,
    decreases e,
{
    match e {
        PhysicalExprView::Column(i) => {},
        PhysicalExprView::Literal(t, v) => {},
        PhysicalExprView::Binary(l, op, r) => {
            let x = eval_batch(*l, b)->Ok_0;
            let y = eval_batch(*r, b)->Ok_0;
            binary_kernels_work_row_by_row(op, x, y, 0);
        },
        PhysicalExprView::Cast(inner, to) => {
            lemma_scalars_have_one_value(*inner, b);
            lemma_cast_length(eval_batch(*inner, b)->Ok_0, to);
        },
        PhysicalExprView::IsNull(inner, negated) => {
            lemma_scalars_have_one_value(*inner, b);
        },
        PhysicalExprView::Not(inner) => {
            lemma_scalars_have_one_value(*inner, b);
            lemma_unary_length(UnaryOp::Not, eval_batch(*inner, b)->Ok_0);
        },
        PhysicalExprView::Neg(inner) => {
            lemma_scalars_have_one_value(*inner, b);
            lemma_unary_length(UnaryOp::Neg, eval_batch(*inner, b)->Ok_0);
        },
    }
}

/// The operands of an operation are its left and right side, in this order.
pub proof fn operands_come_left_to_right(l: PhysicalExprView, op: BinaryOp, r: PhysicalExprView)
    ensures
        physical_children(PhysicalExprView::Binary(Box::new(l), op, Box::new(r))) == seq![l, r],
        physical_children(PhysicalExprView::Not(Box::new(l))) == seq![l],
        physical_children(PhysicalExprView::Neg(Box::new(l))) == seq![l],
{
}

} // verus!
