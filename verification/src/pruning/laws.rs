//! When data is skipped: exactly where the statistics leave no value that could
//! pass.

use vstd::prelude::*;

use crate::error::ErrorKind;
use crate::expr::expr::ExprView;
use crate::float64::Float64;
use crate::pruning::predicate::pruned;
use crate::statistics::{ColumnStatsView, Precision};
use crate::types::coercion::BinaryOp;
use crate::types::data_type::DataType;
use crate::types::value::{binary_value, ValueView};

verus! {

/// Whether an operator compares by order or for equality.
pub open spec fn compares(op: BinaryOp) -> bool {
    op is Eq || op is Lt || op is LtEq || op is Gt || op is GtEq
}

/// Whether a comparison of two values holds.
pub open spec fn passes(op: BinaryOp, a: ValueView, b: ValueView) -> bool {
    binary_value(op, a, b) == Ok::<ValueView, ErrorKind>(ValueView::Boolean(true))
}

pub open spec fn comparison(l: ExprView, op: BinaryOp, r: ExprView) -> ExprView {
    ExprView::Binary { left: Box::new(l), op, right: Box::new(r) }
}

/// How two integers compare.
pub open spec fn integers_compare(op: BinaryOp, a: i64, b: i64) -> bool {
    match op {
        BinaryOp::Eq => a == b,
        BinaryOp::Lt => a < b,
        BinaryOp::LtEq => a <= b,
        BinaryOp::Gt => a > b,
        _ => a >= b,
    }
}

/// How two doubles compare.
pub open spec fn doubles_compare(op: BinaryOp, a: Float64, b: Float64) -> bool {
    match op {
        BinaryOp::Eq => a.num_eq(b),
        BinaryOp::Lt => a.num_lt(b),
        BinaryOp::LtEq => a.num_le(b),
        BinaryOp::Gt => b.num_lt(a),
        _ => b.num_le(a),
    }
}

/// A column of integers between two bounds that are certain is skipped exactly
/// where no integer between them passes, whichever side the literal is on.
pub proof fn integers_out_of_reach_are_skipped(
    index: usize,
    nullable: bool,
    op: BinaryOp,
    v: i64,
    stats: Seq<ColumnStatsView>,
    lo: i64,
    hi: i64,
)
    requires
        compares(op),
        index < stats.len(),
        lo <= hi,
        stats[index as int].min_value == Precision::Exact(
            (DataType::Int64, ValueView::Int64(lo)),
        ),
        stats[index as int].max_value == Precision::Exact(
            (DataType::Int64, ValueView::Int64(hi)),
        ),
    ensures
        ({
            let c = ExprView::Column { index, data_type: DataType::Int64, nullable };
            let l = ExprView::Literal(ValueView::Int64(v));
            &&& pruned(comparison(c, op, l), stats) is CanSkip <==> forall|x: i64|
                lo <= x <= hi ==> !#[trigger] passes(op, ValueView::Int64(x), ValueView::Int64(v))
            &&& pruned(comparison(l, op, c), stats) is CanSkip <==> forall|x: i64|
                lo <= x <= hi ==> !#[trigger] passes(op, ValueView::Int64(v), ValueView::Int64(x))
        }),
{
    assert forall|x: i64, y: i64| #[trigger] passes(op, ValueView::Int64(x), ValueView::Int64(y))
        == integers_compare(op, x, y) by {}
    let m = ValueView::Int64(v);
    assert(passes(op, ValueView::Int64(lo), m) == integers_compare(op, lo, v));
    assert(passes(op, ValueView::Int64(hi), m) == integers_compare(op, hi, v));
    assert(passes(op, m, ValueView::Int64(lo)) == integers_compare(op, v, lo));
    assert(passes(op, m, ValueView::Int64(hi)) == integers_compare(op, v, hi));
    assert(passes(op, m, m) == integers_compare(op, v, v));
}

/// A column of doubles between two bounds that are certain is skipped exactly
/// where no double between them passes.
pub proof fn doubles_out_of_reach_are_skipped(
    index: usize,
    nullable: bool,
    op: BinaryOp,
    v: Float64,
    stats: Seq<ColumnStatsView>,
    lo: Float64,
    hi: Float64,
)
    requires
        compares(op),
        index < stats.len(),
        !v.is_nan(),
        lo.num_le(hi),
        stats[index as int].min_value == Precision::Exact(
            (DataType::Float64, ValueView::Float64(lo)),
        ),
        stats[index as int].max_value == Precision::Exact(
            (DataType::Float64, ValueView::Float64(hi)),
        ),
    ensures
        ({
            let c = ExprView::Column { index, data_type: DataType::Float64, nullable };
            let l = ExprView::Literal(ValueView::Float64(v));
            &&& pruned(comparison(c, op, l), stats) is CanSkip <==> forall|x: Float64|
                lo.num_le(x) && x.num_le(hi) ==> !#[trigger] passes(
                    op,
                    ValueView::Float64(x),
                    ValueView::Float64(v),
                )
            &&& pruned(comparison(l, op, c), stats) is CanSkip <==> forall|x: Float64|
                lo.num_le(x) && x.num_le(hi) ==> !#[trigger] passes(
                    op,
                    ValueView::Float64(v),
                    ValueView::Float64(x),
                )
        }),
{
    assert forall|x: Float64, y: Float64|
        #[trigger] passes(op, ValueView::Float64(x), ValueView::Float64(y)) == doubles_compare(
            op,
            x,
            y,
        ) by {}
    let m = ValueView::Float64(v);
    assert(passes(op, ValueView::Float64(lo), m) == doubles_compare(op, lo, v));
    assert(passes(op, ValueView::Float64(hi), m) == doubles_compare(op, hi, v));
    assert(passes(op, m, ValueView::Float64(lo)) == doubles_compare(op, v, lo));
    assert(passes(op, m, ValueView::Float64(hi)) == doubles_compare(op, v, hi));
    assert(passes(op, m, m) == doubles_compare(op, v, v));
}

/// Without bounds that are certain a comparison skips nothing.
pub proof fn uncertain_bounds_skip_nothing(
    index: usize,
    t: DataType,
    nullable: bool,
    op: BinaryOp,
    v: ValueView,
    stats: Seq<ColumnStatsView>,
)
    requires
        compares(op),
        index < stats.len(),
        !(stats[index as int].min_value is Exact) || !(stats[index as int].max_value is Exact),
    ensures
        ({
            let c = ExprView::Column { index, data_type: t, nullable };
            let l = ExprView::Literal(v);
            &&& pruned(comparison(c, op, l), stats) is MustScan
            &&& pruned(comparison(l, op, c), stats) is MustScan
        }),
{
}

/// Where both conditions have to hold, data is skipped as soon as one of them
/// cannot; where one is enough, only when neither can.
pub proof fn conditions_skip_together(l: ExprView, r: ExprView, stats: Seq<ColumnStatsView>)
    ensures
        pruned(comparison(l, BinaryOp::And, r), stats) is CanSkip <==> pruned(l, stats) is CanSkip
            || pruned(r, stats) is CanSkip,
        pruned(comparison(l, BinaryOp::Or, r), stats) is CanSkip <==> pruned(l, stats) is CanSkip
            && pruned(r, stats) is CanSkip,
{
}

/// A column is not searched for nulls exactly where it certainly has none.
pub proof fn columns_without_nulls_are_skipped(
    index: usize,
    t: DataType,
    nullable: bool,
    stats: Seq<ColumnStatsView>,
)
    requires
        index < stats.len(),
    ensures
        pruned(
            ExprView::IsNull(Box::new(ExprView::Column { index, data_type: t, nullable })),
            stats,
        ) is CanSkip <==> stats[index as int].null_count is Exact
            && stats[index as int].null_count.value() == Some(0usize),
        pruned(
            ExprView::IsNotNull(Box::new(ExprView::Column { index, data_type: t, nullable })),
            stats,
        ) is MustScan,
{
}

} // verus!
