//! A predicate against the least and greatest values of columns, instead of
//! their rows. A partition is skipped only where it is certain that no row
//! matches: to skip wrongly loses rows, to scan wrongly only costs time. So
//! estimates count for nothing here, and integers are compared as integers.

use vstd::prelude::*;

use crate::error::{BasaltError, ErrorKind};
use crate::expr::expr::{eval, Expr, ExprView};
use crate::float64::Float64;
use crate::optimizer::cardinality::selectivity::{check_columns, in_range, mirrored};
use crate::optimizer::rules::common::columns_of;
use crate::scalar::ScalarValue;
use crate::statistics::{
    as_number, column_stats_views, numeric, ColumnStatistics, ColumnStatsView, Precision,
};
use crate::types::coercion::BinaryOp;

use crate::types::value::{binary_value, Value, ValueView};

verus! {

#[derive(Debug, PartialEq, Eq, Structural, Clone, Copy)]
pub enum PruningResult {
    /// No row can match.
    CanSkip,
    /// Some row may match.
    MustScan,
}

/// Whether one number is below another, or equal to it.
pub open spec fn at_most(a: ValueView, b: ValueView) -> bool {
    match (a, b) {
        (ValueView::Int64(x), ValueView::Int64(y)) => x <= y,
        _ => match (numeric(a), numeric(b)) {
            (Some(x), Some(y)) => x.num_le(y),
            _ => false,
        },
    }
}

/// Whether one number is below another.
pub open spec fn below(a: ValueView, b: ValueView) -> bool {
    match (a, b) {
        (ValueView::Int64(x), ValueView::Int64(y)) => x < y,
        _ => match (numeric(a), numeric(b)) {
            (Some(x), Some(y)) => x.num_lt(y),
            _ => false,
        },
    }
}

/// Whether no value from `min` to `max` compares with `v` as asked.
pub open spec fn out_of_reach(op: BinaryOp, min: ValueView, max: ValueView, v: ValueView) -> bool {
    match op {
        BinaryOp::Gt => at_most(max, v),
        BinaryOp::GtEq => below(max, v),
        BinaryOp::Lt => at_most(v, min),
        BinaryOp::LtEq => below(v, min),
        BinaryOp::Eq => below(v, min) || below(max, v),
        _ => false,
    }
}

/// A column against a literal.
pub open spec fn column_pruned(
    index: usize,
    op: BinaryOp,
    v: ValueView,
    stats: Seq<ColumnStatsView>,
) -> PruningResult {
    match (stats[index as int].min_value, stats[index as int].max_value) {
        (Precision::Exact(min), Precision::Exact(max)) => if out_of_reach(op, min.1, max.1, v) {
            PruningResult::CanSkip
        } else {
            PruningResult::MustScan
        },
        _ => PruningResult::MustScan,
    }
}

/// What statistics say of a predicate.
pub open spec fn pruned(predicate: ExprView, stats: Seq<ColumnStatsView>) -> PruningResult
    decreases predicate,
{
    match predicate {
        ExprView::Binary { left, op, right } => match op {
            BinaryOp::And => if pruned(*left, stats) is CanSkip || pruned(
                *right,
                stats,
            ) is CanSkip {
                PruningResult::CanSkip
            } else {
                PruningResult::MustScan
            },
            BinaryOp::Or => if pruned(*left, stats) is CanSkip && pruned(
                *right,
                stats,
            ) is CanSkip {
                PruningResult::CanSkip
            } else {
                PruningResult::MustScan
            },
            _ => match (*left, *right) {
                (
                    ExprView::Column { index, data_type, nullable },
                    ExprView::Literal(v),
                ) => column_pruned(index, op, v, stats),
                (
                    ExprView::Literal(v),
                    ExprView::Column { index, data_type, nullable },
                ) => column_pruned(index, mirrored(op), v, stats),
                _ => PruningResult::MustScan,
            },
        },
        ExprView::IsNull(inner) => match *inner {
            ExprView::Column { index, data_type, nullable } => if stats[index as int].null_count
                == Precision::Exact(0usize) {
                PruningResult::CanSkip
            } else {
                PruningResult::MustScan
            },
            _ => PruningResult::MustScan,
        },
        _ => PruningResult::MustScan,
    }
}

/// Whether a value agrees with a column's statistics: it is null only where
/// nulls are allowed for, and otherwise of the bounds' type and between them.
pub open spec fn agrees(v: ValueView, c: ColumnStatsView) -> bool {
    &&& v == ValueView::Null ==> c.null_count != Precision::Exact(0usize)
    &&& c.min_value matches Precision::Exact(m) ==> v == ValueView::Null || v.data_type()
        == m.1.data_type() && !below(v, m.1)
    &&& c.max_value matches Precision::Exact(m) ==> v == ValueView::Null || v.data_type()
        == m.1.data_type() && !below(m.1, v)
}

/// Whether a row agrees with the statistics of its columns.
pub open spec fn row_agrees(row: Seq<ValueView>, stats: Seq<ColumnStatsView>) -> bool {
    forall|i: int| 0 <= i < row.len() && i < stats.len() ==> agrees(#[trigger] row[i], stats[i])
}

/// Where statistics say that a partition can be skipped, no row that agrees with
/// them passes the predicate.
pub proof fn skipping_loses_no_rows(
    predicate: ExprView,
    stats: Seq<ColumnStatsView>,
    row: Seq<ValueView>,
)
    requires
        in_range(predicate, stats.len() as int),
        row_agrees(row, stats),
        pruned(predicate, stats) is CanSkip,
    ensures
        eval(predicate, row) != Ok::<ValueView, ErrorKind>(ValueView::Boolean(true)),
    decreases predicate,
{
    reveal_with_fuel(eval, 2);
    match predicate {
        ExprView::Binary { left, op, right } => {
            let l = columns_of(*left);
            let r = columns_of(*right);
            assert forall|i: int| 0 <= i < l.len() implies (#[trigger] l[i]) < stats.len() by {
                assert(columns_of(predicate)[i] == l[i]);
            }
            assert forall|i: int| 0 <= i < r.len() implies (#[trigger] r[i]) < stats.len() by {
                assert(columns_of(predicate)[l.len() + i] == r[i]);
            }
            match op {
                BinaryOp::And => {
                    if pruned(*left, stats) is CanSkip {
                        skipping_loses_no_rows(*left, stats, row);
                    } else {
                        skipping_loses_no_rows(*right, stats, row);
                    }
                },
                BinaryOp::Or => {
                    skipping_loses_no_rows(*left, stats, row);
                    skipping_loses_no_rows(*right, stats, row);
                },
                _ => {
                    match (*left, *right) {
                        (
                            ExprView::Column { index, data_type, nullable },
                            ExprView::Literal(v),
                        ) => {
                            assert(l[0] == index);
                            if index < row.len() {
                                lemma_out_of_reach(op, row[index as int], v, stats[index as int]);
                            }
                        },
                        (
                            ExprView::Literal(v),
                            ExprView::Column { index, data_type, nullable },
                        ) => {
                            assert(r[0] == index);
                            if index < row.len() {
                                lemma_out_of_reach(
                                    mirrored(op),
                                    row[index as int],
                                    v,
                                    stats[index as int],
                                );
                            }
                        },
                        _ => {},
                    }
                },
            }
        },
        ExprView::IsNull(inner) => {
            match *inner {
                ExprView::Column { index, data_type, nullable } => {
                    assert(columns_of(*inner)[0] == index);
                    assert(columns_of(predicate)[0] == index);
                    if index < row.len() {
                        assert(agrees(row[index as int], stats[index as int]));
                    }
                },
                _ => {},
            }
        },
        _ => {},
    }
}

proof fn lemma_out_of_reach(op: BinaryOp, x: ValueView, v: ValueView, c: ColumnStatsView)
    requires
        agrees(x, c),
        c.min_value is Exact,
        c.max_value is Exact,
        out_of_reach(op, c.min_value->Exact_0.1, c.max_value->Exact_0.1, v),
    ensures
        binary_value(op, x, v) != Ok::<ValueView, ErrorKind>(ValueView::Boolean(true)),
        binary_value(mirrored(op), v, x) != Ok::<ValueView, ErrorKind>(ValueView::Boolean(true)),
{
}

fn is_at_most(a: &ScalarValue, b: &Value) -> (r: bool)
    ensures
        r == at_most(a@, b@),
{
    match (a, b) {
        (ScalarValue::Int64(Some(x)), Value::Int64(y)) => *x <= *y,
        _ => match (as_number(a), value_number(b)) {
            (Some(x), Some(y)) => x.le_num(y),
            _ => false,
        },
    }
}

fn is_at_least(a: &ScalarValue, b: &Value) -> (r: bool)
    ensures
        r == at_most(b@, a@),
{
    match (a, b) {
        (ScalarValue::Int64(Some(x)), Value::Int64(y)) => *y <= *x,
        _ => match (as_number(a), value_number(b)) {
            (Some(x), Some(y)) => y.le_num(x),
            _ => false,
        },
    }
}

fn is_below(a: &ScalarValue, b: &Value) -> (r: bool)
    ensures
        r == below(a@, b@),
{
    match (a, b) {
        (ScalarValue::Int64(Some(x)), Value::Int64(y)) => *x < *y,
        _ => match (as_number(a), value_number(b)) {
            (Some(x), Some(y)) => x.lt_num(y),
            _ => false,
        },
    }
}

fn is_above(a: &ScalarValue, b: &Value) -> (r: bool)
    ensures
        r == below(b@, a@),
{
    match (a, b) {
        (ScalarValue::Int64(Some(x)), Value::Int64(y)) => *y < *x,
        _ => match (as_number(a), value_number(b)) {
            (Some(x), Some(y)) => y.lt_num(x),
            _ => false,
        },
    }
}

fn value_number(v: &Value) -> (r: Option<Float64>)
    ensures
        r == numeric(v@),
{
    match v {
        Value::Int64(n) => Some(Float64::from_i64(*n)),
        Value::Float64(x) => Some(*x),
        _ => None,
    }
}

/// What statistics say of a predicate.
///
/// # Errors
/// An internal error where the predicate refers to a column there are no
/// statistics for: the statistics then belong to something else.
pub fn prune(predicate: &Expr, stats: &Vec<ColumnStatistics>) -> (r: Result<
    PruningResult,
    BasaltError,
>)
    ensures
        match r {
            Ok(p) => in_range(predicate@, stats@.len() as int) && p == pruned(
                predicate@,
                column_stats_views(stats@),
            ),
            Err(e) => e@ == ErrorKind::Internal && !in_range(predicate@, stats@.len() as int),
        },
{
    match check_columns(predicate, stats.len()) {
        Ok(_) => Ok(prune_checked(predicate, stats)),
        Err(e) => Err(e),
    }
}

fn prune_checked(predicate: &Expr, stats: &Vec<ColumnStatistics>) -> (r: PruningResult)
    requires
        in_range(predicate@, stats@.len() as int),
    ensures
        r == pruned(predicate@, column_stats_views(stats@)),
    decreases predicate,
{
    match predicate {
        Expr::Binary { left, op, right } => {
            proof {
                let l = columns_of(left@);
                let r = columns_of(right@);
                assert forall|i: int| 0 <= i < l.len() implies (#[trigger] l[i]) < stats@.len() by {
                    assert(columns_of(predicate@)[i] == l[i]);
                }
                assert forall|i: int| 0 <= i < r.len() implies (#[trigger] r[i]) < stats@.len() by {
                    assert(columns_of(predicate@)[l.len() + i] == r[i]);
                }
            }
            match op {
                BinaryOp::And => {
                    let a = prune_checked(left, stats);
                    let b = prune_checked(right, stats);
                    if a == PruningResult::CanSkip || b == PruningResult::CanSkip {
                        PruningResult::CanSkip
                    } else {
                        PruningResult::MustScan
                    }
                },
                BinaryOp::Or => {
                    let a = prune_checked(left, stats);
                    let b = prune_checked(right, stats);
                    if a == PruningResult::CanSkip && b == PruningResult::CanSkip {
                        PruningResult::CanSkip
                    } else {
                        PruningResult::MustScan
                    }
                },
                _ => match (&**left, &**right) {
                    (Expr::Column { index, data_type, nullable }, Expr::Literal(v)) => {
                        assert(columns_of(left@)[0] == *index);
                        prune_column(*index, *op, v, stats)
                    },
                    (Expr::Literal(v), Expr::Column { index, data_type, nullable }) => {
                        assert(columns_of(right@)[0] == *index);
                        prune_column(*index, flip(*op), v, stats)
                    },
                    _ => PruningResult::MustScan,
                },
            }
        },
        Expr::IsNull(inner) => match &**inner {
            Expr::Column { index, data_type, nullable } => {
                assert(columns_of(inner@)[0] == *index);
                assert(columns_of(predicate@)[0] == *index);
                assert(column_stats_views(stats@)[*index as int] == stats@[*index as int]@);
                match stats[*index].null_count {
                    Precision::Exact(n) => if n == 0 {
                        PruningResult::CanSkip
                    } else {
                        PruningResult::MustScan
                    },
                    _ => PruningResult::MustScan,
                }
            },
            _ => PruningResult::MustScan,
        },
        _ => PruningResult::MustScan,
    }
}

fn prune_column(index: usize, op: BinaryOp, v: &Value, stats: &Vec<ColumnStatistics>) -> (r:
    PruningResult)
    requires
        index < stats@.len(),
    ensures
        r == column_pruned(index, op, v@, column_stats_views(stats@)),
{
    assert(column_stats_views(stats@)[index as int] == stats@[index as int]@);
    let col = &stats[index];
    match (&col.min_value, &col.max_value) {
        (Precision::Exact(min), Precision::Exact(max)) => {
            let can_skip = match op {
                BinaryOp::Gt => is_at_most(max, v),
                BinaryOp::GtEq => is_below(max, v),
                BinaryOp::Lt => is_at_least(min, v),
                BinaryOp::LtEq => is_above(min, v),
                BinaryOp::Eq => is_above(min, v) || is_below(max, v),
                _ => false,
            };
            if can_skip {
                PruningResult::CanSkip
            } else {
                PruningResult::MustScan
            }
        },
        _ => PruningResult::MustScan,
    }
}

fn flip(op: BinaryOp) -> (r: BinaryOp)
    ensures
        r == mirrored(op),
{
    match op {
        BinaryOp::Lt => BinaryOp::Gt,
        BinaryOp::LtEq => BinaryOp::GtEq,
        BinaryOp::Gt => BinaryOp::Lt,
        BinaryOp::GtEq => BinaryOp::LtEq,
        other => other,
    }
}

} // verus!
