//! What fraction of its input a predicate is expected to keep.

use vstd::prelude::*;

use crate::error::{BasaltError, ErrorKind};
use crate::expr::expr::{Expr, ExprView};
use crate::float64::Float64;
use crate::optimizer::rules::common::{columns_of, referenced_columns};
use crate::scalar::ScalarValue;
use crate::statistics::{
    fraction_below, numeric, one, typed_scalar, ColumnStatistics, ColumnStatsView, Precision,
    TableStatistics, TableStatsView, ONE,
};
use crate::types::coercion::{BinaryOp, UnaryOp};
use crate::types::data_type::DataType;
use crate::types::value::{Value, ValueView};

verus! {

// What is assumed where nothing is known, as the bits of doubles.

/// A column equal to a literal: 0.005.
pub const EQUALITY: u64 = 0x3F74_7AE1_47AE_147B;

/// A column below or above a literal: 0.33.
pub const INEQUALITY: u64 = 0x3FD5_1EB8_51EB_851F;

/// A column between two literals: 0.25.
pub const RANGE: u64 = 0x3FD0_0000_0000_0000;

/// A text that contains another: 0.05.
pub const LIKE_SUBSTRING: u64 = 0x3FA9_9999_9999_999A;

/// Anything else: 0.1.
pub const UNKNOWN: u64 = 0x3FB9_9999_9999_999A;

/// The least selectivity: one in a million. An estimate of no rows at all
/// would make everything above it look free.
pub const FLOOR: u64 = 0x3EB0_C6F7_A0B5_ED8D;

#[derive(Debug, Clone, Copy)]
pub struct Selectivity {
    pub value: Float64,
    /// Whether the value comes from statistics or is a guess.
    pub precision: Precision<()>,
}

/// A fraction drawn into the range of selectivities.
pub open spec fn clamped(v: Float64) -> Float64 {
    v.spec_clamp(Float64 { bits: FLOOR }, one())
}

/// A selectivity that comes from exact statistics.
pub open spec fn known(v: Float64) -> Selectivity {
    Selectivity { value: clamped(v), precision: Precision::Exact(()) }
}

/// A selectivity that is a guess.
pub open spec fn guessed(v: Float64) -> Selectivity {
    Selectivity { value: clamped(v), precision: Precision::Inexact(()) }
}

/// A guess from the bits of a double.
pub open spec fn assumed(bits: u64) -> Selectivity {
    guessed(Float64 { bits })
}

/// The weaker of two precisions.
pub open spec fn weaker_of(a: Precision<()>, b: Precision<()>) -> Precision<()> {
    match (a, b) {
        (Precision::Exact(_), Precision::Exact(_)) => Precision::Exact(()),
        (Precision::Absent, _) => Precision::Absent,
        (_, Precision::Absent) => Precision::Absent,
        _ => Precision::Inexact(()),
    }
}

/// Both conditions, taken to be independent.
pub open spec fn both(a: Selectivity, b: Selectivity) -> Selectivity {
    Selectivity {
        value: clamped(a.value.spec_mul(b.value)),
        precision: weaker_of(a.precision, b.precision),
    }
}

/// Either condition, taken to be independent.
pub open spec fn either(a: Selectivity, b: Selectivity) -> Selectivity {
    Selectivity {
        value: clamped(a.value.spec_add(b.value).spec_sub(a.value.spec_mul(b.value))),
        precision: weaker_of(a.precision, b.precision),
    }
}

/// The opposite condition.
pub open spec fn opposite(a: Selectivity) -> Selectivity {
    Selectivity { value: clamped(one().spec_sub(a.value)), precision: a.precision }
}

/// The greater of two counts.
pub open spec fn greater(a: int, b: int) -> int {
    if a >= b {
        a
    } else {
        b
    }
}

/// A row's chance of one of `n` values.
pub open spec fn one_of(n: int) -> Float64 {
    one().spec_div(Float64::spec_from_int(n))
}

/// A value as a typed scalar; `None` for a null.
pub open spec fn scalar_of(v: ValueView) -> Option<(DataType, ValueView)> {
    match v.data_type() {
        Some(t) => Some((t, v)),
        None => None,
    }
}

/// Whether a column is null, or is not.
pub open spec fn null_estimate(
    inner: ExprView,
    stats: TableStatsView,
    want_null: bool,
) -> Selectivity {
    match inner {
        ExprView::Column { index, data_type, nullable } => if index >= stats.columns.len() {
            assumed(UNKNOWN)
        } else {
            let col = stats.columns[index as int];
            match (col.null_count.value(), stats.num_rows.value()) {
                (Some(nulls), Some(rows)) => if rows == 0 {
                    assumed(UNKNOWN)
                } else {
                    let fraction = Float64::spec_from_int(nulls as int).spec_div(
                        Float64::spec_from_int(rows as int),
                    );
                    let v = if want_null {
                        fraction
                    } else {
                        one().spec_sub(fraction)
                    };
                    if col.null_count is Exact && stats.num_rows is Exact {
                        known(v)
                    } else {
                        guessed(v)
                    }
                },
                _ => assumed(UNKNOWN),
            }
        },
        _ => assumed(UNKNOWN),
    }
}

/// Without a common value: each distinct value takes its share.
pub open spec fn equality_by_count(col: ColumnStatsView) -> Selectivity {
    match col.distinct_count.value() {
        Some(ndv) => if ndv > 0 {
            guessed(one_of(ndv as int))
        } else {
            assumed(EQUALITY)
        },
        None => assumed(EQUALITY),
    }
}

/// A column equal to a literal: the frequency of a common value; else the share
/// of one of the values that are not common; else of any value.
pub open spec fn equality_estimate(
    col: ColumnStatsView,
    scalar: Option<(DataType, ValueView)>,
) -> Selectivity {
    match (col.mcv, scalar) {
        (Some(mcv), Some(s)) => match mcv.frequency_of(s) {
            Some(f) => known(f),
            None => match col.distinct_count.value() {
                Some(ndv) => match mcv.non_mcv(ndv as int) {
                    Some(f) => guessed(f),
                    None => equality_by_count(col),
                },
                None => equality_by_count(col),
            },
        },
        _ => equality_by_count(col),
    }
}

/// A column below or above a literal.
pub open spec fn inequality_estimate(
    col: ColumnStatsView,
    op: BinaryOp,
    scalar: Option<(DataType, ValueView)>,
) -> Selectivity {
    match (col.histogram, scalar) {
        (Some(hist), Some(s)) => match numeric(s.1) {
            Some(v) => {
                let below = fraction_below(hist, v);
                if op is Lt || op is LtEq {
                    guessed(below)
                } else {
                    guessed(one().spec_sub(below))
                }
            },
            None => assumed(INEQUALITY),
        },
        _ => assumed(INEQUALITY),
    }
}

/// A comparison read from the other side.
pub open spec fn mirrored(op: BinaryOp) -> BinaryOp {
    match op {
        BinaryOp::Lt => BinaryOp::Gt,
        BinaryOp::LtEq => BinaryOp::GtEq,
        BinaryOp::Gt => BinaryOp::Lt,
        BinaryOp::GtEq => BinaryOp::LtEq,
        other => other,
    }
}

/// A column against a literal.
pub open spec fn against_literal(
    index: usize,
    op: BinaryOp,
    v: ValueView,
    stats: TableStatsView,
) -> Selectivity {
    if index >= stats.columns.len() {
        assumed(UNKNOWN)
    } else {
        let col = stats.columns[index as int];
        if op is Eq {
            equality_estimate(col, scalar_of(v))
        } else if op is Lt || op is Gt || op is LtEq || op is GtEq {
            inequality_estimate(col, op, scalar_of(v))
        } else {
            assumed(UNKNOWN)
        }
    }
}

/// A column against a column: equal values are as rare as the values of the
/// column that has more of them.
pub open spec fn against_column(
    i: usize,
    op: BinaryOp,
    j: usize,
    stats: TableStatsView,
) -> Selectivity {
    if op is Eq && i < stats.columns.len() && j < stats.columns.len() {
        match (
            stats.columns[i as int].distinct_count.value(),
            stats.columns[j as int].distinct_count.value(),
        ) {
            (Some(a), Some(b)) => guessed(one_of(greater(greater(a as int, b as int), 1))),
            _ => assumed(UNKNOWN),
        }
    } else {
        assumed(UNKNOWN)
    }
}

pub open spec fn comparison_estimate(
    left: ExprView,
    op: BinaryOp,
    right: ExprView,
    stats: TableStatsView,
) -> Selectivity {
    match (left, right) {
        (
            ExprView::Column { index: i, data_type: t, nullable: n },
            ExprView::Column { index: j, data_type: u, nullable: m },
        ) => against_column(i, op, j, stats),
        (
            ExprView::Column { index, data_type, nullable },
            ExprView::Literal(v),
        ) => against_literal(index, op, v, stats),
        (
            ExprView::Literal(v),
            ExprView::Column { index, data_type, nullable },
        ) => against_literal(index, mirrored(op), v, stats),
        _ => assumed(UNKNOWN),
    }
}

/// The fraction of rows that a predicate is expected to keep.
pub open spec fn estimate(predicate: ExprView, stats: TableStatsView) -> Selectivity
    decreases predicate,
{
    match predicate {
        ExprView::Binary { left, op, right } => match op {
            BinaryOp::And => both(estimate(*left, stats), estimate(*right, stats)),
            BinaryOp::Or => either(estimate(*left, stats), estimate(*right, stats)),
            _ => comparison_estimate(*left, op, *right, stats),
        },
        ExprView::Unary { op, expr } => match op {
            UnaryOp::Not => opposite(estimate(*expr, stats)),
            _ => assumed(UNKNOWN),
        },
        ExprView::IsNull(inner) => null_estimate(*inner, stats, true),
        ExprView::IsNotNull(inner) => null_estimate(*inner, stats, false),
        _ => assumed(UNKNOWN),
    }
}

/// Whether every column of an expression is one of the first `n`.
pub open spec fn in_range(e: ExprView, n: int) -> bool {
    forall|i: int| 0 <= i < columns_of(e).len() ==> (#[trigger] columns_of(e)[i]) < n
}

/// The sum of the first `n` equality estimates.
pub open spec fn list_sum(col: ColumnStatsView, values: Seq<ValueView>, n: nat) -> Float64
    decreases n,
{
    if n == 0 {
        Float64 { bits: 0 }
    } else {
        list_sum(col, values, (n - 1) as nat).spec_add(
            equality_estimate(col, scalar_of(values[n - 1])).value,
        )
    }
}

/// Whether the first `n` equality estimates all come from statistics.
pub open spec fn all_known(col: ColumnStatsView, values: Seq<ValueView>, n: nat) -> bool {
    forall|i: int|
        0 <= i < n ==> (equality_estimate(col, scalar_of(#[trigger] values[i])).precision is Exact)
}

/// The weakest of the first `n` precisions.
pub open spec fn weakest(s: Seq<Selectivity>, n: nat) -> Precision<()>
    decreases n,
{
    if n == 0 {
        Precision::Exact(())
    } else {
        weaker_of(weakest(s, (n - 1) as nat), s[n - 1].precision)
    }
}

/// A selectivity lies between one in a million and one, unless it is no number
/// at all: no estimate claims that nothing is left.
pub proof fn selectivities_stay_in_range(v: Float64)
    ensures
        v.is_nan() || (Float64 { bits: FLOOR }.num_le(clamped(v)) && clamped(v).num_le(one())),
{
    let lo = Float64 { bits: FLOOR };
    assert(lo.magnitude() == FLOOR as int && !lo.negative());
    assert(one().magnitude() == ONE as int && !one().negative());
}

/// A double that is a fraction from zero to one, or no number at all.
pub open spec fn is_share(v: Float64) -> bool {
    v.is_nan() || (!v.negative() && v.magnitude() <= ONE)
}

/// Whatever the predicate and the statistics, an estimate is a fraction.
pub proof fn lemma_estimates_are_shares(predicate: ExprView, stats: TableStatsView)
    ensures
        is_share(estimate(predicate, stats).value),
{
    assert forall|v: Float64| is_share(#[trigger] clamped(v)) by {
        let lo = Float64 { bits: FLOOR };
        assert(lo.magnitude() == FLOOR as int && !lo.negative());
        assert(one().magnitude() == ONE as int && !one().negative());
    }
}

fn clamp(v: Float64) -> (r: Float64)
    ensures
        r == clamped(v),
{
    v.clamp(Float64::from_bits(FLOOR), Float64::from_bits(ONE))
}

impl Selectivity {
    /// A selectivity that comes from exact statistics.
    pub fn exact(value: Float64) -> (r: Selectivity)
        ensures
            r == known(value),
    {
        Selectivity { value: clamp(value), precision: Precision::Exact(()) }
    }

    /// A selectivity that is a guess.
    pub fn inexact(value: Float64) -> (r: Selectivity)
        ensures
            r == guessed(value),
    {
        Selectivity { value: clamp(value), precision: Precision::Inexact(()) }
    }
}

fn assume_fraction(bits: u64) -> (r: Selectivity)
    ensures
        r == assumed(bits),
{
    Selectivity::inexact(Float64::from_bits(bits))
}

fn count_to_double(n: usize) -> (r: Float64)
    ensures
        r == Float64::spec_from_int(n as int),
{
    Float64::from_u64(n as u64)
}

fn share_of(n: usize) -> (r: Float64)
    ensures
        r == one_of(n as int),
{
    Float64::from_bits(ONE).div(count_to_double(n))
}

/// Estimates the fraction of rows that a predicate keeps.
///
/// # Errors
/// An internal error where the predicate refers to a column that the
/// statistics do not have.
pub fn selectivity(predicate: &Expr, stats: &TableStatistics) -> (r: Result<
    Selectivity,
    BasaltError,
>)
    ensures
        match r {
            Ok(s) => in_range(predicate@, stats@.columns.len() as int) && s == estimate(
                predicate@,
                stats@,
            ),
            Err(e) => e@ == ErrorKind::Internal && !in_range(
                predicate@,
                stats@.columns.len() as int,
            ),
        },
{
    match check_columns(predicate, stats.column_statistics.len()) {
        Ok(_) => Ok(estimate_selectivity(predicate, stats)),
        Err(e) => Err(e),
    }
}

/// Checks that every column of an expression is one of the first `n`.
///
/// # Errors
/// An internal error where one is not.
pub fn check_columns(e: &Expr, n: usize) -> (r: Result<(), BasaltError>)
    ensures
        match r {
            Ok(_) => in_range(e@, n as int),
            Err(k) => k@ == ErrorKind::Internal && !in_range(e@, n as int),
        },
{
    let cols = referenced_columns(e);
    let mut i: usize = 0;
    while i < cols.len()
        invariant
            i <= cols@.len(),
            cols@ == columns_of(e@),
            forall|k: int| 0 <= k < i ==> (#[trigger] columns_of(e@)[k]) < n,
        decreases cols@.len() - i,
    {
        if cols[i] >= n {
            assert(columns_of(e@)[i as int] >= n);
            return Err(BasaltError::internal_with("column index ", cols[i], " out of range"));
        }
        i = i + 1;
    }
    Ok(())
}

fn estimate_selectivity(predicate: &Expr, stats: &TableStatistics) -> (r: Selectivity)
    ensures
        r == estimate(predicate@, stats@),
    decreases predicate,
{
    match predicate {
        Expr::Binary { left, op, right } => match op {
            BinaryOp::And => {
                let a = estimate_selectivity(left, stats);
                let b = estimate_selectivity(right, stats);
                combine_conjunction(&a, &b)
            },
            BinaryOp::Or => {
                let a = estimate_selectivity(left, stats);
                let b = estimate_selectivity(right, stats);
                combine_disjunction(&a, &b)
            },
            _ => comparison_selectivity(left, *op, right, stats),
        },
        Expr::Unary { op, expr } => match op {
            UnaryOp::Not => {
                let a = estimate_selectivity(expr, stats);
                negate(&a)
            },
            _ => assume_fraction(UNKNOWN),
        },
        Expr::IsNull(inner) => null_fraction(inner, stats, true),
        Expr::IsNotNull(inner) => null_fraction(inner, stats, false),
        _ => assume_fraction(UNKNOWN),
    }
}

/// Whether a column is null, or is not.
///
/// # Errors
/// An internal error for a column that the statistics do not have.
pub fn is_null_selectivity(inner: &Expr, stats: &TableStatistics, want_null: bool) -> (r: Result<
    Selectivity,
    BasaltError,
>)
    ensures
        match r {
            Ok(s) => in_range(inner@, stats@.columns.len() as int) && s == null_estimate(
                inner@,
                stats@,
                want_null,
            ),
            Err(e) => e@ == ErrorKind::Internal && !in_range(inner@, stats@.columns.len() as int),
        },
{
    match check_columns(inner, stats.column_statistics.len()) {
        Ok(_) => Ok(null_fraction(inner, stats, want_null)),
        Err(e) => Err(e),
    }
}

fn null_fraction(inner: &Expr, stats: &TableStatistics, want_null: bool) -> (r: Selectivity)
    ensures
        r == null_estimate(inner@, stats@, want_null),
{
    match inner {
        Expr::Column { index, data_type, nullable } => {
            let i: usize = *index;
            if i >= stats.column_statistics.len() {
                return assume_fraction(UNKNOWN);
            }
            assert(stats@.columns[i as int] == stats.column_statistics@[i as int]@);
            let col = &stats.column_statistics[i];
            match (col.null_count.get_value(), stats.num_rows.get_value()) {
                (Some(nulls), Some(rows)) => {
                    if *rows == 0 {
                        return assume_fraction(UNKNOWN);
                    }
                    let fraction = count_to_double(*nulls).div(count_to_double(*rows));
                    let value = if want_null {
                        fraction
                    } else {
                        Float64::from_bits(ONE).sub(fraction)
                    };
                    if col.null_count.is_exact() && stats.num_rows.is_exact() {
                        Selectivity::exact(value)
                    } else {
                        Selectivity::inexact(value)
                    }
                },
                _ => assume_fraction(UNKNOWN),
            }
        },
        _ => assume_fraction(UNKNOWN),
    }
}

fn comparison_selectivity(left: &Expr, op: BinaryOp, right: &Expr, stats: &TableStatistics) -> (r:
    Selectivity)
    ensures
        r == comparison_estimate(left@, op, right@, stats@),
{
    match (left, right) {
        (
            Expr::Column { index: i, data_type: t, nullable: n },
            Expr::Column { index: j, data_type: u, nullable: m },
        ) => {
            let i: usize = *i;
            let j: usize = *j;
            let width: usize = stats.column_statistics.len();
            if op == BinaryOp::Eq && i < width && j < width {
                assert(stats@.columns[i as int] == stats.column_statistics@[i as int]@);
                assert(stats@.columns[j as int] == stats.column_statistics@[j as int]@);
                match (
                    stats.column_statistics[i].distinct_count.get_value(),
                    stats.column_statistics[j].distinct_count.get_value(),
                ) {
                    (Some(a), Some(b)) => {
                        let mut ndv: usize = if *a >= *b {
                            *a
                        } else {
                            *b
                        };
                        if ndv == 0 {
                            ndv = 1;
                        }
                        Selectivity::inexact(share_of(ndv))
                    },
                    _ => assume_fraction(UNKNOWN),
                }
            } else {
                assume_fraction(UNKNOWN)
            }
        },
        (Expr::Column { index, data_type, nullable }, Expr::Literal(v)) => literal_selectivity(
            *index,
            op,
            v,
            stats,
        ),
        (Expr::Literal(v), Expr::Column { index, data_type, nullable }) => literal_selectivity(
            *index,
            flip(op),
            v,
            stats,
        ),
        _ => assume_fraction(UNKNOWN),
    }
}

fn literal_selectivity(index: usize, op: BinaryOp, v: &Value, stats: &TableStatistics) -> (r:
    Selectivity)
    ensures
        r == against_literal(index, op, v@, stats@),
{
    if index >= stats.column_statistics.len() {
        return assume_fraction(UNKNOWN);
    }
    assert(stats@.columns[index as int] == stats.column_statistics@[index as int]@);
    let col = &stats.column_statistics[index];
    let scalar = value_to_scalar(v);
    match op {
        BinaryOp::Eq => equality_selectivity(col, &scalar),
        BinaryOp::Lt => inequality_selectivity(col, op, &scalar),
        BinaryOp::LtEq => inequality_selectivity(col, op, &scalar),
        BinaryOp::Gt => inequality_selectivity(col, op, &scalar),
        BinaryOp::GtEq => inequality_selectivity(col, op, &scalar),
        _ => assume_fraction(UNKNOWN),
    }
}

fn flip(op: BinaryOp) -> (r: BinaryOp)
    ensures
        r == mirrored(op),
{
    match op {
        BinaryOp::Lt => BinaryOp::Gt,
        BinaryOp::LtEq => BinaryOp::GtEq,
        BinaryOp::Gt => BinaryOp::Lt,
        BinaryOp::GtEq => BinaryOp::LtEq,
        other => other,
    }
}

/// A scalar's type and value, where there is one.
pub open spec fn typed_option(s: Option<ScalarValue>) -> Option<(DataType, ValueView)> {
    match s {
        Some(x) => Some(typed_scalar(x)),
        None => None,
    }
}

fn value_to_scalar(v: &Value) -> (r: Option<ScalarValue>)
    ensures
        typed_option(r) == scalar_of(v@),
{
    match v {
        Value::Int64(i) => Some(ScalarValue::Int64(Some(*i))),
        Value::Float64(f) => Some(ScalarValue::Float64(Some(*f))),
        Value::Utf8(s) => Some(ScalarValue::Utf8(Some(s.clone()))),
        Value::Boolean(b) => Some(ScalarValue::Boolean(Some(*b))),
        Value::Null => None,
    }
}

/// A column equal to a literal.
pub fn equality_selectivity(col: &ColumnStatistics, scalar: &Option<ScalarValue>) -> (r:
    Selectivity)
    ensures
        r == equality_estimate(col@, typed_option(*scalar)),
{
    match (&col.mcv, scalar) {
        (Some(mcv), Some(s)) => {
            match mcv.frequency_of(s) {
                Some(f) => {
                    return Selectivity::exact(f);
                },
                None => {},
            }
            match col.distinct_count.get_value() {
                Some(ndv) => match mcv.non_mcv_selectivity(*ndv) {
                    Some(f) => {
                        return Selectivity::inexact(f);
                    },
                    None => {},
                },
                None => {},
            }
        },
        _ => {},
    }
    match col.distinct_count.get_value() {
        Some(ndv) => if *ndv > 0 {
            Selectivity::inexact(share_of(*ndv))
        } else {
            assume_fraction(EQUALITY)
        },
        None => assume_fraction(EQUALITY),
    }
}

/// A column below or above a literal.
pub fn inequality_selectivity(
    col: &ColumnStatistics,
    op: BinaryOp,
    scalar: &Option<ScalarValue>,
) -> (r: Selectivity)
    requires
        op is Lt || op is LtEq || op is Gt || op is GtEq,
    ensures
        r == inequality_estimate(col@, op, typed_option(*scalar)),
{
    match (&col.histogram, scalar) {
        (Some(hist), Some(s)) => match hist.less_than(s) {
            Ok(below) => match op {
                BinaryOp::Lt => Selectivity::inexact(below),
                BinaryOp::LtEq => Selectivity::inexact(below),
                _ => Selectivity::inexact(Float64::from_bits(ONE).sub(below)),
            },
            Err(_) => assume_fraction(INEQUALITY),
        },
        _ => assume_fraction(INEQUALITY),
    }
}

/// A column between two literals.
pub open spec fn range_estimate(col: ColumnStatsView, lo: ValueView, hi: ValueView) -> Selectivity {
    match (col.histogram, numeric(lo), numeric(hi)) {
        (Some(hist), Some(a), Some(b)) => guessed(
            fraction_below(hist, b).spec_sub(fraction_below(hist, a)).spec_max(
                Float64 { bits: 0 },
            ),
        ),
        _ => assumed(RANGE),
    }
}

/// A column between two literals.
pub fn range_selectivity(col: &ColumnStatistics, lo: &Value, hi: &Value) -> (r: Selectivity)
    ensures
        r == range_estimate(col@, lo@, hi@),
{
    match (&col.histogram, value_to_scalar(lo), value_to_scalar(hi)) {
        (Some(hist), Some(a), Some(b)) => match hist.range(&a, &b) {
            Ok(f) => Selectivity::inexact(f),
            Err(_) => assume_fraction(RANGE),
        },
        _ => assume_fraction(RANGE),
    }
}

/// The models of values.
pub open spec fn value_views(v: Seq<Value>) -> Seq<ValueView> {
    Seq::new(v.len(), |i: int| v[i]@)
}

/// A column equal to one of several literals.
pub open spec fn list_estimate(col: ColumnStatsView, values: Seq<ValueView>) -> Selectivity {
    let sum = list_sum(col, values, values.len()).spec_min(one());
    if all_known(col, values, values.len()) {
        known(sum)
    } else {
        guessed(sum)
    }
}

/// A column equal to one of several literals: the sum of their estimates, at
/// most one.
pub fn in_list_selectivity(col: &ColumnStatistics, values: &Vec<Value>) -> (r: Selectivity)
    ensures
        r == list_estimate(col@, value_views(values@)),
{
    let ghost vv = value_views(values@);
    let mut total = Float64::from_bits(0);
    let mut any_inexact = false;
    let mut i: usize = 0;
    while i < values.len()
        invariant
            i <= values@.len(),
            vv == value_views(values@),
            total == list_sum(col@, vv, i as nat),
            any_inexact == !all_known(col@, vv, i as nat),
        decreases values@.len() - i,
    {
        let ghost was = any_inexact;
        assert(vv[i as int] == values@[i as int]@);
        let scalar = value_to_scalar(&values[i]);
        let s = equality_selectivity(col, &scalar);
        total = total.add(s.value);
        if !s.precision.is_exact() {
            any_inexact = true;
        }
        proof {
            if was {
                let k = choose|k: int|
                    0 <= k < i && !(equality_estimate(
                        col@,
                        scalar_of(#[trigger] vv[k]),
                    ).precision is Exact);
                assert(!(equality_estimate(col@, scalar_of(vv[k])).precision is Exact));
                assert(!all_known(col@, vv, (i + 1) as nat));
            }
            if !(s.precision is Exact) {
                assert(!(equality_estimate(col@, scalar_of(vv[i as int])).precision is Exact));
                assert(!all_known(col@, vv, (i + 1) as nat));
            }
        }
        i = i + 1;
    }
    let capped = total.min(Float64::from_bits(ONE));
    if any_inexact {
        Selectivity::inexact(capped)
    } else {
        Selectivity::exact(capped)
    }
}

/// A text that contains another.
pub fn like_substring_selectivity() -> (r: Selectivity)
    ensures
        r == assumed(LIKE_SUBSTRING),
{
    assume_fraction(LIKE_SUBSTRING)
}

/// Both of two conditions, taken to be independent.
pub fn combine_conjunction(a: &Selectivity, b: &Selectivity) -> (r: Selectivity)
    ensures
        r == both(*a, *b),
{
    with_precision(a.value.mul(b.value), weaker(a.precision, b.precision))
}

/// Either of two conditions, taken to be independent.
pub fn combine_disjunction(a: &Selectivity, b: &Selectivity) -> (r: Selectivity)
    ensures
        r == either(*a, *b),
{
    with_precision(
        a.value.add(b.value).sub(a.value.mul(b.value)),
        weaker(a.precision, b.precision),
    )
}

/// A value put among values in ascending order, behind those that are not
/// greater.
pub open spec fn put_in_order(s: Seq<Float64>, v: Float64) -> Seq<Float64>
    decreases s.len(),
{
    if s.len() > 0 && v.num_lt(s.last()) {
        put_in_order(s.drop_last(), v).push(s.last())
    } else {
        s.push(v)
    }
}

/// The first `n` values in ascending order.
pub open spec fn in_order(s: Seq<Selectivity>, n: nat) -> Seq<Float64>
    decreases n,
{
    if n == 0 {
        seq![]
    } else {
        put_in_order(in_order(s, (n - 1) as nat), s[n - 1].value)
    }
}

/// The values of selectivities, the most selective first.
pub fn ascending_values(selectivities: &Vec<Selectivity>) -> (r: Vec<Float64>)
    ensures
        r@ == in_order(selectivities@, selectivities@.len()),
        r@.len() == selectivities@.len(),
{
    let mut out: Vec<Float64> = Vec::new();
    let mut i: usize = 0;
    while i < selectivities.len()
        invariant
            i <= selectivities@.len(),
            out@ == in_order(selectivities@, i as nat),
            out@.len() == i,
        decreases selectivities@.len() - i,
    {
        let v = selectivities[i].value;
        let ghost before = out@;
        let mut k: usize = out.len();
        proof {
            assert(before.take(before.len() as int) =~= before);
            assert(before.skip(before.len() as int) =~= seq![]);
            assert(put_in_order(before, v) =~= put_in_order(before, v) + seq![]);
        }
        while k > 0 && v.lt_num(out[k - 1])
            invariant
                k <= out@.len(),
                out@ == before,
                put_in_order(before, v) == put_in_order(before.take(k as int), v) + before.skip(
                    k as int,
                ),
            decreases k,
        {
            proof {
                let t = before.take(k as int);
                assert(t.last() == before[k - 1]);
                assert(t.drop_last() =~= before.take(k - 1));
                assert(put_in_order(t, v) == put_in_order(before.take(k - 1), v).push(
                    before[k - 1],
                ));
                assert(put_in_order(t, v) + before.skip(k as int) =~= put_in_order(
                    before.take(k - 1),
                    v,
                ) + before.skip(k - 1));
            }
            k = k - 1;
        }
        proof {
            let t = before.take(k as int);
            assert(put_in_order(t, v) == t.push(v));
            assert(before.insert(k as int, v) =~= t.push(v) + before.skip(k as int));
        }
        out.insert(k, v);
        i = i + 1;
    }
    out
}

/// The product of the first `n` factors.
pub open spec fn product(s: Seq<Float64>, n: nat) -> Float64
    decreases n,
{
    if n <= 1 {
        s[0]
    } else {
        product(s, (n - 1) as nat).spec_mul(s[n - 1])
    }
}

/// All of several conditions, where the factors are their values in ascending
/// order, each but the first damped: the second by a square root, the third by
/// a fourth root, and so on. Without any conditions, everything is kept.
pub fn combine_damped(selectivities: &Vec<Selectivity>, damped: &Vec<Float64>) -> (r: Selectivity)
    requires
        damped@.len() == selectivities@.len(),
    ensures
        selectivities@.len() == 0 ==> r == known(one()),
        selectivities@.len() > 0 ==> r == (Selectivity {
            value: clamped(product(damped@, damped@.len())),
            precision: weakest(selectivities@, selectivities@.len()),
        }),
{
    if selectivities.len() == 0 {
        return Selectivity::exact(Float64::from_bits(ONE));
    }
    let mut result = damped[0];
    let mut i: usize = 1;
    while i < damped.len()
        invariant
            1 <= i <= damped@.len(),
            result == product(damped@, i as nat),
        decreases damped@.len() - i,
    {
        result = result.mul(damped[i]);
        i = i + 1;
    }
    let mut precision: Precision<()> = Precision::Exact(());
    let mut i: usize = 0;
    while i < selectivities.len()
        invariant
            i <= selectivities@.len(),
            precision == weakest(selectivities@, i as nat),
        decreases selectivities@.len() - i,
    {
        precision = weaker(precision, selectivities[i].precision);
        i = i + 1;
    }
    with_precision(result, precision)
}

/// The opposite of a condition.
pub fn negate(a: &Selectivity) -> (r: Selectivity)
    ensures
        r == opposite(*a),
{
    with_precision(Float64::from_bits(ONE).sub(a.value), a.precision)
}

pub fn weaker(a: Precision<()>, b: Precision<()>) -> (r: Precision<()>)
    ensures
        r == weaker_of(a, b),
{
    match (a, b) {
        (Precision::Exact(_), Precision::Exact(_)) => Precision::Exact(()),
        (Precision::Absent, _) => Precision::Absent,
        (_, Precision::Absent) => Precision::Absent,
        _ => Precision::Inexact(()),
    }
}

fn with_precision(value: Float64, precision: Precision<()>) -> (r: Selectivity)
    ensures
        r == (Selectivity { value: clamped(value), precision }),
{
    Selectivity { value: clamp(value), precision }
}

} // verus!
