//! Selectivities as chances: what the estimate of a condition has to be, given
//! the estimates of its parts and what is known of the columns.

use vstd::prelude::*;

use crate::expr::expr::ExprView;
use crate::float64::Float64;
use crate::optimizer::cardinality::selectivity::{
    equality_estimate, estimate, in_order, list_estimate, list_sum, product,
    range_estimate, scalar_of, weakest, Selectivity, EQUALITY, FLOOR, INEQUALITY, RANGE, UNKNOWN,
};
use crate::statistics::{fraction_below, numeric, ColumnStatsView, TableStatsView};
use crate::types::coercion::{BinaryOp, UnaryOp};
use crate::types::data_type::DataType;
use crate::types::value::ValueView;

verus! {

/// Whether a double is another one, drawn into the range of selectivities: from
/// one in a million to one. What is no number stays as it is.
pub open spec fn drawn(r: Float64, v: Float64) -> bool {
    let least = Float64 { bits: FLOOR };
    let most = Float64::spec_from_int(1);
    &&& v.is_nan() ==> r == v
    &&& least.num_le(v) && v.num_le(most) ==> r == v
    &&& v.num_lt(least) ==> r == least
    &&& most.num_lt(v) ==> r == most
}

/// The share of `a` in `b`.
pub open spec fn share(a: int, b: int) -> Float64 {
    Float64::spec_from_int(a).spec_div(Float64::spec_from_int(b))
}

/// A column of an expression.
pub open spec fn column(index: usize, data_type: DataType, nullable: bool) -> ExprView {
    ExprView::Column { index, data_type, nullable }
}

pub open spec fn binary(l: ExprView, op: BinaryOp, r: ExprView) -> ExprView {
    ExprView::Binary { left: Box::new(l), op, right: Box::new(r) }
}

/// One, as a double.
pub proof fn lemma_one()
    ensures
        Float64::spec_from_int(1) == crate::statistics::one(),
{
    crate::float64::lemma_one_is_an_integer();
}

/// Conditions are taken to be independent: the chance of both is the product of
/// their chances; that of either is their sum, less the chance of both; that of
/// the opposite is what is missing to one.
pub proof fn conditions_are_independent(a: ExprView, b: ExprView, stats: TableStatsView)
    ensures
        ({
            let p = estimate(a, stats).value;
            let q = estimate(b, stats).value;
            &&& drawn(estimate(binary(a, BinaryOp::And, b), stats).value, p.spec_mul(q))
            &&& drawn(
                estimate(binary(a, BinaryOp::Or, b), stats).value,
                p.spec_add(q).spec_sub(p.spec_mul(q)),
            )
            &&& drawn(
                estimate(
                    ExprView::Unary { op: UnaryOp::Not, expr: Box::new(a) },
                    stats,
                ).value,
                Float64::spec_from_int(1).spec_sub(p),
            )
        }),
{
    lemma_one();
}

/// What is estimated from exact estimates alone is exact, and nothing else is.
pub proof fn exact_parts_make_exact_wholes(
    a: ExprView,
    op: BinaryOp,
    b: ExprView,
    stats: TableStatsView,
)
    requires
        op is And || op is Or,
    ensures
        estimate(binary(a, op, b), stats).precision is Exact <==> estimate(a, stats).precision is Exact
            && estimate(b, stats).precision is Exact,
        estimate(
            ExprView::Unary { op: UnaryOp::Not, expr: Box::new(a) },
            stats,
        ).precision == estimate(a, stats).precision,
{
}

/// A column is null as often as it was counted to be, and has a value in the
/// other rows. The counts make the estimate exact where both are.
pub proof fn null_tests_go_by_the_count(
    i: usize,
    t: DataType,
    n: bool,
    stats: TableStatsView,
    nulls: usize,
    rows: usize,
)
    requires
        i < stats.columns.len(),
        stats.columns[i as int].null_count.value() == Some(nulls),
        stats.num_rows.value() == Some(rows),
        rows > 0,
    ensures
        ({
            let null = estimate(ExprView::IsNull(Box::new(column(i, t, n))), stats);
            let value = estimate(ExprView::IsNotNull(Box::new(column(i, t, n))), stats);
            let f = share(nulls as int, rows as int);
            &&& drawn(null.value, f)
            &&& drawn(value.value, Float64::spec_from_int(1).spec_sub(f))
            &&& null.precision is Exact <==> stats.columns[i as int].null_count is Exact
                && stats.num_rows is Exact
            &&& value.precision == null.precision
        }),
{
    lemma_one();
}

/// A literal beside a column means the same on either side, the comparison
/// turned round.
pub proof fn comparisons_turn_round(
    i: usize,
    t: DataType,
    n: bool,
    v: ValueView,
    stats: TableStatsView,
)
    ensures
        ({
            let c = column(i, t, n);
            let l = ExprView::Literal(v);
            &&& estimate(binary(l, BinaryOp::Eq, c), stats) == estimate(
                binary(c, BinaryOp::Eq, l),
                stats,
            )
            &&& estimate(binary(l, BinaryOp::Lt, c), stats) == estimate(
                binary(c, BinaryOp::Gt, l),
                stats,
            )
            &&& estimate(binary(l, BinaryOp::Gt, c), stats) == estimate(
                binary(c, BinaryOp::Lt, l),
                stats,
            )
            &&& estimate(binary(l, BinaryOp::LtEq, c), stats) == estimate(
                binary(c, BinaryOp::GtEq, l),
                stats,
            )
            &&& estimate(binary(l, BinaryOp::GtEq, c), stats) == estimate(
                binary(c, BinaryOp::LtEq, l),
                stats,
            )
        }),
{
}

/// Below a number lies the part of the histogram that is below it, and above it
/// the rest. Without a histogram, or beside what is no number, a third is
/// assumed on either side.
pub proof fn comparisons_go_by_the_histogram(
    i: usize,
    t: DataType,
    n: bool,
    v: ValueView,
    stats: TableStatsView,
)
    requires
        i < stats.columns.len(),
        v !is Null,
    ensures
        ({
            let col = stats.columns[i as int];
            let below = estimate(binary(column(i, t, n), BinaryOp::Lt, ExprView::Literal(v)), stats);
            let above = estimate(binary(column(i, t, n), BinaryOp::Gt, ExprView::Literal(v)), stats);
            &&& estimate(binary(column(i, t, n), BinaryOp::LtEq, ExprView::Literal(v)), stats)
                == below
            &&& estimate(binary(column(i, t, n), BinaryOp::GtEq, ExprView::Literal(v)), stats)
                == above
            &&& below.precision is Inexact && above.precision is Inexact
            &&& match (col.histogram, numeric(v)) {
                (Some(h), Some(x)) => {
                    &&& drawn(below.value, fraction_below(h, x))
                    &&& drawn(
                        above.value,
                        Float64::spec_from_int(1).spec_sub(fraction_below(h, x)),
                    )
                },
                _ => drawn(below.value, Float64 { bits: INEQUALITY }) && above.value == below.value,
            }
        }),
{
    lemma_one();
}

/// A column equals a common value as often as that value was found. It equals
/// another as often as the values that are not common have a share of the rows
/// left over, each the same one; and any value as often as each of the distinct
/// values has the same share, where no common values are known.
pub proof fn equality_goes_by_the_values(
    i: usize,
    t: DataType,
    n: bool,
    v: ValueView,
    stats: TableStatsView,
)
    requires
        i < stats.columns.len(),
        v !is Null,
    ensures
        ({
            let col = stats.columns[i as int];
            let s = (v.data_type()->0, v);
            let equal = estimate(binary(column(i, t, n), BinaryOp::Eq, ExprView::Literal(v)), stats);
            &&& col.mcv matches Some(m) ==> match m.frequency_of(s) {
                Some(f) => drawn(equal.value, f) && equal.precision is Exact,
                None => col.distinct_count.value() matches Some(d) ==> (m.non_mcv(d as int) matches Some(
                    f,
                ) ==> drawn(equal.value, f) && equal.precision is Inexact),
            }
            &&& col.mcv is None ==> equal.precision is Inexact
            &&& col.mcv is None && (col.distinct_count.value() matches Some(d) && d > 0) ==> drawn(
                equal.value,
                share(1, col.distinct_count.value()->0 as int),
            )
            &&& col.mcv is None && !(col.distinct_count.value() matches Some(d) && d > 0) ==> drawn(
                equal.value,
                Float64 { bits: EQUALITY },
            )
        }),
{
    lemma_one();
}

/// Two columns are equal as seldom as the one of them with more values makes
/// it, whichever side it is on.
pub proof fn columns_are_equal_by_the_greater_count(
    i: usize,
    j: usize,
    t: DataType,
    u: DataType,
    n: bool,
    m: bool,
    stats: TableStatsView,
    a: usize,
    b: usize,
)
    requires
        i < stats.columns.len(),
        j < stats.columns.len(),
        stats.columns[i as int].distinct_count.value() == Some(a),
        stats.columns[j as int].distinct_count.value() == Some(b),
        0 < b <= a,
    ensures
        drawn(
            estimate(binary(column(i, t, n), BinaryOp::Eq, column(j, u, m)), stats).value,
            share(1, a as int),
        ),
        estimate(binary(column(j, u, m), BinaryOp::Eq, column(i, t, n)), stats) == estimate(
            binary(column(i, t, n), BinaryOp::Eq, column(j, u, m)),
            stats,
        ),
{
    lemma_one();
}

/// Where nothing is known of the columns, or of the shape of a condition, one
/// row in ten is assumed to pass, and that is a guess.
pub proof fn other_conditions_are_guessed(e: ExprView, stats: TableStatsView)
    requires
        match e {
            ExprView::Binary { left, op, right } => !(op is And) && !(op is Or) && !(op is Eq) && !(op is Lt)
                && !(op is Gt) && !(op is LtEq) && !(op is GtEq),
            ExprView::Unary { op, expr } => !(op is Not),
            ExprView::IsNull(_) => false,
            ExprView::IsNotNull(_) => false,
            _ => true,
        },
    ensures
        drawn(estimate(e, stats).value, Float64 { bits: UNKNOWN }),
        estimate(e, stats).precision is Inexact,
{
    lemma_one();
}

/// Between two numbers lies what is below the upper one and not below the lower
/// one; nothing, where the lower one is the greater. Without a histogram a
/// quarter is assumed.
pub proof fn ranges_are_differences(col: ColumnStatsView, lo: ValueView, hi: ValueView)
    ensures
        range_estimate(col, lo, hi).precision is Inexact,
        match (col.histogram, numeric(lo), numeric(hi)) {
            (Some(h), Some(a), Some(b)) => {
                let width = fraction_below(h, b).spec_sub(fraction_below(h, a));
                if width.num_lt(Float64::spec_from_int(0)) {
                    range_estimate(col, lo, hi).value == Float64 { bits: FLOOR }
                } else {
                    width.is_nan() || drawn(range_estimate(col, lo, hi).value, width)
                }
            },
            _ => drawn(range_estimate(col, lo, hi).value, Float64 { bits: RANGE }),
        },
{
    lemma_one();
    let lo = Float64 { bits: FLOOR };
    let zero = Float64 { bits: 0 };
    assert(lo.magnitude() == FLOOR as int && !lo.negative());
    assert(zero.magnitude() == 0 && !zero.negative());
}

/// One more value in a list adds its own chance. A list of no values is as rare
/// as can be; no list is more than certain; and one value alone is as likely as
/// that value.
pub proof fn lists_add_up(col: ColumnStatsView, values: Seq<ValueView>, v: ValueView)
    ensures
        list_sum(col, values.push(v), values.len() + 1) == list_sum(
            col,
            values,
            values.len(),
        ).spec_add(equality_estimate(col, scalar_of(v)).value),
        list_sum(col, values, 0) == Float64::spec_from_int(0),
        ({
            let sum = list_sum(col, values, values.len());
            &&& sum.num_le(Float64::spec_from_int(1)) ==> drawn(list_estimate(col, values).value, sum)
            &&& Float64::spec_from_int(1).num_lt(sum) ==> list_estimate(col, values).value
                == Float64::spec_from_int(1)
            &&& list_estimate(col, values).precision is Exact <==> (forall|i: int|
                0 <= i < values.len() ==> equality_estimate(
                    col,
                    scalar_of(#[trigger] values[i]),
                ).precision is Exact)
        }),
{
    lemma_one();
    let longer = values.push(v);
    lemma_list_sum(col, values, v, values.len());
    assert(longer[values.len() as int] == v);
}

proof fn lemma_list_sum(col: ColumnStatsView, values: Seq<ValueView>, v: ValueView, n: nat)
    requires
        n <= values.len(),
    ensures
        list_sum(col, values.push(v), n) == list_sum(col, values, n),
    decreases n,
{
    if n > 0 {
        lemma_list_sum(col, values, v, (n - 1) as nat);
        assert(values.push(v)[n - 1] == values[n - 1]);
    }
}

/// Whether each double of a sequence is at most those behind it.
pub open spec fn ascending(s: Seq<Float64>) -> bool {
    forall|i: int, j: int| 0 <= i < j < s.len() ==> (#[trigger] s[i]).num_le(#[trigger] s[j])
}

/// The values of selectivities, as they stand.
pub open spec fn values_of(s: Seq<Selectivity>) -> Seq<Float64> {
    Seq::new(s.len(), |i: int| s[i].value)
}

/// Selectivities are put in ascending order: the same values, the most selective
/// first.
pub proof fn the_most_selective_come_first(s: Seq<Selectivity>)
    requires
        forall|i: int| 0 <= i < s.len() ==> !(#[trigger] s[i]).value.is_nan(),
    ensures
        ascending(in_order(s, s.len())),
        in_order(s, s.len()).to_multiset() =~= values_of(s).to_multiset(),
{
    lemma_in_order(s, s.len());
    assert(values_of(s).take(s.len() as int) =~= values_of(s));
}

proof fn lemma_in_order(s: Seq<Selectivity>, n: nat)
    requires
        n <= s.len(),
        forall|i: int| 0 <= i < s.len() ==> !(#[trigger] s[i]).value.is_nan(),
    ensures
        ascending(in_order(s, n)),
        forall|i: int| 0 <= i < in_order(s, n).len() ==> !(#[trigger] in_order(s, n)[i]).is_nan(),
        in_order(s, n).to_multiset() =~= values_of(s).take(n as int).to_multiset(),
    decreases n,
{
    broadcast use vstd::seq_lib::group_to_multiset_ensures;

    if n == 0 {
        assert(in_order(s, n) =~= values_of(s).take(0));
    } else {
        lemma_in_order(s, (n - 1) as nat);
        let v = s[n - 1].value;
        lemma_put_in_order(in_order(s, (n - 1) as nat), v);
        assert(values_of(s).take(n as int) =~= values_of(s).take(n - 1).push(v));
    }
}

proof fn lemma_put_in_order(s: Seq<Float64>, v: Float64)
    requires
        ascending(s),
        !v.is_nan(),
        forall|i: int| 0 <= i < s.len() ==> !(#[trigger] s[i]).is_nan(),
    ensures
        ({
            let r = crate::optimizer::cardinality::selectivity::put_in_order(s, v);
            &&& ascending(r)
            &&& r.to_multiset() =~= s.to_multiset().insert(v)
            &&& forall|i: int|
                0 <= i < r.len() ==> !(#[trigger] r[i]).is_nan() && (r[i] == v || s.contains(r[i]))
        }),
    decreases s.len(),
{
    broadcast use vstd::seq_lib::group_to_multiset_ensures;

    let r = crate::optimizer::cardinality::selectivity::put_in_order(s, v);
    if s.len() > 0 && v.num_lt(s.last()) {
        let t = s.drop_last();
        lemma_put_in_order(t, v);
        let u = crate::optimizer::cardinality::selectivity::put_in_order(t, v);
        assert(s =~= t.push(s.last()));
        assert forall|i: int, j: int| 0 <= i < j < r.len() implies (#[trigger] r[i]).num_le(
            #[trigger] r[j],
        ) by {
            if j == u.len() {
                assert(r[i] == u[i]);
                if u[i] != v {
                    let k = choose|k: int| 0 <= k < t.len() && t[k] == u[i];
                    assert(s[k].num_le(s[s.len() - 1]));
                }
            } else {
                assert(r[i] == u[i] && r[j] == u[j]);
            }
        }
        assert forall|i: int| 0 <= i < r.len() implies !(#[trigger] r[i]).is_nan() && (r[i] == v
            || s.contains(r[i])) by {
            if i < u.len() {
                assert(r[i] == u[i]);
                if u[i] != v {
                    let k = choose|k: int| 0 <= k < t.len() && t[k] == u[i];
                    assert(s[k] == r[i]);
                }
            } else {
                assert(s[s.len() - 1] == r[i]);
            }
        }
    } else {
        assert(r == s.push(v));
        assert forall|i: int, j: int| 0 <= i < j < r.len() implies (#[trigger] r[i]).num_le(
            #[trigger] r[j],
        ) by {
            if j == s.len() {
                if i < s.len() - 1 {
                    assert(s[i].num_le(s[s.len() - 1]));
                }
            } else {
                assert(s[i].num_le(s[j]));
            }
        }
        assert forall|i: int| 0 <= i < r.len() implies !(#[trigger] r[i]).is_nan() && (r[i] == v
            || s.contains(r[i])) by {
            if i < s.len() {
                assert(s[i] == r[i]);
            }
        }
    }
}

/// A product takes in its factors one by one.
pub proof fn one_more_factor_multiplies(s: Seq<Float64>, v: Float64)
    requires
        s.len() > 0,
    ensures
        product(s.push(v), s.len() + 1) == product(s, s.len()).spec_mul(v),
        product(seq![v], 1) == v,
{
    lemma_product(s, v, s.len());
    assert(s.push(v)[s.len() as int] == v);
}

proof fn lemma_product(s: Seq<Float64>, v: Float64, n: nat)
    requires
        0 < n <= s.len(),
    ensures
        product(s.push(v), n) == product(s, n),
    decreases n,
{
    if n > 1 {
        lemma_product(s, v, (n - 1) as nat);
        assert(s.push(v)[n - 1] == s[n - 1]);
    } else {
        assert(s.push(v)[0] == s[0]);
    }
}

/// Several estimates together are exact where every one is.
pub proof fn the_weakest_decides(s: Seq<Selectivity>, n: nat)
    requires
        n <= s.len(),
    ensures
        weakest(s, n) is Exact <==> (forall|i: int| 0 <= i < n ==> (#[trigger] s[i]).precision is Exact),
        weakest(s, n) is Absent <==> (exists|i: int| 0 <= i < n && (#[trigger] s[i]).precision is Absent),
    decreases n,
{
    if n > 0 {
        the_weakest_decides(s, (n - 1) as nat);
        assert(s[n - 1].precision is Exact || !(s[n - 1].precision is Exact));
    }
}

} // verus!
