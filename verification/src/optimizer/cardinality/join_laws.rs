//! What the estimates for joins come to, in rows and distinct values.

use vstd::prelude::*;

use crate::float64::{Float64, LIMIT};
use crate::float_laws::{integers_divide, integers_multiply, integers_round_to_themselves};
use crate::logical_plan::plan::JoinType;
use crate::optimizer::cardinality::join_card::{
    join_estimate, key_space, key_values, matching_rows,
};
use crate::statistics::{precision_product, Precision, TableStatsView};

verus! {

/// Whether the distinct values of a key pair are counted on both sides, and
/// there are some.
pub open spec fn key_counted(
    left: TableStatsView,
    right: TableStatsView,
    pair: (usize, usize),
) -> bool {
    &&& pair.0 < left.columns.len()
    &&& pair.1 < right.columns.len()
    &&& left.columns[pair.0 as int].distinct_count.value() matches Some(a) && a > 0
    &&& right.columns[pair.1 as int].distinct_count.value() matches Some(b) && b > 0
}

/// The number of distinct values of a key pair: that of the side with more.
pub open spec fn values_of_key(
    left: TableStatsView,
    right: TableStatsView,
    pair: (usize, usize),
) -> int {
    let a = left.columns[pair.0 as int].distinct_count.value()->Some_0 as int;
    let b = right.columns[pair.1 as int].distinct_count.value()->Some_0 as int;
    if a < b {
        b
    } else {
        a
    }
}

/// The number of combinations of the values of key pairs.
pub open spec fn values_of_keys(
    left: TableStatsView,
    right: TableStatsView,
    on: Seq<(usize, usize)>,
) -> int
    decreases on.len(),
{
    if on.len() == 0 {
        1
    } else {
        values_of_key(left, right, on.last()) * values_of_keys(left, right, on.drop_last())
    }
}

proof fn lemma_values_positive(
    left: TableStatsView,
    right: TableStatsView,
    on: Seq<(usize, usize)>,
)
    requires
        forall|k: int| 0 <= k < on.len() ==> key_counted(left, right, #[trigger] on[k]),
    ensures
        values_of_keys(left, right, on) > 0,
        on.len() > 0 ==> {
            &&& values_of_keys(left, right, on.drop_last()) <= values_of_keys(left, right, on)
            &&& values_of_key(left, right, on.last()) <= values_of_keys(left, right, on)
            &&& values_of_key(left, right, on.last()) > 0
        },
    decreases on.len(),
{
    if on.len() > 0 {
        let rest = on.drop_last();
        assert forall|k: int| 0 <= k < rest.len() implies key_counted(
            left,
            right,
            #[trigger] rest[k],
        ) by {
            assert(rest[k] == on[k]);
        }
        lemma_values_positive(left, right, rest);
        assert(on.last() == on[on.len() - 1]);
        let a = values_of_key(left, right, on.last());
        let b = values_of_keys(left, right, rest);
        assert(a * b >= a && a * b >= b && a * b > 0) by (nonlinear_arith)
            requires
                a > 0,
                b > 0,
        ;
    }
}

proof fn lemma_key_space(
    left: TableStatsView,
    right: TableStatsView,
    on: Seq<(usize, usize)>,
    n: nat,
)
    requires
        n <= on.len(),
        forall|k: int| 0 <= k < on.len() ==> key_counted(left, right, #[trigger] on[k]),
        values_of_keys(left, right, on.take(n as int)) < LIMIT,
    ensures
        key_space(left, right, on, n) == Some(
            Float64::spec_from_int(values_of_keys(left, right, on.take(n as int))),
        ),
    decreases n,
{
    if n == 0 {
        lemma_one();
        assert(values_of_keys(left, right, on.take(0)) == 1);
    } else {
        let some = on.take(n as int);
        let rest = on.take(n - 1);
        assert(some.drop_last() =~= rest);
        assert(some.last() == on[n - 1]);
        assert forall|k: int| 0 <= k < some.len() implies key_counted(
            left,
            right,
            #[trigger] some[k],
        ) by {
            assert(some[k] == on[k]);
        }
        lemma_values_positive(left, right, some);
        assert forall|k: int| 0 <= k < rest.len() implies key_counted(
            left,
            right,
            #[trigger] rest[k],
        ) by {
            assert(rest[k] == on[k]);
        }
        lemma_values_positive(left, right, rest);
        lemma_key_space(left, right, on, (n - 1) as nat);
        let a = values_of_key(left, right, on[n - 1]);
        let b = values_of_keys(left, right, rest);
        assert(key_counted(left, right, on[n - 1]));
        assert(key_values(left, right, on[n - 1]) == Some(a));
        assert(b * a == a * b) by (nonlinear_arith);
        integers_multiply(b, a);
    }
}

/// The bits of one are the double one.
proof fn lemma_one()
    ensures
        crate::statistics::one() == Float64::spec_from_int(1),
{
    crate::float64::lemma_one_is_an_integer();
}

/// An inner join is expected to give the pairs of its sides' rows, divided by
/// the number of combinations of its keys' values: for each key pair the
/// distinct values of the side that has more, and all pairs multiplied. The
/// quotient is rounded; at least one row is expected, and no more than there
/// are pairs. This is said of counts that are exact as doubles.
pub proof fn inner_joins_divide_by_the_values_of_every_key(
    left: TableStatsView,
    right: TableStatsView,
    on: Seq<(usize, usize)>,
    l: usize,
    r: usize,
)
    requires
        left.num_rows.value() == Some(l),
        right.num_rows.value() == Some(r),
        forall|k: int| 0 <= k < on.len() ==> key_counted(left, right, #[trigger] on[k]),
        l < LIMIT,
        r < LIMIT,
        l * r < LIMIT,
        l * r <= usize::MAX,
        values_of_keys(left, right, on) < LIMIT,
    ensures
        ({
            let rows = join_estimate(left, right, on, JoinType::Inner);
            let pairs = l * r;
            let values = values_of_keys(left, right, on);
            let quotient = Float64::spec_from_int(pairs).spec_div(
                Float64::spec_from_int(values),
            ).rounded_u64();
            &&& rows matches Precision::Inexact(n)
            &&& n >= 1
            &&& n <= pairs || n == 1
            &&& quotient <= pairs && quotient >= 1 ==> n == quotient
            &&& forall|whole: int|
                1 <= whole && #[trigger] (whole * values) == pairs ==> n == whole
        }),
{
    let pairs = l * r;
    let values = values_of_keys(left, right, on);
    assert(on.take(on.len() as int) =~= on);
    lemma_key_space(left, right, on, on.len());
    assert(pairs >= 0) by (nonlinear_arith)
        requires
            pairs == l * r,
            l >= 0,
            r >= 0,
    ;
    integers_multiply(l as int, r as int);
    lemma_values_positive(left, right, on);
    assert forall|whole: int| 1 <= whole && #[trigger] (whole * values) == pairs implies
        matching_rows(l as int, r as int, Float64::spec_from_int(values)) == whole by {
        assert(whole <= pairs) by (nonlinear_arith)
            requires
                whole * values == pairs,
                values > 0,
                whole >= 1,
        ;
        integers_divide(whole, values);
        integers_round_to_themselves(whole);
    }
}

/// One more key pair of `d` distinct values divides what is expected of an
/// inner join by `d`.
pub proof fn one_more_key_divides_the_rows(
    left: TableStatsView,
    right: TableStatsView,
    on: Seq<(usize, usize)>,
    pair: (usize, usize),
    l: usize,
    r: usize,
    rows: int,
)
    requires
        left.num_rows.value() == Some(l),
        right.num_rows.value() == Some(r),
        forall|k: int| 0 <= k < on.len() ==> key_counted(left, right, #[trigger] on[k]),
        key_counted(left, right, pair),
        l < LIMIT,
        r < LIMIT,
        l * r < LIMIT,
        l * r <= usize::MAX,
        values_of_keys(left, right, on.push(pair)) < LIMIT,
        rows >= 1,
        rows * values_of_keys(left, right, on.push(pair)) == l * r,
    ensures
        join_estimate(left, right, on.push(pair), JoinType::Inner).value() == Some(rows as usize),
        join_estimate(left, right, on, JoinType::Inner).value() == Some(
            (rows * values_of_key(left, right, pair)) as usize,
        ),
{
    let all = on.push(pair);
    assert(all.drop_last() =~= on);
    let v = values_of_keys(left, right, on);
    let d = values_of_key(left, right, pair);
    assert forall|k: int| 0 <= k < all.len() implies key_counted(
        left,
        right,
        #[trigger] all[k],
    ) by {
        if k < on.len() {
            assert(all[k] == on[k]);
        }
    }
    lemma_values_positive(left, right, all);
    assert(values_of_keys(left, right, all) == d * v);
    assert((rows * d) * v == rows * (d * v)) by (nonlinear_arith);
    assert(rows * d >= 1) by (nonlinear_arith)
        requires
            rows >= 1,
            d >= 1,
    ;
    inner_joins_divide_by_the_values_of_every_key(left, right, all, l, r);
    inner_joins_divide_by_the_values_of_every_key(left, right, on, l, r);
}

/// Nothing is expected of a join where a row count or the distinct values of a
/// key are not known, and something is wherever all are.
pub proof fn joins_are_estimated_where_all_is_known(
    left: TableStatsView,
    right: TableStatsView,
    on: Seq<(usize, usize)>,
    join_type: JoinType,
)
    ensures
        join_estimate(left, right, on, join_type) is Absent <==> {
            ||| left.num_rows is Absent
            ||| right.num_rows is Absent
            ||| exists|k: int| 0 <= k < on.len() && !key_counted(left, right, #[trigger] on[k])
        },
{
    lemma_key_space_known(left, right, on, on.len());
}

proof fn lemma_key_space_known(
    left: TableStatsView,
    right: TableStatsView,
    on: Seq<(usize, usize)>,
    n: nat,
)
    requires
        n <= on.len(),
    ensures
        key_space(left, right, on, n) is None <==> exists|k: int|
            0 <= k < n && !key_counted(left, right, #[trigger] on[k]),
    decreases n,
{
    if n > 0 {
        lemma_key_space_known(left, right, on, (n - 1) as nat);
        assert(key_values(left, right, on[n - 1]) is None <==> !key_counted(
            left,
            right,
            on[n - 1],
        ));
        if key_space(left, right, on, n) is None && key_space(left, right, on, (n - 1) as nat)
            is None {
            let k = choose|k: int|
                0 <= k < n - 1 && !key_counted(left, right, #[trigger] on[k]);
            assert(!key_counted(left, right, on[k]));
        }
    }
}

/// The estimate for a join of another type follows from that for an inner join:
/// an outer join gives at least the rows of each side that it preserves, a semi
/// or anti join no more than its side has, and never nothing.
pub proof fn other_joins_follow_the_inner_one(
    left: TableStatsView,
    right: TableStatsView,
    on: Seq<(usize, usize)>,
    l: usize,
    r: usize,
    inner: usize,
)
    requires
        left.num_rows.value() == Some(l),
        right.num_rows.value() == Some(r),
        join_estimate(left, right, on, JoinType::Inner).value() == Some(inner),
    ensures
        ({
            let of = |t: JoinType| join_estimate(left, right, on, t).value()->Some_0;
            &&& of(JoinType::Left) == (if inner < l {
                l
            } else {
                inner
            })
            &&& of(JoinType::Right) == (if inner < r {
                r
            } else {
                inner
            })
            &&& of(JoinType::Full) == (if of(JoinType::Left) < r {
                r
            } else {
                of(JoinType::Left)
            })
            &&& of(JoinType::LeftSemi) == (if l == 0 {
                1
            } else if inner < l {
                inner
            } else {
                l
            })
            &&& of(JoinType::LeftAnti) == of(JoinType::LeftSemi)
            &&& of(JoinType::RightSemi) == (if r == 0 {
                1
            } else if inner < r {
                inner
            } else {
                r
            })
            &&& of(JoinType::RightAnti) == of(JoinType::RightSemi)
        }),
{
}

/// Which side is which does not matter to an inner join.
pub proof fn inner_estimates_are_symmetric(
    left: TableStatsView,
    right: TableStatsView,
    on: Seq<(usize, usize)>,
)
    ensures
        join_estimate(left, right, on, JoinType::Inner) == join_estimate(
            right,
            left,
            Seq::new(on.len(), |k: int| (on[k].1, on[k].0)),
            JoinType::Inner,
        ),
{
    let turned = Seq::new(on.len(), |k: int| (on[k].1, on[k].0));
    lemma_key_space_turned(left, right, on, turned, on.len());
    if let (Some(l), Some(r)) = (left.num_rows.value(), right.num_rows.value()) {
        let a = Float64::spec_from_int(l as int);
        let b = Float64::spec_from_int(r as int);
        assert(l * r == r * l) by (nonlinear_arith);
        lemma_products_commute(a, b);
    }
}

proof fn lemma_products_commute(x: Float64, y: Float64)
    ensures
        x.spec_mul(y) == y.spec_mul(x),
{
    let a = crate::float64::units(x.magnitude());
    let b = crate::float64::units(y.magnitude());
    assert(a * b == b * a) by (nonlinear_arith);
}

proof fn lemma_key_space_turned(
    left: TableStatsView,
    right: TableStatsView,
    on: Seq<(usize, usize)>,
    turned: Seq<(usize, usize)>,
    n: nat,
)
    requires
        n <= on.len(),
        turned == Seq::new(on.len(), |k: int| (on[k].1, on[k].0)),
    ensures
        key_space(left, right, on, n) == key_space(right, left, turned, n),
    decreases n,
{
    if n > 0 {
        lemma_key_space_turned(left, right, on, turned, (n - 1) as nat);
        assert(turned[n - 1] == (on[n - 1].1, on[n - 1].0));
        assert(key_values(left, right, on[n - 1]) == key_values(right, left, turned[n - 1]));
    }
}

/// A cross product gives every pair of rows: exactly, where both counts are
/// exact and the product is a count, and as an estimate otherwise.
pub proof fn cross_products_give_every_pair(a: Precision<usize>, b: Precision<usize>)
    ensures
        precision_product(a, b) is Absent <==> a is Absent || b is Absent,
        precision_product(a, b) is Exact <==> a is Exact && b is Exact && a.value()->Some_0
            * b.value()->Some_0 <= usize::MAX,
        precision_product(a, b).value() matches Some(n) ==> {
            let pairs = a.value()->Some_0 * b.value()->Some_0;
            n == if pairs <= usize::MAX {
                pairs
            } else {
                usize::MAX as int
            }
        },
{
}

} // verus!
