//! How many rows a join is expected to produce: the product of the two sides'
//! row counts over the number of distinct values of the richer key. This takes
//! one side's values to be among the other's, as with foreign keys, and every
//! value to be equally frequent.

use vstd::prelude::*;

use crate::float64::Float64;
use crate::logical_plan::plan::JoinType;
use crate::optimizer::cardinality::selectivity::greater;
use crate::statistics::{
    count_product, one, precision_product, saturating_product, Precision, TableStatistics,
    TableStatsView, ONE,
};

verus! {

/// The number of distinct values of a key pair's richer side; `None` where it
/// is not known of both.
pub open spec fn key_values(left: TableStatsView, right: TableStatsView, pair: (usize, usize)) -> Option<
    int,
> {
    if pair.0 < left.columns.len() && pair.1 < right.columns.len() {
        match (
            left.columns[pair.0 as int].distinct_count.value(),
            right.columns[pair.1 as int].distinct_count.value(),
        ) {
            (Some(l), Some(r)) => if l > 0 && r > 0 {
                Some(greater(l as int, r as int))
            } else {
                None
            },
            _ => None,
        }
    } else {
        None
    }
}

/// The product of the first `n` key pairs' numbers of distinct values; `None`
/// where one is not known.
pub open spec fn key_space(
    left: TableStatsView,
    right: TableStatsView,
    on: Seq<(usize, usize)>,
    n: nat,
) -> Option<Float64>
    decreases n,
{
    if n == 0 {
        Some(one())
    } else {
        match (key_space(left, right, on, (n - 1) as nat), key_values(left, right, on[n - 1])) {
            (Some(d), Some(v)) => Some(d.spec_mul(Float64::spec_from_int(v))),
            _ => None,
        }
    }
}

/// A double as a count, rounded.
pub open spec fn as_count(x: Float64) -> int {
    if x.rounded_u64() > usize::MAX {
        usize::MAX as int
    } else {
        x.rounded_u64()
    }
}

pub open spec fn within(n: int, lo: int, hi: int) -> int {
    if n < lo {
        lo
    } else if n > hi {
        hi
    } else {
        n
    }
}

pub open spec fn lesser(a: int, b: int) -> int {
    if a <= b {
        a
    } else {
        b
    }
}

/// The rows of an inner join: at least one, and no more than there are pairs.
pub open spec fn matching_rows(left_rows: int, right_rows: int, space: Float64) -> int {
    within(
        as_count(
            Float64::spec_from_int(left_rows).spec_mul(Float64::spec_from_int(right_rows)).spec_div(
                space,
            ),
        ),
        1,
        greater(count_product(left_rows, right_rows) as int, 1),
    )
}

/// The rows of a join, given how many pairs match. Every row of a preserved
/// side comes out; a semi or anti join puts out rows of one side only.
pub open spec fn joined_rows(
    matching: int,
    left_rows: int,
    right_rows: int,
    join_type: JoinType,
) -> int {
    match join_type {
        JoinType::Inner => matching,
        JoinType::Left => greater(matching, left_rows),
        JoinType::Right => greater(matching, right_rows),
        JoinType::Full => greater(greater(matching, left_rows), right_rows),
        JoinType::LeftSemi => greater(lesser(matching, left_rows), 1),
        JoinType::LeftAnti => greater(lesser(matching, left_rows), 1),
        JoinType::RightSemi => greater(lesser(matching, right_rows), 1),
        JoinType::RightAnti => greater(lesser(matching, right_rows), 1),
    }
}

/// The estimate for a join on key pairs; absent where the row counts or the
/// distinct values are not known.
pub open spec fn join_estimate(
    left: TableStatsView,
    right: TableStatsView,
    on: Seq<(usize, usize)>,
    join_type: JoinType,
) -> Precision<usize> {
    match (left.num_rows.value(), right.num_rows.value(), key_space(left, right, on, on.len())) {
        (Some(l), Some(r), Some(space)) => Precision::Inexact(
            joined_rows(
                matching_rows(l as int, r as int, space),
                l as int,
                r as int,
                join_type,
            ) as usize,
        ),
        _ => Precision::Absent,
    }
}

/// An outer join is never taken to produce fewer rows than its preserved side
/// has, a semi or anti join never more; and no join is taken to produce
/// nothing.
pub proof fn join_estimates_respect_the_preserved_side(
    left: TableStatsView,
    right: TableStatsView,
    on: Seq<(usize, usize)>,
    join_type: JoinType,
)
    ensures
        join_estimate(left, right, on, join_type).value() matches Some(n) ==> {
            let l = left.num_rows.value()->0;
            let r = right.num_rows.value()->0;
            &&& !(join_estimate(left, right, on, join_type) is Exact)
            &&& n >= 1
            &&& join_type == JoinType::Left ==> n >= l
            &&& join_type == JoinType::Right ==> n >= r
            &&& join_type == JoinType::Full ==> n >= l && n >= r
            &&& join_type == JoinType::LeftSemi || join_type == JoinType::LeftAnti ==> n
                <= greater(l as int, 1)
            &&& join_type == JoinType::RightSemi || join_type == JoinType::RightAnti ==> n
                <= greater(r as int, 1)
            &&& join_type == JoinType::Inner ==> n <= greater(
                count_product(l as int, r as int) as int,
                1,
            )
        },
{
}

fn rounded_count(x: Float64) -> (r: usize)
    ensures
        r == as_count(x),
{
    let n: u64 = x.round_to_u64();
    if n > usize::MAX as u64 {
        usize::MAX
    } else {
        n as usize
    }
}

fn at_least(a: usize, b: usize) -> (r: usize)
    ensures
        r == greater(a as int, b as int),
{
    if a >= b {
        a
    } else {
        b
    }
}

fn at_most(a: usize, b: usize) -> (r: usize)
    ensures
        r == lesser(a as int, b as int),
{
    if a <= b {
        a
    } else {
        b
    }
}

proof fn lemma_key_space_absent(
    left: TableStatsView,
    right: TableStatsView,
    on: Seq<(usize, usize)>,
    m: nat,
    n: nat,
)
    requires
        m <= n,
        key_space(left, right, on, m) is None,
    ensures
        key_space(left, right, on, n) is None,
    decreases n - m,
{
    if m < n {
        lemma_key_space_absent(left, right, on, m, (n - 1) as nat);
    }
}

/// The estimate for a join on key pairs.
pub fn join_cardinality(
    left: &TableStatistics,
    right: &TableStatistics,
    on: &Vec<(usize, usize)>,
    join_type: JoinType,
) -> (r: Precision<usize>)
    requires
        on@.len() > 0,
    ensures
        r == join_estimate(left@, right@, on@, join_type),
{
    let (left_rows, right_rows): (usize, usize) = match (
        left.num_rows.get_value(),
        right.num_rows.get_value(),
    ) {
        (Some(l), Some(r)) => (*l, *r),
        _ => {
            return Precision::Absent;
        },
    };
    let mut denom = Float64::from_bits(ONE);
    let mut i: usize = 0;
    while i < on.len()
        invariant
            i <= on@.len(),
            key_space(left@, right@, on@, i as nat) == Some(denom),
        decreases on@.len() - i,
    {
        let (l, r): (usize, usize) = on[i];
        let mut known: Option<usize> = None;
        if l < left.column_statistics.len() && r < right.column_statistics.len() {
            assert(left@.columns[l as int] == left.column_statistics@[l as int]@);
            assert(right@.columns[r as int] == right.column_statistics@[r as int]@);
            match (
                left.column_statistics[l].distinct_count.get_value(),
                right.column_statistics[r].distinct_count.get_value(),
            ) {
                (Some(a), Some(b)) => {
                    if *a > 0 && *b > 0 {
                        known = Some(at_least(*a, *b));
                    }
                },
                _ => {},
            }
        }
        match known {
            Some(n) => {
                denom = denom.mul(Float64::from_u64(n as u64));
            },
            None => {
                proof {
                    lemma_key_space_absent(left@, right@, on@, (i + 1) as nat, on@.len());
                }
                return Precision::Absent;
            },
        }
        i = i + 1;
    }
    let pairs = Float64::from_u64(left_rows as u64).mul(Float64::from_u64(right_rows as u64));
    let estimate: usize = rounded_count(pairs.div(denom));
    let most: usize = at_least(saturating_product(left_rows, right_rows), 1);
    let matching: usize = at_most(at_least(estimate, 1), most);
    let rows: usize = match join_type {
        JoinType::Inner => matching,
        JoinType::Left => at_least(matching, left_rows),
        JoinType::Right => at_least(matching, right_rows),
        JoinType::Full => at_least(at_least(matching, left_rows), right_rows),
        JoinType::LeftSemi => at_least(at_most(matching, left_rows), 1),
        JoinType::LeftAnti => at_least(at_most(matching, left_rows), 1),
        JoinType::RightSemi => at_least(at_most(matching, right_rows), 1),
        JoinType::RightAnti => at_least(at_most(matching, right_rows), 1),
    };
    Precision::Inexact(rows)
}

/// The estimate for a join without a condition: every pair.
pub fn cross_product_cardinality(left: &TableStatistics, right: &TableStatistics) -> (r: Precision<
    usize,
>)
    ensures
        r == precision_product(left@.num_rows, right@.num_rows),
{
    left.num_rows.multiply(&right.num_rows)
}

} // verus!
