//! What the aggregates of a column come to, in terms of its values.

use vstd::prelude::*;

use crate::array::ArrayView;
use crate::error::ErrorKind;
use crate::float64::Float64;
use crate::logical_plan::plan::AggregateKind;
use crate::physical_plan::aggregate::accumulator::{
    accumulate, aggregate_output, as_far_as, count_present, counts_as_far_as, extreme, fresh,
    left_by_failed_merge, left_by_failure, merge_states, sum_counts, sum_floats, sum_values,
    AccumulatorFactory, AccumulatorView,
};
use crate::physical_plan::aggregate::laws::ordered;
use crate::text::text_order;
use crate::types::data_type::DataType;
use crate::types::value::{value_lt, ValueView};

verus! {

/// What an aggregate over a column of values gives.
pub open spec fn aggregate_of(
    kind: AggregateKind,
    t: DataType,
    is_star: bool,
    values: Seq<ValueView>,
) -> Result<ValueView, ErrorKind> {
    match accumulate(
        fresh(AccumulatorFactory { kind, data_type: t, is_star }),
        ArrayView { data_type: t, values },
    ) {
        Err(k) => Err(k),
        Ok(s) => match aggregate_output(s) {
            Err(k) => Err(k),
            Ok((u, v)) => Ok(v),
        },
    }
}

/// Whether all of the values are null.
pub open spec fn all_null(values: Seq<ValueView>) -> bool {
    forall|i: int| 0 <= i < values.len() ==> #[trigger] values[i] == ValueView::Null
}

proof fn lemma_none_present(values: Seq<ValueView>)
    ensures
        count_present(values) == 0 <==> all_null(values),
        count_present(values) <= values.len(),
    decreases values.len(),
{
    if values.len() > 0 {
        let rest = values.drop_last();
        lemma_none_present(rest);
        assert(values.last() == values[values.len() - 1]);
        if all_null(rest) && values.last() == ValueView::Null {
            assert forall|i: int| 0 <= i < values.len() implies #[trigger] values[i]
                == ValueView::Null by {
                if i < rest.len() {
                    assert(rest[i] == values[i]);
                }
            }
        }
        if all_null(values) {
            assert forall|i: int| 0 <= i < rest.len() implies #[trigger] rest[i]
                == ValueView::Null by {
                assert(rest[i] == values[i]);
            }
        }
    }
}

/// `SUM` adds the values that are not null from the first to the last. Over
/// none it is null. One more integer is added to the sum so far, which is an
/// overflow where the result is no 64-bit integer; one more double is added to
/// the sum so far as doubles add; one more null changes nothing.
pub proof fn sums_add_value_by_value(t: DataType, values: Seq<ValueView>, x: ValueView)
    requires
        t == DataType::Int64 || t == DataType::Float64,
        forall|i: int| 0 <= i < values.len() ==> (#[trigger] values[i]).fits(t),
        x.fits(t),
    ensures
        all_null(values) ==> aggregate_of(AggregateKind::Sum, t, false, values) == Ok::<
            ValueView,
            ErrorKind,
        >(ValueView::Null),
        ({
            let before = aggregate_of(AggregateKind::Sum, t, false, values);
            let after = aggregate_of(AggregateKind::Sum, t, false, values.push(x));
            match (before, x) {
                (Err(k), _) => k == ErrorKind::NumericOverflow && after == before,
                (Ok(v), ValueView::Null) => after == before,
                (Ok(ValueView::Null), ValueView::Int64(n)) => all_null(values) && after == Ok::<
                    ValueView,
                    ErrorKind,
                >(x),
                (Ok(ValueView::Null), ValueView::Float64(n)) => all_null(values) && after == Ok::<
                    ValueView,
                    ErrorKind,
                >(ValueView::Float64(Float64 { bits: 0 }.spec_add(n))),
                (Ok(ValueView::Int64(m)), ValueView::Int64(n)) => if i64::MIN <= m + n <= i64::MAX {
                    after == Ok::<ValueView, ErrorKind>(ValueView::Int64((m + n) as i64))
                } else {
                    after == Err::<ValueView, ErrorKind>(ErrorKind::NumericOverflow)
                },
                (Ok(ValueView::Float64(m)), ValueView::Float64(n)) => after == Ok::<
                    ValueView,
                    ErrorKind,
                >(ValueView::Float64(m.spec_add(n))),
                _ => false,
            }
        }),
{
    let all = values.push(x);
    assert(all.drop_last() =~= values);
    assert(all.last() == x);
    lemma_none_present(values);
    lemma_sum_type(t, values);
    if count_present(values) == 0 {
        lemma_sum_of_nulls(
            if t == DataType::Float64 {
                ValueView::Float64(Float64 { bits: 0 })
            } else {
                ValueView::Int64(0)
            },
            values,
        );
    }
}

proof fn lemma_sum_of_nulls(start: ValueView, values: Seq<ValueView>)
    requires
        count_present(values) == 0,
    ensures
        sum_values(start, values) == Ok::<ValueView, ErrorKind>(start),
    decreases values.len(),
{
    if values.len() > 0 {
        lemma_sum_of_nulls(start, values.drop_last());
    }
}

proof fn lemma_sum_type(t: DataType, values: Seq<ValueView>)
    requires
        t == DataType::Int64 || t == DataType::Float64,
        forall|i: int| 0 <= i < values.len() ==> (#[trigger] values[i]).fits(t),
    ensures
        ({
            let start = if t == DataType::Float64 {
                ValueView::Float64(Float64 { bits: 0 })
            } else {
                ValueView::Int64(0)
            };
            match sum_values(start, values) {
                Ok(v) => v.data_type() == Some(t),
                Err(k) => k == ErrorKind::NumericOverflow,
            }
        }),
    decreases values.len(),
{
    if values.len() > 0 {
        let rest = values.drop_last();
        assert forall|i: int| 0 <= i < rest.len() implies (#[trigger] rest[i]).fits(t) by {
            assert(rest[i] == values[i]);
        }
        lemma_sum_type(t, rest);
        assert(values.last() == values[values.len() - 1]);
    }
}

/// `COUNT(*)` counts the rows and `COUNT(expr)` the values that are not null:
/// nothing over no rows, and one more for each row or value more.
pub proof fn counts_go_up_by_one(t: DataType, is_star: bool, values: Seq<ValueView>, x: ValueView)
    requires
        values.len() < i64::MAX,
    ensures
        aggregate_of(AggregateKind::Count, t, is_star, Seq::empty()) == Ok::<ValueView, ErrorKind>(
            ValueView::Int64(0),
        ),
        ({
            let before = aggregate_of(AggregateKind::Count, t, is_star, values);
            let after = aggregate_of(AggregateKind::Count, t, is_star, values.push(x));
            &&& before is Ok && before->Ok_0 is Int64
            &&& after is Ok && after->Ok_0 is Int64
            &&& after->Ok_0->Int64_0 == before->Ok_0->Int64_0 + if is_star || x != ValueView::Null {
                1int
            } else {
                0int
            }
        }),
        is_star ==> aggregate_of(AggregateKind::Count, t, is_star, values) == Ok::<
            ValueView,
            ErrorKind,
        >(ValueView::Int64(values.len() as i64)),
{
    let all = values.push(x);
    assert(all.drop_last() =~= values);
    lemma_none_present(values);
    lemma_none_present(all);
}

proof fn lemma_extreme_is_one(is_min: bool, t: DataType, a: ArrayView, n: nat) -> (at: int)
    requires
        a.data_type == t,
        n <= a.values.len(),
        forall|i: int|
            0 <= i < a.values.len() ==> (#[trigger] a.values[i]).fits(t) && ordered(a.values[i]),
    ensures
        match extreme(is_min, None, a, n) {
            None => forall|i: int| 0 <= i < n ==> #[trigger] a.values[i] == ValueView::Null,
            Some((u, v)) => {
                &&& u == t
                &&& 0 <= at < n
                &&& a.values[at] == v
                &&& v != ValueView::Null
                &&& forall|i: int|
                    0 <= i < n && #[trigger] a.values[i] != ValueView::Null ==> if is_min {
                        !value_lt(a.values[i], v)
                    } else {
                        !value_lt(v, a.values[i])
                    }
                &&& forall|i: int|
                    0 <= i < at && #[trigger] a.values[i] != ValueView::Null ==> if is_min {
                        value_lt(v, a.values[i])
                    } else {
                        value_lt(a.values[i], v)
                    }
            },
        },
    decreases n,
{
    if n == 0 {
        0
    } else {
        let m = (n - 1) as nat;
        let before = lemma_extreme_is_one(is_min, t, a, m);
        let w = a.values[n - 1];
        assert(w.fits(t) && ordered(w));
        match extreme(is_min, None, a, m) {
            None => {
                if w == ValueView::Null {
                    before
                } else {
                    lemma_order(t, w, w, w);
                    m as int
                }
            },
            Some((u, v)) => {
                assert(v.fits(t) && ordered(v));
                assert forall|i: int|
                    0 <= i < n && #[trigger] a.values[i] != ValueView::Null && w
                        != ValueView::Null implies {
                    &&& value_lt(w, v) && !value_lt(a.values[i], v) ==> !value_lt(a.values[i], w)
                        && (i < m ==> value_lt(w, a.values[i]))
                    &&& value_lt(v, w) && !value_lt(v, a.values[i]) ==> !value_lt(w, a.values[i])
                        && (i < m ==> value_lt(a.values[i], w))
                    &&& !value_lt(w, w)
                } by {
                    lemma_order(t, w, v, a.values[i]);
                }
                if w != ValueView::Null && ((is_min && value_lt(w, v)) || (!is_min && value_lt(
                    v,
                    w,
                ))) {
                    m as int
                } else {
                    before
                }
            },
        }
    }
}

proof fn lemma_order(t: DataType, u: ValueView, v: ValueView, w: ValueView)
    requires
        u.data_type() == Some(t),
        v.data_type() == Some(t),
        w.data_type() == Some(t),
        ordered(u),
        ordered(v),
        ordered(w),
    ensures
        value_lt(u, v) && !value_lt(w, v) ==> value_lt(u, w),
        value_lt(v, u) && !value_lt(v, w) ==> value_lt(w, u),
        value_lt(u, w) ==> !value_lt(w, u),
        value_lt(w, u) ==> !value_lt(u, w),
        !value_lt(u, u),
{
    match (u, v, w) {
        (ValueView::Utf8(x), ValueView::Utf8(y), ValueView::Utf8(z)) => {
            text_order(x, y, z);
            text_order(x, z, y);
            text_order(z, y, x);
            text_order(z, x, y);
            text_order(y, x, z);
            text_order(y, z, x);
            text_order(x, x, x);
            text_order(x, z, x);
        },
        _ => {},
    }
}

/// `MIN` gives a value of the column that none of the column's values is less
/// than, and `MAX` one that none is greater than; of values that tie, the
/// first. Nulls are passed over, and over nothing but nulls both are null.
pub proof fn extremes_are_the_least_and_greatest(
    is_min: bool,
    t: DataType,
    values: Seq<ValueView>,
)
    requires
        forall|i: int|
            0 <= i < values.len() ==> (#[trigger] values[i]).fits(t) && ordered(values[i]),
    ensures
        ({
            let kind = if is_min {
                AggregateKind::Min
            } else {
                AggregateKind::Max
            };
            match aggregate_of(kind, t, false, values) {
                Err(k) => false,
                Ok(ValueView::Null) => all_null(values),
                Ok(v) => exists|at: int|
                    {
                        &&& 0 <= at < values.len()
                        &&& #[trigger] values[at] == v
                        &&& forall|i: int|
                            0 <= i < values.len() && #[trigger] values[i] != ValueView::Null
                                ==> if is_min {
                                !value_lt(values[i], v)
                            } else {
                                !value_lt(v, values[i])
                            }
                        &&& forall|i: int|
                            0 <= i < at && #[trigger] values[i] != ValueView::Null ==> if is_min {
                                value_lt(v, values[i])
                            } else {
                                value_lt(values[i], v)
                            }
                    },
            }
        }),
{
    let a = ArrayView { data_type: t, values };
    let at = lemma_extreme_is_one(is_min, t, a, values.len());
    if extreme(is_min, None, a, values.len()) is Some {
        assert(values[at] == extreme(is_min, None, a, values.len())->Some_0.1);
    }
}

proof fn lemma_sums_agree(values: Seq<ValueView>)
    requires
        forall|i: int| 0 <= i < values.len() ==> (#[trigger] values[i]).fits(DataType::Float64),
    ensures
        sum_values(ValueView::Float64(Float64 { bits: 0 }), values) == Ok::<ValueView, ErrorKind>(
            ValueView::Float64(sum_floats(Float64 { bits: 0 }, values)),
        ),
    decreases values.len(),
{
    if values.len() > 0 {
        let rest = values.drop_last();
        assert forall|i: int| 0 <= i < rest.len() implies (#[trigger] rest[i]).fits(
            DataType::Float64,
        ) by {
            assert(rest[i] == values[i]);
        }
        lemma_sums_agree(rest);
        assert(values.last() == values[values.len() - 1]);
    }
}

/// `AVG` is the `SUM` over the `COUNT`, and null where there is nothing to
/// count.
pub proof fn averages_are_sums_over_counts(values: Seq<ValueView>)
    requires
        values.len() <= i64::MAX,
        forall|i: int| 0 <= i < values.len() ==> (#[trigger] values[i]).fits(DataType::Float64),
    ensures
        ({
            let t = DataType::Float64;
            let avg = aggregate_of(AggregateKind::Avg, t, false, values);
            match (
                aggregate_of(AggregateKind::Sum, t, false, values),
                aggregate_of(AggregateKind::Count, t, false, values),
            ) {
                (Ok(ValueView::Null), Ok(ValueView::Int64(n))) => n == 0 && avg == Ok::<
                    ValueView,
                    ErrorKind,
                >(ValueView::Null),
                (Ok(ValueView::Float64(x)), Ok(ValueView::Int64(n))) => n > 0 && avg == Ok::<
                    ValueView,
                    ErrorKind,
                >(ValueView::Float64(x.spec_div(Float64::spec_from_int(n as int)))),
                _ => false,
            }
        }),
{
    lemma_sums_agree(values);
    lemma_none_present(values);
}

/// Integers as doubles, nulls as they are.
pub open spec fn as_doubles(values: Seq<ValueView>) -> Seq<ValueView> {
    Seq::new(
        values.len(),
        |i: int|
            match values[i] {
                ValueView::Int64(n) => ValueView::Float64(Float64::spec_from_int(n as int)),
                v => v,
            },
    )
}

proof fn lemma_doubles(start: Float64, values: Seq<ValueView>)
    ensures
        sum_floats(start, values) == sum_floats(start, as_doubles(values)),
        count_present(values) == count_present(as_doubles(values)),
    decreases values.len(),
{
    if values.len() > 0 {
        lemma_doubles(start, values.drop_last());
        assert(as_doubles(values).drop_last() =~= as_doubles(values.drop_last()));
    }
}

/// `AVG` of integers is the `AVG` of the doubles that they are.
pub proof fn averages_of_integers_are_doubles(values: Seq<ValueView>)
    ensures
        aggregate_of(AggregateKind::Avg, DataType::Int64, false, values) == aggregate_of(
            AggregateKind::Avg,
            DataType::Float64,
            false,
            as_doubles(values),
        ),
{
    lemma_doubles(Float64 { bits: 0 }, values);
}

proof fn lemma_sum_splits(start: ValueView, a: Seq<ValueView>, b: Seq<ValueView>)
    ensures
        sum_values(start, a + b) == (match sum_values(start, a) {
            Ok(s) => sum_values(s, b),
            Err(k) => Err(k),
        }),
    decreases b.len(),
{
    if b.len() == 0 {
        assert(a + b =~= a);
    } else {
        lemma_sum_splits(start, a, b.drop_last());
        assert((a + b).drop_last() =~= a + b.drop_last());
    }
}

proof fn lemma_count_splits(a: Seq<ValueView>, b: Seq<ValueView>)
    ensures
        count_present(a + b) == count_present(a) + count_present(b),
    decreases b.len(),
{
    if b.len() == 0 {
        assert(a + b =~= a);
    } else {
        lemma_count_splits(a, b.drop_last());
        assert((a + b).drop_last() =~= a + b.drop_last());
    }
}

proof fn lemma_floats_split(start: Float64, a: Seq<ValueView>, b: Seq<ValueView>)
    ensures
        sum_floats(start, a + b) == sum_floats(sum_floats(start, a), b),
    decreases b.len(),
{
    if b.len() == 0 {
        assert(a + b =~= a);
    } else {
        lemma_floats_split(start, a, b.drop_last());
        assert((a + b).drop_last() =~= a + b.drop_last());
    }
}

proof fn lemma_extreme_of_whole(
    is_min: bool,
    current: Option<(DataType, ValueView)>,
    t: DataType,
    a: Seq<ValueView>,
    b: Seq<ValueView>,
    n: nat,
)
    requires
        n <= b.len(),
    ensures
        ({
            let whole = ArrayView { data_type: t, values: a + b };
            let first = ArrayView { data_type: t, values: a };
            let second = ArrayView { data_type: t, values: b };
            extreme(is_min, current, whole, a.len() + n) == extreme(
                is_min,
                extreme(is_min, current, first, a.len()),
                second,
                n,
            )
        }),
    decreases n,
{
    let whole = ArrayView { data_type: t, values: a + b };
    if n == 0 {
        lemma_extreme_of_first(is_min, current, t, a, b, a.len());
    } else {
        lemma_extreme_of_whole(is_min, current, t, a, b, (n - 1) as nat);
        assert(whole.values[a.len() + n - 1] == b[n - 1]);
    }
}

proof fn lemma_extreme_of_first(
    is_min: bool,
    current: Option<(DataType, ValueView)>,
    t: DataType,
    a: Seq<ValueView>,
    b: Seq<ValueView>,
    n: nat,
)
    requires
        n <= a.len(),
    ensures
        extreme(is_min, current, ArrayView { data_type: t, values: a + b }, n) == extreme(
            is_min,
            current,
            ArrayView { data_type: t, values: a },
            n,
        ),
    decreases n,
{
    if n > 0 {
        lemma_extreme_of_first(is_min, current, t, a, b, (n - 1) as nat);
        assert((a + b)[n - 1] == a[n - 1]);
    }
}

/// Columns come in parts: an accumulator that takes in one part and then
/// another ends as it would have with both as one column.
pub proof fn columns_may_come_in_parts(
    s: AccumulatorView,
    t: DataType,
    a: Seq<ValueView>,
    b: Seq<ValueView>,
)
    ensures
        accumulate(s, ArrayView { data_type: t, values: a + b }) == (match accumulate(
            s,
            ArrayView { data_type: t, values: a },
        ) {
            Ok(x) => accumulate(x, ArrayView { data_type: t, values: b }),
            Err(k) => Err(k),
        }),
{
    lemma_count_splits(a, b);
    match s {
        AccumulatorView::Sum { data_type, sum, has_value } => {
            lemma_sum_splits(sum, a, b);
        },
        AccumulatorView::Count { count, star } => {
            lemma_none_present(a);
            lemma_none_present(b);
        },
        AccumulatorView::MinMax { data_type, current, is_min } => {
            lemma_extreme_of_whole(is_min, current, t, a, b, b.len());
            assert((a + b).len() == a.len() + b.len());
        },
        AccumulatorView::Avg { sum, count } => {
            lemma_floats_split(sum, a, b);
        },
    }
}

/// The first values of a column.
pub open spec fn beginning(a: ArrayView, n: int) -> ArrayView {
    ArrayView { data_type: a.data_type, values: a.values.take(n) }
}

proof fn lemma_as_far_as(s: AccumulatorView, a: ArrayView, n: nat)
    requires
        n <= a.values.len(),
        accumulate(s, beginning(a, n as int)) is Err,
    ensures
        (as_far_as(s, a, n) == s && accumulate(s, beginning(a, 0)) is Err) || exists|m: int|
            0 <= m < n && #[trigger] accumulate(s, beginning(a, m)) == Ok::<
                AccumulatorView,
                ErrorKind,
            >(as_far_as(s, a, n)) && accumulate(s, beginning(a, m + 1)) is Err,
    decreases n,
{
    if n > 0 {
        let m = n - 1;
        match accumulate(s, beginning(a, m)) {
            Ok(t) => {
                assert(as_far_as(s, a, m as nat) == t);
                assert(accumulate(s, beginning(a, m)) == Ok::<AccumulatorView, ErrorKind>(
                    as_far_as(s, a, n),
                ));
            },
            Err(_) => {
                lemma_as_far_as(s, a, m as nat);
                assert(as_far_as(s, a, n) == as_far_as(s, a, m as nat));
            },
        }
    }
}

/// Where a column cannot be taken in whole, what came before the value that
/// could not be taken in stays: the state is the one after as many values as
/// could be, and one more could not. Where not even a column without values can
/// be taken in, and where rows are counted, the state stays as it was.
pub proof fn what_came_before_a_failure_stays(s: AccumulatorView, a: ArrayView)
    requires
        accumulate(s, a) is Err,
    ensures
        s is Count && s->star ==> left_by_failure(s, a) == s,
        !(s is Count && s->star) && accumulate(s, beginning(a, 0)) is Ok ==> exists|m: int|
            0 <= m < a.values.len() && #[trigger] accumulate(s, beginning(a, m)) == Ok::<
                AccumulatorView,
                ErrorKind,
            >(left_by_failure(s, a)) && accumulate(s, beginning(a, m + 1)) is Err,
        !(s is Count && s->star) && a.values.len() == 0 ==> left_by_failure(s, a) == s,
{
    assert(beginning(a, a.values.len() as int).values =~= a.values);
    if !(s is Count && s->star) {
        lemma_as_far_as(s, a, a.values.len());
    }
}

proof fn lemma_counts_as_far_as(start: int, values: Seq<ValueView>, n: nat)
    requires
        n <= values.len(),
        sum_counts(start, values.take(n as int)) is Err,
    ensures
        exists|m: int|
            0 <= m < n && #[trigger] sum_counts(start, values.take(m)) == Ok::<int, ErrorKind>(
                counts_as_far_as(start, values, n),
            ) && sum_counts(start, values.take(m + 1)) is Err,
    decreases n,
{
    let none: Seq<ValueView> = seq![];
    assert(values.take(0) =~= none);
    let m = n - 1;
    match sum_counts(start, values.take(m)) {
        Ok(t) => {
            assert(counts_as_far_as(start, values, m as nat) == t);
            assert(sum_counts(start, values.take(m)) == Ok::<int, ErrorKind>(
                counts_as_far_as(start, values, n),
            ));
        },
        Err(_) => {
            lemma_counts_as_far_as(start, values, m as nat);
            assert(counts_as_far_as(start, values, n) == counts_as_far_as(start, values, m as nat));
        },
    }
}

/// Where counts cannot be merged, those before the one that was too many stay
/// in; an average stays as it was, and so does a count of what are no integers.
pub proof fn what_was_merged_before_a_failure_stays(
    s: AccumulatorView,
    states: Seq<ArrayView>,
)
    requires
        merge_states(s, states) is Err,
        s is Count || s is Avg,
    ensures
        s is Avg ==> left_by_failed_merge(s, states) == s,
        s is Count && states[0].data_type != DataType::Int64 ==> left_by_failed_merge(s, states) == s,
        s is Count && states[0].data_type == DataType::Int64 ==> exists|m: int|
            0 <= m < states[0].values.len() && ({
                let done = #[trigger] sum_counts(s->Count_count as int, states[0].values.take(m));
                &&& done is Ok
                &&& left_by_failed_merge(s, states) == (AccumulatorView::Count {
                    count: done->Ok_0 as i64,
                    star: s->star,
                })
                &&& sum_counts(s->Count_count as int, states[0].values.take(m + 1)) is Err
            }),
{
    if s is Count && states[0].data_type == DataType::Int64 {
        let v = states[0].values;
        assert(v.take(v.len() as int) =~= v);
        lemma_counts_as_far_as(s->Count_count as int, v, v.len());
    }
}

/// Of values that tie the first one stays the least or the greatest, and a null
/// changes nothing.
pub proof fn the_first_of_equal_values_stays(
    is_min: bool,
    current: Option<(DataType, ValueView)>,
    a: ArrayView,
    v: ValueView,
)
    ensures
        ({
            let n = a.values.len();
            let more = ArrayView { data_type: a.data_type, values: a.values.push(v) };
            let before = extreme(is_min, current, a, n);
            &&& v == ValueView::Null ==> extreme(is_min, current, more, n + 1) == before
            &&& before matches Some((t, b)) ==> (!value_lt(v, b) && !value_lt(b, v) ==> extreme(
                is_min,
                current,
                more,
                n + 1,
            ) == before)
        }),
{
    let more = ArrayView { data_type: a.data_type, values: a.values.push(v) };
    lemma_extreme_prefix(is_min, current, a, more, a.values.len());
    assert(more.values[a.values.len() as int] == v);
}

proof fn lemma_extreme_prefix(
    is_min: bool,
    current: Option<(DataType, ValueView)>,
    a: ArrayView,
    b: ArrayView,
    n: nat,
)
    requires
        a.data_type == b.data_type,
        forall|i: int| 0 <= i < n ==> (#[trigger] a.values[i]) == b.values[i],
    ensures
        extreme(is_min, current, a, n) == extreme(is_min, current, b, n),
    decreases n,
{
    if n > 0 {
        lemma_extreme_prefix(is_min, current, a, b, (n - 1) as nat);
        assert(a.values[n - 1] == b.values[n - 1]);
    }
}

} // verus!
