//! Aggregating in two phases: partial states from parts of the input, merged,
//! against one accumulator that saw all of it.

use vstd::prelude::*;

use crate::array::ArrayView;
use crate::error::ErrorKind;
use crate::float64::Float64;
use crate::logical_plan::plan::AggregateKind;
use crate::physical_plan::aggregate::accumulator::{
    accumulate, aggregate_output, count_present, extreme, fresh, merge_states, partial_state,
    sum_counts, sum_floats, sum_values, AccumulatorFactory, AccumulatorView,
};
use crate::text::text_order;

use crate::types::data_type::DataType;
use crate::types::value::{value_lt, ValueView};

verus! {

/// The columns that carry two partial states to a merge, one for each part of
/// a state.
pub open spec fn carried(s: AccumulatorView, t: AccumulatorView) -> Seq<ArrayView> {
    let x = partial_state(s)->Ok_0;
    let y = partial_state(t)->Ok_0;
    Seq::new(
        x.len(),
        |i: int| (ArrayView { data_type: x[i].0, values: seq![x[i].1, y[i].1] }),
    )
}

/// The sum of the integers among the values.
pub open spec fn int_total(values: Seq<ValueView>) -> int
    decreases values.len(),
{
    if values.len() == 0 {
        0
    } else {
        int_total(values.drop_last()) + match values.last() {
            ValueView::Int64(n) => n as int,
            _ => 0,
        }
    }
}

proof fn lemma_count_bounds(values: Seq<ValueView>)
    ensures
        count_present(values) <= values.len(),
    decreases values.len(),
{
    if values.len() > 0 {
        lemma_count_bounds(values.drop_last());
    }
}

/// `COUNT` in two phases counts what it counts in one; both overflow together.
pub proof fn counts_merge(star: bool, a: ArrayView, b: ArrayView)
    ensures
        ({
            let none = AccumulatorView::Count { count: 0, star };
            match (accumulate(none, a), accumulate(none, b)) {
                (Ok(s), Ok(t)) => merge_states(none, carried(s, t)) == accumulate(s, b),
                _ => true,
            }
        }),
{
    let none = AccumulatorView::Count { count: 0, star };
    lemma_count_bounds(a.values);
    lemma_count_bounds(b.values);
    if let (Ok(s), Ok(t)) = (accumulate(none, a), accumulate(none, b)) {
        let x = ValueView::Int64(s->Count_count);
        let y = ValueView::Int64(t->Count_count);
        let pair = seq![x, y];
        assert(carried(s, t)[0].values == pair);
        assert(pair.drop_last() =~= seq![x]);
        assert(seq![x].drop_last() =~= seq![]);
        reveal_with_fuel(sum_counts, 3);
    }
}

proof fn lemma_sum_total(start: i64, values: Seq<ValueView>)
    requires
        forall|i: int|
            0 <= i < values.len() ==> (#[trigger] values[i]) is Int64 || values[i] is Null,
    ensures
        sum_values(ValueView::Int64(start), values) matches Ok(v) ==> v is Int64 && v->Int64_0
            == start + int_total(values),
        count_present(values) == 0 ==> int_total(values) == 0,
    decreases values.len(),
{
    if values.len() > 0 {
        let rest = values.drop_last();
        assert forall|i: int| 0 <= i < rest.len() implies (#[trigger] rest[i]) is Int64
            || rest[i] is Null by {
            assert(rest[i] == values[i]);
        }
        lemma_sum_total(start, rest);
        assert(values.last() == values[values.len() - 1]);
    }
}

/// Where `SUM` over integers overflows neither in two phases nor in one, both
/// give the same state.
pub proof fn integer_sums_merge(a: ArrayView, b: ArrayView)
    requires
        a.wf(),
        b.wf(),
        a.data_type == DataType::Int64,
        b.data_type == DataType::Int64,
    ensures
        ({
            let none = fresh(
                AccumulatorFactory {
                    kind: AggregateKind::Sum,
                    data_type: DataType::Int64,
                    is_star: false,
                },
            );
            match (accumulate(none, a), accumulate(none, b)) {
                (Ok(s), Ok(t)) => match (merge_states(none, carried(s, t)), accumulate(s, b)) {
                    (Ok(two), Ok(one)) => two == one,
                    _ => true,
                },
                _ => true,
            }
        }),
{
    let none = fresh(
        AccumulatorFactory {
            kind: AggregateKind::Sum,
            data_type: DataType::Int64,
            is_star: false,
        },
    );
    if let (Ok(s), Ok(t)) = (accumulate(none, a), accumulate(none, b)) {
        let x = aggregate_output(s)->Ok_0.1;
        let y = aggregate_output(t)->Ok_0.1;
        let pair = seq![x, y];
        lemma_sum_total(0, a.values);
        lemma_sum_total(0, b.values);
        lemma_sum_total(s->Sum_sum->Int64_0, b.values);
        assert(carried(s, t)[0].values == pair);
        lemma_sum_total(0, pair);
        assert(pair.drop_last() =~= seq![x]);
        assert(seq![x].drop_last() =~= seq![]);
        reveal_with_fuel(int_total, 3);
        reveal_with_fuel(count_present, 3);
    }
}

/// Whether a value takes part in an order: everything but the doubles that are
/// not numbers.
pub open spec fn ordered(v: ValueView) -> bool {
    v matches ValueView::Float64(x) ==> !x.is_nan()
}

/// Whether one value beats another as the least or greatest.
spec fn beats(is_min: bool, v: ValueView, w: ValueView) -> bool {
    if is_min {
        value_lt(v, w)
    } else {
        value_lt(w, v)
    }
}

proof fn lemma_beats(is_min: bool, t: DataType, u: ValueView, v: ValueView, w: ValueView)
    requires
        u.data_type() == Some(t),
        v.data_type() == Some(t),
        w.data_type() == Some(t),
        ordered(u),
        ordered(v),
        ordered(w),
    ensures
        beats(is_min, u, v) && beats(is_min, v, w) ==> beats(is_min, u, w),
        !beats(is_min, u, v) && !beats(is_min, v, w) ==> !beats(is_min, u, w),
{
    match (u, v, w) {
        (ValueView::Utf8(x), ValueView::Utf8(y), ValueView::Utf8(z)) => {
            text_order(x, y, z);
            text_order(x, z, y);
            text_order(z, y, x);
            text_order(z, x, y);
            text_order(y, x, z);
            text_order(y, z, x);
        },
        _ => {},
    }
}

/// The better of two candidates; the first where they tie.
spec fn better(
    is_min: bool,
    x: Option<(DataType, ValueView)>,
    y: Option<(DataType, ValueView)>,
) -> Option<(DataType, ValueView)> {
    match (x, y) {
        (None, _) => y,
        (_, None) => x,
        (Some(p), Some(q)) => if beats(is_min, q.1, p.1) {
            y
        } else {
            x
        },
    }
}

proof fn lemma_extreme_of_type(is_min: bool, a: ArrayView, n: nat)
    requires
        a.wf(),
        n <= a.values.len(),
        forall|i: int| 0 <= i < a.values.len() ==> ordered(#[trigger] a.values[i]),
    ensures
        extreme(is_min, None, a, n) matches Some((t, v)) ==> t == a.data_type && v.data_type()
            == Some(t) && ordered(v) && v != ValueView::Null,
    decreases n,
{
    if n > 0 {
        lemma_extreme_of_type(is_min, a, (n - 1) as nat);
        assert(ordered(a.values[n - 1]));
    }
}

proof fn lemma_extreme_splits(
    is_min: bool,
    current: Option<(DataType, ValueView)>,
    a: ArrayView,
    n: nat,
)
    requires
        a.wf(),
        n <= a.values.len(),
        forall|i: int| 0 <= i < a.values.len() ==> ordered(#[trigger] a.values[i]),
        current matches Some((t, v)) ==> t == a.data_type && v.data_type() == Some(t) && ordered(v),
    ensures
        extreme(is_min, current, a, n) == better(is_min, current, extreme(is_min, None, a, n)),
    decreases n,
{
    if n > 0 {
        let m = (n - 1) as nat;
        lemma_extreme_splits(is_min, current, a, m);
        lemma_extreme_of_type(is_min, a, m);
        let v = a.values[n - 1];
        assert(ordered(v));
        if v != ValueView::Null {
            if let (Some(x), Some(y)) = (current, extreme(is_min, None, a, m)) {
                lemma_beats(is_min, a.data_type, v, y.1, x.1);
                lemma_beats(is_min, a.data_type, y.1, v, x.1);
            }
        }
    }
}

/// `MIN` and `MAX` in two phases give what they give in one, unless the values
/// hold a double that is not a number.
pub proof fn extremes_merge(is_min: bool, a: ArrayView, b: ArrayView)
    requires
        a.wf(),
        b.wf(),
        a.data_type == b.data_type,
        forall|i: int| 0 <= i < a.values.len() ==> ordered(#[trigger] a.values[i]),
        forall|i: int| 0 <= i < b.values.len() ==> ordered(#[trigger] b.values[i]),
    ensures
        ({
            let none = AccumulatorView::MinMax { data_type: a.data_type, current: None, is_min };
            let s = accumulate(none, a)->Ok_0;
            let t = accumulate(none, b)->Ok_0;
            &&& accumulate(none, a) is Ok
            &&& accumulate(none, b) is Ok
            &&& merge_states(none, carried(s, t)) == accumulate(s, b)
        }),
{
    let none = AccumulatorView::MinMax { data_type: a.data_type, current: None, is_min };
    let s = accumulate(none, a)->Ok_0;
    let t = accumulate(none, b)->Ok_0;
    lemma_extreme_of_type(is_min, a, a.values.len());
    lemma_extreme_of_type(is_min, b, b.values.len());
    lemma_extreme_splits(is_min, s->MinMax_current, b, b.values.len());
    let x = aggregate_output(s)->Ok_0.1;
    let y = aggregate_output(t)->Ok_0.1;
    let c = carried(s, t)[0];
    assert(c.values == seq![x, y]);
    reveal_with_fuel(extreme, 3);
}

/// `AVG` in two phases divides by the count it divides by in one, and by the
/// sum of its partial sums.
pub proof fn averages_merge(a: ArrayView, b: ArrayView)
    ensures
        ({
            let none = AccumulatorView::Avg { sum: Float64 { bits: 0 }, count: 0 };
            match (accumulate(none, a), accumulate(none, b)) {
                (Ok(s), Ok(t)) => match (merge_states(none, carried(s, t)), accumulate(s, b)) {
                    (Ok(two), Ok(one)) => two->Avg_count == one->Avg_count && two->Avg_sum == (
                    Float64 { bits: 0 }).spec_add(s->Avg_sum).spec_add(t->Avg_sum),
                    (Err(j), Err(k)) => j == ErrorKind::NumericOverflow && k
                        == ErrorKind::NumericOverflow,
                    _ => false,
                },
                _ => true,
            }
        }),
{
    let none = AccumulatorView::Avg { sum: Float64 { bits: 0 }, count: 0 };
    if let (Ok(s), Ok(t)) = (accumulate(none, a), accumulate(none, b)) {
        let counts = seq![ValueView::Int64(s->Avg_count), ValueView::Int64(t->Avg_count)];
        let sums = seq![ValueView::Float64(s->Avg_sum), ValueView::Float64(t->Avg_sum)];
        let c = carried(s, t);
        assert(c[0].values == sums);
        assert(c[1].values == counts);
        assert(counts.drop_last() =~= seq![counts[0]]);
        assert(seq![counts[0]].drop_last() =~= seq![]);
        assert(sums.drop_last() =~= seq![sums[0]]);
        assert(seq![sums[0]].drop_last() =~= seq![]);
        reveal_with_fuel(sum_counts, 3);
        reveal_with_fuel(sum_floats, 3);
    }
}

} // verus!
