//! Accumulators fold columns into running aggregate state.
//!
//! Aggregates pass over nulls: `SUM`, `MIN`, `MAX` and `AVG` of nothing but
//! nulls are null. `COUNT(*)` counts rows and `COUNT(expr)` the values that
//! are not null. `state` and `merge_batch` carry partial results from one
//! accumulator to another; the state of `AVG` is richer than its output,
//! because averages cannot be averaged.

use vstd::prelude::*;

use crate::array::{ArrayRef, ArrayView};
use crate::batch::array_views;
use crate::error::{BasaltError, ErrorKind};
use crate::float64::Float64;
use crate::logical_plan::plan::AggregateKind;
use crate::scalar::ScalarValue;
use crate::types::coercion::BinaryOp;
use crate::types::data_type::DataType;
use crate::types::value::{arith_values, value_lt, Value, ValueView};

verus! {

/// The model of an accumulator's state.
#[allow(inconsistent_fields)]
pub enum AccumulatorView {
    /// The sum so far, and whether anything was added to it.
    Sum { data_type: DataType, sum: ValueView, has_value: bool },
    Count { count: i64, star: bool },
    /// The least or greatest value so far with its type, if any.
    MinMax { data_type: DataType, current: Option<(DataType, ValueView)>, is_min: bool },
    Avg { sum: Float64, count: i64 },
}

/// A sum after some more values: nulls are passed over.
pub open spec fn sum_values(sum: ValueView, values: Seq<ValueView>) -> Result<ValueView, ErrorKind>
    decreases values.len(),
{
    if values.len() == 0 {
        Ok(sum)
    } else {
        match sum_values(sum, values.drop_last()) {
            Err(k) => Err(k),
            Ok(s) => if values.last() == ValueView::Null {
                Ok(s)
            } else {
                arith_values(BinaryOp::Add, s, values.last())
            },
        }
    }
}

/// The number of values that are not null.
pub open spec fn count_present(values: Seq<ValueView>) -> nat
    decreases values.len(),
{
    if values.len() == 0 {
        0
    } else {
        count_present(values.drop_last()) + if values.last() == ValueView::Null {
            0nat
        } else {
            1nat
        }
    }
}

/// The sum of the integers among the values, after `start`; running out of the
/// range of `i64` on the way is an overflow.
pub open spec fn sum_counts(start: int, values: Seq<ValueView>) -> Result<int, ErrorKind>
    decreases values.len(),
{
    if values.len() == 0 {
        Ok(start)
    } else {
        match sum_counts(start, values.drop_last()) {
            Err(k) => Err(k),
            Ok(s) => match values.last() {
                ValueView::Int64(n) => if i64::MIN <= s + n <= i64::MAX {
                    Ok(s + n)
                } else {
                    Err(ErrorKind::NumericOverflow)
                },
                _ => Ok(s),
            },
        }
    }
}

/// The least or greatest of `current` and the values; of values that tie, the
/// first.
pub open spec fn extreme(
    is_min: bool,
    current: Option<(DataType, ValueView)>,
    a: ArrayView,
    n: nat,
) -> Option<(DataType, ValueView)>
    decreases n,
{
    if n == 0 {
        current
    } else {
        let best = extreme(is_min, current, a, (n - 1) as nat);
        let v = a.values[n - 1];
        if v == ValueView::Null {
            best
        } else {
            match best {
                None => Some((a.data_type, v)),
                Some((t, b)) => if (is_min && value_lt(v, b)) || (!is_min && value_lt(b, v)) {
                    Some((a.data_type, v))
                } else {
                    best
                },
            }
        }
    }
}

/// The sum of numbers as doubles, after `start`.
pub open spec fn sum_floats(start: Float64, values: Seq<ValueView>) -> Float64
    decreases values.len(),
{
    if values.len() == 0 {
        start
    } else {
        let s = sum_floats(start, values.drop_last());
        match values.last() {
            ValueView::Int64(n) => s.spec_add(Float64::spec_from_int(n as int)),
            ValueView::Float64(x) => s.spec_add(x),
            _ => s,
        }
    }
}

/// The state after folding in a column.
pub open spec fn accumulate(s: AccumulatorView, a: ArrayView) -> Result<AccumulatorView, ErrorKind> {
    match s {
        AccumulatorView::Sum { data_type, sum, has_value } => if !data_type.spec_is_numeric()
            || a.data_type != data_type {
            Err(ErrorKind::Type)
        } else {
            match sum_values(sum, a.values) {
                Err(k) => Err(k),
                Ok(t) => Ok(
                    AccumulatorView::Sum {
                        data_type,
                        sum: t,
                        has_value: has_value || count_present(a.values) > 0,
                    },
                ),
            }
        },
        AccumulatorView::Count { count, star } => {
            let n = count + if star {
                a.values.len() as int
            } else {
                count_present(a.values) as int
            };
            if n <= i64::MAX {
                Ok(AccumulatorView::Count { count: n as i64, star })
            } else {
                Err(ErrorKind::NumericOverflow)
            }
        },
        AccumulatorView::MinMax { data_type, current, is_min } => Ok(
            AccumulatorView::MinMax {
                data_type,
                current: extreme(is_min, current, a, a.values.len()),
                is_min,
            },
        ),
        AccumulatorView::Avg { sum, count } => if !a.data_type.spec_is_numeric() {
            Err(ErrorKind::Type)
        } else if count + count_present(a.values) > i64::MAX {
            Err(ErrorKind::NumericOverflow)
        } else {
            Ok(
                AccumulatorView::Avg {
                    sum: sum_floats(sum, a.values),
                    count: (count + count_present(a.values)) as i64,
                },
            )
        },
    }
}

/// The state after merging partial states: for `AVG` a column of sums and one
/// of counts, for the others one column of outputs.
pub open spec fn merge_states(s: AccumulatorView, states: Seq<ArrayView>) -> Result<
    AccumulatorView,
    ErrorKind,
> {
    match s {
        AccumulatorView::Count { count, star } => if states[0].data_type != DataType::Int64 {
            Err(ErrorKind::Type)
        } else {
            match sum_counts(count as int, states[0].values) {
                Err(k) => Err(k),
                Ok(n) => Ok(AccumulatorView::Count { count: n as i64, star }),
            }
        },
        AccumulatorView::Avg { sum, count } => if states[0].data_type != DataType::Float64
            || states[1].data_type != DataType::Int64 {
            Err(ErrorKind::Type)
        } else {
            match sum_counts(count as int, states[1].values) {
                Err(k) => Err(k),
                Ok(n) => Ok(
                    AccumulatorView::Avg {
                        sum: sum_floats(sum, states[0].values),
                        count: n as i64,
                    },
                ),
            }
        },
        _ => accumulate(s, states[0]),
    }
}

/// The first values of a column.
pub open spec fn first_values(a: ArrayView, n: nat) -> ArrayView {
    ArrayView { data_type: a.data_type, values: a.values.take(n as int) }
}

/// The state after as many of the first `n` values of a column as can be folded
/// in; of a column that none can be, the state itself.
pub open spec fn as_far_as(s: AccumulatorView, a: ArrayView, n: nat) -> AccumulatorView
    decreases n,
{
    match accumulate(s, first_values(a, n)) {
        Ok(t) => t,
        Err(_) => if n == 0 {
            s
        } else {
            as_far_as(s, a, (n - 1) as nat)
        },
    }
}

/// The state that is left when a column cannot be folded in whole: the values
/// before the one that overflowed stay in. Rows are counted all at once.
pub open spec fn left_by_failure(s: AccumulatorView, a: ArrayView) -> AccumulatorView {
    if s is Count && s->star {
        s
    } else {
        as_far_as(s, a, a.values.len())
    }
}

/// `start` and as many of the first `n` integers as can be added to it.
pub open spec fn counts_as_far_as(start: int, values: Seq<ValueView>, n: nat) -> int
    decreases n,
{
    match sum_counts(start, values.take(n as int)) {
        Ok(t) => t,
        Err(_) => if n == 0 {
            start
        } else {
            counts_as_far_as(start, values, (n - 1) as nat)
        },
    }
}

/// The state that is left when partial states cannot be merged: of counts,
/// those before the one that overflowed stay in. The state of `AVG` stays as
/// it was.
pub open spec fn left_by_failed_merge(
    s: AccumulatorView,
    states: Seq<ArrayView>,
) -> AccumulatorView {
    match s {
        AccumulatorView::Count { count, star } => if states[0].data_type != DataType::Int64 {
            s
        } else {
            AccumulatorView::Count {
                count: counts_as_far_as(
                    count as int,
                    states[0].values,
                    states[0].values.len(),
                ) as i64,
                star,
            }
        },
        AccumulatorView::Avg { sum, count } => s,
        _ => left_by_failure(s, states[0]),
    }
}

/// The output of a state, with its type.
pub open spec fn aggregate_output(s: AccumulatorView) -> Result<(DataType, ValueView), ErrorKind> {
    match s {
        AccumulatorView::Sum { data_type, sum, has_value } => if !data_type.spec_is_numeric() {
            Err(ErrorKind::Type)
        } else if has_value {
            Ok((data_type, sum))
        } else {
            Ok((data_type, ValueView::Null))
        },
        AccumulatorView::Count { count, star } => Ok((DataType::Int64, ValueView::Int64(count))),
        AccumulatorView::MinMax { data_type, current, is_min } => match current {
            Some((t, v)) => Ok((t, v)),
            None => Ok((data_type, ValueView::Null)),
        },
        AccumulatorView::Avg { sum, count } => if count == 0 {
            Ok((DataType::Float64, ValueView::Null))
        } else {
            Ok(
                (
                    DataType::Float64,
                    ValueView::Float64(sum.spec_div(Float64::spec_from_int(count as int))),
                ),
            )
        },
    }
}

/// The partial state that another accumulator can merge, with its types.
pub open spec fn partial_state(s: AccumulatorView) -> Result<
    Seq<(DataType, ValueView)>,
    ErrorKind,
> {
    match s {
        AccumulatorView::Avg { sum, count } => Ok(
            seq![
                (DataType::Float64, ValueView::Float64(sum)),
                (DataType::Int64, ValueView::Int64(count)),
            ],
        ),
        _ => match aggregate_output(s) {
            Ok(x) => Ok(seq![x]),
            Err(k) => Err(k),
        },
    }
}

/// The zero of a numeric type.
pub open spec fn zero_of(t: DataType) -> ValueView {
    if t == DataType::Float64 {
        ValueView::Float64(Float64 { bits: 0 })
    } else {
        ValueView::Int64(0)
    }
}

// ---------------------------------------------------------------------------

/// `SUM(expr)`. A sum that leaves the range of its type is an error.
#[derive(Debug)]
pub struct SumAccumulator {
    data_type: DataType,
    sum: Value,
    has_value: bool,
}

/// `COUNT(*)` or `COUNT(expr)`; never null, even over no rows.
#[derive(Debug)]
pub struct CountAccumulator {
    count: i64,
    star: bool,
}

/// `MIN(expr)` or `MAX(expr)`.
#[derive(Debug)]
pub struct MinMaxAccumulator {
    data_type: DataType,
    current: Option<ScalarValue>,
    is_min: bool,
}

/// `AVG(expr)`.
#[derive(Debug)]
pub struct AvgAccumulator {
    sum: Float64,
    count: i64,
}

fn null_scalar(data_type: DataType) -> (r: ScalarValue)
    ensures
        r@ == ValueView::Null,
        r.spec_data_type() == data_type,
{
    match data_type {
        DataType::Int64 => ScalarValue::Int64(None),
        DataType::Float64 => ScalarValue::Float64(None),
        DataType::Utf8 => ScalarValue::Utf8(None),
        DataType::Boolean => ScalarValue::Boolean(None),
    }
}

/// The values of a list of scalars with their types.
pub open spec fn typed_values(v: Seq<ScalarValue>) -> Seq<(DataType, ValueView)> {
    Seq::new(v.len(), |i: int| (v[i].spec_data_type(), v[i]@))
}

fn single(s: ScalarValue) -> (r: Vec<ScalarValue>)
    ensures
        r@ == seq![s],
{
    let mut v: Vec<ScalarValue> = Vec::new();
    v.push(s);
    assert(v@ =~= seq![s]);
    v
}

proof fn lemma_sum_fails(sum: ValueView, values: Seq<ValueView>, m: int)
    requires
        0 <= m <= values.len(),
        sum_values(sum, values.take(m)) is Err,
    ensures
        sum_values(sum, values) == sum_values(sum, values.take(m)),
    decreases values.len() - m,
{
    if m < values.len() {
        assert(values.take(m + 1).drop_last() =~= values.take(m));
        lemma_sum_fails(sum, values, m + 1);
    } else {
        assert(values.take(m) =~= values);
    }
}

/// What is left when the value at `i` is the first that cannot be folded in.
proof fn lemma_as_far_as(s: AccumulatorView, a: ArrayView, i: nat, n: nat)
    requires
        i <= n <= a.values.len(),
        accumulate(s, first_values(a, i)) is Ok,
        forall|k: nat| i < k <= n ==> accumulate(s, #[trigger] first_values(a, k)) is Err,
    ensures
        as_far_as(s, a, n) == accumulate(s, first_values(a, i))->Ok_0,
    decreases n,
{
    if i < n {
        assert(accumulate(s, first_values(a, n)) is Err);
        lemma_as_far_as(s, a, i, (n - 1) as nat);
    }
}

/// What is left when nothing can be folded in.
proof fn lemma_as_far_as_none(s: AccumulatorView, a: ArrayView, n: nat)
    requires
        n <= a.values.len(),
        forall|k: nat| k <= n ==> accumulate(s, #[trigger] first_values(a, k)) is Err,
    ensures
        as_far_as(s, a, n) == s,
    decreases n,
{
    assert(accumulate(s, first_values(a, n)) is Err);
    if n > 0 {
        lemma_as_far_as_none(s, a, (n - 1) as nat);
    }
}

proof fn lemma_count_bound(values: Seq<ValueView>, m: int)
    requires
        0 <= m <= values.len(),
    ensures
        count_present(values.take(m)) <= count_present(values),
        count_present(values) <= values.len(),
    decreases values.len() - m,
{
    if m < values.len() {
        assert(values.take(m + 1).drop_last() =~= values.take(m));
        lemma_count_bound(values, m + 1);
    } else {
        assert(values.take(m) =~= values);
        lemma_count_len(values);
    }
}

proof fn lemma_count_len(values: Seq<ValueView>)
    ensures
        count_present(values) <= values.len(),
    decreases values.len(),
{
    if values.len() > 0 {
        lemma_count_len(values.drop_last());
    }
}

impl SumAccumulator {
    #[verifier::type_invariant]
    spec fn inv(self) -> bool {
        self.sum@ != ValueView::Null && (self.data_type.spec_is_numeric() ==> self.sum@.data_type()
            == Some(self.data_type))
    }

    pub closed spec fn view(&self) -> AccumulatorView {
        AccumulatorView::Sum { data_type: self.data_type, sum: self.sum@, has_value: self.has_value }
    }

    pub fn new(data_type: DataType) -> (r: SumAccumulator)
        ensures
            r@ == (AccumulatorView::Sum {
                data_type,
                sum: zero_of(data_type),
                has_value: false,
            }),
    {
        let sum = match data_type {
            DataType::Float64 => Value::Float64(Float64 { bits: 0 }),
            _ => Value::Int64(0),
        };
        SumAccumulator { data_type, sum, has_value: false }
    }

    /// Adds the values of a column.
    ///
    /// # Errors
    /// A type error for a type without sums or a column of another type;
    /// overflow. Values before the one that overflowed stay added.
    pub fn update_batch(&mut self, values: &Vec<ArrayRef>) -> (r: Result<(), BasaltError>)
        requires
            values@.len() > 0,
        ensures
            match r {
                Ok(_) => accumulate(old(self)@, values@[0]@) == Ok::<AccumulatorView, ErrorKind>(
                    final(self)@,
                ),
                Err(e) => accumulate(old(self)@, values@[0]@) == Err::<AccumulatorView, ErrorKind>(
                    e@,
                ) && final(self)@ == left_by_failure(old(self)@, values@[0]@),
            },
    {
        proof {
            use_type_invariant(&*self);
        }
        let array = &values[0];
        if !self.data_type.is_numeric() {
            proof {
                lemma_as_far_as_none(self@, array@, array@.values.len());
            }
            return Err(BasaltError::type_of("SUM does not support ", self.data_type.name()));
        }
        if array.data_type() != self.data_type {
            proof {
                lemma_as_far_as_none(self@, array@, array@.values.len());
            }
            return Err(BasaltError::type_of("SUM got a column of type ", array.data_type().name()));
        }
        let n: usize = array.len();
        let ghost all = array@.values;
        let ghost start = self@;
        let mut i: usize = 0;
        proof {
            assert(all.take(0) =~= seq![]);
        }
        while i < n
            invariant
                i <= n,
                array == values@[0],
                n == array@.values.len(),
                all == array@.values,
                start == old(self)@,
                self.data_type == old(self).data_type,
                self.data_type.spec_is_numeric(),
                self.sum@.data_type() == Some(self.data_type),
                array@.data_type == self.data_type,
                sum_values(old(self).sum@, all.take(i as int)) == Ok::<ValueView, ErrorKind>(
                    self.sum@,
                ),
                self.has_value == (old(self).has_value || count_present(all.take(i as int)) > 0),
            decreases n - i,
        {
            proof {
                assert(all.take(i + 1).drop_last() =~= all.take(i as int));
                assert(all.take(i + 1).last() == all[i as int]);
            }
            let v = array.value(i);
            if !v.is_null() {
                match self.sum.arith(BinaryOp::Add, &v) {
                    Ok(s) => {
                        self.sum = s;
                        self.has_value = true;
                    },
                    Err(e) => {
                        proof {
                            lemma_sum_fails(old(self).sum@, all, i + 1);
                            assert forall|k: nat| i < k <= n implies accumulate(
                                old(self)@,
                                #[trigger] first_values(array@, k),
                            ) is Err by {
                                assert(all.take(k as int).take(i + 1) =~= all.take(i + 1));
                                lemma_sum_fails(old(self).sum@, all.take(k as int), i + 1);
                            }
                            lemma_as_far_as(old(self)@, array@, i as nat, n as nat);
                        }
                        return Err(e);
                    },
                }
            }
            i = i + 1;
        }
        assert(all.take(n as int) =~= all);
        Ok(())
    }

    /// Merging partial sums is adding them.
    pub fn merge_batch(&mut self, states: &Vec<ArrayRef>) -> (r: Result<(), BasaltError>)
        requires
            states@.len() > 0,
        ensures
            match r {
                Ok(_) => accumulate(old(self)@, states@[0]@) == Ok::<AccumulatorView, ErrorKind>(
                    final(self)@,
                ),
                Err(e) => accumulate(old(self)@, states@[0]@) == Err::<AccumulatorView, ErrorKind>(
                    e@,
                ) && final(self)@ == left_by_failure(old(self)@, states@[0]@),
            },
    {
        self.update_batch(states)
    }

    pub fn state(&self) -> (r: Result<Vec<ScalarValue>, BasaltError>)
        ensures
            match r {
                Ok(v) => v@.len() == 1 && aggregate_output(self@) == Ok::<
                    (DataType, ValueView),
                    ErrorKind,
                >((v@[0].spec_data_type(), v@[0]@)),
                Err(e) => aggregate_output(self@) == Err::<(DataType, ValueView), ErrorKind>(e@),
            },
    {
        match self.evaluate() {
            Ok(s) => Ok(single(s)),
            Err(e) => Err(e),
        }
    }

    pub fn evaluate(&self) -> (r: Result<ScalarValue, BasaltError>)
        ensures
            match r {
                Ok(s) => aggregate_output(self@) == Ok::<(DataType, ValueView), ErrorKind>(
                    (s.spec_data_type(), s@),
                ),
                Err(e) => aggregate_output(self@) == Err::<(DataType, ValueView), ErrorKind>(e@),
            },
    {
        proof {
            use_type_invariant(self);
        }
        if !self.data_type.is_numeric() {
            return Err(BasaltError::type_of("SUM does not support ", self.data_type.name()));
        }
        if !self.has_value {
            return Ok(null_scalar(self.data_type));
        }
        match ScalarValue::from_value(self.sum.copy(), self.data_type) {
            Some(s) => Ok(s),
            None => Ok(null_scalar(self.data_type)),
        }
    }

    /// The bytes the accumulator itself takes.
    pub fn size(&self) -> (r: usize)
        ensures
            r == vstd::layout::size_of::<SumAccumulator>(),
    {
        std::mem::size_of::<SumAccumulator>()
    }
}


impl CountAccumulator {
    pub closed spec fn view(&self) -> AccumulatorView {
        AccumulatorView::Count { count: self.count, star: self.star }
    }

    /// `COUNT(*)`.
    pub fn star() -> (r: CountAccumulator)
        ensures
            r@ == (AccumulatorView::Count { count: 0, star: true }),
    {
        CountAccumulator { count: 0, star: true }
    }

    /// `COUNT(expr)`.
    pub fn expr() -> (r: CountAccumulator)
        ensures
            r@ == (AccumulatorView::Count { count: 0, star: false }),
    {
        CountAccumulator { count: 0, star: false }
    }

    /// Counts the rows of a column, or its values.
    ///
    /// # Errors
    /// Overflow. The values before the one that overflowed stay counted.
    pub fn update_batch(&mut self, values: &Vec<ArrayRef>) -> (r: Result<(), BasaltError>)
        requires
            values@.len() > 0,
        ensures
            match r {
                Ok(_) => accumulate(old(self)@, values@[0]@) == Ok::<AccumulatorView, ErrorKind>(
                    final(self)@,
                ),
                Err(e) => accumulate(old(self)@, values@[0]@) == Err::<AccumulatorView, ErrorKind>(
                    e@,
                ) && final(self)@ == left_by_failure(old(self)@, values@[0]@),
            },
    {
        let array = &values[0];
        let n: usize = array.len();
        let ghost all = array@.values;
        if self.star {
            let total: i128 = self.count as i128 + n as i128;
            if total > i64::MAX as i128 {
                return Err(BasaltError::NumericOverflow);
            }
            self.count = total as i64;
            return Ok(());
        }
        let mut i: usize = 0;
        assert(all.take(0) =~= seq![]);
        while i < n
            invariant
                i <= n,
                array == values@[0],
                n == array@.values.len(),
                all == array@.values,
                self.star == old(self).star,
                !self.star,
                self.count == old(self).count + count_present(all.take(i as int)),
            decreases n - i,
        {
            proof {
                assert(all.take(i + 1).drop_last() =~= all.take(i as int));
                assert(all.take(i + 1).last() == all[i as int]);
            }
            if !array.is_null(i) {
                if self.count == i64::MAX {
                    proof {
                        lemma_count_bound(all, i + 1);
                        assert forall|k: nat| i < k <= n implies accumulate(
                            old(self)@,
                            #[trigger] first_values(array@, k),
                        ) is Err by {
                            assert(all.take(k as int).take(i + 1) =~= all.take(i + 1));
                            lemma_count_bound(all.take(k as int), i + 1);
                        }
                        lemma_as_far_as(old(self)@, array@, i as nat, n as nat);
                    }
                    return Err(BasaltError::NumericOverflow);
                }
                self.count = self.count + 1;
            }
            i = i + 1;
        }
        assert(all.take(n as int) =~= all);
        Ok(())
    }

    /// Adds partial counts.
    ///
    /// # Errors
    /// A type error unless the states are integers; overflow. The counts before
    /// the one that overflowed stay added.
    pub fn merge_batch(&mut self, states: &Vec<ArrayRef>) -> (r: Result<(), BasaltError>)
        requires
            states@.len() > 0,
        ensures
            match r {
                Ok(_) => merge_states(old(self)@, array_views(states@)) == Ok::<
                    AccumulatorView,
                    ErrorKind,
                >(final(self)@),
                Err(e) => merge_states(old(self)@, array_views(states@)) == Err::<
                    AccumulatorView,
                    ErrorKind,
                >(e@) && final(self)@ == left_by_failed_merge(old(self)@, array_views(states@)),
            },
    {
        assert(array_views(states@)[0] == states@[0]@);
        let (count, outcome) = add_counts(self.count, &states[0]);
        self.count = count;
        outcome
    }

    pub fn state(&self) -> (r: Result<Vec<ScalarValue>, BasaltError>)
        ensures
            r is Ok,
            r->Ok_0@.len() == 1,
            aggregate_output(self@) == Ok::<(DataType, ValueView), ErrorKind>(
                (r->Ok_0@[0].spec_data_type(), r->Ok_0@[0]@),
            ),
    {
        Ok(single(ScalarValue::Int64(Some(self.count))))
    }

    pub fn evaluate(&self) -> (r: Result<ScalarValue, BasaltError>)
        ensures
            r is Ok,
            aggregate_output(self@) == Ok::<(DataType, ValueView), ErrorKind>(
                (r->Ok_0.spec_data_type(), r->Ok_0@),
            ),
    {
        Ok(ScalarValue::Int64(Some(self.count)))
    }

    /// The bytes the accumulator itself takes.
    pub fn size(&self) -> (r: usize)
        ensures
            r == vstd::layout::size_of::<CountAccumulator>(),
    {
        std::mem::size_of::<CountAccumulator>()
    }
}

proof fn lemma_counts_fail(start: int, values: Seq<ValueView>, m: int)
    requires
        0 <= m <= values.len(),
        sum_counts(start, values.take(m)) is Err,
    ensures
        sum_counts(start, values) == sum_counts(start, values.take(m)),
    decreases values.len() - m,
{
    if m < values.len() {
        assert(values.take(m + 1).drop_last() =~= values.take(m));
        lemma_counts_fail(start, values, m + 1);
    } else {
        assert(values.take(m) =~= values);
    }
}

proof fn lemma_counts_as_far_as(start: int, values: Seq<ValueView>, i: nat, n: nat)
    requires
        i <= n <= values.len(),
        sum_counts(start, values.take(i as int)) is Ok,
        i < n ==> sum_counts(start, values.take((i + 1) as int)) is Err,
    ensures
        counts_as_far_as(start, values, n) == sum_counts(start, values.take(i as int))->Ok_0,
    decreases n,
{
    if i < n {
        assert(values.take(n as int).take((i + 1) as int) =~= values.take((i + 1) as int));
        lemma_counts_fail(start, values.take(n as int), (i + 1) as int);
        lemma_counts_as_far_as(start, values, i, (n - 1) as nat);
    }
}

/// `start` plus the integers of a column, as far as they can be added.
fn add_counts(start: i64, array: &ArrayRef) -> (r: (i64, Result<(), BasaltError>))
    ensures
        match r.1 {
            Ok(_) => array@.data_type == DataType::Int64 && sum_counts(
                start as int,
                array@.values,
            ) == Ok::<int, ErrorKind>(r.0 as int),
            Err(e) => if array@.data_type != DataType::Int64 {
                e@ == ErrorKind::Type && r.0 == start
            } else {
                sum_counts(start as int, array@.values) == Err::<int, ErrorKind>(e@) && r.0
                    == counts_as_far_as(start as int, array@.values, array@.values.len())
            },
        },
{
    if array.data_type() != DataType::Int64 {
        return (start, Err(BasaltError::type_error("partial counts are integers")));
    }
    let n: usize = array.len();
    let ghost all = array@.values;
    let mut count: i64 = start;
    let mut i: usize = 0;
    assert(all.take(0) =~= seq![]);
    while i < n
        invariant
            i <= n,
            n == array@.values.len(),
            array@.data_type == DataType::Int64,
            all == array@.values,
            sum_counts(start as int, all.take(i as int)) == Ok::<int, ErrorKind>(count as int),
        decreases n - i,
    {
        proof {
            assert(all.take(i + 1).drop_last() =~= all.take(i as int));
            assert(all.take(i + 1).last() == all[i as int]);
        }
        if let Value::Int64(v) = array.value(i) {
            match count.checked_add(v) {
                Some(t) => {
                    count = t;
                },
                None => {
                    proof {
                        lemma_counts_fail(start as int, all, i + 1);
                        lemma_counts_as_far_as(start as int, all, i as nat, n as nat);
                    }
                    return (count, Err(BasaltError::NumericOverflow));
                },
            }
        }
        i = i + 1;
    }
    assert(all.take(n as int) =~= all);
    (count, Ok(()))
}

impl MinMaxAccumulator {
    pub closed spec fn view(&self) -> AccumulatorView {
        AccumulatorView::MinMax {
            data_type: self.data_type,
            current: match self.current {
                Some(s) => Some((s.spec_data_type(), s@)),
                None => None,
            },
            is_min: self.is_min,
        }
    }

    /// `MIN(expr)`.
    pub fn min(data_type: DataType) -> (r: MinMaxAccumulator)
        ensures
            r@ == (AccumulatorView::MinMax { data_type, current: None, is_min: true }),
    {
        MinMaxAccumulator { data_type, current: None, is_min: true }
    }

    /// `MAX(expr)`.
    pub fn max(data_type: DataType) -> (r: MinMaxAccumulator)
        ensures
            r@ == (AccumulatorView::MinMax { data_type, current: None, is_min: false }),
    {
        MinMaxAccumulator { data_type, current: None, is_min: false }
    }

    /// Whether a value displaces the current one.
    fn beats(&self, v: &Value) -> (r: bool)
        ensures
            r == match self.current {
                None => true,
                Some(c) => (self.is_min && value_lt(v@, c@)) || (!self.is_min && value_lt(c@, v@)),
            },
    {
        match &self.current {
            None => true,
            Some(c) => {
                let c = c.to_value();
                if self.is_min {
                    v.less(&c)
                } else {
                    c.less(v)
                }
            },
        }
    }

    /// Considers the values of a column, which may be of any type: values of
    /// another type than the current one never displace it.
    pub fn update_batch(&mut self, values: &Vec<ArrayRef>) -> (r: Result<(), BasaltError>)
        requires
            values@.len() > 0,
        ensures
            r is Ok,
            accumulate(old(self)@, values@[0]@) == Ok::<AccumulatorView, ErrorKind>(final(self)@),
    {
        let array = &values[0];
        let n: usize = array.len();
        let t = array.data_type();
        let ghost start = self@->current;
        let mut i: usize = 0;
        while i < n
            invariant
                i <= n,
                array == values@[0],
                n == array@.values.len(),
                t == array@.data_type,
                start == old(self)@->current,
                self.data_type == old(self).data_type,
                self.is_min == old(self).is_min,
                self@->current == extreme(self.is_min, start, array@, i as nat),
            decreases n - i,
        {
            let v = array.value(i);
            if !v.is_null() {
                if self.beats(&v) {
                    let ghost value = v@;
                    let s = ScalarValue::from_value(v, t);
                    assert(s is Some);
                    self.current = s;
                }
            }
            i = i + 1;
        }
        Ok(())
    }

    /// Merging partial extremes is considering them.
    pub fn merge_batch(&mut self, states: &Vec<ArrayRef>) -> (r: Result<(), BasaltError>)
        requires
            states@.len() > 0,
        ensures
            r is Ok,
            accumulate(old(self)@, states@[0]@) == Ok::<AccumulatorView, ErrorKind>(final(self)@),
    {
        self.update_batch(states)
    }

    pub fn state(&self) -> (r: Result<Vec<ScalarValue>, BasaltError>)
        ensures
            r is Ok,
            r->Ok_0@.len() == 1,
            aggregate_output(self@) == Ok::<(DataType, ValueView), ErrorKind>(
                (r->Ok_0@[0].spec_data_type(), r->Ok_0@[0]@),
            ),
    {
        match self.evaluate() {
            Ok(s) => Ok(single(s)),
            Err(e) => Err(e),
        }
    }

    pub fn evaluate(&self) -> (r: Result<ScalarValue, BasaltError>)
        ensures
            r is Ok,
            aggregate_output(self@) == Ok::<(DataType, ValueView), ErrorKind>(
                (r->Ok_0.spec_data_type(), r->Ok_0@),
            ),
    {
        match &self.current {
            Some(s) => Ok(s.copy()),
            None => Ok(null_scalar(self.data_type)),
        }
    }

    /// The bytes the accumulator itself takes.
    pub fn size(&self) -> (r: usize)
        ensures
            r == vstd::layout::size_of::<MinMaxAccumulator>(),
    {
        std::mem::size_of::<MinMaxAccumulator>()
    }
}

impl AvgAccumulator {
    pub closed spec fn view(&self) -> AccumulatorView {
        AccumulatorView::Avg { sum: self.sum, count: self.count }
    }

    pub fn new() -> (r: AvgAccumulator)
        ensures
            r@ == (AccumulatorView::Avg { sum: Float64 { bits: 0 }, count: 0 }),
    {
        AvgAccumulator { sum: Float64 { bits: 0 }, count: 0 }
    }

    /// Adds the numbers of a column as doubles, and counts them.
    ///
    /// # Errors
    /// A type error unless the column is numeric; overflow of the count. The
    /// numbers before the one that overflowed stay added.
    pub fn update_batch(&mut self, values: &Vec<ArrayRef>) -> (r: Result<(), BasaltError>)
        requires
            values@.len() > 0,
        ensures
            match r {
                Ok(_) => accumulate(old(self)@, values@[0]@) == Ok::<AccumulatorView, ErrorKind>(
                    final(self)@,
                ),
                Err(e) => accumulate(old(self)@, values@[0]@) == Err::<AccumulatorView, ErrorKind>(
                    e@,
                ) && final(self)@ == left_by_failure(old(self)@, values@[0]@),
            },
    {
        let array = &values[0];
        if !array.data_type().is_numeric() {
            proof {
                lemma_as_far_as_none(self@, array@, array@.values.len());
            }
            return Err(BasaltError::type_of("AVG does not support ", array.data_type().name()));
        }
        let n: usize = array.len();
        let ghost all = array@.values;
        let mut i: usize = 0;
        assert(all.take(0) =~= seq![]);
        while i < n
            invariant
                i <= n,
                array == values@[0],
                n == array@.values.len(),
                array@.data_type.spec_is_numeric(),
                all == array@.values,
                self.sum == sum_floats(old(self).sum, all.take(i as int)),
                self.count == old(self).count + count_present(all.take(i as int)),
            decreases n - i,
        {
            proof {
                assert(all.take(i + 1).drop_last() =~= all.take(i as int));
                assert(all.take(i + 1).last() == all[i as int]);
            }
            let v = array.value(i);
            if !v.is_null() {
                if self.count == i64::MAX {
                    proof {
                        lemma_count_bound(all, i + 1);
                        assert forall|k: nat| i < k <= n implies accumulate(
                            old(self)@,
                            #[trigger] first_values(array@, k),
                        ) is Err by {
                            assert(all.take(k as int).take(i + 1) =~= all.take(i + 1));
                            lemma_count_bound(all.take(k as int), i + 1);
                        }
                        lemma_as_far_as(old(self)@, array@, i as nat, n as nat);
                    }
                    return Err(BasaltError::NumericOverflow);
                }
                self.sum = add_float(self.sum, &v);
                self.count = self.count + 1;
            }
            i = i + 1;
        }
        assert(all.take(n as int) =~= all);
        Ok(())
    }

    /// Adds partial sums and partial counts.
    ///
    /// # Errors
    /// A type error unless the first column holds doubles and the second
    /// integers; overflow of the count. The state then stays as it was.
    pub fn merge_batch(&mut self, states: &Vec<ArrayRef>) -> (r: Result<(), BasaltError>)
        requires
            states@.len() > 1,
        ensures
            match r {
                Ok(_) => merge_states(old(self)@, array_views(states@)) == Ok::<
                    AccumulatorView,
                    ErrorKind,
                >(final(self)@),
                Err(e) => merge_states(old(self)@, array_views(states@)) == Err::<
                    AccumulatorView,
                    ErrorKind,
                >(e@) && final(self)@ == left_by_failed_merge(old(self)@, array_views(states@)),
            },
    {
        let sums = &states[0];
        proof {
            assert(array_views(states@)[0] == states@[0]@);
            assert(array_views(states@)[1] == states@[1]@);
        }
        if sums.data_type() != DataType::Float64 {
            return Err(BasaltError::type_error("partial sums of AVG are doubles"));
        }
        let (count, outcome) = add_counts(self.count, &states[1]);
        match outcome {
            Ok(_) => {},
            Err(e) => {
                return Err(e);
            },
        }
        let n: usize = sums.len();
        let ghost all = sums@.values;
        let mut sum = self.sum;
        let mut i: usize = 0;
        assert(all.take(0) =~= seq![]);
        while i < n
            invariant
                i <= n,
                n == sums@.values.len(),
                all == sums@.values,
                sum == sum_floats(self.sum, all.take(i as int)),
            decreases n - i,
        {
            proof {
                assert(all.take(i + 1).drop_last() =~= all.take(i as int));
                assert(all.take(i + 1).last() == all[i as int]);
            }
            let v = sums.value(i);
            sum = add_float(sum, &v);
            i = i + 1;
        }
        assert(all.take(n as int) =~= all);
        self.sum = sum;
        self.count = count;
        Ok(())
    }

    /// The sum and the count.
    pub fn state(&self) -> (r: Result<Vec<ScalarValue>, BasaltError>)
        ensures
            r is Ok,
            typed_values(r->Ok_0@) == seq![
                (DataType::Float64, ValueView::Float64(self@->Avg_sum)),
                (DataType::Int64, ValueView::Int64(self@->Avg_count)),
            ],
    {
        let mut v: Vec<ScalarValue> = Vec::new();
        v.push(ScalarValue::Float64(Some(self.sum)));
        v.push(ScalarValue::Int64(Some(self.count)));
        assert(typed_values(v@) =~= seq![
            (DataType::Float64, ValueView::Float64(self@->Avg_sum)),
            (DataType::Int64, ValueView::Int64(self@->Avg_count)),
        ]);
        Ok(v)
    }

    pub fn evaluate(&self) -> (r: Result<ScalarValue, BasaltError>)
        ensures
            r is Ok,
            aggregate_output(self@) == Ok::<(DataType, ValueView), ErrorKind>(
                (r->Ok_0.spec_data_type(), r->Ok_0@),
            ),
    {
        if self.count == 0 {
            return Ok(ScalarValue::Float64(None));
        }
        Ok(ScalarValue::Float64(Some(self.sum.div(Float64::from_i64(self.count)))))
    }

    /// The bytes the accumulator itself takes.
    pub fn size(&self) -> (r: usize)
        ensures
            r == vstd::layout::size_of::<AvgAccumulator>(),
    {
        std::mem::size_of::<AvgAccumulator>()
    }
}

/// A sum with one more number.
fn add_float(sum: Float64, v: &Value) -> (r: Float64)
    ensures
        r == match v@ {
            ValueView::Int64(n) => sum.spec_add(Float64::spec_from_int(n as int)),
            ValueView::Float64(x) => sum.spec_add(x),
            _ => sum,
        },
{
    match v {
        Value::Int64(n) => sum.add(Float64::from_i64(*n)),
        Value::Float64(x) => sum.add(*x),
        _ => sum,
    }
}

// ---------------------------------------------------------------------------

/// One accumulator of any kind.
#[derive(Debug)]
pub enum Accumulator {
    Sum(SumAccumulator),
    Count(CountAccumulator),
    MinMax(MinMaxAccumulator),
    Avg(AvgAccumulator),
}

impl Accumulator {
    pub open spec fn view(&self) -> AccumulatorView {
        match self {
            Accumulator::Sum(a) => a@,
            Accumulator::Count(a) => a@,
            Accumulator::MinMax(a) => a@,
            Accumulator::Avg(a) => a@,
        }
    }

    /// Folds a column into the state.
    ///
    /// # Errors
    /// A type error when the aggregate does not take the column's type;
    /// overflow.
    pub fn update_batch(&mut self, values: &Vec<ArrayRef>) -> (r: Result<(), BasaltError>)
        requires
            values@.len() > 0,
        ensures
            match r {
                Ok(_) => accumulate(old(self)@, values@[0]@) == Ok::<AccumulatorView, ErrorKind>(
                    final(self)@,
                ),
                Err(e) => accumulate(old(self)@, values@[0]@) == Err::<AccumulatorView, ErrorKind>(
                    e@,
                ) && final(self)@ == left_by_failure(old(self)@, values@[0]@),
            },
    {
        match self {
            Accumulator::Sum(a) => a.update_batch(values),
            Accumulator::Count(a) => a.update_batch(values),
            Accumulator::MinMax(a) => a.update_batch(values),
            Accumulator::Avg(a) => a.update_batch(values),
        }
    }

    /// Merges partial states of accumulators of the same kind.
    ///
    /// # Errors
    /// A type error when the states are not of this kind; overflow.
    pub fn merge_batch(&mut self, states: &Vec<ArrayRef>) -> (r: Result<(), BasaltError>)
        requires
            states@.len() > 0,
            *old(self) is Avg ==> states@.len() > 1,
        ensures
            match r {
                Ok(_) => merge_states(old(self)@, array_views(states@)) == Ok::<
                    AccumulatorView,
                    ErrorKind,
                >(final(self)@),
                Err(e) => merge_states(old(self)@, array_views(states@)) == Err::<
                    AccumulatorView,
                    ErrorKind,
                >(e@) && final(self)@ == left_by_failed_merge(old(self)@, array_views(states@)),
            },
    {
        assert(array_views(states@)[0] == states@[0]@);
        match self {
            Accumulator::Sum(a) => a.merge_batch(states),
            Accumulator::Count(a) => a.merge_batch(states),
            Accumulator::MinMax(a) => a.merge_batch(states),
            Accumulator::Avg(a) => a.merge_batch(states),
        }
    }

    /// The final output.
    ///
    /// # Errors
    /// A type error for a sum over a type without sums.
    pub fn evaluate(&self) -> (r: Result<ScalarValue, BasaltError>)
        ensures
            match r {
                Ok(s) => aggregate_output(self@) == Ok::<(DataType, ValueView), ErrorKind>(
                    (s.spec_data_type(), s@),
                ),
                Err(e) => aggregate_output(self@) == Err::<(DataType, ValueView), ErrorKind>(e@),
            },
    {
        match self {
            Accumulator::Sum(a) => a.evaluate(),
            Accumulator::Count(a) => a.evaluate(),
            Accumulator::MinMax(a) => a.evaluate(),
            Accumulator::Avg(a) => a.evaluate(),
        }
    }

    /// The partial state that another accumulator of the kind can merge: for
    /// `AVG` the sum and the count, for the others the output.
    ///
    /// # Errors
    /// A type error for a sum over a type without sums.
    pub fn state(&self) -> (r: Result<Vec<ScalarValue>, BasaltError>)
        ensures
            match r {
                Ok(v) => partial_state(self@) == Ok::<Seq<(DataType, ValueView)>, ErrorKind>(
                    typed_values(v@),
                ),
                Err(e) => partial_state(self@) == Err::<Seq<(DataType, ValueView)>, ErrorKind>(e@),
            },
    {
        let r = match self {
            Accumulator::Sum(a) => a.state(),
            Accumulator::Count(a) => a.state(),
            Accumulator::MinMax(a) => a.state(),
            Accumulator::Avg(a) => a.state(),
        };
        proof {
            if r is Ok && !(self@ is Avg) {
                assert(typed_values(r->Ok_0@) =~= seq![aggregate_output(self@)->Ok_0]);
            }
        }
        r
    }

    /// The bytes the accumulator itself takes.
    pub fn size(&self) -> (r: usize)
        ensures
            r == match self {
                Accumulator::Sum(_) => vstd::layout::size_of::<SumAccumulator>(),
                Accumulator::Count(_) => vstd::layout::size_of::<CountAccumulator>(),
                Accumulator::MinMax(_) => vstd::layout::size_of::<MinMaxAccumulator>(),
                Accumulator::Avg(_) => vstd::layout::size_of::<AvgAccumulator>(),
            },
    {
        match self {
            Accumulator::Sum(a) => a.size(),
            Accumulator::Count(a) => a.size(),
            Accumulator::MinMax(a) => a.size(),
            Accumulator::Avg(a) => a.size(),
        }
    }
}

/// Makes fresh accumulators for one aggregate of a query.
#[derive(Debug, Clone, Copy, PartialEq, Eq, Structural)]
pub struct AccumulatorFactory {
    pub kind: AggregateKind,
    /// The type of the aggregate's argument.
    pub data_type: DataType,
    /// Whether a count is over rows rather than values.
    pub is_star: bool,
}

/// The state an accumulator starts from.
pub open spec fn fresh(f: AccumulatorFactory) -> AccumulatorView {
    match f.kind {
        AggregateKind::Sum => AccumulatorView::Sum {
            data_type: f.data_type,
            sum: zero_of(f.data_type),
            has_value: false,
        },
        AggregateKind::Count => AccumulatorView::Count { count: 0, star: f.is_star },
        AggregateKind::Min => AccumulatorView::MinMax {
            data_type: f.data_type,
            current: None,
            is_min: true,
        },
        AggregateKind::Max => AccumulatorView::MinMax {
            data_type: f.data_type,
            current: None,
            is_min: false,
        },
        AggregateKind::Avg => AccumulatorView::Avg { sum: Float64 { bits: 0 }, count: 0 },
    }
}

impl AccumulatorFactory {
    pub fn new(kind: AggregateKind, data_type: DataType, is_star: bool) -> (r: AccumulatorFactory)
        ensures
            r == (AccumulatorFactory { kind, data_type, is_star }),
    {
        AccumulatorFactory { kind, data_type, is_star }
    }

    pub fn make(&self) -> (r: Accumulator)
        ensures
            r@ == fresh(*self),
    {
        match self.kind {
            AggregateKind::Sum => Accumulator::Sum(SumAccumulator::new(self.data_type)),
            AggregateKind::Count => {
                if self.is_star {
                    Accumulator::Count(CountAccumulator::star())
                } else {
                    Accumulator::Count(CountAccumulator::expr())
                }
            },
            AggregateKind::Min => Accumulator::MinMax(MinMaxAccumulator::min(self.data_type)),
            AggregateKind::Max => Accumulator::MinMax(MinMaxAccumulator::max(self.data_type)),
            AggregateKind::Avg => Accumulator::Avg(AvgAccumulator::new()),
        }
    }
}

} // verus!
