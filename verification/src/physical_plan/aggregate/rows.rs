//! What an aggregation delivers, row by row: whatever the batches that its
//! input comes in, one row per group.

use vstd::prelude::*;

use crate::array::ArrayView;
use crate::batch::{batch_of, columns_fit, BatchView};
use crate::error::ErrorKind;
use crate::expr::expr::{eval, expr_type, ExprView};
use crate::float64::Float64;
use crate::compute::{take_array, take_values};
use crate::logical_plan::plan::{AggregateKind, AggregateView, PlanView};
use crate::physical_expr::expr::PhysicalExprView;
use crate::physical_plan::aggregate::accumulator::{
    accumulate, aggregate_output, count_present, extreme, fresh, sum_floats, sum_values, zero_of,
    AccumulatorFactory, AccumulatorView,
};
use crate::physical_plan::aggregate::group_keys::{column_rows, row_of};
use crate::physical_plan::aggregate::hash_table::{
    add_groups, all_outputs, fold_aggregates, fold_batch, fold_group, fold_groups, key_rows,
    lemma_add_groups, outputs, rows_of_group, widen_states, GroupsView,
};
use crate::physical_plan::aggregate::{
    aggregate_factories, argument_columns, flat_after, flat_columns, flat_update, group_column,
    group_columns, groups_after, lesser, no_groups, untyped,
};
use crate::physical_plan::join::rows::lemma_key_rows;
use crate::physical_plan::limit::stream_rows;
use crate::physical_plan::plan::{eval_all, lemma_eval_rows, run, ExecView};
use crate::physical_plan::planner::{
    batches_evaluate_like_rows, exec_of, physical_all, physical_argument, physical_arguments,
    physical_of, types_all,
};
use crate::physical_plan::rows::{
    all_defined, delivered, flawless, items_of, lemma_eval_all, lemma_physical_all,
    lemma_stream_rows_concat, lemma_stream_rows_one, projected, runs_tidily, tidy, values_on, Row,
};
use crate::types::data_type::DataType;
use crate::types::schema::FieldView;
use crate::types::value::{value_lt, ValueView};

verus! {

// ---------------------------------------------------------------------------
// Aggregates of lists of values

/// The least or greatest of the values that are not null; of values that tie,
/// the first.
pub open spec fn best_of(is_min: bool, values: Seq<ValueView>) -> Option<ValueView>
    decreases values.len(),
{
    if values.len() == 0 {
        None
    } else {
        let best = best_of(is_min, values.drop_last());
        let v = values.last();
        if v == ValueView::Null {
            best
        } else {
            match best {
                None => Some(v),
                Some(b) => if (is_min && value_lt(v, b)) || (!is_min && value_lt(b, v)) {
                    Some(v)
                } else {
                    best
                },
            }
        }
    }
}

/// What an aggregate gives for the values of its argument, where it gives
/// anything.
pub open spec fn summary(f: AccumulatorFactory, values: Seq<ValueView>) -> ValueView {
    match f.kind {
        AggregateKind::Sum => if count_present(values) == 0 {
            ValueView::Null
        } else {
            sum_values(zero_of(f.data_type), values)->Ok_0
        },
        AggregateKind::Count => ValueView::Int64(
            if f.is_star {
                values.len() as i64
            } else {
                count_present(values) as i64
            },
        ),
        AggregateKind::Min => match best_of(true, values) {
            None => ValueView::Null,
            Some(v) => v,
        },
        AggregateKind::Max => match best_of(false, values) {
            None => ValueView::Null,
            Some(v) => v,
        },
        AggregateKind::Avg => if count_present(values) == 0 {
            ValueView::Null
        } else {
            ValueView::Float64(
                sum_floats(Float64 { bits: 0 }, values).spec_div(
                    Float64::spec_from_int(count_present(values) as int),
                ),
            )
        },
    }
}

/// Whether a state is that of an aggregate after these values.
spec fn seen(s: AccumulatorView, f: AccumulatorFactory, values: Seq<ValueView>) -> bool {
    match s {
        AccumulatorView::Sum { data_type, sum, has_value } => {
            &&& f.kind == AggregateKind::Sum
            &&& data_type == f.data_type
            &&& sum_values(zero_of(f.data_type), values) matches Ok(t) && t == sum
            &&& has_value == (count_present(values) > 0)
        },
        AccumulatorView::Count { count, star } => {
            &&& f.kind == AggregateKind::Count
            &&& star == f.is_star
            &&& count == if star {
                values.len()
            } else {
                count_present(values)
            }
        },
        AccumulatorView::MinMax { data_type, current, is_min } => {
            &&& f.kind == if is_min {
                AggregateKind::Min
            } else {
                AggregateKind::Max
            }
            &&& best_of(is_min, values) == match current {
                None => None,
                Some((t, v)) => Some(v),
            }
        },
        AccumulatorView::Avg { sum, count } => {
            &&& f.kind == AggregateKind::Avg
            &&& sum == sum_floats(Float64 { bits: 0 }, values)
            &&& count == count_present(values)
        },
    }
}

proof fn lemma_sum_values_concat(start: ValueView, a: Seq<ValueView>, b: Seq<ValueView>)
    requires
        sum_values(start, a) is Ok,
    ensures
        sum_values(start, a + b) == sum_values(sum_values(start, a)->Ok_0, b),
    decreases b.len(),
{
    if b.len() == 0 {
        assert(a + b =~= a);
    } else {
        lemma_sum_values_concat(start, a, b.drop_last());
        assert((a + b).drop_last() =~= a + b.drop_last());
    }
}

proof fn lemma_count_concat(a: Seq<ValueView>, b: Seq<ValueView>)
    ensures
        count_present(a + b) == count_present(a) + count_present(b),
    decreases b.len(),
{
    if b.len() == 0 {
        assert(a + b =~= a);
    } else {
        lemma_count_concat(a, b.drop_last());
        assert((a + b).drop_last() =~= a + b.drop_last());
    }
}

proof fn lemma_sum_floats_concat(start: Float64, a: Seq<ValueView>, b: Seq<ValueView>)
    ensures
        sum_floats(start, a + b) == sum_floats(sum_floats(start, a), b),
    decreases b.len(),
{
    if b.len() == 0 {
        assert(a + b =~= a);
    } else {
        lemma_sum_floats_concat(start, a, b.drop_last());
        assert((a + b).drop_last() =~= a + b.drop_last());
    }
}

proof fn lemma_best_concat(
    is_min: bool,
    current: Option<(DataType, ValueView)>,
    values: Seq<ValueView>,
    a: ArrayView,
    n: nat,
)
    requires
        n <= a.values.len(),
        best_of(is_min, values) == match current {
            None => None,
            Some((t, v)) => Some(v),
        },
    ensures
        best_of(is_min, values + a.values.take(n as int)) == match extreme(is_min, current, a, n) {
            None => None,
            Some((t, v)) => Some(v),
        },
    decreases n,
{
    let all = values + a.values.take(n as int);
    if n == 0 {
        assert(all =~= values);
    } else {
        let m = (n - 1) as nat;
        lemma_best_concat(is_min, current, values, a, m);
        assert(all.drop_last() =~= values + a.values.take(m as int));
        assert(all.last() == a.values[m as int]);
    }
}

proof fn lemma_seen_fresh(f: AccumulatorFactory)
    ensures
        seen(fresh(f), f, seq![]),
{
}

/// Batches do not matter: after one column and then another, a state is that
/// of all the values.
proof fn lemma_seen_more(
    s: AccumulatorView,
    f: AccumulatorFactory,
    values: Seq<ValueView>,
    a: ArrayView,
)
    requires
        seen(s, f, values),
        accumulate(s, a) is Ok,
    ensures
        seen(accumulate(s, a)->Ok_0, f, values + a.values),
{
    lemma_count_concat(values, a.values);
    match s {
        AccumulatorView::Sum { data_type, sum, has_value } => {
            lemma_sum_values_concat(zero_of(f.data_type), values, a.values);
        },
        AccumulatorView::Count { count, star } => {},
        AccumulatorView::MinMax { data_type, current, is_min } => {
            lemma_best_concat(is_min, current, values, a, a.values.len());
            assert(a.values.take(a.values.len() as int) =~= a.values);
        },
        AccumulatorView::Avg { sum, count } => {
            lemma_sum_floats_concat(Float64 { bits: 0 }, values, a.values);
        },
    }
}

proof fn lemma_seen_output(s: AccumulatorView, f: AccumulatorFactory, values: Seq<ValueView>)
    requires
        seen(s, f, values),
        aggregate_output(s) is Ok,
    ensures
        aggregate_output(s)->Ok_0.1 == summary(f, values),
{
}

// ---------------------------------------------------------------------------
// Groups of rows

/// The distinct values of the grouping expressions, in the order in which the
/// rows have them first.
pub open spec fn group_keys(group_expr: Seq<ExprView>, rows: Seq<Row>) -> Seq<Row> {
    add_groups(seq![], projected(group_expr, rows))
}

/// The rows of a group, in order.
pub open spec fn group_rows(group_expr: Seq<ExprView>, key: Row, rows: Seq<Row>) -> Seq<Row>
    decreases rows.len(),
{
    if rows.len() == 0 {
        seq![]
    } else {
        let before = group_rows(group_expr, key, rows.drop_last());
        if values_on(group_expr, rows.last()) == key {
            before.push(rows.last())
        } else {
            before
        }
    }
}

/// What an aggregate takes from a row; a count of rows looks at no value in
/// particular.
pub open spec fn argument_on(agg: AggregateView, row: Row) -> ValueView {
    match agg.arg {
        None => if row.len() > 0 {
            row[0]
        } else {
            ValueView::Null
        },
        Some(e) => eval(e, row)->Ok_0,
    }
}

/// What an aggregate takes from rows.
pub open spec fn arguments_on(agg: AggregateView, rows: Seq<Row>) -> Seq<ValueView> {
    Seq::new(rows.len(), |i: int| argument_on(agg, rows[i]))
}

/// The accumulator of an aggregate.
pub open spec fn factory_of(agg: AggregateView) -> AccumulatorFactory {
    AccumulatorFactory {
        kind: agg.kind,
        data_type: match agg.arg {
            None => DataType::Int64,
            Some(e) => expr_type(e)->0,
        },
        is_star: agg.arg is None,
    }
}

/// The row of a group: its key, then the first `n` aggregates of its rows.
pub open spec fn group_row(
    group_expr: Seq<ExprView>,
    aggr_expr: Seq<AggregateView>,
    n: nat,
    key: Row,
    rows: Seq<Row>,
) -> Row {
    key + Seq::new(
        n,
        |a: int|
            summary(
                factory_of(aggr_expr[a]),
                arguments_on(aggr_expr[a], group_rows(group_expr, key, rows)),
            ),
    )
}

/// The rows of groups.
pub open spec fn rows_of_keys(
    group_expr: Seq<ExprView>,
    aggr_expr: Seq<AggregateView>,
    n: nat,
    keys: Seq<Row>,
    rows: Seq<Row>,
) -> Seq<Row> {
    Seq::new(keys.len(), |g: int| group_row(group_expr, aggr_expr, n, keys[g], rows))
}

/// The rows of all groups.
pub open spec fn grouped_rows(
    group_expr: Seq<ExprView>,
    aggr_expr: Seq<AggregateView>,
    n: nat,
    rows: Seq<Row>,
) -> Seq<Row> {
    rows_of_keys(group_expr, aggr_expr, n, group_keys(group_expr, rows), rows)
}

proof fn lemma_add_groups_concat(groups: Seq<Row>, a: Seq<Row>, b: Seq<Row>)
    ensures
        add_groups(add_groups(groups, a), b) == add_groups(groups, a + b),
    decreases b.len(),
{
    if b.len() == 0 {
        assert(a + b =~= a);
    } else {
        lemma_add_groups_concat(groups, a, b.drop_last());
        assert((a + b).drop_last() =~= a + b.drop_last());
    }
}

proof fn lemma_group_rows_concat(group_expr: Seq<ExprView>, key: Row, a: Seq<Row>, b: Seq<Row>)
    ensures
        group_rows(group_expr, key, a + b) == group_rows(group_expr, key, a) + group_rows(
            group_expr,
            key,
            b,
        ),
    decreases b.len(),
{
    if b.len() == 0 {
        assert(a + b =~= a);
        assert(group_rows(group_expr, key, a) + group_rows(group_expr, key, b) =~= group_rows(
            group_expr,
            key,
            a,
        ));
    } else {
        let rest = b.drop_last();
        lemma_group_rows_concat(group_expr, key, a, rest);
        assert((a + b).drop_last() =~= a + rest);
        let x = group_rows(group_expr, key, a);
        let y = group_rows(group_expr, key, rest);
        assert(x + y.push(b.last()) =~= (x + y).push(b.last()));
    }
}

/// A group that no row has is empty.
proof fn lemma_no_group_rows(group_expr: Seq<ExprView>, key: Row, rows: Seq<Row>)
    requires
        !projected(group_expr, rows).contains(key),
    ensures
        group_rows(group_expr, key, rows) == Seq::<Row>::empty(),
    decreases rows.len(),
{
    if rows.len() > 0 {
        let rest = rows.drop_last();
        let keys = projected(group_expr, rows);
        if projected(group_expr, rest).contains(key) {
            let i = choose|i: int|
                0 <= i < rest.len() && projected(group_expr, rest)[i] == key;
            assert(keys[i] == key);
        }
        lemma_no_group_rows(group_expr, key, rest);
        assert(keys[rows.len() - 1] == values_on(group_expr, rows.last()));
    }
}

/// The values at the places of a group's rows are those that the aggregate
/// takes from these rows.
proof fn lemma_group_values(
    group_expr: Seq<ExprView>,
    agg: AggregateView,
    key: Row,
    rows: Seq<Row>,
    values: Seq<ValueView>,
)
    requires
        rows.len() <= usize::MAX,
        rows.len() <= values.len(),
        forall|i: int| 0 <= i < rows.len() ==> #[trigger] values[i] == argument_on(agg, rows[i]),
    ensures
        rows_of_group(projected(group_expr, rows), key).len() == group_rows(
            group_expr,
            key,
            rows,
        ).len(),
        take_values(values, rows_of_group(projected(group_expr, rows), key)) == arguments_on(
            agg,
            group_rows(group_expr, key, rows),
        ),
    decreases rows.len(),
{
    let keys = projected(group_expr, rows);
    let places = rows_of_group(keys, key);
    let mine = group_rows(group_expr, key, rows);
    if rows.len() == 0 {
        assert(take_values(values, places) =~= arguments_on(agg, mine));
    } else {
        let rest = rows.drop_last();
        assert forall|i: int| 0 <= i < rest.len() implies #[trigger] values[i] == argument_on(
            agg,
            rest[i],
        ) by {
            assert(rest[i] == rows[i]);
        }
        lemma_group_values(group_expr, agg, key, rest, values);
        assert(keys.drop_last() =~= projected(group_expr, rest));
        assert(keys.last() == values_on(group_expr, rows.last()));
        let before = rows_of_group(keys.drop_last(), key);
        let earlier = group_rows(group_expr, key, rest);
        if keys.last() == key {
            assert(values[rows.len() - 1] == argument_on(agg, rows[rows.len() - 1]));
            assert(take_values(values, places) =~= take_values(values, before).push(
                values[rows.len() - 1],
            ));
            assert(arguments_on(agg, mine) =~= arguments_on(agg, earlier).push(
                argument_on(agg, rows.last()),
            ));
        }
    }
}

// ---------------------------------------------------------------------------
// The table

proof fn lemma_physical_arguments(aggs: Seq<AggregateView>, n: nat)
    requires
        n <= aggs.len(),
        physical_arguments(aggs, n) is Ok,
    ensures
        physical_arguments(aggs, n)->Ok_0.len() == n,
        forall|i: int|
            0 <= i < n ==> physical_argument(#[trigger] aggs[i]) == Ok::<
                (Option<PhysicalExprView>, DataType),
                ErrorKind,
            >(physical_arguments(aggs, n)->Ok_0[i]),
    decreases n,
{
    if n > 0 {
        let m = (n - 1) as nat;
        lemma_physical_arguments(aggs, m);
        let before = physical_arguments(aggs, m)->Ok_0;
        let all = physical_arguments(aggs, n)->Ok_0;
        assert forall|i: int| 0 <= i < n implies physical_argument(#[trigger] aggs[i]) == Ok::<
            (Option<PhysicalExprView>, DataType),
            ErrorKind,
        >(all[i]) by {
            if i < m {
                assert(all[i] == before[i]);
            }
        }
    }
}

/// The arguments of the operator are those of the aggregates.
spec fn arguments_of(args: Seq<Option<PhysicalExprView>>, aggs: Seq<AggregateView>) -> bool {
    &&& args.len() == aggs.len()
    &&& forall|i: int|
        0 <= i < aggs.len() ==> physical_argument(#[trigger] aggs[i]) is Ok && args[i]
            == physical_argument(aggs[i])->Ok_0.0
}

/// Whether aggregates have arguments on every row.
pub open spec fn arguments_defined(aggs: Seq<AggregateView>, rows: Seq<Row>) -> bool {
    forall|a: int, i: int|
        0 <= a < aggs.len() && 0 <= i < rows.len() ==> argument_defined(
            #[trigger] aggs[a],
            #[trigger] rows[i],
        )
}

/// Whether an aggregate has an argument on a row.
pub open spec fn argument_defined(agg: AggregateView, row: Row) -> bool {
    agg.arg matches Some(e) ==> eval(e, row) is Ok
}

proof fn lemma_argument_columns(
    args: Seq<Option<PhysicalExprView>>,
    aggs: Seq<AggregateView>,
    b: BatchView,
    n: nat,
)
    requires
        b.wf(),
        arguments_of(args, aggs),
        n <= args.len(),
        argument_columns(args, b, n) is Ok,
    ensures
        argument_columns(args, b, n)->Ok_0.len() == n,
        forall|a: int|
            0 <= a < n ==> {
                let column = #[trigger] argument_columns(args, b, n)->Ok_0[a];
                &&& column.values.len() == b.num_rows
                &&& forall|i: int|
                    0 <= i < b.num_rows ==> #[trigger] column.values[i] == argument_on(
                        aggs[a],
                        b.rows()[i],
                    )
            },
        forall|a: int, i: int|
            0 <= a < n && 0 <= i < b.num_rows ==> argument_defined(
                #[trigger] aggs[a],
                #[trigger] b.rows()[i],
            ),
    decreases n,
{
    if n > 0 {
        let m = (n - 1) as nat;
        lemma_argument_columns(args, aggs, b, m);
        let before = argument_columns(args, b, m)->Ok_0;
        let all = argument_columns(args, b, n)->Ok_0;
        assert(all == before.push(all[m as int]));
        assert(physical_argument(aggs[m as int]) is Ok);
        let column = all[m as int];
        assert(column.values.len() == b.num_rows) by {
            match aggs[m as int].arg {
                None => {},
                Some(e) => {
                    lemma_eval_rows(physical_of(e)->Ok_0, b);
                },
            }
        }
        assert forall|i: int| 0 <= i < b.num_rows implies #[trigger] column.values[i]
            == argument_on(aggs[m as int], b.rows()[i]) by {
            assert(b.rows()[i] == b.row(i));
            match aggs[m as int].arg {
                None => {},
                Some(e) => {
                    lemma_eval_rows(physical_of(e)->Ok_0, b);
                    batches_evaluate_like_rows(e, b, i);
                },
            }
        }
        assert forall|a: int, i: int| 0 <= a < n && 0 <= i < b.num_rows implies argument_defined(
            #[trigger] aggs[a],
            #[trigger] b.rows()[i],
        ) by {
            assert(b.rows()[i] == b.row(i));
            match aggs[a].arg {
                None => {},
                Some(e) => if a == m {
                    lemma_eval_rows(physical_of(e)->Ok_0, b);
                    batches_evaluate_like_rows(e, b, i);
                },
            }
        }
        assert forall|a: int| 0 <= a < n implies {
            let c = #[trigger] all[a];
            &&& c.values.len() == b.num_rows
            &&& forall|i: int|
                0 <= i < b.num_rows ==> #[trigger] c.values[i] == argument_on(
                    aggs[a],
                    b.rows()[i],
                )
        } by {
            if a < m {
                assert(all[a] == before[a]);
            }
        }
    }
}

proof fn lemma_fold_groups(
    states: Seq<AccumulatorView>,
    a: ArrayView,
    rows: Seq<Row>,
    groups: Seq<Row>,
    n: nat,
)
    requires
        fold_groups(states, a, rows, groups, n) is Ok,
    ensures
        fold_groups(states, a, rows, groups, n)->Ok_0.len() == n,
        forall|g: int|
            0 <= g < n ==> fold_group(states[g], a, rows, groups[g]) == Ok::<
                AccumulatorView,
                ErrorKind,
            >(#[trigger] fold_groups(states, a, rows, groups, n)->Ok_0[g]),
    decreases n,
{
    if n > 0 {
        let m = (n - 1) as nat;
        lemma_fold_groups(states, a, rows, groups, m);
        let before = fold_groups(states, a, rows, groups, m)->Ok_0;
        let all = fold_groups(states, a, rows, groups, n)->Ok_0;
        assert forall|g: int| 0 <= g < n implies fold_group(states[g], a, rows, groups[g]) == Ok::<
            AccumulatorView,
            ErrorKind,
        >(#[trigger] all[g]) by {
            if g < m {
                assert(all[g] == before[g]);
            }
        }
    }
}

proof fn lemma_fold_aggregates(
    states: Seq<Seq<AccumulatorView>>,
    columns: Seq<ArrayView>,
    rows: Seq<Row>,
    groups: Seq<Row>,
    n: nat,
)
    requires
        n <= columns.len(),
        fold_aggregates(states, columns, rows, groups, n) is Ok,
    ensures
        fold_aggregates(states, columns, rows, groups, n)->Ok_0.len() == n,
        forall|a: int|
            0 <= a < n ==> fold_groups(states[a], columns[a], rows, groups, groups.len()) == Ok::<
                Seq<AccumulatorView>,
                ErrorKind,
            >(#[trigger] fold_aggregates(states, columns, rows, groups, n)->Ok_0[a]),
    decreases n,
{
    if n > 0 {
        let m = (n - 1) as nat;
        lemma_fold_aggregates(states, columns, rows, groups, m);
        let before = fold_aggregates(states, columns, rows, groups, m)->Ok_0;
        let all = fold_aggregates(states, columns, rows, groups, n)->Ok_0;
        assert forall|a: int| 0 <= a < n implies fold_groups(
            states[a],
            columns[a],
            rows,
            groups,
            groups.len(),
        ) == Ok::<Seq<AccumulatorView>, ErrorKind>(#[trigger] all[a]) by {
            if a < m {
                assert(all[a] == before[a]);
            }
        }
    }
}

/// Whether a table is that of the groups of rows.
spec fn table_of(
    t: GroupsView,
    group_expr: Seq<ExprView>,
    aggs: Seq<AggregateView>,
    rows: Seq<Row>,
) -> bool {
    &&& t.types.len() == group_expr.len()
    &&& t.factories == Seq::new(aggs.len(), |a: int| factory_of(aggs[a]))
    &&& t.groups == group_keys(group_expr, rows)
    &&& t.states.len() == aggs.len()
    &&& forall|a: int| 0 <= a < aggs.len() ==> (#[trigger] t.states[a]).len() == t.groups.len()
    &&& forall|a: int, g: int|
        0 <= a < aggs.len() && 0 <= g < t.groups.len() ==> seen(
            #[trigger] t.states[a][g],
            factory_of(aggs[a]),
            arguments_on(aggs[a], group_rows(group_expr, t.groups[g], rows)),
        )
}

/// A group's state after a batch.
proof fn lemma_state_batch(
    group_expr: Seq<ExprView>,
    agg: AggregateView,
    s: AccumulatorView,
    key: Row,
    rows: Seq<Row>,
    more: Seq<Row>,
    column: ArrayView,
)
    requires
        more.len() <= usize::MAX,
        column.values.len() == more.len(),
        forall|i: int|
            0 <= i < more.len() ==> #[trigger] column.values[i] == argument_on(agg, more[i]),
        seen(s, factory_of(agg), arguments_on(agg, group_rows(group_expr, key, rows))),
        fold_group(s, column, projected(group_expr, more), key) is Ok,
    ensures
        seen(
            fold_group(s, column, projected(group_expr, more), key)->Ok_0,
            factory_of(agg),
            arguments_on(agg, group_rows(group_expr, key, rows + more)),
        ),
{
    let before = arguments_on(agg, group_rows(group_expr, key, rows));
    let new = arguments_on(agg, group_rows(group_expr, key, more));
    lemma_group_values(group_expr, agg, key, more, column.values);
    lemma_group_rows_concat(group_expr, key, rows, more);
    assert(arguments_on(agg, group_rows(group_expr, key, rows + more)) =~= before + new);
    let mine = rows_of_group(projected(group_expr, more), key);
    if mine.len() == 0 {
        assert(before + new =~= before);
    } else {
        lemma_seen_more(s, factory_of(agg), before, take_array(column, mine));
    }
}

/// A group's state before a batch, which may have brought the group.
proof fn lemma_widened(
    t: GroupsView,
    group_expr: Seq<ExprView>,
    aggs: Seq<AggregateView>,
    rows: Seq<Row>,
    found: Seq<Row>,
    a: int,
    g: int,
)
    requires
        table_of(t, group_expr, aggs, rows),
        0 <= a < aggs.len(),
        0 <= g < add_groups(t.groups, found).len(),
    ensures
        seen(
            widen_states(t.states, t.factories, add_groups(t.groups, found).len())[a][g],
            factory_of(aggs[a]),
            arguments_on(
                aggs[a],
                group_rows(group_expr, add_groups(t.groups, found)[g], rows),
            ),
        ),
{
    let old_keys = projected(group_expr, rows);
    let groups = add_groups(t.groups, found);
    lemma_add_groups(Seq::<Row>::empty(), old_keys);
    lemma_add_groups(t.groups, found);
    let key = groups[g];
    let f = factory_of(aggs[a]);
    let before = arguments_on(aggs[a], group_rows(group_expr, key, rows));
    assert(t.states[a].len() == t.groups.len());
    if g < t.groups.len() {
        assert(t.groups[g] == key);
        assert(seen(t.states[a][g], f, before));
    } else {
        if old_keys.contains(key) {
            let i = choose|i: int| 0 <= i < old_keys.len() && old_keys[i] == key;
            assert(t.groups.contains(old_keys[i]));
            let h = choose|h: int| 0 <= h < t.groups.len() && t.groups[h] == key;
            assert(groups[h] == groups[g]);
        }
        lemma_no_group_rows(group_expr, key, rows);
        assert(before =~= seq![]);
        lemma_seen_fresh(f);
    }
}

/// A table after the columns of a batch.
proof fn lemma_table_columns(
    t: GroupsView,
    group_expr: Seq<ExprView>,
    aggs: Seq<AggregateView>,
    rows: Seq<Row>,
    more: Seq<Row>,
    keys: Seq<ArrayView>,
    columns: Seq<ArrayView>,
)
    requires
        more.len() <= usize::MAX,
        table_of(t, group_expr, aggs, rows),
        key_rows(keys, column_rows(keys)) == projected(group_expr, more),
        columns.len() == aggs.len(),
        forall|a: int|
            0 <= a < aggs.len() ==> {
                &&& (#[trigger] columns[a]).values.len() == more.len()
                &&& forall|i: int|
                    0 <= i < more.len() ==> #[trigger] columns[a].values[i] == argument_on(
                        aggs[a],
                        more[i],
                    )
            },
        fold_batch(t, keys, columns) is Ok,
    ensures
        table_of(fold_batch(t, keys, columns)->Ok_0, group_expr, aggs, rows + more),
{
    let t2 = fold_batch(t, keys, columns)->Ok_0;
    let found = projected(group_expr, more);
    let groups = add_groups(t.groups, found);
    assert(groups == group_keys(group_expr, rows + more)) by {
        let old_keys = projected(group_expr, rows);
        assert(projected(group_expr, rows + more) =~= old_keys + found);
        lemma_add_groups_concat(seq![], old_keys, found);
    }
    let states = widen_states(t.states, t.factories, groups.len());
    lemma_fold_aggregates(states, columns, found, groups, states.len());
    assert(t2.states == fold_aggregates(states, columns, found, groups, states.len())->Ok_0);
    assert forall|a: int| 0 <= a < aggs.len() implies fold_groups(
        states[a],
        columns[a],
        found,
        groups,
        groups.len(),
    ) == Ok::<Seq<AccumulatorView>, ErrorKind>(#[trigger] t2.states[a]) && t2.states[a].len()
        == groups.len() by {
        assert(fold_groups(states[a], columns[a], found, groups, groups.len()) == Ok::<
            Seq<AccumulatorView>,
            ErrorKind,
        >(t2.states[a]));
        lemma_fold_groups(states[a], columns[a], found, groups, groups.len());
    }
    assert forall|a: int, g: int| 0 <= a < aggs.len() && 0 <= g < groups.len() implies seen(
        #[trigger] t2.states[a][g],
        factory_of(aggs[a]),
        arguments_on(aggs[a], group_rows(group_expr, groups[g], rows + more)),
    ) by {
        assert(fold_groups(states[a], columns[a], found, groups, groups.len()) == Ok::<
            Seq<AccumulatorView>,
            ErrorKind,
        >(t2.states[a]));
        lemma_fold_groups(states[a], columns[a], found, groups, groups.len());
        assert(fold_group(states[a][g], columns[a], found, groups[g]) == Ok::<
            AccumulatorView,
            ErrorKind,
        >(t2.states[a][g]));
        lemma_widened(t, group_expr, aggs, rows, found, a, g);
        lemma_state_batch(group_expr, aggs[a], states[a][g], groups[g], rows, more, columns[a]);
    }
}

/// A table after one more batch.
proof fn lemma_table_batch(
    t: GroupsView,
    group_expr: Seq<ExprView>,
    args: Seq<Option<PhysicalExprView>>,
    aggs: Seq<AggregateView>,
    rows: Seq<Row>,
    b: BatchView,
)
    requires
        b.wf(),
        0 < b.num_rows <= usize::MAX,
        group_expr.len() > 0,
        table_of(t, group_expr, aggs, rows),
        arguments_of(args, aggs),
        physical_all(group_expr, group_expr.len()) is Ok,
        argument_columns(args, b, args.len()) is Ok,
        eval_all(physical_all(group_expr, group_expr.len())->Ok_0, b, group_expr.len()) is Ok,
        fold_batch(
            t,
            eval_all(physical_all(group_expr, group_expr.len())->Ok_0, b, group_expr.len())->Ok_0,
            argument_columns(args, b, args.len())->Ok_0,
        ) is Ok,
    ensures
        table_of(
            fold_batch(
                t,
                eval_all(
                    physical_all(group_expr, group_expr.len())->Ok_0,
                    b,
                    group_expr.len(),
                )->Ok_0,
                argument_columns(args, b, args.len())->Ok_0,
            )->Ok_0,
            group_expr,
            aggs,
            rows + b.rows(),
        ),
        all_defined(group_expr, b.rows()),
        arguments_defined(aggs, b.rows()),
{
    let keys = eval_all(
        physical_all(group_expr, group_expr.len())->Ok_0,
        b,
        group_expr.len(),
    )->Ok_0;
    let columns = argument_columns(args, b, args.len())->Ok_0;
    let more = b.rows();
    lemma_eval_all(group_expr, b, group_expr.len());
    lemma_key_rows(group_expr, b);
    lemma_argument_columns(args, aggs, b, args.len());
    assert(column_rows(keys) == b.num_rows) by {
        assert(keys[0].values.len() == b.num_rows);
    }
    let found = key_rows(keys, b.num_rows);
    assert(found =~= projected(group_expr, more)) by {
        assert forall|i: int| 0 <= i < b.num_rows implies found[i] == projected(
            group_expr,
            more,
        )[i] by {
            assert(row_of(keys, i) == values_on(group_expr, more[i]));
        }
    }
    assert forall|a: int| 0 <= a < aggs.len() implies {
        &&& (#[trigger] columns[a]).values.len() == more.len()
        &&& forall|i: int|
            0 <= i < more.len() ==> #[trigger] columns[a].values[i] == argument_on(aggs[a], more[i])
    } by {}
    lemma_table_columns(t, group_expr, aggs, rows, more, keys, columns);
}

proof fn lemma_arguments_concat(aggs: Seq<AggregateView>, a: Seq<Row>, b: Seq<Row>)
    requires
        arguments_defined(aggs, a),
        arguments_defined(aggs, b),
    ensures
        arguments_defined(aggs, a + b),
{
    let all = a + b;
    assert forall|k: int, i: int| 0 <= k < aggs.len() && 0 <= i < all.len() implies argument_defined(
        #[trigger] aggs[k],
        #[trigger] all[i],
    ) by {
        if i < a.len() {
            assert(all[i] == a[i]);
        } else {
            assert(all[i] == b[i - a.len()]);
        }
    }
}

proof fn lemma_groups_after(
    group_expr: Seq<ExprView>,
    args: Seq<Option<PhysicalExprView>>,
    aggs: Seq<AggregateView>,
    start: GroupsView,
    items: Seq<Result<BatchView, ErrorKind>>,
)
    requires
        group_expr.len() > 0,
        tidy(items),
        arguments_of(args, aggs),
        physical_all(group_expr, group_expr.len()) is Ok,
        table_of(start, group_expr, aggs, seq![]),
        groups_after(
            physical_all(group_expr, group_expr.len())->Ok_0,
            args,
            start,
            items,
        ) is Ok,
    ensures
        flawless(items),
        all_defined(group_expr, stream_rows(items)),
        arguments_defined(aggs, stream_rows(items)),
        table_of(
            groups_after(
                physical_all(group_expr, group_expr.len())->Ok_0,
                args,
                start,
                items,
            )->Ok_0,
            group_expr,
            aggs,
            stream_rows(items),
        ),
    decreases items.len(),
{
    let xs = physical_all(group_expr, group_expr.len())->Ok_0;
    if items.len() == 0 {
        assert(stream_rows(items) =~= seq![]);
    } else {
        let rest = items.drop_last();
        assert forall|i: int| 0 <= i < rest.len() implies ((#[trigger] rest[i]) matches Ok(b)
            ==> b.wf() && b.num_rows <= usize::MAX) by {
            assert(rest[i] == items[i]);
        }
        lemma_groups_after(group_expr, args, aggs, start, rest);
        lemma_physical_all(group_expr, group_expr.len());
        let t = groups_after(xs, args, start, rest)->Ok_0;
        assert(items[items.len() - 1] is Ok);
        let b = items.last()->Ok_0;
        assert forall|i: int| 0 <= i < items.len() implies (#[trigger] items[i]) is Ok by {
            if i < rest.len() {
                assert(rest[i] == items[i]);
            }
        }
        assert(items =~= rest + seq![items.last()]);
        lemma_stream_rows_concat(rest, seq![items.last()]);
        lemma_stream_rows_one(items.last());
        let before = stream_rows(rest);
        let all = stream_rows(items);
        assert(all == before + b.rows());
        if b.num_rows == 0 {
            assert(all =~= before);
        } else {
            lemma_table_batch(t, group_expr, args, aggs, before, b);
            assert forall|i: int, j: int| 0 <= i < all.len() && 0 <= j < group_expr.len() implies
                #[trigger] eval(group_expr[j], all[i]) is Ok by {
                if i < before.len() {
                    assert(all[i] == before[i]);
                } else {
                    assert(all[i] == b.rows()[i - before.len()]);
                }
            }
            lemma_arguments_concat(aggs, before, b.rows());
        }
    }
}

// ---------------------------------------------------------------------------
// The outputs

proof fn lemma_outputs(states: Seq<AccumulatorView>, n: nat)
    requires
        outputs(states, n) is Ok,
    ensures
        outputs(states, n)->Ok_0.len() == n,
        forall|g: int|
            0 <= g < n ==> aggregate_output(states[g]) == Ok::<(DataType, ValueView), ErrorKind>(
                #[trigger] outputs(states, n)->Ok_0[g],
            ),
    decreases n,
{
    if n > 0 {
        let m = (n - 1) as nat;
        lemma_outputs(states, m);
        let before = outputs(states, m)->Ok_0;
        let all = outputs(states, n)->Ok_0;
        assert forall|g: int| 0 <= g < n implies aggregate_output(states[g]) == Ok::<
            (DataType, ValueView),
            ErrorKind,
        >(#[trigger] all[g]) by {
            if g < m {
                assert(all[g] == before[g]);
            }
        }
    }
}

proof fn lemma_all_outputs(states: Seq<Seq<AccumulatorView>>, n: nat)
    requires
        all_outputs(states, n) is Ok,
    ensures
        all_outputs(states, n)->Ok_0.len() == n,
        forall|a: int|
            0 <= a < n ==> outputs(states[a], states[a].len()) == Ok::<
                Seq<(DataType, ValueView)>,
                ErrorKind,
            >(#[trigger] all_outputs(states, n)->Ok_0[a]),
    decreases n,
{
    if n > 0 {
        let m = (n - 1) as nat;
        lemma_all_outputs(states, m);
        let before = all_outputs(states, m)->Ok_0;
        let all = all_outputs(states, n)->Ok_0;
        assert forall|a: int| 0 <= a < n implies outputs(states[a], states[a].len()) == Ok::<
            Seq<(DataType, ValueView)>,
            ErrorKind,
        >(#[trigger] all[a]) by {
            if a < m {
                assert(all[a] == before[a]);
            }
        }
    }
}

/// Every key is the key of some row.
pub proof fn lemma_keys_of_rows(group_expr: Seq<ExprView>, rows: Seq<Row>)
    ensures
        forall|g: int|
            0 <= g < group_keys(group_expr, rows).len() ==> projected(group_expr, rows).contains(
                #[trigger] group_keys(group_expr, rows)[g],
            ),
{
    lemma_added_groups(projected(group_expr, rows));
}

proof fn lemma_added_groups(rows: Seq<Row>)
    ensures
        forall|g: int|
            0 <= g < add_groups(seq![], rows).len() ==> rows.contains(
                #[trigger] add_groups(seq![], rows)[g],
            ),
    decreases rows.len(),
{
    if rows.len() > 0 {
        let rest = rows.drop_last();
        lemma_added_groups(rest);
        let before = add_groups(seq![], rest);
        let all = add_groups(seq![], rows);
        assert forall|g: int| 0 <= g < all.len() implies rows.contains(#[trigger] all[g]) by {
            if g < before.len() {
                assert(all[g] == before[g]);
                assert(rest.contains(before[g]));
                let i = choose|i: int| 0 <= i < rest.len() && rest[i] == before[g];
                assert(rows[i] == all[g]);
            } else {
                assert(rows[rows.len() - 1] == all[g]);
            }
        }
    }
}

/// The rows of a finished table.
proof fn lemma_table_rows(
    t: GroupsView,
    group_expr: Seq<ExprView>,
    aggs: Seq<AggregateView>,
    rows: Seq<Row>,
    schema: Seq<FieldView>,
)
    requires
        group_expr.len() > 0,
        table_of(t, group_expr, aggs, rows),
        all_outputs(t.states, t.states.len()) is Ok,
        group_columns(t, all_outputs(t.states, t.states.len())->Ok_0, schema) is Ok,
        columns_fit(
            schema,
            group_columns(t, all_outputs(t.states, t.states.len())->Ok_0, schema)->Ok_0,
        ),
    ensures
        group_expr.len() <= schema.len() <= group_expr.len() + aggs.len(),
        batch_of(
            schema,
            group_columns(t, all_outputs(t.states, t.states.len())->Ok_0, schema)->Ok_0,
        ).rows() == grouped_rows(
            group_expr,
            aggs,
            (schema.len() - group_expr.len()) as nat,
            rows,
        ),
{
    let outs = all_outputs(t.states, t.states.len())->Ok_0;
    let columns = group_columns(t, outs, schema)->Ok_0;
    let b = batch_of(schema, columns);
    let w = group_expr.len() as int;
    let n = (schema.len() - group_expr.len()) as nat;
    let keys = group_keys(group_expr, rows);
    lemma_all_outputs(t.states, t.states.len());
    lemma_keys_of_rows(group_expr, rows);
    assert(columns[0] == group_column(t, 0));
    assert(b.num_rows == keys.len());
    let all = grouped_rows(group_expr, aggs, n, rows);
    assert forall|g: int| 0 <= g < keys.len() implies #[trigger] b.rows()[g] == all[g] by {
        assert(b.rows()[g] == b.row(g));
        assert(projected(group_expr, rows).contains(keys[g]));
        assert(keys[g].len() == w);
        assert forall|c: int| 0 <= c < schema.len() implies b.row(g)[c] == all[g][c] by {
            if c < w {
                assert(columns[c] == group_column(t, c));
            } else {
                let a = c - w;
                assert(columns[c].values == untyped(outs[a]));
                assert(outputs(t.states[a], t.states[a].len()) == Ok::<
                    Seq<(DataType, ValueView)>,
                    ErrorKind,
                >(outs[a]));
                lemma_outputs(t.states[a], t.states[a].len());
                assert(aggregate_output(t.states[a][g]) == Ok::<(DataType, ValueView), ErrorKind>(
                    outs[a][g],
                ));
                lemma_seen_output(
                    t.states[a][g],
                    factory_of(aggs[a]),
                    arguments_on(aggs[a], group_rows(group_expr, keys[g], rows)),
                );
            }
        }
        assert(b.row(g) =~= all[g]);
    }
    assert(b.rows() =~= all);
}

/// Whether the arguments of aggregates have types.
pub open spec fn arguments_typed(aggs: Seq<AggregateView>) -> bool {
    forall|a: int|
        0 <= a < aggs.len() ==> ((#[trigger] aggs[a]).arg matches Some(e) ==> expr_type(e) is Some)
}

proof fn lemma_arguments_typed(args: Seq<Option<PhysicalExprView>>, aggs: Seq<AggregateView>)
    requires
        arguments_of(args, aggs),
    ensures
        arguments_typed(aggs),
{
    assert forall|a: int| 0 <= a < aggs.len() implies ((#[trigger] aggs[a]).arg matches Some(e)
        ==> expr_type(e) is Some) by {
        assert(physical_argument(aggs[a]) is Ok);
    }
}

/// What running an aggregation with grouping columns gives.
proof fn lemma_grouped_items(
    input: PlanView,
    group_expr: Seq<ExprView>,
    aggr_expr: Seq<AggregateView>,
    schema: Seq<FieldView>,
) -> (b: BatchView)
    requires
        group_expr.len() > 0,
        runs_tidily(input),
        items_of(
            PlanView::Aggregate { input: Box::new(input), group_expr, aggr_expr, schema },
        ) is Some,
    ensures
        delivered(input) is Some,
        all_defined(group_expr, delivered(input)->Some_0),
        arguments_typed(aggr_expr),
        arguments_defined(aggr_expr, delivered(input)->Some_0),
        group_expr.len() <= schema.len() <= group_expr.len() + aggr_expr.len(),
        items_of(
            PlanView::Aggregate { input: Box::new(input), group_expr, aggr_expr, schema },
        ) == Some(seq![Ok::<BatchView, ErrorKind>(b)]),
        b.wf(),
        b.rows() == grouped_rows(
            group_expr,
            aggr_expr,
            (schema.len() - group_expr.len()) as nat,
            delivered(input)->Some_0,
        ),
{
    let p = PlanView::Aggregate { input: Box::new(input), group_expr, aggr_expr, schema };
    reveal(items_of);
    assert(exec_of(p) is Ok);
    assert(exec_of(input) is Ok);
    let child = exec_of(input)->Ok_0;
    assert(physical_all(group_expr, group_expr.len()) is Ok);
    let xs = physical_all(group_expr, group_expr.len())->Ok_0;
    lemma_physical_all(group_expr, group_expr.len());
    assert(types_all(group_expr, group_expr.len()) is Ok);
    let types = types_all(group_expr, group_expr.len())->Ok_0;
    lemma_types_all(group_expr, group_expr.len());
    assert(physical_arguments(aggr_expr, aggr_expr.len()) is Ok);
    let pairs = physical_arguments(aggr_expr, aggr_expr.len())->Ok_0;
    lemma_physical_arguments(aggr_expr, aggr_expr.len());
    let args = Seq::new(pairs.len(), |i: int| pairs[i].0);
    let kinds = Seq::new(aggr_expr.len(), |i: int| aggr_expr[i].kind);
    let arg_types = Seq::new(pairs.len(), |i: int| pairs[i].1);
    assert(exec_of(p)->Ok_0 == (ExecView::Aggregate {
        input: Box::new(child),
        group_exprs: xs,
        group_types: types,
        agg_args: args,
        agg_kinds: kinds,
        agg_arg_types: arg_types,
        schema,
    }));
    assert(run(child, 0) is Ok);
    let items = run(child, 0)->Ok_0;
    assert(items_of(input) == Some(items));
    let factories = aggregate_factories(kinds, arg_types, args);
    let start = no_groups(types, factories);
    assert(groups_after(xs, args, start, items) is Ok);
    let t = groups_after(xs, args, start, items)->Ok_0;
    assert(arguments_of(args, aggr_expr));
    lemma_arguments_typed(args, aggr_expr);
    lemma_factories(kinds, arg_types, args, aggr_expr);
    assert(table_of(start, group_expr, aggr_expr, seq![])) by {
        assert(projected(group_expr, seq![]) =~= seq![]);
        assert(group_keys(group_expr, seq![]) =~= seq![]);
    }
    lemma_groups_after(group_expr, args, aggr_expr, start, items);
    let rows = stream_rows(items);
    lemma_table_rows(t, group_expr, aggr_expr, rows, schema);
    let columns = group_columns(t, all_outputs(t.states, t.states.len())->Ok_0, schema)->Ok_0;
    let item = Ok::<BatchView, ErrorKind>(batch_of(schema, columns));
    assert(items_of(p)->Some_0 =~= seq![item]);
    batch_of(schema, columns)
}

/// An aggregation with grouping columns delivers one row for each of their
/// combinations, in the order in which they come up: the combination, and the
/// aggregates of the rows that have it.
pub proof fn aggregations_deliver_a_row_for_each_group(
    input: PlanView,
    group_expr: Seq<ExprView>,
    aggr_expr: Seq<AggregateView>,
    schema: Seq<FieldView>,
)
    requires
        group_expr.len() > 0,
        runs_tidily(input),
        delivered(
            PlanView::Aggregate { input: Box::new(input), group_expr, aggr_expr, schema },
        ) is Some,
    ensures
        delivered(input) is Some,
        all_defined(group_expr, delivered(input)->Some_0),
        arguments_typed(aggr_expr),
        arguments_defined(aggr_expr, delivered(input)->Some_0),
        group_expr.len() <= schema.len() <= group_expr.len() + aggr_expr.len(),
        delivered(
            PlanView::Aggregate { input: Box::new(input), group_expr, aggr_expr, schema },
        ) == Some(
            grouped_rows(
                group_expr,
                aggr_expr,
                (schema.len() - group_expr.len()) as nat,
                delivered(input)->Some_0,
            ),
        ),
{
    let b = lemma_grouped_items(input, group_expr, aggr_expr, schema);
    lemma_stream_rows_one(Ok::<BatchView, ErrorKind>(b));
}

/// The one batch of an aggregation has no more rows than its input.
pub proof fn lemma_aggregation_runs_tidily(
    input: PlanView,
    group_expr: Seq<ExprView>,
    aggr_expr: Seq<AggregateView>,
    schema: Seq<FieldView>,
)
    requires
        group_expr.len() > 0,
        runs_tidily(input),
        delivered(input) matches Some(rows) ==> rows.len() <= usize::MAX,
    ensures
        runs_tidily(
            PlanView::Aggregate { input: Box::new(input), group_expr, aggr_expr, schema },
        ),
{
    let p = PlanView::Aggregate { input: Box::new(input), group_expr, aggr_expr, schema };
    if items_of(p) is Some {
        let b = lemma_grouped_items(input, group_expr, aggr_expr, schema);
        lemma_add_groups(
            Seq::<Row>::empty(),
            projected(group_expr, delivered(input)->Some_0),
        );
        assert(b.rows().len() == b.num_rows);
    }
}

proof fn lemma_types_all(exprs: Seq<ExprView>, n: nat)
    requires
        types_all(exprs, n) is Ok,
    ensures
        types_all(exprs, n)->Ok_0.len() == n,
    decreases n,
{
    if n > 0 {
        lemma_types_all(exprs, (n - 1) as nat);
    }
}

/// The accumulators of the operator are those of the aggregates.
proof fn lemma_factories(
    kinds: Seq<AggregateKind>,
    types: Seq<DataType>,
    args: Seq<Option<PhysicalExprView>>,
    aggs: Seq<AggregateView>,
)
    requires
        arguments_of(args, aggs),
        kinds.len() == aggs.len(),
        types.len() == aggs.len(),
        forall|i: int| 0 <= i < aggs.len() ==> #[trigger] kinds[i] == aggs[i].kind,
        forall|i: int|
            0 <= i < aggs.len() ==> #[trigger] types[i] == physical_argument(aggs[i])->Ok_0.1,
    ensures
        aggregate_factories(kinds, types, args) == Seq::new(
            aggs.len(),
            |a: int| factory_of(aggs[a]),
        ),
{
    let f = aggregate_factories(kinds, types, args);
    assert forall|i: int| 0 <= i < aggs.len() implies f[i] == factory_of(aggs[i]) by {
        assert(physical_argument(aggs[i]) is Ok);
        assert(kinds[i] == aggs[i].kind);
        assert(types[i] == physical_argument(aggs[i])->Ok_0.1);
    }
    assert(f =~= Seq::new(aggs.len(), |a: int| factory_of(aggs[a])));
}

// ---------------------------------------------------------------------------
// Aggregations of all rows

proof fn lemma_flat_update(states: Seq<AccumulatorView>, columns: Seq<ArrayView>, n: nat)
    requires
        flat_update(states, columns, n) is Ok,
    ensures
        flat_update(states, columns, n)->Ok_0.len() == n,
        forall|a: int|
            0 <= a < n ==> accumulate(states[a], columns[a]) == Ok::<AccumulatorView, ErrorKind>(
                #[trigger] flat_update(states, columns, n)->Ok_0[a],
            ),
    decreases n,
{
    if n > 0 {
        let m = (n - 1) as nat;
        lemma_flat_update(states, columns, m);
        let before = flat_update(states, columns, m)->Ok_0;
        let all = flat_update(states, columns, n)->Ok_0;
        assert forall|a: int| 0 <= a < n implies accumulate(states[a], columns[a]) == Ok::<
            AccumulatorView,
            ErrorKind,
        >(#[trigger] all[a]) by {
            if a < m {
                assert(all[a] == before[a]);
            }
        }
    }
}

/// Whether states are those of aggregates after rows.
spec fn all_seen(
    states: Seq<AccumulatorView>,
    aggs: Seq<AggregateView>,
    rows: Seq<Row>,
) -> bool {
    &&& states.len() == aggs.len()
    &&& forall|a: int|
        0 <= a < aggs.len() ==> seen(
            #[trigger] states[a],
            factory_of(aggs[a]),
            arguments_on(aggs[a], rows),
        )
}

proof fn lemma_flat_after(
    args: Seq<Option<PhysicalExprView>>,
    aggs: Seq<AggregateView>,
    start: Seq<AccumulatorView>,
    items: Seq<Result<BatchView, ErrorKind>>,
)
    requires
        tidy(items),
        arguments_of(args, aggs),
        all_seen(start, aggs, seq![]),
        flat_after(args, start, items) is Ok,
    ensures
        flawless(items),
        all_seen(flat_after(args, start, items)->Ok_0, aggs, stream_rows(items)),
        arguments_defined(aggs, stream_rows(items)),
    decreases items.len(),
{
    if items.len() == 0 {
        assert(stream_rows(items) =~= seq![]);
    } else {
        let rest = items.drop_last();
        assert forall|i: int| 0 <= i < rest.len() implies ((#[trigger] rest[i]) matches Ok(b)
            ==> b.wf() && b.num_rows <= usize::MAX) by {
            assert(rest[i] == items[i]);
        }
        lemma_flat_after(args, aggs, start, rest);
        let states = flat_after(args, start, rest)->Ok_0;
        assert(items[items.len() - 1] is Ok);
        let b = items.last()->Ok_0;
        assert forall|i: int| 0 <= i < items.len() implies (#[trigger] items[i]) is Ok by {
            if i < rest.len() {
                assert(rest[i] == items[i]);
            }
        }
        assert(items =~= rest + seq![items.last()]);
        lemma_stream_rows_concat(rest, seq![items.last()]);
        lemma_stream_rows_one(items.last());
        let before = stream_rows(rest);
        let all = stream_rows(items);
        assert(all == before + b.rows());
        if b.num_rows == 0 {
            assert(all =~= before);
        } else {
            let columns = argument_columns(args, b, args.len())->Ok_0;
            let next = flat_update(states, columns, states.len())->Ok_0;
            lemma_argument_columns(args, aggs, b, args.len());
            lemma_arguments_concat(aggs, before, b.rows());
            lemma_flat_update(states, columns, states.len());
            assert forall|a: int| 0 <= a < aggs.len() implies seen(
                #[trigger] next[a],
                factory_of(aggs[a]),
                arguments_on(aggs[a], all),
            ) by {
                let column = columns[a];
                assert(accumulate(states[a], column) == Ok::<AccumulatorView, ErrorKind>(next[a]));
                lemma_seen_more(
                    states[a],
                    factory_of(aggs[a]),
                    arguments_on(aggs[a], before),
                    column,
                );
                assert(arguments_on(aggs[a], before) + column.values =~= arguments_on(
                    aggs[a],
                    all,
                ));
            }
        }
    }
}

proof fn lemma_flat_columns(states: Seq<AccumulatorView>, schema: Seq<FieldView>, n: nat)
    requires
        flat_columns(states, schema, n) is Ok,
    ensures
        flat_columns(states, schema, n)->Ok_0.len() == n,
        forall|a: int|
            0 <= a < n ==> aggregate_output(states[a]) is Ok && (#[trigger] flat_columns(
                states,
                schema,
                n,
            )->Ok_0[a]).values == seq![aggregate_output(states[a])->Ok_0.1],
    decreases n,
{
    if n > 0 {
        let m = (n - 1) as nat;
        lemma_flat_columns(states, schema, m);
        let before = flat_columns(states, schema, m)->Ok_0;
        let all = flat_columns(states, schema, n)->Ok_0;
        assert forall|a: int| 0 <= a < n implies aggregate_output(states[a]) is Ok && (
        #[trigger] all[a]).values == seq![aggregate_output(states[a])->Ok_0.1] by {
            if a < m {
                assert(all[a] == before[a]);
            }
        }
    }
}

/// An aggregation without grouping columns delivers one row, whatever its
/// input holds: the aggregates of all rows.
pub proof fn aggregations_of_all_rows_deliver_one_row(
    input: PlanView,
    group_expr: Seq<ExprView>,
    aggr_expr: Seq<AggregateView>,
    schema: Seq<FieldView>,
)
    requires
        group_expr.len() == 0,
        schema.len() > 0,
        runs_tidily(input),
        delivered(
            PlanView::Aggregate { input: Box::new(input), group_expr, aggr_expr, schema },
        ) is Some,
    ensures
        delivered(input) is Some,
        arguments_typed(aggr_expr),
        arguments_defined(aggr_expr, delivered(input)->Some_0),
        schema.len() <= aggr_expr.len(),
        delivered(
            PlanView::Aggregate { input: Box::new(input), group_expr, aggr_expr, schema },
        ) == Some(
            seq![
                Seq::new(
                    schema.len(),
                    |a: int|
                        summary(
                            factory_of(aggr_expr[a]),
                            arguments_on(aggr_expr[a], delivered(input)->Some_0),
                        ),
                ),
            ],
        ),
{
    let p = PlanView::Aggregate { input: Box::new(input), group_expr, aggr_expr, schema };
    reveal(items_of);
    assert(exec_of(p) is Ok);
    assert(exec_of(input) is Ok);
    let child = exec_of(input)->Ok_0;
    assert(physical_all(group_expr, group_expr.len()) is Ok);
    let xs = physical_all(group_expr, group_expr.len())->Ok_0;
    assert(types_all(group_expr, group_expr.len()) is Ok);
    let types = types_all(group_expr, group_expr.len())->Ok_0;
    assert(physical_arguments(aggr_expr, aggr_expr.len()) is Ok);
    let pairs = physical_arguments(aggr_expr, aggr_expr.len())->Ok_0;
    lemma_physical_arguments(aggr_expr, aggr_expr.len());
    let args = Seq::new(pairs.len(), |i: int| pairs[i].0);
    let kinds = Seq::new(aggr_expr.len(), |i: int| aggr_expr[i].kind);
    let arg_types = Seq::new(pairs.len(), |i: int| pairs[i].1);
    assert(exec_of(p)->Ok_0 == (ExecView::Aggregate {
        input: Box::new(child),
        group_exprs: xs,
        group_types: types,
        agg_args: args,
        agg_kinds: kinds,
        agg_arg_types: arg_types,
        schema,
    }));
    assert(run(child, 0) is Ok);
    let items = run(child, 0)->Ok_0;
    assert(items_of(input) == Some(items));
    let factories = aggregate_factories(kinds, arg_types, args);
    let start = Seq::new(factories.len(), |i: int| fresh(factories[i]));
    assert(flat_after(args, start, items) is Ok);
    let states = flat_after(args, start, items)->Ok_0;
    assert(arguments_of(args, aggr_expr));
    lemma_arguments_typed(args, aggr_expr);
    lemma_factories(kinds, arg_types, args, aggr_expr);
    assert forall|a: int| 0 <= a < aggr_expr.len() implies seen(
        #[trigger] start[a],
        factory_of(aggr_expr[a]),
        arguments_on(aggr_expr[a], seq![]),
    ) by {
        lemma_seen_fresh(factory_of(aggr_expr[a]));
        assert(arguments_on(aggr_expr[a], seq![]) =~= seq![]);
    }
    lemma_flat_after(args, aggr_expr, start, items);
    let rows = stream_rows(items);
    let n = lesser(states.len(), schema.len());
    lemma_flat_columns(states, schema, n);
    let columns = flat_columns(states, schema, n)->Ok_0;
    let b = batch_of(schema, columns);
    let item = Ok::<BatchView, ErrorKind>(b);
    assert(items_of(p)->Some_0 =~= seq![item]);
    lemma_stream_rows_one(item);
    assert(columns[0].values.len() == 1);
    let row = Seq::new(
        schema.len(),
        |a: int| summary(factory_of(aggr_expr[a]), arguments_on(aggr_expr[a], rows)),
    );
    assert forall|a: int| 0 <= a < schema.len() implies b.row(0)[a] == row[a] by {
        assert(columns[a].values == seq![aggregate_output(states[a])->Ok_0.1]);
        lemma_seen_output(
            states[a],
            factory_of(aggr_expr[a]),
            arguments_on(aggr_expr[a], rows),
        );
    }
    assert(b.row(0) =~= row);
    assert(b.rows() =~= seq![row]);
}

} // verus!
