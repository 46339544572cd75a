//! What rewriting aggregations keeps. A condition on grouping columns lets whole
//! groups pass, so it may be asked of their rows.

use vstd::prelude::*;

use crate::error::ErrorKind;
use crate::expr::expr::{eval, evaluation_respects_types, expr_type, ExprView};
use crate::logical_plan::plan::{AggregateView, PlanView};
use crate::optimizer::join_laws::lemma_kept_all_push;
use crate::optimizer::laws::{
    agrees, kept_all, lemma_filtered, lemma_kept_count, lemma_kept_same, lemma_map_list,
    lemma_passes_push, lemma_simple_agrees, lemma_split_passes, plain_on, same_rows,
    tidy_throughout,
};
use crate::optimizer::rules::common::{
    conjunction, conjuncts, lemma_conjuncts_nonempty, map_argument, map_arguments, map_list, mapped,
    whole, with_columns, ExprMap,
};
use crate::optimizer::rules::constant_folding::{
    fold_step, folding_keeps_types, folding_keeps_values,
};
use crate::optimizer::rules::predicate_pushdown::{
    above, below, conjuncts_mean_the_same_below_columns, filtered, lemma_conjunction_passes,
    lemma_predicate_passes, passed_on, passes, passes_all, source_column, through_aggregate,
};
use crate::optimizer::rules::simplify_expressions::{
    simple, simplify_step, simplifying_keeps_values,
};
use crate::physical_plan::aggregate::accumulator::count_present;
use crate::physical_plan::aggregate::hash_table::add_groups;
use crate::physical_plan::aggregate::rows::{
    aggregations_deliver_a_row_for_each_group, aggregations_of_all_rows_deliver_one_row,
    argument_defined, arguments_defined, arguments_on, arguments_typed, factory_of, group_keys,
    group_row, group_rows, grouped_rows, lemma_aggregation_runs_tidily, lemma_keys_of_rows,
    rows_of_keys, summary,
};
use crate::physical_plan::rows::{
    all_defined, delivered, filters_deliver_the_rows_that_pass, kept, projected, runs_tidily,
    values_on, Row,
};
use crate::types::schema::FieldView;
use crate::types::value::ValueView;

verus! {

/// The keys that are kept, in order.
spec fn kept_keys(keep: spec_fn(Row) -> bool, keys: Seq<Row>) -> Seq<Row>
    decreases keys.len(),
{
    if keys.len() == 0 {
        seq![]
    } else {
        let before = kept_keys(keep, keys.drop_last());
        if keep(keys.last()) {
            before.push(keys.last())
        } else {
            before
        }
    }
}

/// Whether rows pass conditions exactly when their keys are kept.
spec fn keys_decide(
    keep: spec_fn(Row) -> bool,
    group_expr: Seq<ExprView>,
    moved: Seq<ExprView>,
    rows: Seq<Row>,
) -> bool {
    forall|i: int|
        0 <= i < rows.len() ==> keep(values_on(group_expr, #[trigger] rows[i])) == passes_all(
            moved,
            rows[i],
        )
}

proof fn lemma_keys_decide_rest(
    keep: spec_fn(Row) -> bool,
    group_expr: Seq<ExprView>,
    moved: Seq<ExprView>,
    rows: Seq<Row>,
)
    requires
        rows.len() > 0,
        keys_decide(keep, group_expr, moved, rows),
    ensures
        keys_decide(keep, group_expr, moved, rows.drop_last()),
        keep(values_on(group_expr, rows.last())) == passes_all(moved, rows.last()),
{
    let rest = rows.drop_last();
    assert forall|i: int| 0 <= i < rest.len() implies keep(
        values_on(group_expr, #[trigger] rest[i]),
    ) == passes_all(moved, rest[i]) by {
        assert(rest[i] == rows[i]);
    }
    assert(rows.last() == rows[rows.len() - 1]);
}

proof fn lemma_kept_keys_hold(keep: spec_fn(Row) -> bool, keys: Seq<Row>, key: Row)
    ensures
        kept_keys(keep, keys).contains(key) <==> keys.contains(key) && keep(key),
        forall|g: int| 0 <= g < kept_keys(keep, keys).len() ==> keep(#[trigger] kept_keys(keep, keys)[g]),
    decreases keys.len(),
{
    if keys.len() > 0 {
        let rest = keys.drop_last();
        let last = keys.last();
        lemma_kept_keys_hold(keep, rest, key);
        let before = kept_keys(keep, rest);
        let all = kept_keys(keep, keys);
        assert(keys =~= rest.push(last));
        lemma_push_contains(rest, last, key);
        lemma_push_contains(before, last, key);
        assert forall|g: int| 0 <= g < all.len() implies keep(#[trigger] all[g]) by {
            if g < before.len() {
                assert(all[g] == before[g]);
            }
        }
    }
}

proof fn lemma_push_contains(s: Seq<Row>, x: Row, key: Row)
    ensures
        s.push(x).contains(key) <==> s.contains(key) || x == key,
{
    let t = s.push(x);
    if s.contains(key) {
        let i = choose|i: int| 0 <= i < s.len() && s[i] == key;
        assert(t[i] == key);
    }
    if x == key {
        assert(t[s.len() as int] == key);
    }
}

/// The keys of the rows that pass are the keys that are kept.
proof fn lemma_keys_of_kept(
    keep: spec_fn(Row) -> bool,
    group_expr: Seq<ExprView>,
    moved: Seq<ExprView>,
    rows: Seq<Row>,
)
    requires
        keys_decide(keep, group_expr, moved, rows),
    ensures
        group_keys(group_expr, kept_all(moved, rows)) == kept_keys(
            keep,
            group_keys(group_expr, rows),
        ),
    decreases rows.len(),
{
    if rows.len() == 0 {
        assert(kept_all(moved, rows) =~= seq![]);
        assert(projected(group_expr, rows) =~= seq![]);
        assert(projected(group_expr, kept_all(moved, rows)) =~= seq![]);
    } else {
        let rest = rows.drop_last();
        let r = rows.last();
        let key = values_on(group_expr, r);
        lemma_keys_decide_rest(keep, group_expr, moved, rows);
        lemma_keys_of_kept(keep, group_expr, moved, rest);
        lemma_kept_all_push(moved, rows);
        let keys = projected(group_expr, rows);
        assert(keys.drop_last() =~= projected(group_expr, rest));
        assert(keys.last() == key);
        let before = group_keys(group_expr, rest);
        assert(before == add_groups(seq![], keys.drop_last()));
        lemma_kept_keys_hold(keep, before, key);
        assert(before.push(key).drop_last() =~= before);
        if passes_all(moved, r) {
            let low = projected(group_expr, kept_all(moved, rows));
            assert(low.drop_last() =~= projected(group_expr, kept_all(moved, rest)));
            assert(low.last() == key);
        }
    }
}

/// A kept group loses no row.
proof fn lemma_kept_group_rows(
    keep: spec_fn(Row) -> bool,
    group_expr: Seq<ExprView>,
    moved: Seq<ExprView>,
    rows: Seq<Row>,
    key: Row,
)
    requires
        keys_decide(keep, group_expr, moved, rows),
        keep(key),
    ensures
        group_rows(group_expr, key, kept_all(moved, rows)) == group_rows(group_expr, key, rows),
    decreases rows.len(),
{
    if rows.len() == 0 {
        assert(kept_all(moved, rows) =~= seq![]);
    } else {
        let rest = rows.drop_last();
        lemma_keys_decide_rest(keep, group_expr, moved, rows);
        lemma_kept_group_rows(keep, group_expr, moved, rest, key);
        lemma_kept_all_push(moved, rows);
        if passes_all(moved, rows.last()) {
            assert(kept_all(moved, rows).drop_last() =~= kept_all(moved, rest));
        }
    }
}

/// Of the rows of groups, the split filter lets the same pass.
proof fn lemma_kept_of_keys(
    keep: spec_fn(Row) -> bool,
    predicate: ExprView,
    stays: Seq<ExprView>,
    group_expr: Seq<ExprView>,
    aggr_expr: Seq<AggregateView>,
    n: nat,
    keys: Seq<Row>,
    rows: Seq<Row>,
)
    requires
        forall|g: int|
            0 <= g < keys.len() ==> {
                let row = group_row(group_expr, aggr_expr, n, #[trigger] keys[g], rows);
                passes(predicate, row) <==> keep(keys[g]) && passes_all(stays, row)
            },
    ensures
        kept(predicate, rows_of_keys(group_expr, aggr_expr, n, keys, rows)) == kept_all(
            stays,
            rows_of_keys(group_expr, aggr_expr, n, kept_keys(keep, keys), rows),
        ),
    decreases keys.len(),
{
    let all = rows_of_keys(group_expr, aggr_expr, n, keys, rows);
    if keys.len() == 0 {
        assert(all =~= seq![]);
        assert(rows_of_keys(group_expr, aggr_expr, n, kept_keys(keep, keys), rows) =~= seq![]);
        assert(kept_all(stays, seq![]) =~= seq![]);
    } else {
        let rest = keys.drop_last();
        let key = keys.last();
        let row = group_row(group_expr, aggr_expr, n, key, rows);
        assert forall|g: int| 0 <= g < rest.len() implies {
            let row = group_row(group_expr, aggr_expr, n, #[trigger] rest[g], rows);
            passes(predicate, row) <==> keep(rest[g]) && passes_all(stays, row)
        } by {
            assert(rest[g] == keys[g]);
        }
        lemma_kept_of_keys(
            keep,
            predicate,
            stays,
            group_expr,
            aggr_expr,
            n,
            rest,
            rows,
        );
        assert(key == keys[keys.len() - 1]);
        assert(all.drop_last() =~= rows_of_keys(group_expr, aggr_expr, n, rest, rows));
        assert(all.last() == row);
        let before = kept_keys(keep, rest);
        if keep(key) {
            let low = rows_of_keys(group_expr, aggr_expr, n, before.push(key), rows);
            assert(low.drop_last() =~= rows_of_keys(group_expr, aggr_expr, n, before, rows));
            assert(low.last() == row);
            lemma_kept_all_push(stays, low);
        }
    }
}

/// Rows with the same key pass the same of the conjuncts that move.
proof fn lemma_moved_by_key(
    s: Seq<ExprView>,
    group_expr: Seq<ExprView>,
    a: Row,
    b: Row,
    n: nat,
)
    requires
        n <= s.len(),
        values_on(group_expr, a) == values_on(group_expr, b),
        forall|i: int| 0 <= i < group_expr.len() ==> eval(#[trigger] group_expr[i], a) is Ok,
        forall|i: int| 0 <= i < group_expr.len() ==> eval(#[trigger] group_expr[i], b) is Ok,
    ensures
        passes_all(below(s, group_expr, n), a) == passes_all(below(s, group_expr, n), b),
    decreases n,
{
    if n > 0 {
        let m = (n - 1) as nat;
        lemma_moved_by_key(s, group_expr, a, b, m);
        let c = s[m as int];
        if passed_on(c, group_expr) {
            let key = values_on(group_expr, a);
            let moved = with_columns(c, source_column(group_expr));
            assert forall|i: int| 0 <= i < group_expr.len() implies eval(
                #[trigger] group_expr[i],
                b,
            ) == Ok::<ValueView, ErrorKind>(key[i]) by {
                assert(values_on(group_expr, b)[i] == key[i]);
            }
            conjuncts_mean_the_same_below_columns(c, group_expr, a, key);
            conjuncts_mean_the_same_below_columns(c, group_expr, b, key);
            lemma_passes_push(below(s, group_expr, m), moved, a);
            lemma_passes_push(below(s, group_expr, m), moved, b);
        }
    }
}

/// Keeping rows before they are grouped, and groups after, by the split filter
/// is keeping groups by the filter.
proof fn lemma_kept_groups(
    predicate: ExprView,
    group_expr: Seq<ExprView>,
    aggr_expr: Seq<AggregateView>,
    n: nat,
    rows: Seq<Row>,
)
    requires
        all_defined(group_expr, rows),
    ensures
        ({
            let s = conjuncts(predicate);
            kept(predicate, grouped_rows(group_expr, aggr_expr, n, rows)) == kept_all(
                above(s, group_expr, s.len()),
                grouped_rows(
                    group_expr,
                    aggr_expr,
                    n,
                    kept_all(below(s, group_expr, s.len()), rows),
                ),
            )
        }),
{
    let s = conjuncts(predicate);
    let moved = below(s, group_expr, s.len());
    let stays = above(s, group_expr, s.len());
    let keep = |key: Row|
        exists|i: int|
            0 <= i < rows.len() && values_on(group_expr, #[trigger] rows[i]) == key && passes_all(
                moved,
                rows[i],
            );
    assert(keys_decide(keep, group_expr, moved, rows)) by {
        assert forall|j: int| 0 <= j < rows.len() implies keep(
            values_on(group_expr, #[trigger] rows[j]),
        ) == passes_all(moved, rows[j]) by {
            if keep(values_on(group_expr, rows[j])) {
                let i = choose|i: int|
                    0 <= i < rows.len() && values_on(group_expr, #[trigger] rows[i]) == values_on(
                        group_expr,
                        rows[j],
                    ) && passes_all(moved, rows[i]);
                lemma_moved_by_key(s, group_expr, rows[i], rows[j], s.len());
            }
        }
    }
    let keys = group_keys(group_expr, rows);
    lemma_keys_of_rows(group_expr, rows);
    assert forall|g: int| 0 <= g < keys.len() implies {
        let row = group_row(group_expr, aggr_expr, n, #[trigger] keys[g], rows);
        passes(predicate, row) <==> keep(keys[g]) && passes_all(stays, row)
    } by {
        let row = group_row(group_expr, aggr_expr, n, keys[g], rows);
        assert(projected(group_expr, rows).contains(keys[g]));
        let i = choose|i: int| 0 <= i < rows.len() && projected(group_expr, rows)[i] == keys[g];
        let r = rows[i];
        assert(values_on(group_expr, r) == keys[g]);
        assert forall|j: int| 0 <= j < group_expr.len() implies eval(#[trigger] group_expr[j], r)
            == Ok::<ValueView, ErrorKind>(row[j]) by {
            assert(eval(group_expr[j], rows[i]) is Ok);
            assert(keys[g][j] == values_on(group_expr, r)[j]);
        }
        lemma_split_passes(s, group_expr, r, row, s.len());
        assert(s.take(s.len() as int) =~= s);
        lemma_predicate_passes(predicate, row);
    }
    lemma_kept_of_keys(keep, predicate, stays, group_expr, aggr_expr, n, keys, rows);
    lemma_keys_of_kept(keep, group_expr, moved, rows);
    let fewer = kept_keys(keep, keys);
    let low = kept_all(moved, rows);
    assert(rows_of_keys(group_expr, aggr_expr, n, fewer, rows) =~= rows_of_keys(
        group_expr,
        aggr_expr,
        n,
        fewer,
        low,
    )) by {
        assert forall|g: int| 0 <= g < fewer.len() implies group_row(
            group_expr,
            aggr_expr,
            n,
            #[trigger] fewer[g],
            rows,
        ) == group_row(group_expr, aggr_expr, n, fewer[g], low) by {
            lemma_kept_keys_hold(keep, keys, fewer[g]);
            lemma_kept_group_rows(keep, group_expr, moved, rows, fewer[g]);
        }
    }
}

/// Conjuncts moved below an aggregation leave the same rows in the same order.
pub proof fn filters_moved_below_aggregations_keep_rows(
    input: PlanView,
    group_expr: Seq<ExprView>,
    aggr_expr: Seq<AggregateView>,
    schema: Seq<FieldView>,
    predicate: ExprView,
)
    requires
        tidy_throughout(
            PlanView::Aggregate { input: Box::new(input), group_expr, aggr_expr, schema },
        ),
        delivered(input) matches Some(rows) ==> rows.len() <= usize::MAX,
    ensures
        same_rows(
            PlanView::Filter {
                input: Box::new(
                    PlanView::Aggregate {
                        input: Box::new(input),
                        group_expr,
                        aggr_expr,
                        schema,
                    },
                ),
                predicate,
            },
            through_aggregate(input, group_expr, aggr_expr, schema, predicate).node,
        ),
{
    let s = conjuncts(predicate);
    let high = PlanView::Aggregate { input: Box::new(input), group_expr, aggr_expr, schema };
    let p = PlanView::Filter { input: Box::new(high), predicate };
    let q = through_aggregate(input, group_expr, aggr_expr, schema, predicate).node;
    assert(tidy_throughout(input));
    if delivered(p) is Some && delivered(q) is Some {
        filters_deliver_the_rows_that_pass(high, predicate);
        if group_expr.len() == 0 {
            lemma_conjuncts_nonempty(predicate);
            filters_deliver_the_rows_that_pass(high, conjunction(s));
            let rows = delivered(high)->Some_0;
            assert forall|i: int| 0 <= i < rows.len() implies passes(
                predicate,
                #[trigger] rows[i],
            ) == passes(conjunction(s), rows[i]) by {
                lemma_predicate_passes(predicate, rows[i]);
                lemma_conjunction_passes(s, rows[i]);
            }
            lemma_kept_same(predicate, conjunction(s), rows);
        } else {
            let moved = below(s, group_expr, s.len());
            let stays = above(s, group_expr, s.len());
            let fewer = filtered(input, moved);
            let low = PlanView::Aggregate {
                input: Box::new(fewer),
                group_expr,
                aggr_expr,
                schema,
            };
            assert(q == filtered(low, stays));
            aggregations_deliver_a_row_for_each_group(input, group_expr, aggr_expr, schema);
            let rows = delivered(input)->Some_0;
            lemma_filtered(input, moved);
            lemma_kept_count(conjunction(moved), rows);
            lemma_aggregation_runs_tidily(fewer, group_expr, aggr_expr, schema);
            lemma_filtered(low, stays);
            aggregations_deliver_a_row_for_each_group(fewer, group_expr, aggr_expr, schema);
            lemma_kept_groups(
                predicate,
                group_expr,
                aggr_expr,
                (schema.len() - group_expr.len()) as nat,
                rows,
            );
        }
    }
}

// ---------------------------------------------------------------------------
// Rewritten expressions

/// Whether an aggregate takes from every row what another does, and values of
/// the same type.
spec fn argument_agrees(x: AggregateView, agg: AggregateView, rows: Seq<Row>) -> bool {
    &&& x.kind == agg.kind
    &&& match (x.arg, agg.arg) {
        (None, None) => true,
        (Some(y), Some(e)) => {
            &&& agrees(y, e, rows)
            &&& forall|i: int|
                0 <= i < rows.len() && (eval(e, #[trigger] rows[i]) matches Ok(v) && v
                    != ValueView::Null) && expr_type(e) is Some && expr_type(y) is Some
                    ==> expr_type(y) == expr_type(e)
        },
        _ => false,
    }
}

proof fn lemma_all_null(values: Seq<ValueView>)
    requires
        forall|i: int| 0 <= i < values.len() ==> #[trigger] values[i] == ValueView::Null,
    ensures
        count_present(values) == 0,
    decreases values.len(),
{
    if values.len() > 0 {
        let rest = values.drop_last();
        assert forall|i: int| 0 <= i < rest.len() implies #[trigger] rest[i] == ValueView::Null by {
            assert(rest[i] == values[i]);
        }
        lemma_all_null(rest);
        assert(values.last() == values[values.len() - 1]);
    }
}

proof fn lemma_same_summary(
    x: AggregateView,
    agg: AggregateView,
    rows: Seq<Row>,
    some: Seq<Row>,
)
    requires
        argument_agrees(x, agg, rows),
        agg.arg matches Some(e) ==> expr_type(e) is Some,
        x.arg matches Some(y) ==> expr_type(y) is Some,
        forall|i: int| 0 <= i < rows.len() ==> argument_defined(agg, #[trigger] rows[i]),
        forall|j: int| 0 <= j < some.len() ==> rows.contains(#[trigger] some[j]),
    ensures
        summary(factory_of(x), arguments_on(x, some)) == summary(
            factory_of(agg),
            arguments_on(agg, some),
        ),
{
    let taken = arguments_on(agg, some);
    assert forall|j: int| 0 <= j < some.len() implies arguments_on(x, some)[j] == taken[j] by {
        let i = choose|i: int| 0 <= i < rows.len() && rows[i] == some[j];
        assert(argument_defined(agg, rows[i]));
    }
    assert(arguments_on(x, some) =~= taken);
    match (x.arg, agg.arg) {
        (Some(y), Some(e)) => {
            if expr_type(y) != expr_type(e) {
                assert forall|j: int| 0 <= j < taken.len() implies #[trigger] taken[j]
                    == ValueView::Null by {
                    let i = choose|i: int| 0 <= i < rows.len() && rows[i] == some[j];
                    assert(argument_defined(agg, rows[i]));
                }
                lemma_all_null(taken);
            }
        },
        _ => {},
    }
}

proof fn lemma_group_rows_are_rows(group_expr: Seq<ExprView>, key: Row, rows: Seq<Row>)
    ensures
        forall|j: int|
            0 <= j < group_rows(group_expr, key, rows).len() ==> rows.contains(
                #[trigger] group_rows(group_expr, key, rows)[j],
            ),
    decreases rows.len(),
{
    if rows.len() > 0 {
        let rest = rows.drop_last();
        lemma_group_rows_are_rows(group_expr, key, rest);
        let before = group_rows(group_expr, key, rest);
        let all = group_rows(group_expr, key, rows);
        assert(rows =~= rest.push(rows.last()));
        assert forall|j: int| 0 <= j < all.len() implies rows.contains(#[trigger] all[j]) by {
            lemma_push_contains(rest, rows.last(), all[j]);
            if j < before.len() {
                assert(all[j] == before[j]);
                assert(rest.contains(before[j]));
            }
        }
    }
}

proof fn lemma_same_group_rows(
    group_expr: Seq<ExprView>,
    others: Seq<ExprView>,
    key: Row,
    rows: Seq<Row>,
)
    requires
        forall|i: int|
            0 <= i < rows.len() ==> values_on(group_expr, #[trigger] rows[i]) == values_on(
                others,
                rows[i],
            ),
    ensures
        group_rows(group_expr, key, rows) == group_rows(others, key, rows),
    decreases rows.len(),
{
    if rows.len() > 0 {
        let rest = rows.drop_last();
        assert forall|i: int| 0 <= i < rest.len() implies values_on(group_expr, #[trigger] rest[i])
            == values_on(others, rest[i]) by {
            assert(rest[i] == rows[i]);
        }
        lemma_same_group_rows(group_expr, others, key, rest);
        assert(rows.last() == rows[rows.len() - 1]);
    }
}

/// Whether expressions and aggregates do for those of an aggregation.
spec fn parts_agree(
    group_expr: Seq<ExprView>,
    others: Seq<ExprView>,
    aggr_expr: Seq<AggregateView>,
    aggs: Seq<AggregateView>,
    rows: Seq<Row>,
) -> bool {
    &&& forall|j: int|
        0 <= j < group_expr.len() ==> agrees(others[j], #[trigger] group_expr[j], rows)
    &&& forall|a: int|
        0 <= a < aggr_expr.len() ==> argument_agrees(aggs[a], #[trigger] aggr_expr[a], rows)
}

proof fn lemma_same_summaries(
    aggr_expr: Seq<AggregateView>,
    aggs: Seq<AggregateView>,
    n: nat,
    rows: Seq<Row>,
    some: Seq<Row>,
)
    requires
        n <= aggr_expr.len(),
        aggs.len() == aggr_expr.len(),
        parts_agree(seq![], seq![], aggr_expr, aggs, rows),
        arguments_typed(aggr_expr),
        arguments_typed(aggs),
        arguments_defined(aggr_expr, rows),
        forall|j: int| 0 <= j < some.len() ==> rows.contains(#[trigger] some[j]),
    ensures
        Seq::new(n, |a: int| summary(factory_of(aggs[a]), arguments_on(aggs[a], some)))
            == Seq::new(
            n,
            |a: int| summary(factory_of(aggr_expr[a]), arguments_on(aggr_expr[a], some)),
        ),
{
    let left = Seq::new(n, |a: int| summary(factory_of(aggs[a]), arguments_on(aggs[a], some)));
    let right = Seq::new(
        n,
        |a: int| summary(factory_of(aggr_expr[a]), arguments_on(aggr_expr[a], some)),
    );
    assert forall|a: int| 0 <= a < n implies left[a] == right[a] by {
        assert(argument_agrees(aggs[a], aggr_expr[a], rows));
        assert(aggs[a].arg matches Some(y) ==> expr_type(y) is Some);
        assert forall|i: int| 0 <= i < rows.len() implies argument_defined(
            aggr_expr[a],
            #[trigger] rows[i],
        ) by {}
        lemma_same_summary(aggs[a], aggr_expr[a], rows, some);
    }
    assert(left =~= right);
}

/// Aggregations by expressions that agree on the rows deliver the same rows.
proof fn lemma_rewritten_aggregation(
    input: PlanView,
    group_expr: Seq<ExprView>,
    others: Seq<ExprView>,
    aggr_expr: Seq<AggregateView>,
    aggs: Seq<AggregateView>,
    schema: Seq<FieldView>,
)
    requires
        tidy_throughout(input),
        schema.len() > 0,
        group_expr.len() == others.len(),
        aggr_expr.len() == aggs.len(),
        delivered(input) matches Some(rows) ==> parts_agree(
            group_expr,
            others,
            aggr_expr,
            aggs,
            rows,
        ),
    ensures
        same_rows(
            PlanView::Aggregate { input: Box::new(input), group_expr, aggr_expr, schema },
            PlanView::Aggregate {
                input: Box::new(input),
                group_expr: others,
                aggr_expr: aggs,
                schema,
            },
        ),
{
    let p = PlanView::Aggregate { input: Box::new(input), group_expr, aggr_expr, schema };
    let q = PlanView::Aggregate {
        input: Box::new(input),
        group_expr: others,
        aggr_expr: aggs,
        schema,
    };
    assert(runs_tidily(input));
    if delivered(p) is Some && delivered(q) is Some {
        if group_expr.len() == 0 {
            aggregations_of_all_rows_deliver_one_row(input, group_expr, aggr_expr, schema);
            aggregations_of_all_rows_deliver_one_row(input, others, aggs, schema);
            let rows = delivered(input)->Some_0;
            assert(parts_agree(seq![], seq![], aggr_expr, aggs, rows));
            lemma_same_summaries(aggr_expr, aggs, schema.len(), rows, rows);
        } else {
            aggregations_deliver_a_row_for_each_group(input, group_expr, aggr_expr, schema);
            aggregations_deliver_a_row_for_each_group(input, others, aggs, schema);
            let rows = delivered(input)->Some_0;
            let n = (schema.len() - group_expr.len()) as nat;
            assert(parts_agree(seq![], seq![], aggr_expr, aggs, rows));
            assert forall|i: int| 0 <= i < rows.len() implies values_on(
                group_expr,
                #[trigger] rows[i],
            ) == values_on(others, rows[i]) by {
                assert forall|j: int| 0 <= j < group_expr.len() implies values_on(
                    group_expr,
                    rows[i],
                )[j] == values_on(others, rows[i])[j] by {
                    assert(agrees(others[j], group_expr[j], rows));
                    assert(eval(group_expr[j], rows[i]) is Ok);
                }
                assert(values_on(group_expr, rows[i]) =~= values_on(others, rows[i]));
            }
            assert(projected(group_expr, rows) =~= projected(others, rows));
            let keys = group_keys(group_expr, rows);
            let left = grouped_rows(group_expr, aggr_expr, n, rows);
            let right = grouped_rows(others, aggs, n, rows);
            assert forall|g: int| 0 <= g < keys.len() implies left[g] == right[g] by {
                lemma_same_group_rows(group_expr, others, keys[g], rows);
                lemma_group_rows_are_rows(group_expr, keys[g], rows);
                lemma_same_summaries(
                    aggr_expr,
                    aggs,
                    n,
                    rows,
                    group_rows(group_expr, keys[g], rows),
                );
            }
            assert(left =~= right);
        }
    }
}

proof fn lemma_map_arguments(aggs: Seq<AggregateView>, g: ExprMap, n: nat)
    requires
        n <= aggs.len(),
        map_arguments(aggs, g, n) is Ok,
    ensures
        map_arguments(aggs, g, n)->Ok_0.node.len() == n,
        forall|a: int|
            0 <= a < n ==> map_argument(#[trigger] aggs[a], g) is Ok && map_arguments(
                aggs,
                g,
                n,
            )->Ok_0.node[a] == map_argument(aggs[a], g)->Ok_0.node,
    decreases n,
{
    if n > 0 {
        let m = (n - 1) as nat;
        lemma_map_arguments(aggs, g, m);
        let before = map_arguments(aggs, g, m)->Ok_0.node;
        let all = map_arguments(aggs, g, n)->Ok_0.node;
        assert(all == before.push(map_argument(aggs[m as int], g)->Ok_0.node));
        assert forall|a: int| 0 <= a < n implies map_argument(#[trigger] aggs[a], g) is Ok && all[a]
            == map_argument(aggs[a], g)->Ok_0.node by {
            if a < m {
                assert(all[a] == before[a]);
            }
        }
    }
}

/// An aggregation with its constants folded leaves the same rows.
pub proof fn folded_constants_keep_the_rows_of_aggregations(p: PlanView)
    requires
        tidy_throughout(p),
        p is Aggregate,
        p->Aggregate_schema.len() > 0,
    ensures
        mapped(p, whole(fold_step())) matches Ok(r) ==> same_rows(p, r.node),
{
    let g = whole(fold_step());
    if mapped(p, g) is Ok {
        match p {
            PlanView::Aggregate { input, group_expr, aggr_expr, schema } => {
                lemma_map_list(group_expr, g, group_expr.len());
                lemma_map_arguments(aggr_expr, g, aggr_expr.len());
                let others = map_list(group_expr, g, group_expr.len())->Ok_0.node;
                let aggs = map_arguments(aggr_expr, g, aggr_expr.len())->Ok_0.node;
                if let Some(rows) = delivered(*input) {
                    assert forall|j: int| 0 <= j < group_expr.len() implies agrees(
                        others[j],
                        #[trigger] group_expr[j],
                        rows,
                    ) by {
                        assert(g(group_expr[j]) is Ok);
                        lemma_folded_agrees(group_expr[j], rows);
                    }
                    assert forall|a: int| 0 <= a < aggr_expr.len() implies argument_agrees(
                        aggs[a],
                        #[trigger] aggr_expr[a],
                        rows,
                    ) by {
                        assert(map_argument(aggr_expr[a], g) is Ok);
                        if let Some(e) = aggr_expr[a].arg {
                            lemma_folded_agrees(e, rows);
                            folding_keeps_types(e);
                        }
                    }
                    assert(parts_agree(group_expr, others, aggr_expr, aggs, rows));
                }
                lemma_rewritten_aggregation(*input, group_expr, others, aggr_expr, aggs, schema);
            },
            _ => {},
        }
    }
}

proof fn lemma_folded_agrees(e: ExprView, rows: Seq<Row>)
    requires
        whole(fold_step())(e) is Ok,
    ensures
        agrees(whole(fold_step())(e)->Ok_0, e, rows),
{
    assert forall|i: int| 0 <= i < rows.len() && eval(e, #[trigger] rows[i]) is Ok implies eval(
        whole(fold_step())(e)->Ok_0,
        rows[i],
    ) == eval(e, rows[i]) by {
        folding_keeps_values(e, rows[i]);
    }
}

/// A simplified aggregation leaves the same rows, where its input's rows are
/// such as its expressions declare them.
pub proof fn simplified_expressions_keep_the_rows_of_aggregations(p: PlanView)
    requires
        tidy_throughout(p),
        match p {
            PlanView::Aggregate { input, group_expr, aggr_expr, schema } => schema.len() > 0 && (
            delivered(*input) matches Some(rows) ==> {
                &&& forall|j: int|
                    0 <= j < group_expr.len() ==> plain_on(#[trigger] group_expr[j], rows)
                &&& forall|a: int|
                    0 <= a < aggr_expr.len() ==> ((#[trigger] aggr_expr[a]).arg matches Some(e)
                        ==> plain_on(e, rows))
            }),
            _ => false,
        },
    ensures
        mapped(p, whole(simplify_step())) matches Ok(r) ==> same_rows(p, r.node),
{
    let g = whole(simplify_step());
    if mapped(p, g) is Ok {
        match p {
            PlanView::Aggregate { input, group_expr, aggr_expr, schema } => {
                lemma_map_list(group_expr, g, group_expr.len());
                lemma_map_arguments(aggr_expr, g, aggr_expr.len());
                let others = map_list(group_expr, g, group_expr.len())->Ok_0.node;
                let aggs = map_arguments(aggr_expr, g, aggr_expr.len())->Ok_0.node;
                if let Some(rows) = delivered(*input) {
                    assert forall|j: int| 0 <= j < group_expr.len() implies agrees(
                        others[j],
                        #[trigger] group_expr[j],
                        rows,
                    ) by {
                        assert(g(group_expr[j]) is Ok);
                        assert(others[j] == simple(group_expr[j]));
                        assert(plain_on(group_expr[j], rows));
                        lemma_simple_agrees(group_expr[j], rows);
                    }
                    assert forall|a: int| 0 <= a < aggr_expr.len() implies argument_agrees(
                        aggs[a],
                        #[trigger] aggr_expr[a],
                        rows,
                    ) by {
                        assert(map_argument(aggr_expr[a], g) is Ok);
                        if let Some(e) = aggr_expr[a].arg {
                            assert(aggs[a].arg == Some(simple(e)));
                            assert(plain_on(e, rows));
                            lemma_simple_agrees(e, rows);
                            lemma_simple_types(e, rows);
                        }
                    }
                    assert(parts_agree(group_expr, others, aggr_expr, aggs, rows));
                }
                lemma_rewritten_aggregation(*input, group_expr, others, aggr_expr, aggs, schema);
            },
            _ => {},
        }
    }
}

/// A value that is not null has one type only.
proof fn lemma_simple_types(e: ExprView, rows: Seq<Row>)
    requires
        plain_on(e, rows),
    ensures
        forall|i: int|
            0 <= i < rows.len() && (eval(e, #[trigger] rows[i]) matches Ok(v) && v
                != ValueView::Null) && expr_type(e) is Some && expr_type(simple(e)) is Some
                ==> expr_type(simple(e)) == expr_type(e),
{
    assert forall|i: int|
        0 <= i < rows.len() && (eval(e, #[trigger] rows[i]) matches Ok(v) && v != ValueView::Null)
            && expr_type(e) is Some && expr_type(simple(e)) is Some implies expr_type(simple(e))
        == expr_type(e) by {
        simplifying_keeps_values(e, rows[i]);
        evaluation_respects_types(e, rows[i]);
        evaluation_respects_types(simple(e), rows[i]);
    }
}

} // verus!
