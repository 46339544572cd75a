//! What the rules keep: where a plan and its rewritten form both run without
//! an error, they deliver the same rows in the same order.

use vstd::prelude::*;

use crate::batch::{slice_batch, BatchView};
use crate::error::ErrorKind;
use crate::expr::expr::{
    binary, eval, evaluation_respects_types, expr_nullable, expr_type, row_conforms, ExprView,
};
use crate::logical_plan::plan::{plan_schema, PlanView, SortExprView};
use crate::optimizer::rules::common::{
    columns_of, columns_satisfy, conjunction, conjuncts, map_list, mapped, whole, with_columns,
    ExprMap,
};
use crate::optimizer::rules::common_subexpr::{
    all_columns, most_repeated, no_zero_literal, replace_step, replaced, shared_field,
    sharing_keeps_values, without_repetition,
};
use crate::optimizer::rules::constant_folding::{fold_step, folding_keeps_values};
use crate::optimizer::rules::eliminate_filter::without_constant_filter;
use crate::optimizer::rules::limit_pushdown::limit_below;
use crate::optimizer::rules::merge_filters::{merged, merged_filters_pass_the_same_rows};
use crate::optimizer::rules::predicate_pushdown::{
    above, below, conjuncts_mean_the_same_below_columns, filtered, into_scan,
    lemma_conjunction_passes, lemma_predicate_passes, passed_on, passes, passes_all, source_column,
    through_projection,
};
use crate::optimizer::rules::projection_pushdown::with_recorded_columns;
use crate::optimizer::rules::simplify_expressions::{
    no_double_meets_itself, simple, simplify_step, simplifying_keeps_values,
};
use crate::physical_plan::limit::{lemma_slice_rows, limit_stream, stream_rows};
use crate::physical_plan::plan::{exec_schema, run, ExecView, SortKeyView};
use crate::physical_plan::planner::{exec_of, physical_all, physical_keys};
use crate::physical_plan::projection::{project_batch, project_stream};
use crate::physical_plan::rows::{
    all_defined, delivered, filters_deliver_the_rows_that_pass, flawless, items_of, kept,
    lemma_filter_runs_tidily, lemma_limit_project, lemma_project_batch,
    lemma_projection_runs_tidily, lemma_stream_rows_one, projected,
    projections_deliver_the_values_on_each_row, runs_tidily, values_on, Row,
};
use crate::physical_plan::sort::{run_sort, run_top_k, sorted_batch};
use crate::physical_plan::sort_rows::{
    exprs_of, key_of, keys_of_types, lemma_filter_runs_under_schema, lemma_kept_sorted,
    runs_under_its_schema, sorts_deliver_the_rows_in_order,
};
use crate::types::coercion::BinaryOp;
use crate::types::schema::FieldView;
use crate::types::value::ValueView;

verus! {

/// Whether the batches that a plan and all of its parts give when they run are
/// such as can be held in memory.
pub open spec fn tidy_throughout(p: PlanView) -> bool
    decreases p,
{
    &&& runs_tidily(p)
    &&& match p {
        PlanView::Filter { input, predicate } => tidy_throughout(*input),
        PlanView::Projection { input, exprs, schema } => tidy_throughout(*input),
        PlanView::Limit { input, skip, fetch } => tidy_throughout(*input),
        PlanView::Sort { input, exprs } => tidy_throughout(*input),
        PlanView::Aggregate { input, group_expr, aggr_expr, schema } => tidy_throughout(*input),
        PlanView::Join { left, right, on, filter, join_type, schema } => tidy_throughout(*left)
            && tidy_throughout(*right),
        _ => true,
    }
}

/// Whether both plans run without an error only if they deliver the same rows.
pub open spec fn same_rows(p: PlanView, q: PlanView) -> bool {
    delivered(p) is Some && delivered(q) is Some ==> delivered(p) == delivered(q)
}

/// Two conditions that are true on the same rows keep the same rows.
pub proof fn lemma_kept_same(a: ExprView, b: ExprView, rows: Seq<Row>)
    requires
        forall|i: int| 0 <= i < rows.len() ==> passes(a, #[trigger] rows[i]) == passes(b, rows[i]),
    ensures
        kept(a, rows) == kept(b, rows),
    decreases rows.len(),
{
    if rows.len() > 0 {
        let rest = rows.drop_last();
        assert forall|i: int| 0 <= i < rest.len() implies passes(a, #[trigger] rest[i]) == passes(
            b,
            rest[i],
        ) by {
            assert(rest[i] == rows[i]);
        }
        lemma_kept_same(a, b, rest);
        assert(rows.last() == rows[rows.len() - 1]);
        assert(passes(a, rows.last()) == passes(b, rows.last()));
    }
}

/// A filter with a constant predicate can go: with it or without it, or with
/// nothing in its place, the same rows are delivered.
pub proof fn dropped_filters_keep_rows(p: PlanView)
    requires
        tidy_throughout(p),
    ensures
        same_rows(p, without_constant_filter(p).node),
{
    match p {
        PlanView::Filter { input, predicate } => {
            if delivered(p) is Some {
                assert(tidy_throughout(*input));
                filters_deliver_the_rows_that_pass(*input, predicate);
                let rows = delivered(*input)->Some_0;
                match predicate {
                    ExprView::Literal(ValueView::Boolean(true)) => {
                        lemma_literal_keeps(true, rows);
                    },
                    ExprView::Literal(ValueView::Boolean(false)) => {
                        lemma_literal_keeps(false, rows);
                        let q = PlanView::EmptyRelation { schema: plan_schema(*input) };
                        reveal(items_of);
                        let items = items_of(q)->Some_0;
                        assert(items =~= seq![]);
                        assert(stream_rows(items) =~= seq![]);
                    },
                    _ => {},
                }
            }
        },
        _ => {},
    }
}

proof fn lemma_literal_keeps(b: bool, rows: Seq<Row>)
    ensures
        kept(ExprView::Literal(ValueView::Boolean(b)), rows) == if b {
            rows
        } else {
            seq![]
        },
    decreases rows.len(),
{
    if rows.len() > 0 {
        lemma_literal_keeps(b, rows.drop_last());
        assert(rows.drop_last().push(rows.last()) =~= rows);
    }
}

/// Two filters and the one they are merged into deliver the same rows.
pub proof fn merged_filters_keep_rows(p: PlanView)
    requires
        tidy_throughout(p),
    ensures
        same_rows(p, merged(p).node),
{
    let q = merged(p).node;
    if delivered(p) is Some && delivered(q) is Some {
        match p {
            PlanView::Filter { input, predicate: outer } => match *input {
                PlanView::Filter { input: innermost, predicate: inner } => {
                    assert(tidy_throughout(*input));
                    assert(tidy_throughout(*innermost));
                    filters_deliver_the_rows_that_pass(*input, outer);
                    filters_deliver_the_rows_that_pass(*innermost, inner);
                    filters_deliver_the_rows_that_pass(
                        *innermost,
                        binary(inner, BinaryOp::And, outer),
                    );
                    lemma_kept_twice(inner, outer, delivered(*innermost)->Some_0);
                },
                _ => {},
            },
            _ => {},
        }
    }
}

proof fn lemma_kept_twice(inner: ExprView, outer: ExprView, rows: Seq<Row>)
    ensures
        kept(outer, kept(inner, rows)) == kept(binary(inner, BinaryOp::And, outer), rows),
    decreases rows.len(),
{
    if rows.len() > 0 {
        let rest = rows.drop_last();
        lemma_kept_twice(inner, outer, rest);
        merged_filters_pass_the_same_rows(inner, outer, rows.last());
        let before = kept(inner, rest);
        if passes(inner, rows.last()) {
            assert(before.push(rows.last()).drop_last() =~= before);
        }
    }
}

/// Recording the columns that are needed of a scan changes nothing of what is
/// delivered.
pub proof fn recorded_columns_keep_rows(p: PlanView)
    ensures
        delivered(with_recorded_columns(p).node) == delivered(p),
{
    let q = with_recorded_columns(p).node;
    reveal(items_of);
    reveal_with_fuel(exec_of, 4);
    assert(exec_of(q) == exec_of(p));
}

/// Noting the conjuncts of a filter on the scan below it changes nothing of
/// what is delivered.
pub proof fn noted_filters_keep_rows(scan: PlanView, predicate: ExprView)
    ensures
        delivered(into_scan(scan, predicate).node) == delivered(
            PlanView::Filter { input: Box::new(scan), predicate },
        ),
{
    let q = into_scan(scan, predicate).node;
    reveal(items_of);
    reveal_with_fuel(exec_of, 3);
    assert(exec_of(q) == exec_of(PlanView::Filter { input: Box::new(scan), predicate }));
}

// ---------------------------------------------------------------------------
// Limits

/// The items of a limit over anything but a sort.
proof fn lemma_limit_items(input: PlanView, skip: usize, fetch: Option<usize>)
    requires
        !(input is Sort && skip == 0 && fetch is Some),
    ensures
        items_of(PlanView::Limit { input: Box::new(input), skip, fetch }) == match items_of(input) {
            None => None,
            Some(items) => Some(limit_stream(items, skip as int, wide(fetch))),
        },
{
    reveal(items_of);
    reveal_with_fuel(exec_of, 2);
}

/// A count of rows as a number.
pub open spec fn wide(fetch: Option<usize>) -> Option<int> {
    match fetch {
        Some(n) => Some(n as int),
        None => None,
    }
}

/// The items of a projection.
proof fn lemma_projection_items(input: PlanView, exprs: Seq<ExprView>, schema: Seq<FieldView>)
    ensures
        ({
            let p = PlanView::Projection { input: Box::new(input), exprs, schema };
            items_of(p) is Some ==> {
                &&& items_of(input) is Some
                &&& physical_all(exprs, exprs.len()) is Ok
                &&& items_of(p) == Some(
                    project_stream(
                        physical_all(exprs, exprs.len())->Ok_0,
                        schema,
                        items_of(input)->Some_0,
                    ),
                )
            }
        }),
{
    reveal(items_of);
    let p = PlanView::Projection { input: Box::new(input), exprs, schema };
    assert(exec_of(p) == match exec_of(input) {
        Err(k) => Err(k),
        Ok(child) => match physical_all(exprs, exprs.len()) {
            Err(k) => Err(k),
            Ok(x) => Ok(ExecView::Projection { input: Box::new(child), exprs: x, schema }),
        },
    });
}

/// A limit moved below a projection leaves the same rows.
pub proof fn lowered_limits_keep_rows(p: PlanView)
    requires
        tidy_throughout(p),
        p matches PlanView::Limit { input, skip, fetch } ==> (
        *input matches PlanView::Projection { input: innermost, exprs, schema } ==> exprs.len() > 0),
    ensures
        same_rows(p, limit_below(p).node),
{
    let q = limit_below(p).node;
    if delivered(p) is Some && delivered(q) is Some {
        match p {
            PlanView::Limit { input, skip, fetch } => match *input {
                PlanView::Projection { input: innermost, exprs, schema } => {
                    assert(tidy_throughout(*input));
                    assert(tidy_throughout(*innermost));
                    lemma_limit_items(*input, skip, fetch);
                    lemma_projection_items(*innermost, exprs, schema);
                    let low = PlanView::Limit { input: innermost, skip, fetch };
                    lemma_projection_items(low, exprs, schema);
                    let xs = physical_all(exprs, exprs.len())->Ok_0;
                    let items = items_of(*innermost)->Some_0;
                    if *innermost is Sort && skip == 0 && fetch is Some {
                        lemma_limit_over_sort(*innermost, exprs, schema, fetch->Some_0);
                    } else {
                        lemma_limit_items(*innermost, skip, fetch);
                        lemma_limit_project(exprs, schema, items, skip as int, wide(fetch));
                    }
                },
                _ => {},
            },
            _ => {},
        }
    }
}

/// The items of a sort, and of the same sort cut off.
proof fn lemma_sort_items(input: PlanView, keys: Seq<SortExprView>, k: usize)
    ensures
        ({
            let sort = PlanView::Sort { input: Box::new(input), exprs: keys };
            let top = PlanView::Limit { input: Box::new(sort), skip: 0, fetch: Some(k) };
            items_of(sort) is Some && items_of(top) is Some ==> exists|
                schema: Seq<FieldView>,
                xs: Seq<SortKeyView>,
                items: Seq<Result<BatchView, ErrorKind>>,
            |
                {
                    &&& #[trigger] run_sort(schema, xs, items) == Ok::<
                        Seq<Result<BatchView, ErrorKind>>,
                        ErrorKind,
                    >(items_of(sort)->Some_0)
                    &&& run_top_k(schema, xs, k as int, items) == Ok::<
                        Seq<Result<BatchView, ErrorKind>>,
                        ErrorKind,
                    >(items_of(top)->Some_0)
                }
        }),
{
    reveal(items_of);
    reveal_with_fuel(exec_of, 3);
    let sort = PlanView::Sort { input: Box::new(input), exprs: keys };
    let top = PlanView::Limit { input: Box::new(sort), skip: 0, fetch: Some(k) };
    if items_of(sort) is Some && items_of(top) is Some {
        let child = exec_of(input)->Ok_0;
        let xs = physical_keys(keys, keys.len())->Ok_0;
        assert(exec_of(sort) == Ok::<ExecView, ErrorKind>(
            ExecView::Sort { input: Box::new(child), keys: xs },
        ));
        assert(exec_of(top) == Ok::<ExecView, ErrorKind>(
            ExecView::TopK { input: Box::new(child), keys: xs, k },
        ));
        assert(run(child, 0) is Ok);
        let items = run(child, 0)->Ok_0;
        let schema = exec_schema(child);
        assert(run_sort(schema, xs, items) == Ok::<Seq<Result<BatchView, ErrorKind>>, ErrorKind>(
            items_of(sort)->Some_0,
        ));
    }
}

proof fn lemma_limit_over_sort(
    sort: PlanView,
    exprs: Seq<ExprView>,
    schema: Seq<FieldView>,
    k: usize,
)
    requires
        sort is Sort,
        tidy_throughout(sort),
        exprs.len() > 0,
        ({
            let p = PlanView::Limit {
                input: Box::new(PlanView::Projection { input: Box::new(sort), exprs, schema }),
                skip: 0,
                fetch: Some(k),
            };
            let q = PlanView::Projection {
                input: Box::new(
                    PlanView::Limit { input: Box::new(sort), skip: 0, fetch: Some(k) },
                ),
                exprs,
                schema,
            };
            delivered(p) is Some && delivered(q) is Some
        }),
    ensures
        ({
            let p = PlanView::Limit {
                input: Box::new(PlanView::Projection { input: Box::new(sort), exprs, schema }),
                skip: 0,
                fetch: Some(k),
            };
            let q = PlanView::Projection {
                input: Box::new(
                    PlanView::Limit { input: Box::new(sort), skip: 0, fetch: Some(k) },
                ),
                exprs,
                schema,
            };
            delivered(p) == delivered(q)
        }),
{
    let upper = PlanView::Projection { input: Box::new(sort), exprs, schema };
    let p = PlanView::Limit { input: Box::new(upper), skip: 0, fetch: Some(k) };
    let top = PlanView::Limit { input: Box::new(sort), skip: 0, fetch: Some(k) };
    let q = PlanView::Projection { input: Box::new(top), exprs, schema };
    lemma_limit_items(upper, 0, Some(k));
    lemma_projection_items(sort, exprs, schema);
    lemma_projection_items(top, exprs, schema);
    let xs = physical_all(exprs, exprs.len())->Ok_0;
    let all = items_of(sort)->Some_0;
    let first = items_of(top)->Some_0;
    let (input, keys) = match sort {
        PlanView::Sort { input, exprs: keys } => (*input, keys),
        _ => (sort, seq![]),
    };
    lemma_sort_items(input, keys, k);
    let (own, sx, items) = choose|
        own: Seq<FieldView>,
        sx: Seq<SortKeyView>,
        items: Seq<Result<BatchView, ErrorKind>>,
    |
        {
            &&& #[trigger] run_sort(own, sx, items) == Ok::<
                Seq<Result<BatchView, ErrorKind>>,
                ErrorKind,
            >(all)
            &&& run_top_k(own, sx, k as int, items) == Ok::<
                Seq<Result<BatchView, ErrorKind>>,
                ErrorKind,
            >(first)
        };
    match sorted_batch(own, sx, items)->Ok_0 {
        None => {
            assert(all =~= seq![]);
            assert(first =~= seq![]);
            assert(project_stream(xs, schema, all) =~= seq![]);
            assert(project_stream(xs, schema, first) =~= seq![]);
        },
        Some(b) => {
            assert(all =~= seq![Ok::<BatchView, ErrorKind>(b)]);
            assert(all[0] is Ok);
            lemma_one_batch_cut(exprs, schema, b, k as int);
        },
    }
}

/// One batch cut off before it is projected, or after.
proof fn lemma_one_batch_cut(exprs: Seq<ExprView>, schema: Seq<FieldView>, b: BatchView, k: int)
    requires
        b.wf(),
        k >= 0,
        exprs.len() > 0,
        physical_all(exprs, exprs.len()) is Ok,
        ({
            let xs = physical_all(exprs, exprs.len())->Ok_0;
            let n = if k < b.num_rows {
                k
            } else {
                b.num_rows as int
            };
            let all = seq![Ok::<BatchView, ErrorKind>(b)];
            let first = seq![Ok::<BatchView, ErrorKind>(slice_batch(b, 0, n))];
            &&& flawless(limit_stream(project_stream(xs, schema, all), 0, Some(k)))
            &&& flawless(project_stream(xs, schema, first))
        }),
    ensures
        ({
            let xs = physical_all(exprs, exprs.len())->Ok_0;
            let n = if k < b.num_rows {
                k
            } else {
                b.num_rows as int
            };
            let all = seq![Ok::<BatchView, ErrorKind>(b)];
            let first = seq![Ok::<BatchView, ErrorKind>(slice_batch(b, 0, n))];
            stream_rows(limit_stream(project_stream(xs, schema, all), 0, Some(k))) == stream_rows(
                project_stream(xs, schema, first),
            )
        }),
{
    let xs = physical_all(exprs, exprs.len())->Ok_0;
    let n = if k < b.num_rows {
        k
    } else {
        b.num_rows as int
    };
    let cut = slice_batch(b, 0, n);
    let all = seq![Ok::<BatchView, ErrorKind>(b)];
    let first = seq![Ok::<BatchView, ErrorKind>(cut)];
    lemma_slice_rows(b, 0, n);
    let low = project_stream(xs, schema, first);
    assert(low[0] is Ok);
    assert(low =~= seq![project_batch(xs, schema, cut)]);
    lemma_stream_rows_one(project_batch(xs, schema, cut));
    lemma_project_batch(exprs, schema, cut);
    let high = project_stream(xs, schema, all);
    assert(high =~= seq![project_batch(xs, schema, b)]);
    assert(high.skip(1) =~= seq![]);
    let limited = limit_stream(high, 0, Some(k));
    reveal_with_fuel(limit_stream, 2);
    if k == 0 {
        assert(stream_rows(limited) =~= seq![]);
        assert(projected(exprs, cut.rows()) =~= seq![]);
    } else {
        if project_batch(xs, schema, b) is Err {
            assert(limited[0] is Err);
        }
        lemma_project_batch(exprs, schema, b);
        let y = project_batch(xs, schema, b)->Ok_0;
        if b.num_rows == 0 {
            assert(limited =~= seq![]);
            assert(projected(exprs, cut.rows()) =~= seq![]);
        } else if k < b.num_rows {
            lemma_slice_rows(y, 0, k);
            let item = Ok::<BatchView, ErrorKind>(slice_batch(y, 0, k));
            assert(limited =~= seq![item]);
            lemma_stream_rows_one(item);
            assert(slice_batch(y, 0, k).rows() =~= projected(exprs, cut.rows()));
        } else {
            let item = Ok::<BatchView, ErrorKind>(y);
            assert(limited =~= seq![item]);
            lemma_stream_rows_one(item);
            assert(y.rows() =~= projected(exprs, cut.rows()));
        }
    }
}

// ---------------------------------------------------------------------------
// Filters over projections

/// The rows that pass every condition of a list.
pub open spec fn kept_all(s: Seq<ExprView>, rows: Seq<Row>) -> Seq<Row> {
    if s.len() == 0 {
        rows
    } else {
        kept(conjunction(s), rows)
    }
}

/// What a plan with a filter over it delivers.
pub proof fn lemma_filtered(input: PlanView, s: Seq<ExprView>)
    requires
        runs_tidily(input),
    ensures
        runs_tidily(filtered(input, s)),
        delivered(filtered(input, s)) is Some ==> delivered(input) is Some && delivered(
            filtered(input, s),
        ) == Some(kept_all(s, delivered(input)->Some_0)),
{
    if s.len() > 0 {
        lemma_filter_runs_tidily(input, conjunction(s));
        if delivered(filtered(input, s)) is Some {
            filters_deliver_the_rows_that_pass(input, conjunction(s));
        }
    }
}

/// Of the first `n` conjuncts, those that move and those that stay.
pub proof fn lemma_split_passes(
    s: Seq<ExprView>,
    exprs: Seq<ExprView>,
    lower: Row,
    upper: Row,
    n: nat,
)
    requires
        n <= s.len(),
        upper.len() >= exprs.len(),
        forall|i: int|
            0 <= i < exprs.len() ==> eval(#[trigger] exprs[i], lower) == Ok::<ValueView, ErrorKind>(
                upper[i],
            ),
    ensures
        passes_all(s.take(n as int), upper) <==> passes_all(below(s, exprs, n), lower) && passes_all(
            above(s, exprs, n),
            upper,
        ),
    decreases n,
{
    if n > 0 {
        let m = (n - 1) as nat;
        lemma_split_passes(s, exprs, lower, upper, m);
        let c = s[m as int];
        assert(s.take(n as int) =~= s.take(m as int).push(c));
        lemma_passes_push(s.take(m as int), c, upper);
        if passed_on(c, exprs) {
            let moved = with_columns(c, source_column(exprs));
            conjuncts_mean_the_same_below_columns(c, exprs, lower, upper);
            lemma_passes_push(below(s, exprs, m), moved, lower);
        } else {
            lemma_passes_push(above(s, exprs, m), c, upper);
        }
    } else {
        assert(passes_all(s.take(0), upper));
        assert(passes_all(below(s, exprs, 0), lower));
        assert(passes_all(above(s, exprs, 0), upper));
    }
}

pub proof fn lemma_passes_push(s: Seq<ExprView>, e: ExprView, row: Row)
    ensures
        passes_all(s.push(e), row) <==> passes_all(s, row) && passes(e, row),
{
    let t = s.push(e);
    if passes_all(t, row) {
        assert forall|i: int| 0 <= i < s.len() implies passes(#[trigger] s[i], row) by {
            assert(t[i] == s[i]);
        }
        assert(t[s.len() as int] == e);
    }
    if passes_all(s, row) && passes(e, row) {
        assert forall|i: int| 0 <= i < t.len() implies passes(#[trigger] t[i], row) by {
            if i < s.len() {
                assert(t[i] == s[i]);
            }
        }
    }
}

/// Keeping before and after a projection what the split conjuncts let pass is
/// keeping after it what the predicate lets pass.
proof fn lemma_kept_through(predicate: ExprView, exprs: Seq<ExprView>, rows: Seq<Row>)
    requires
        all_defined(exprs, rows),
    ensures
        ({
            let s = conjuncts(predicate);
            kept(predicate, projected(exprs, rows)) == kept_all(
                above(s, exprs, s.len()),
                projected(exprs, kept_all(below(s, exprs, s.len()), rows)),
            )
        }),
    decreases rows.len(),
{
    let s = conjuncts(predicate);
    let moved = below(s, exprs, s.len());
    let stays = above(s, exprs, s.len());
    if rows.len() == 0 {
        assert(kept(predicate, projected(exprs, rows)) =~= seq![]);
        assert(kept_all(moved, rows) =~= seq![]);
        assert(projected(exprs, kept_all(moved, rows)) =~= seq![]);
    } else {
        let rest = rows.drop_last();
        let r = rows.last();
        let v = values_on(exprs, r);
        assert forall|i: int, j: int| 0 <= i < rest.len() && 0 <= j < exprs.len() implies
            #[trigger] eval(exprs[j], rest[i]) is Ok by {
            assert(rest[i] == rows[i]);
        }
        lemma_kept_through(predicate, exprs, rest);
        assert forall|i: int| 0 <= i < exprs.len() implies eval(#[trigger] exprs[i], r) == Ok::<
            ValueView,
            ErrorKind,
        >(v[i]) by {
            assert(eval(exprs[i], rows[rows.len() - 1]) is Ok);
        }
        lemma_split_passes(s, exprs, r, v, s.len());
        assert(s.take(s.len() as int) =~= s);
        lemma_predicate_passes(predicate, v);
        if moved.len() > 0 {
            lemma_conjunction_passes(moved, r);
        }
        if stays.len() > 0 {
            lemma_conjunction_passes(stays, v);
        }
        assert(projected(exprs, rows) =~= projected(exprs, rest).push(v));
        assert(projected(exprs, rest).push(v).drop_last() =~= projected(exprs, rest));
        let low = kept_all(moved, rest);
        if passes_all(moved, r) {
            assert(kept_all(moved, rows) =~= low.push(r)) by {
                assert(rest.push(r) =~= rows);
            }
            assert(projected(exprs, low.push(r)) =~= projected(exprs, low).push(v));
            assert(projected(exprs, low).push(v).drop_last() =~= projected(exprs, low));
        } else {
            assert(kept_all(moved, rows) =~= low);
        }
    }
}

/// Conjuncts moved below a projection leave the same rows.
pub proof fn filters_moved_below_projections_keep_rows(
    input: PlanView,
    exprs: Seq<ExprView>,
    schema: Seq<FieldView>,
    predicate: ExprView,
)
    requires
        tidy_throughout(input),
        exprs.len() > 0,
    ensures
        same_rows(
            PlanView::Filter {
                input: Box::new(PlanView::Projection { input: Box::new(input), exprs, schema }),
                predicate,
            },
            through_projection(input, exprs, schema, predicate).node,
        ),
{
    let s = conjuncts(predicate);
    let moved = below(s, exprs, s.len());
    let stays = above(s, exprs, s.len());
    let high = PlanView::Projection { input: Box::new(input), exprs, schema };
    let p = PlanView::Filter { input: Box::new(high), predicate };
    let low = PlanView::Projection { input: Box::new(filtered(input, moved)), exprs, schema };
    let q = filtered(low, stays);
    assert(q == through_projection(input, exprs, schema, predicate).node);
    assert(runs_tidily(input));
    if delivered(p) is Some && delivered(q) is Some {
        lemma_projection_runs_tidily(input, exprs, schema);
        filters_deliver_the_rows_that_pass(high, predicate);
        projections_deliver_the_values_on_each_row(input, exprs, schema);
        lemma_filtered(input, moved);
        lemma_projection_runs_tidily(filtered(input, moved), exprs, schema);
        lemma_filtered(low, stays);
        projections_deliver_the_values_on_each_row(filtered(input, moved), exprs, schema);
        lemma_kept_through(predicate, exprs, delivered(input)->Some_0);
    }
}

// ---------------------------------------------------------------------------
// Filters over sorts

/// Whether rows meet what well-typed sort keys declare of their columns.
pub open spec fn keys_conform(keys: Seq<SortExprView>, rows: Seq<Row>) -> bool {
    forall|c: int|
        0 <= c < keys.len() ==> expr_type((#[trigger] keys[c]).expr) is Some && forall|i: int|
            0 <= i < rows.len() ==> row_conforms(keys[c].expr, #[trigger] rows[i])
}

/// A filter moved below a sort leaves the same rows in the same order.
pub proof fn filters_moved_below_sorts_keep_rows(
    input: PlanView,
    keys: Seq<SortExprView>,
    predicate: ExprView,
)
    requires
        tidy_throughout(PlanView::Sort { input: Box::new(input), exprs: keys }),
        runs_under_its_schema(input),
        delivered(input) matches Some(rows) ==> rows.len() <= usize::MAX && keys_conform(keys, rows),
    ensures
        same_rows(
            PlanView::Filter {
                input: Box::new(PlanView::Sort { input: Box::new(input), exprs: keys }),
                predicate,
            },
            PlanView::Sort {
                input: Box::new(PlanView::Filter { input: Box::new(input), predicate }),
                exprs: keys,
            },
        ),
{
    let sort = PlanView::Sort { input: Box::new(input), exprs: keys };
    let p = PlanView::Filter { input: Box::new(sort), predicate };
    let low = PlanView::Filter { input: Box::new(input), predicate };
    let q = PlanView::Sort { input: Box::new(low), exprs: keys };
    assert(tidy_throughout(input));
    if delivered(p) is Some && delivered(q) is Some {
        filters_deliver_the_rows_that_pass(sort, predicate);
        sorts_deliver_the_rows_in_order(input, keys);
        let rows = delivered(input)->Some_0;
        lemma_filter_runs_tidily(input, predicate);
        lemma_filter_runs_under_schema(input, predicate);
        lemma_kept_count(predicate, rows);
        if delivered(low) is Some {
            filters_deliver_the_rows_that_pass(input, predicate);
        }
        sorts_deliver_the_rows_in_order(low, keys);
        let types = Seq::new(keys.len(), |c: int| expr_type(keys[c].expr)->0);
        assert forall|i: int| 0 <= i < rows.len() implies keys_of_types(
            keys,
            types,
            #[trigger] rows[i],
        ) by {
            assert forall|c: int| 0 <= c < keys.len() implies (#[trigger] key_of(
                keys[c],
                rows[i],
            )).fits(types[c]) by {
                assert(exprs_of(keys)[c] == keys[c].expr);
                assert(eval(exprs_of(keys)[c], rows[i]) is Ok);
                evaluation_respects_types(keys[c].expr, rows[i]);
            }
        }
        lemma_kept_sorted(predicate, keys, types, rows);
    }
}

pub proof fn lemma_kept_count(e: ExprView, rows: Seq<Row>)
    ensures
        kept(e, rows).len() <= rows.len(),
    decreases rows.len(),
{
    if rows.len() > 0 {
        lemma_kept_count(e, rows.drop_last());
    }
}

// ---------------------------------------------------------------------------
// Rewritten expressions

/// Whether one expression has, on every row where another has a value, that
/// value.
pub open spec fn agrees(x: ExprView, e: ExprView, rows: Seq<Row>) -> bool {
    forall|i: int|
        0 <= i < rows.len() && eval(e, #[trigger] rows[i]) is Ok ==> eval(x, rows[i]) == eval(
            e,
            rows[i],
        )
}

proof fn lemma_rewritten_filter(input: PlanView, e: ExprView, x: ExprView)
    requires
        tidy_throughout(input),
        delivered(input) matches Some(rows) ==> agrees(x, e, rows),
    ensures
        same_rows(
            PlanView::Filter { input: Box::new(input), predicate: e },
            PlanView::Filter { input: Box::new(input), predicate: x },
        ),
{
    let p = PlanView::Filter { input: Box::new(input), predicate: e };
    let q = PlanView::Filter { input: Box::new(input), predicate: x };
    assert(runs_tidily(input));
    if delivered(p) is Some && delivered(q) is Some {
        filters_deliver_the_rows_that_pass(input, e);
        filters_deliver_the_rows_that_pass(input, x);
        let rows = delivered(input)->Some_0;
        assert forall|i: int| 0 <= i < rows.len() implies passes(e, #[trigger] rows[i]) == passes(
            x,
            rows[i],
        ) by {
            assert(eval(e, rows[i]) is Ok);
        }
        lemma_kept_same(e, x, rows);
    }
}

proof fn lemma_rewritten_projection(
    input: PlanView,
    exprs: Seq<ExprView>,
    others: Seq<ExprView>,
    schema: Seq<FieldView>,
)
    requires
        tidy_throughout(input),
        exprs.len() > 0,
        exprs.len() == others.len(),
        delivered(input) matches Some(rows) ==> forall|j: int|
            0 <= j < exprs.len() ==> agrees(others[j], #[trigger] exprs[j], rows),
    ensures
        same_rows(
            PlanView::Projection { input: Box::new(input), exprs, schema },
            PlanView::Projection { input: Box::new(input), exprs: others, schema },
        ),
{
    let p = PlanView::Projection { input: Box::new(input), exprs, schema };
    let q = PlanView::Projection { input: Box::new(input), exprs: others, schema };
    assert(runs_tidily(input));
    if delivered(p) is Some && delivered(q) is Some {
        projections_deliver_the_values_on_each_row(input, exprs, schema);
        projections_deliver_the_values_on_each_row(input, others, schema);
        let rows = delivered(input)->Some_0;
        assert forall|i: int| 0 <= i < rows.len() implies values_on(exprs, #[trigger] rows[i])
            == values_on(others, rows[i]) by {
            assert forall|j: int| 0 <= j < exprs.len() implies values_on(exprs, rows[i])[j]
                == values_on(others, rows[i])[j] by {
                assert(agrees(others[j], exprs[j], rows));
                assert(eval(exprs[j], rows[i]) is Ok);
            }
            assert(values_on(exprs, rows[i]) =~= values_on(others, rows[i]));
        }
        assert(projected(exprs, rows) =~= projected(others, rows));
    }
}

pub proof fn lemma_map_list(exprs: Seq<ExprView>, g: ExprMap, n: nat)
    requires
        n <= exprs.len(),
        map_list(exprs, g, n) is Ok,
    ensures
        map_list(exprs, g, n)->Ok_0.node.len() == n,
        forall|j: int|
            0 <= j < n ==> (#[trigger] g(exprs[j])) is Ok && map_list(exprs, g, n)->Ok_0.node[j]
                == g(exprs[j])->Ok_0,
    decreases n,
{
    if n > 0 {
        let m = (n - 1) as nat;
        lemma_map_list(exprs, g, m);
        let before = map_list(exprs, g, m)->Ok_0.node;
        let all = map_list(exprs, g, n)->Ok_0.node;
        assert(all == before.push(g(exprs[m as int])->Ok_0));
        assert forall|j: int| 0 <= j < n implies (#[trigger] g(exprs[j])) is Ok && all[j] == g(
            exprs[j],
        )->Ok_0 by {
            if j < m {
                assert(all[j] == before[j]);
            }
        }
    }
}

/// A filter or a projection with its constants folded leaves the same rows.
pub proof fn folded_constants_keep_rows(p: PlanView)
    requires
        tidy_throughout(p),
        p is Filter || (p is Projection && p->Projection_exprs.len() > 0),
    ensures
        mapped(p, whole(fold_step())) matches Ok(r) ==> same_rows(p, r.node),
{
    let g = whole(fold_step());
    if mapped(p, g) is Ok {
        match p {
            PlanView::Filter { input, predicate } => {
                let x = g(predicate)->Ok_0;
                if let Some(rows) = delivered(*input) {
                    assert forall|i: int| 0 <= i < rows.len() implies eval(x, #[trigger] rows[i])
                        == eval(predicate, rows[i]) by {
                        folding_keeps_values(predicate, rows[i]);
                    }
                }
                lemma_rewritten_filter(*input, predicate, x);
            },
            PlanView::Projection { input, exprs, schema } => {
                lemma_map_list(exprs, g, exprs.len());
                let others = map_list(exprs, g, exprs.len())->Ok_0.node;
                if let Some(rows) = delivered(*input) {
                    assert forall|j: int| 0 <= j < exprs.len() implies agrees(
                        others[j],
                        #[trigger] exprs[j],
                        rows,
                    ) by {
                        assert(g(exprs[j]) is Ok);
                        assert forall|i: int|
                            0 <= i < rows.len() && eval(exprs[j], #[trigger] rows[i]) is Ok implies eval(
                            others[j],
                            rows[i],
                        ) == eval(exprs[j], rows[i]) by {
                            folding_keeps_values(exprs[j], rows[i]);
                        }
                    }
                }
                lemma_rewritten_projection(*input, exprs, others, schema);
            },
            _ => {},
        }
    }
}

/// Whether a row meets what an expression declares of its columns, and holds
/// no double that meets itself in it.
pub open spec fn plain_on(e: ExprView, rows: Seq<Row>) -> bool {
    forall|i: int|
        0 <= i < rows.len() ==> row_conforms(e, #[trigger] rows[i]) && no_double_meets_itself(
            e,
            rows[i],
        )
}

/// A simplified filter or projection leaves the same rows, where its input's
/// rows are such as its expressions declare them.
pub proof fn simplified_expressions_keep_rows(p: PlanView)
    requires
        tidy_throughout(p),
        match p {
            PlanView::Filter { input, predicate } => delivered(*input) matches Some(rows)
                ==> plain_on(predicate, rows),
            PlanView::Projection { input, exprs, schema } => exprs.len() > 0 && (delivered(
                *input,
            ) matches Some(rows) ==> forall|j: int|
                0 <= j < exprs.len() ==> plain_on(#[trigger] exprs[j], rows)),
            _ => false,
        },
    ensures
        mapped(p, whole(simplify_step())) matches Ok(r) ==> same_rows(p, r.node),
{
    let g = whole(simplify_step());
    if mapped(p, g) is Ok {
        match p {
            PlanView::Filter { input, predicate } => {
                let x = g(predicate)->Ok_0;
                if let Some(rows) = delivered(*input) {
                    lemma_simple_agrees(predicate, rows);
                    assert(x == simple(predicate));
                }
                lemma_rewritten_filter(*input, predicate, x);
            },
            PlanView::Projection { input, exprs, schema } => {
                lemma_map_list(exprs, g, exprs.len());
                let others = map_list(exprs, g, exprs.len())->Ok_0.node;
                if let Some(rows) = delivered(*input) {
                    assert forall|j: int| 0 <= j < exprs.len() implies agrees(
                        others[j],
                        #[trigger] exprs[j],
                        rows,
                    ) by {
                        assert(g(exprs[j]) is Ok);
                        assert(others[j] == simple(exprs[j]));
                        assert(plain_on(exprs[j], rows));
                        lemma_simple_agrees(exprs[j], rows);
                    }
                }
                lemma_rewritten_projection(*input, exprs, others, schema);
            },
            _ => {},
        }
    }
}

pub proof fn lemma_simple_agrees(e: ExprView, rows: Seq<Row>)
    requires
        plain_on(e, rows),
    ensures
        agrees(simple(e), e, rows),
{
    assert forall|i: int| 0 <= i < rows.len() && eval(e, #[trigger] rows[i]) is Ok implies eval(
        simple(e),
        rows[i],
    ) == eval(e, rows[i]) by {
        simplifying_keeps_values(e, rows[i]);
    }
}

// ---------------------------------------------------------------------------
// Shared subexpressions

proof fn lemma_replaced_list(
    exprs: Seq<ExprView>,
    target: ExprView,
    column: ExprView,
    n: nat,
)
    requires
        n <= exprs.len(),
        replaced(exprs, target, column, n) is Ok,
    ensures
        replaced(exprs, target, column, n)->Ok_0.len() == n,
        forall|j: int|
            0 <= j < n ==> (#[trigger] whole(
                replace_step(target, column),
            )(exprs[j])) is Ok && replaced(exprs, target, column, n)->Ok_0[j] == whole(
                replace_step(target, column),
            )(exprs[j])->Ok_0,
    decreases n,
{
    if n > 0 {
        let m = (n - 1) as nat;
        lemma_replaced_list(exprs, target, column, m);
        let g = whole(replace_step(target, column));
        let before = replaced(exprs, target, column, m)->Ok_0;
        let all = replaced(exprs, target, column, n)->Ok_0;
        assert(all == before.push(g(exprs[m as int])->Ok_0));
        assert forall|j: int| 0 <= j < n implies (#[trigger] g(exprs[j])) is Ok && all[j] == g(
            exprs[j],
        )->Ok_0 by {
            if j < m {
                assert(all[j] == before[j]);
            }
        }
    }
}

proof fn lemma_shared_row(
    exprs: Seq<ExprView>,
    upper: Seq<ExprView>,
    e: ExprView,
    own: Seq<FieldView>,
    column: ExprView,
    row: Row,
)
    requires
        row.len() == own.len(),
        own.len() < usize::MAX,
        no_zero_literal(e),
        eval(e, row) is Ok,
        column matches ExprView::Column { index, data_type, nullable } && index == own.len(),
        upper.len() == exprs.len(),
        forall|j: int|
            0 <= j < exprs.len() ==> columns_satisfy(
                #[trigger] exprs[j],
                |c: usize| c < own.len(),
            ),
        forall|j: int|
            0 <= j < exprs.len() ==> (#[trigger] whole(replace_step(e, column))(exprs[j])) is Ok
                && upper[j] == whole(replace_step(e, column))(exprs[j])->Ok_0,
    ensures
        values_on(upper, values_on(all_columns(own).push(e), row)) == values_on(exprs, row),
{
    let v = eval(e, row)->Ok_0;
    let lower = all_columns(own).push(e);
    let mid = values_on(lower, row);
    assert forall|j: int| 0 <= j < lower.len() implies mid[j] == #[trigger] row.push(v)[j] by {
        if j < own.len() {
            assert(lower[j] == all_columns(own)[j]);
        }
    }
    assert(mid =~= row.push(v));
    assert forall|j: int| 0 <= j < exprs.len() implies values_on(upper, mid)[j] == values_on(
        exprs,
        row,
    )[j] by {
        assert(whole(replace_step(e, column))(exprs[j]) is Ok);
        let p = |c: usize| c < own.len();
        let q = |c: usize| c < row.len();
        assert(columns_satisfy(exprs[j], p));
        assert forall|i: int|
            0 <= i < columns_of(exprs[j]).len() implies q(
            #[trigger] columns_of(exprs[j])[i],
        ) by {
            assert(p(columns_of(exprs[j])[i]));
        }
        match column {
            ExprView::Column { index, data_type, nullable } => {
                sharing_keeps_values(exprs[j], e, row, v, data_type, nullable);
            },
            _ => {},
        }
    }
    assert(values_on(upper, mid) =~= values_on(exprs, row));
}

/// A projection whose most repeated subexpression is computed once leaves the
/// same rows, where the rows are as wide as the schema, the expressions refer
/// to their columns, and the subexpression holds no zero with a sign.
pub proof fn shared_subexpressions_keep_rows(p: PlanView)
    requires
        tidy_throughout(p),
        match p {
            PlanView::Projection { input, exprs, schema } => {
                &&& exprs.len() > 0
                &&& plan_schema(*input).len() < usize::MAX
                &&& most_repeated(exprs) matches Some(e) ==> no_zero_literal(e)
                &&& forall|j: int|
                    0 <= j < exprs.len() ==> columns_satisfy(
                        #[trigger] exprs[j],
                        |c: usize| c < plan_schema(*input).len(),
                    )
                &&& delivered(*input) matches Some(rows) ==> forall|i: int|
                    0 <= i < rows.len() ==> (#[trigger] rows[i]).len() == plan_schema(*input).len()
            },
            _ => true,
        },
    ensures
        without_repetition(p) matches Ok(r) ==> same_rows(p, r.node),
{
    match p {
        PlanView::Projection { input, exprs, schema } => {
            if without_repetition(p) is Ok && without_repetition(p)->Ok_0.changed {
                let e = most_repeated(exprs)->Some_0;
                let own = plan_schema(*input);
                let column = ExprView::Column {
                    index: own.len() as usize,
                    data_type: expr_type(e)->0,
                    nullable: expr_nullable(e),
                };
                let upper = replaced(exprs, e, column, exprs.len())->Ok_0;
                let lower_exprs = all_columns(own).push(e);
                let lower_schema = own.push(shared_field(e));
                let low = PlanView::Projection {
                    input,
                    exprs: lower_exprs,
                    schema: lower_schema,
                };
                let q = PlanView::Projection { input: Box::new(low), exprs: upper, schema };
                assert(without_repetition(p)->Ok_0.node == q);
                assert(tidy_throughout(*input));
                lemma_replaced_list(exprs, e, column, exprs.len());
                if delivered(p) is Some && delivered(q) is Some {
                    projections_deliver_the_values_on_each_row(*input, exprs, schema);
                    lemma_projection_runs_tidily(*input, lower_exprs, lower_schema);
                    projections_deliver_the_values_on_each_row(low, upper, schema);
                    projections_deliver_the_values_on_each_row(*input, lower_exprs, lower_schema);
                    let rows = delivered(*input)->Some_0;
                    let mid = projected(lower_exprs, rows);
                    assert forall|i: int| 0 <= i < rows.len() implies values_on(
                        upper,
                        #[trigger] mid[i],
                    ) == values_on(exprs, rows[i]) by {
                        assert(rows[i].len() == own.len());
                        assert(lower_exprs[own.len() as int] == e);
                        assert(eval(lower_exprs[own.len() as int], rows[i]) is Ok);
                        lemma_shared_row(exprs, upper, e, own, column, rows[i]);
                    }
                    assert(projected(upper, mid) =~= projected(exprs, rows));
                }
            }
        },
        _ => {},
    }
}

} // verus!
