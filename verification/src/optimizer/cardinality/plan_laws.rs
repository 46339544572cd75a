//! What is expected of each operator, given what is expected of its input.

use vstd::prelude::*;

use crate::expr::expr::ExprView;
use crate::float64::Float64;
use crate::logical_plan::plan::{AggregateView, JoinType, PlanView, SortExprView};
use crate::optimizer::cardinality::join_card::join_estimate;
use crate::optimizer::cardinality::selectivity::estimate;
use crate::optimizer::cardinality::{
    after_filters, column_pairs, group_estimate, group_space, kept_fraction, plan_estimate,
};
use crate::optimizer::rule::Knowledge;
use crate::statistics::{ColumnStatsView, Precision, TableStatsView};
use crate::types::schema::FieldView;

verus! {

/// A limit passes over the rows it skips and lets through as many as it
/// fetches of those that are left: where the rows are known, what is expected is
/// the smaller of the two. Where they are not, as many as it fetches are
/// expected; and where it fetches all, as many as before.
pub proof fn limits_let_through_what_is_left(
    p: PlanView,
    known: Knowledge,
    skip: usize,
    fetch: Option<usize>,
)
    requires
        plan_estimate(p, known) is Ok,
    ensures
        ({
            let before = plan_estimate(p, known)->Ok_0;
            let limit = PlanView::Limit { input: Box::new(p), skip, fetch };
            let after = plan_estimate(limit, known);
            &&& after is Ok
            &&& after->Ok_0.columns == before.columns
            &&& !(after->Ok_0.num_rows is Exact)
            &&& match (before.num_rows.value(), fetch) {
                (Some(n), Some(f)) => after->Ok_0.num_rows.value() matches Some(k) && {
                    &&& k <= f
                    &&& k + skip <= n || k == 0
                    &&& k == f || k + skip == n || (k == 0 && n <= skip)
                },
                (None, Some(f)) => after->Ok_0.num_rows.value() == Some(f),
                (n, None) => after->Ok_0.num_rows.value() == n,
            }
        }),
{
}

/// A sort puts out what it gets.
pub proof fn sorts_keep_what_is_expected(p: PlanView, known: Knowledge, keys: Seq<SortExprView>)
    ensures
        ({
            let sort = PlanView::Sort { input: Box::new(p), exprs: keys };
            plan_estimate(sort, known) is Ok ==> plan_estimate(sort, known) == plan_estimate(p, known)
        }),
{
}

/// A projection puts out a row for each row it gets. Of an output column that is
/// a column of its input as much is known as of that one; of another nothing.
pub proof fn projections_keep_the_rows_expected(
    p: PlanView,
    known: Knowledge,
    exprs: Seq<ExprView>,
    schema: Seq<FieldView>,
    k: int,
)
    requires
        0 <= k < exprs.len(),
        plan_estimate(PlanView::Projection { input: Box::new(p), exprs, schema }, known) is Ok,
    ensures
        plan_estimate(p, known) is Ok,
        ({
            let before = plan_estimate(p, known)->Ok_0;
            let after = plan_estimate(
                PlanView::Projection { input: Box::new(p), exprs, schema },
                known,
            )->Ok_0;
            &&& after.num_rows == before.num_rows
            &&& after.columns.len() == exprs.len()
            &&& match exprs[k] {
                ExprView::Column { index, data_type, nullable } => index < before.columns.len()
                    ==> after.columns[k] == before.columns[index as int],
                _ => after.columns[k].distinct_count is Absent && after.columns[k].null_count is Absent
                    && after.columns[k].min_value is Absent && after.columns[k].max_value is Absent
                    && after.columns[k].histogram is None && after.columns[k].mcv is None,
            }
        }),
{
}

/// Filters are taken to be independent: each keeps its own fraction of what the
/// others keep. With none everything is kept.
pub proof fn one_more_filter_keeps_its_fraction(
    filters: Seq<ExprView>,
    f: ExprView,
    stats: TableStatsView,
)
    ensures
        kept_fraction(filters.push(f), stats, filters.len() + 1) == kept_fraction(
            filters,
            stats,
            filters.len(),
        ).spec_mul(estimate(f, stats).value),
        kept_fraction(filters, stats, 0) == Float64::spec_from_int(1),
{
    crate::float64::lemma_one_is_an_integer();
    lemma_kept_fraction(filters, f, stats, filters.len());
    assert(filters.push(f)[filters.len() as int] == f);
}

proof fn lemma_kept_fraction(filters: Seq<ExprView>, f: ExprView, stats: TableStatsView, n: nat)
    requires
        n <= filters.len(),
    ensures
        kept_fraction(filters.push(f), stats, n) == kept_fraction(filters, stats, n),
    decreases n,
{
    if n > 0 {
        lemma_kept_fraction(filters, f, stats, (n - 1) as nat);
        assert(filters.push(f)[n - 1] == filters[n - 1]);
    }
}

/// Of the rows that are there, filters are expected to leave the fraction that
/// they keep, rounded, and at least one. Nothing that was exact stays so, but
/// the values are as they were.
pub proof fn filters_keep_their_fraction(
    stats: TableStatsView,
    filters: Seq<ExprView>,
    rows: usize,
    i: int,
)
    requires
        filters.len() > 0,
        after_filters(stats, filters) is Ok,
        stats.num_rows.value() == Some(rows),
        0 <= i < stats.columns.len(),
    ensures
        ({
            let after = after_filters(stats, filters)->Ok_0;
            let left = Float64::spec_from_int(rows as int).spec_mul(
                kept_fraction(filters, stats, filters.len()),
            ).rounded_u64();
            let col = after.columns[i];
            &&& after.num_rows is Inexact
            &&& 1 <= left <= usize::MAX ==> after.num_rows.value() == Some(left as usize)
            &&& left < 1 ==> after.num_rows.value() == Some(1usize)
            &&& after.columns.len() == stats.columns.len()
            &&& col.distinct_count.value() == stats.columns[i].distinct_count.value()
            &&& col.null_count.value() == stats.columns[i].null_count.value()
            &&& col.min_value.value() == stats.columns[i].min_value.value()
            &&& col.max_value.value() == stats.columns[i].max_value.value()
            &&& col.mcv == stats.columns[i].mcv
            &&& col.histogram == stats.columns[i].histogram
            &&& !(col.distinct_count is Exact) && !(col.null_count is Exact) && !(col.min_value is Exact)
                && !(col.max_value is Exact)
        }),
{
}

/// A scan without filters has the rows and columns that are known of its table.
pub proof fn scans_have_the_statistics_of_their_table(
    scan: PlanView,
    known: Knowledge,
    stats: TableStatsView,
)
    requires
        scan is TableScan,
        scan->filters.len() == 0,
        scan->projection is None,
        known(scan->table_name) == Some(stats),
    ensures
        plan_estimate(scan, known) == Ok::<_, crate::error::ErrorKind>(stats),
{
}

/// Of a table without statistics neither the rows nor anything of its columns is
/// known.
pub proof fn tables_without_statistics_are_unknown(scan: PlanView, known: Knowledge, i: int)
    requires
        scan is TableScan,
        scan->filters.len() == 0,
        scan->projection is None,
        known(scan->table_name) is None,
        0 <= i < scan->TableScan_schema.len(),
    ensures
        plan_estimate(scan, known) is Ok,
        ({
            let s = plan_estimate(scan, known)->Ok_0;
            &&& s.num_rows is Absent
            &&& s.columns.len() == scan->TableScan_schema.len()
            &&& s.columns[i].distinct_count is Absent && s.columns[i].null_count is Absent
            &&& s.columns[i].min_value is Absent && s.columns[i].max_value is Absent
            &&& s.columns[i].histogram is None && s.columns[i].mcv is None
        }),
{
}

/// A scan that reads some columns knows of those what is known of the table's,
/// each at its place, and nothing of the others; its rows are the table's.
pub proof fn columns_that_are_read_are_known(
    scan: PlanView,
    known: Knowledge,
    stats: TableStatsView,
    wanted: Seq<usize>,
    i: usize,
)
    requires
        scan is TableScan,
        scan->filters.len() == 0,
        scan->projection == Some(wanted),
        known(scan->table_name) == Some(stats),
        i < scan->TableScan_schema.len(),
        i < stats.columns.len(),
    ensures
        plan_estimate(scan, known) is Ok,
        ({
            let s = plan_estimate(scan, known)->Ok_0;
            &&& s.num_rows == stats.num_rows
            &&& s.columns.len() == scan->TableScan_schema.len()
            &&& wanted.contains(i) ==> s.columns[i as int] == stats.columns[i as int]
            &&& !wanted.contains(i) ==> s.columns[i as int].distinct_count is Absent
                && s.columns[i as int].histogram is None && s.columns[i as int].mcv is None
        }),
{
}

/// A join is expected to give as many rows as its sides' rows joined on the
/// pairs of keys that are columns; every pair of rows, where there is none. Its
/// columns are those of its left side and behind them those of its right, as
/// far as it puts them out.
pub proof fn joins_are_expected_from_their_sides(
    l: PlanView,
    r: PlanView,
    known: Knowledge,
    on: Seq<(ExprView, ExprView)>,
    filter: Option<ExprView>,
    join_type: JoinType,
    schema: Seq<FieldView>,
    i: int,
)
    requires
        ({
            let join = PlanView::Join {
                left: Box::new(l),
                right: Box::new(r),
                on,
                filter,
                join_type,
                schema,
            };
            plan_estimate(join, known) is Ok
        }),
    ensures
        plan_estimate(l, known) is Ok && plan_estimate(r, known) is Ok,
        ({
            let join = PlanView::Join {
                left: Box::new(l),
                right: Box::new(r),
                on,
                filter,
                join_type,
                schema,
            };
            let a = plan_estimate(l, known)->Ok_0;
            let b = plan_estimate(r, known)->Ok_0;
            let after = plan_estimate(join, known)->Ok_0;
            let n = a.columns.len() as int;
            let m = b.columns.len() as int;
            &&& on.len() == 0 ==> match (a.num_rows.value(), b.num_rows.value()) {
                (Some(x), Some(y)) => x * y <= usize::MAX ==> after.num_rows.value() == Some(
                    (x * y) as usize,
                ),
                _ => after.num_rows is Absent,
            }
            &&& (on.len() > 0 && forall|k: int|
                0 <= k < on.len() ==> (#[trigger] on[k]).0 is Column && on[k].1 is Column)
                ==> after.num_rows == join_estimate(
                a,
                b,
                Seq::new(
                    on.len(),
                    |k: int| (on[k].0->Column_index, on[k].1->Column_index),
                ),
                join_type,
            )
            &&& after.columns.len() == (if schema.len() < n + m {
                schema.len() as int
            } else {
                n + m
            })
            &&& 0 <= i < after.columns.len() ==> after.columns[i].distinct_count.value() == (if i < n {
                a.columns[i].distinct_count.value()
            } else {
                b.columns[i - n].distinct_count.value()
            })
        }),
{
    if forall|k: int| 0 <= k < on.len() ==> (#[trigger] on[k]).0 is Column && on[k].1 is Column {
        lemma_pairs(on, on.len());
        assert(column_pairs(on, on.len()) =~= Seq::new(
            on.len(),
            |k: int| (on[k].0->Column_index, on[k].1->Column_index),
        ));
    }
    assert(column_pairs(on, 0) =~= seq![]);
}

proof fn lemma_pairs(on: Seq<(ExprView, ExprView)>, n: nat)
    requires
        n <= on.len(),
        forall|k: int| 0 <= k < on.len() ==> (#[trigger] on[k]).0 is Column && on[k].1 is Column,
    ensures
        column_pairs(on, n).len() == n,
        forall|k: int|
            0 <= k < n ==> (#[trigger] column_pairs(on, n)[k]) == (
                on[k].0->Column_index,
                on[k].1->Column_index,
            ),
    decreases n,
{
    if n > 0 {
        lemma_pairs(on, (n - 1) as nat);
    }
}

/// Without grouping there is one group, and that is certain. Each grouping
/// column multiplies the groups by its distinct values; but there are no more
/// groups than rows.
pub proof fn groups_are_combinations_of_values(
    groups: Seq<ExprView>,
    child: TableStatsView,
    index: usize,
    t: crate::types::data_type::DataType,
    nullable: bool,
    before: usize,
    values: usize,
)
    requires
        index < child.columns.len(),
        child.columns[index as int].distinct_count.value() == Some(values),
        values > 0,
        group_space(groups, child.columns, groups.len()) == Some(before),
        before * values <= usize::MAX,
    ensures
        group_estimate(seq![], child) == Precision::Exact(1usize),
        group_space(seq![], child.columns, 0) == Some(1usize),
        ({
            let more = groups.push(ExprView::Column { index, data_type: t, nullable });
            let n = group_estimate(more, child).value();
            &&& group_space(more, child.columns, more.len()) == Some((before * values) as usize)
            &&& group_estimate(more, child) is Inexact
            &&& match child.num_rows.value() {
                Some(rows) => rows > 0 ==> {
                    &&& n->0 <= rows && n->0 <= before * values
                    &&& n->0 == rows || n->0 == before * values
                },
                None => n->0 == before * values,
            }
        }),
{
    let c = ExprView::Column { index, data_type: t, nullable };
    let more = groups.push(c);
    lemma_group_space(groups, c, child.columns, groups.len());
    assert(more[groups.len() as int] == c);
    assert((more.len() - 1) as nat == groups.len());
}

proof fn lemma_group_space(
    groups: Seq<ExprView>,
    c: ExprView,
    columns: Seq<ColumnStatsView>,
    n: nat,
)
    requires
        n <= groups.len(),
    ensures
        group_space(groups.push(c), columns, n) == group_space(groups, columns, n),
    decreases n,
{
    if n > 0 {
        lemma_group_space(groups, c, columns, (n - 1) as nat);
        assert(groups.push(c)[n - 1] == groups[n - 1]);
    }
}

/// An aggregation is expected to put out a row for each group; its first
/// columns are those it groups by, of which as much is known as before.
pub proof fn aggregations_put_out_their_groups(
    p: PlanView,
    known: Knowledge,
    groups: Seq<ExprView>,
    aggr: Seq<AggregateView>,
    schema: Seq<FieldView>,
    k: int,
)
    requires
        0 <= k < groups.len(),
        plan_estimate(
            PlanView::Aggregate { input: Box::new(p), group_expr: groups, aggr_expr: aggr, schema },
            known,
        ) is Ok,
    ensures
        plan_estimate(p, known) is Ok,
        ({
            let before = plan_estimate(p, known)->Ok_0;
            let after = plan_estimate(
                PlanView::Aggregate { input: Box::new(p), group_expr: groups, aggr_expr: aggr, schema },
                known,
            )->Ok_0;
            &&& after.num_rows == group_estimate(groups, before)
            &&& after.columns.len() == groups.len() + aggr.len()
            &&& groups[k] matches ExprView::Column { index, data_type, nullable } ==> (index
                < before.columns.len() ==> after.columns[k].distinct_count.value()
                == before.columns[index as int].distinct_count.value())
        }),
{
}

/// An empty relation has no rows, and that is certain.
pub proof fn empty_relations_have_no_rows(schema: Seq<FieldView>, known: Knowledge)
    ensures
        plan_estimate(PlanView::EmptyRelation { schema }, known) is Ok,
        plan_estimate(PlanView::EmptyRelation { schema }, known)->Ok_0.num_rows == Precision::Exact(
            0usize,
        ),
        plan_estimate(PlanView::EmptyRelation { schema }, known)->Ok_0.columns.len() == schema.len(),
{
}

} // verus!
