//! How many rows a plan is expected to produce, and what is known of its
//! columns, from the statistics of the tables it reads.

pub mod join_card;
pub mod join_laws;
pub mod plan_laws;
pub mod selectivity;
pub mod selectivity_laws;

use vstd::prelude::*;

use crate::error::{BasaltError, ErrorKind};
use crate::expr::expr::{expr_views, Expr, ExprView};
use crate::float64::{
    lemma_fraction_shrinks, lemma_rounds_below, lemma_small_integer, lemma_zero_rounds, Float64, LIMIT,
    NAN,
};
use crate::logical_plan::plan::{
    aggregate_views, columns_view, option_view, pair_views, sort_expr_views, AggregateFunction,
    AggregateView, JoinType, LogicalPlan, PlanView, SortExpr, SortExprView, SourceView,
};
use crate::optimizer::cardinality::join_card::{
    as_count, cross_product_cardinality, join_cardinality, join_estimate, lesser,
};
use crate::optimizer::cardinality::selectivity::{
    check_columns, estimate, greater, in_range, is_share, lemma_estimates_are_shares, selectivity,
};
use crate::optimizer::rule::{knowledge, Knowledge, OptimizerContext};
use crate::statistics::{
    column_stats_views, copy_column_stats, count_product, one, precision_product,
    saturating_product, unknown_column, unknown_table, ColumnStatistics, ColumnStatsView,
    Precision, TableStatistics, TableStatsView, ONE,
};
use crate::types::schema::FieldView;

verus! {

// ---------------------------------------------------------------------------
// The model

/// A column's statistics; nothing known of a column there are none for.
pub open spec fn column_or_unknown(columns: Seq<ColumnStatsView>, i: usize) -> ColumnStatsView {
    if i < columns.len() {
        columns[i as int]
    } else {
        unknown_column()
    }
}

/// Statistics with all columns' as estimates.
pub open spec fn weakened_columns(columns: Seq<ColumnStatsView>) -> Seq<ColumnStatsView> {
    Seq::new(columns.len(), |i: int| columns[i].weakened())
}

/// The product of the first `n` filters' selectivities.
pub open spec fn kept_fraction(filters: Seq<ExprView>, stats: TableStatsView, n: nat) -> Float64
    decreases n,
{
    if n == 0 {
        one()
    } else {
        kept_fraction(filters, stats, (n - 1) as nat).spec_mul(
            estimate(filters[n - 1], stats).value,
        )
    }
}

/// A number of rows of which a fraction is kept: at least one.
pub open spec fn kept_rows(rows: usize, fraction: Float64) -> usize {
    greater(as_count(Float64::spec_from_int(rows as int).spec_mul(fraction)), 1) as usize
}

/// A row count of which a fraction is kept, as an estimate.
pub open spec fn kept_count(rows: Precision<usize>, fraction: Float64) -> Precision<usize> {
    match rows.value() {
        Some(n) => Precision::Inexact(kept_rows(n, fraction)),
        None => Precision::Absent,
    }
}

/// Whether every column of the expressions is one of the first `n`.
pub open spec fn all_in_range(s: Seq<ExprView>, n: int) -> bool {
    forall|i: int| 0 <= i < s.len() ==> in_range(#[trigger] s[i], n)
}

/// Statistics after filters: fewer rows, and nothing exact any more.
pub open spec fn after_filters(stats: TableStatsView, filters: Seq<ExprView>) -> Result<
    TableStatsView,
    ErrorKind,
> {
    if filters.len() == 0 {
        Ok(stats)
    } else if !all_in_range(filters, stats.columns.len() as int) {
        Err(ErrorKind::Internal)
    } else {
        Ok(
            TableStatsView {
                num_rows: kept_count(
                    stats.num_rows,
                    kept_fraction(filters, stats, filters.len()),
                ),
                total_byte_size: Precision::Absent,
                columns: weakened_columns(stats.columns),
            },
        )
    }
}

/// What is known of an expression's values: what is known of its column.
pub open spec fn expr_stats(e: ExprView, columns: Seq<ColumnStatsView>) -> ColumnStatsView {
    match e {
        ExprView::Column { index, data_type, nullable } => column_or_unknown(columns, index),
        _ => unknown_column(),
    }
}

/// What is known of the columns of a scan that reads some of a table's. Each
/// stays at its place in the scan's schema; of one that is not read nothing is
/// known.
pub open spec fn read_columns(
    columns: Seq<ColumnStatsView>,
    wanted: Seq<usize>,
    width: nat,
) -> Seq<ColumnStatsView> {
    Seq::new(
        width,
        |i: int|
            if wanted.contains(i as usize) {
                column_or_unknown(columns, i as usize)
            } else {
                unknown_column()
            },
    )
}

/// The key pairs among the first `n` that are plain columns.
pub open spec fn column_pairs(on: Seq<(ExprView, ExprView)>, n: nat) -> Seq<(usize, usize)>
    decreases n,
{
    if n == 0 {
        seq![]
    } else {
        let before = column_pairs(on, (n - 1) as nat);
        match on[n - 1] {
            (
                ExprView::Column { index: i, data_type: t, nullable: p },
                ExprView::Column { index: j, data_type: u, nullable: q },
            ) => before.push((i, j)),
            _ => before,
        }
    }
}

/// The product of the first `n` grouping columns' numbers of distinct values;
/// `None` where one is not known.
pub open spec fn group_space(
    group_expr: Seq<ExprView>,
    columns: Seq<ColumnStatsView>,
    n: nat,
) -> Option<usize>
    decreases n,
{
    if n == 0 {
        Some(1)
    } else {
        match (
            group_space(group_expr, columns, (n - 1) as nat),
            expr_stats(group_expr[n - 1], columns).distinct_count.value(),
        ) {
            (Some(p), Some(ndv)) => Some(count_product(p as int, greater(ndv as int, 1))),
            _ => None,
        }
    }
}

/// The number of groups: one without grouping; else the combinations of the
/// columns' distinct values, but no more than there are rows.
pub open spec fn group_estimate(group_expr: Seq<ExprView>, child: TableStatsView) -> Precision<
    usize,
> {
    if group_expr.len() == 0 {
        Precision::Exact(1)
    } else {
        match group_space(group_expr, child.columns, group_expr.len()) {
            None => Precision::Absent,
            Some(p) => match child.num_rows.value() {
                Some(rows) => Precision::Inexact(
                    lesser(p as int, greater(rows as int, 1)) as usize,
                ),
                None => Precision::Inexact(p),
            },
        }
    }
}

/// The rows of an input that a limit lets through.
pub open spec fn limit_estimate(rows: Precision<usize>, skip: usize, fetch: Option<usize>) -> Precision<
    usize,
> {
    match (rows.value(), fetch) {
        (Some(n), Some(f)) => Precision::Inexact(
            lesser(
                f as int,
                if n >= skip {
                    n - skip
                } else {
                    0
                },
            ) as usize,
        ),
        (None, Some(f)) => Precision::Inexact(f),
        _ => rows.weakened(),
    }
}

/// Whether the keys and the condition of a join refer to columns there are
/// statistics for.
pub open spec fn join_in_range(
    on: Seq<(ExprView, ExprView)>,
    filter: Option<ExprView>,
    l: int,
    r: int,
) -> bool {
    &&& forall|i: int|
        0 <= i < on.len() ==> in_range((#[trigger] on[i]).0, l) && in_range(on[i].1, r)
    &&& filter matches Some(e) ==> in_range(e, l + r)
}

/// The sort keys' expressions.
pub open spec fn keys_in_range(keys: Seq<SortExprView>, n: int) -> bool {
    forall|i: int| 0 <= i < keys.len() ==> in_range((#[trigger] keys[i]).expr, n)
}

/// The aggregates' arguments.
pub open spec fn arguments_in_range(aggr: Seq<AggregateView>, n: int) -> bool {
    forall|i: int|
        0 <= i < aggr.len() ==> ((#[trigger] aggr[i]).arg matches Some(e) ==> in_range(e, n))
}

/// The columns of a join: both sides', as far as the join puts them out.
pub open spec fn joined_columns(
    l: Seq<ColumnStatsView>,
    r: Seq<ColumnStatsView>,
    width: nat,
) -> Seq<ColumnStatsView> {
    let all = weakened_columns(l + r);
    if width < all.len() {
        all.take(width as int)
    } else {
        all
    }
}

/// What is expected of a join's output.
pub open spec fn estimated_join(
    l: TableStatsView,
    r: TableStatsView,
    on: Seq<(ExprView, ExprView)>,
    filter: Option<ExprView>,
    join_type: JoinType,
    width: nat,
) -> Result<TableStatsView, ErrorKind> {
    if join_in_range(on, filter, l.columns.len() as int, r.columns.len() as int) {
        let pairs = column_pairs(on, on.len());
        Ok(
            TableStatsView {
                num_rows: if pairs.len() == 0 {
                    precision_product(l.num_rows, r.num_rows)
                } else {
                    join_estimate(l, r, pairs, join_type)
                },
                total_byte_size: Precision::Absent,
                columns: joined_columns(l.columns, r.columns, width),
            },
        )
    } else {
        Err(ErrorKind::Internal)
    }
}

/// What is expected of an aggregation's output.
pub open spec fn estimated_aggregate(
    child: TableStatsView,
    group_expr: Seq<ExprView>,
    aggr_expr: Seq<AggregateView>,
) -> Result<TableStatsView, ErrorKind> {
    if all_in_range(group_expr, child.columns.len() as int) && arguments_in_range(
        aggr_expr,
        child.columns.len() as int,
    ) {
        Ok(
            TableStatsView {
                num_rows: group_estimate(group_expr, child),
                total_byte_size: Precision::Absent,
                columns: Seq::new(
                    group_expr.len() + aggr_expr.len(),
                    |i: int|
                        if i < group_expr.len() {
                            expr_stats(group_expr[i], child.columns).weakened()
                        } else {
                            unknown_column()
                        },
                ),
            },
        )
    } else {
        Err(ErrorKind::Internal)
    }
}

/// What is expected of a plan's output.
pub open spec fn plan_estimate(p: PlanView, known: Knowledge) -> Result<TableStatsView, ErrorKind>
    decreases p,
{
    match p {
        PlanView::TableScan { table_name, source, projection, filters, schema } => {
            let base = match known(table_name) {
                Some(s) => s,
                None => unknown_table(schema.len()),
            };
            after_filters(
                match projection {
                    Some(wanted) => TableStatsView {
                        num_rows: base.num_rows,
                        total_byte_size: Precision::Absent,
                        columns: read_columns(base.columns, wanted, schema.len()),
                    },
                    None => base,
                },
                filters,
            )
        },
        PlanView::Filter { input, predicate } => match plan_estimate(*input, known) {
            Err(k) => Err(k),
            Ok(child) => after_filters(child, seq![predicate]),
        },
        PlanView::Projection { input, exprs, schema } => match plan_estimate(*input, known) {
            Err(k) => Err(k),
            Ok(child) => if all_in_range(exprs, child.columns.len() as int) {
                Ok(
                    TableStatsView {
                        num_rows: child.num_rows,
                        total_byte_size: Precision::Absent,
                        columns: Seq::new(
                            exprs.len(),
                            |i: int| expr_stats(exprs[i], child.columns),
                        ),
                    },
                )
            } else {
                Err(ErrorKind::Internal)
            },
        },
        PlanView::Join { left, right, on, filter, join_type, schema } => match plan_estimate(
            *left,
            known,
        ) {
            Err(k) => Err(k),
            Ok(l) => match plan_estimate(*right, known) {
                Err(k) => Err(k),
                Ok(r) => estimated_join(l, r, on, filter, join_type, schema.len()),
            },
        },
        PlanView::Aggregate { input, group_expr, aggr_expr, schema } => match plan_estimate(
            *input,
            known,
        ) {
            Err(k) => Err(k),
            Ok(child) => estimated_aggregate(child, group_expr, aggr_expr),
        },
        PlanView::Sort { input, exprs } => match plan_estimate(*input, known) {
            Err(k) => Err(k),
            Ok(child) => if keys_in_range(exprs, child.columns.len() as int) {
                Ok(child)
            } else {
                Err(ErrorKind::Internal)
            },
        },
        PlanView::Limit { input, skip, fetch } => match plan_estimate(*input, known) {
            Err(k) => Err(k),
            Ok(child) => Ok(
                TableStatsView {
                    num_rows: limit_estimate(child.num_rows, skip, fetch),
                    total_byte_size: Precision::Absent,
                    columns: child.columns,
                },
            ),
        },
        PlanView::EmptyRelation { schema } => Ok(
            TableStatsView {
                num_rows: Precision::Exact(0),
                total_byte_size: Precision::Exact(0),
                columns: Seq::new(schema.len(), |i: int| unknown_column()),
            },
        ),
    }
}

// ---------------------------------------------------------------------------
// Laws

/// A scan that records which columns are read has an estimate exactly where it
/// had one, of as many columns, and without filters of as many rows.
pub proof fn recorded_columns_keep_scans_estimated(
    table_name: Seq<char>,
    source: SourceView,
    wanted: Seq<usize>,
    filters: Seq<ExprView>,
    schema: Seq<FieldView>,
    known: Knowledge,
)
    requires
        known(table_name) matches Some(s) ==> s.columns.len() == schema.len(),
    ensures
        ({
            let all = plan_estimate(
                PlanView::TableScan { table_name, source, projection: None, filters, schema },
                known,
            );
            let some = plan_estimate(
                PlanView::TableScan {
                    table_name,
                    source,
                    projection: Some(wanted),
                    filters,
                    schema,
                },
                known,
            );
            &&& all is Ok <==> some is Ok
            &&& all is Ok ==> {
                &&& some->Ok_0.columns.len() == all->Ok_0.columns.len()
                &&& filters.len() == 0 ==> some->Ok_0.num_rows == all->Ok_0.num_rows
            }
        }),
{
}

/// A filter never leaves an exact row count behind.
pub proof fn filters_leave_nothing_exact(p: PlanView, known: Knowledge)
    requires
        p is Filter,
        plan_estimate(p, known) is Ok,
    ensures
        !(plan_estimate(p, known)->Ok_0.num_rows is Exact),
        forall|i: int|
            0 <= i < plan_estimate(p, known)->Ok_0.columns.len() ==> {
                let c = #[trigger] plan_estimate(p, known)->Ok_0.columns[i];
                !(c.null_count is Exact) && !(c.distinct_count is Exact) && !(c.min_value is Exact)
                    && !(c.max_value is Exact)
            },
{
}

proof fn lemma_fractions_multiply(filters: Seq<ExprView>, stats: TableStatsView, n: nat)
    requires
        n <= filters.len(),
    ensures
        is_share(kept_fraction(filters, stats, n)),
    decreases n,
{
    if n == 0 {
        assert(one().magnitude() == ONE as int && !one().negative());
    } else {
        lemma_fractions_multiply(filters, stats, (n - 1) as nat);
        lemma_estimates_are_shares(filters[n - 1], stats);
        let a = kept_fraction(filters, stats, (n - 1) as nat);
        let b = estimate(filters[n - 1], stats).value;
        if a.is_nan() || b.is_nan() {
            assert(Float64 { bits: NAN }.magnitude() == NAN as int);
        } else {
            lemma_fraction_shrinks(a, b);
        }
    }
}

/// Filters are expected to leave at least one row, and no more than there were
/// (the rows counted exactly by a double: fewer than `2^53`). Where the rows
/// are not known, neither are those that are left.
pub proof fn filters_keep_some_but_no_more_rows(stats: TableStatsView, filters: Seq<ExprView>)
    requires
        filters.len() > 0,
        stats.num_rows.value() matches Some(n) ==> n < LIMIT,
        after_filters(stats, filters) is Ok,
    ensures
        match stats.num_rows.value() {
            Some(n) => after_filters(stats, filters)->Ok_0.num_rows.value() matches Some(k) && 1 <= k
                <= greater(n as int, 1),
            None => after_filters(stats, filters)->Ok_0.num_rows is Absent,
        },
{
    match stats.num_rows.value() {
        Some(n) => {
            let share = kept_fraction(filters, stats, filters.len());
            lemma_fractions_multiply(filters, stats, filters.len());
            let rows = Float64::spec_from_int(n as int);
            let left = rows.spec_mul(share);
            if share.is_nan() {
                assert(Float64 { bits: NAN }.magnitude() == NAN as int);
                assert(left.rounded_u64() == 0);
            } else if n == 0 {
                lemma_fraction_shrinks(rows, share);
                lemma_zero_rounds(left);
            } else {
                lemma_small_integer(n as int);
                lemma_fraction_shrinks(rows, share);
                lemma_rounds_below(left, n as int);
            }
        },
        None => {},
    }
}

/// A filter's estimate has the columns of its input's, and its rows: at least
/// one, no more than the input has, and unknown where the input's are.
pub proof fn a_filter_keeps_some_but_no_more_rows(p: PlanView, known: Knowledge)
    requires
        p is Filter,
        plan_estimate(p, known) is Ok,
        plan_estimate(*p->Filter_input, known)->Ok_0.num_rows.value() matches Some(n) ==> n < LIMIT,
    ensures
        plan_estimate(*p->Filter_input, known) is Ok,
        ({
            let before = plan_estimate(*p->Filter_input, known)->Ok_0;
            let after = plan_estimate(p, known)->Ok_0;
            &&& after.columns.len() == before.columns.len()
            &&& match before.num_rows.value() {
                Some(n) => after.num_rows.value() matches Some(k) && 1 <= k <= greater(n as int, 1),
                None => after.num_rows is Absent,
            }
        }),
{
    match p {
        PlanView::Filter { input, predicate } => {
            let before = plan_estimate(*input, known)->Ok_0;
            filters_keep_some_but_no_more_rows(before, seq![predicate]);
        },
        _ => {},
    }
}

/// A limit is never taken to let more rows through than it fetches.
pub proof fn limits_cap_the_estimate(rows: Precision<usize>, skip: usize, fetch: usize)
    ensures
        limit_estimate(rows, skip, Some(fetch)).value() matches Some(n) && n <= fetch,
        rows.value() matches Some(n) ==> limit_estimate(rows, skip, Some(fetch)).value()->0 <= n,
{
}

/// Grouping is never taken to make more groups than there are rows.
pub proof fn groups_never_exceed_rows(group_expr: Seq<ExprView>, child: TableStatsView)
    requires
        child.num_rows.value() is Some,
        child.num_rows.value()->0 > 0,
    ensures
        group_estimate(group_expr, child).value() matches Some(n) ==> n <= child.num_rows.value()->0,
{
}

// ---------------------------------------------------------------------------
// The estimator

/// The outcome of an estimate.
pub open spec fn stats_outcome(r: Result<TableStatistics, BasaltError>) -> Result<
    TableStatsView,
    ErrorKind,
> {
    match r {
        Ok(s) => Ok(s@),
        Err(e) => Err(e@),
    }
}

fn column_or_nothing(columns: &Vec<ColumnStatistics>, i: usize) -> (r: ColumnStatistics)
    ensures
        r@ == column_or_unknown(column_stats_views(columns@), i),
{
    if i < columns.len() {
        columns[i].copy()
    } else {
        ColumnStatistics::unknown()
    }
}

fn stats_of_expr(e: &Expr, columns: &Vec<ColumnStatistics>) -> (r: ColumnStatistics)
    ensures
        r@ == expr_stats(e@, column_stats_views(columns@)),
{
    match e {
        Expr::Column { index, data_type, nullable } => column_or_nothing(columns, *index),
        _ => ColumnStatistics::unknown(),
    }
}

/// Columns with all statistics as estimates.
fn degrade_columns(columns: &Vec<ColumnStatistics>) -> (r: Vec<ColumnStatistics>)
    ensures
        column_stats_views(r@) == weakened_columns(column_stats_views(columns@)),
{
    let mut out: Vec<ColumnStatistics> = Vec::new();
    let mut i: usize = 0;
    while i < columns.len()
        invariant
            i <= columns@.len(),
            out@.len() == i,
            forall|k: int| 0 <= k < i ==> (#[trigger] out@[k])@ == columns@[k]@.weakened(),
        decreases columns@.len() - i,
    {
        out.push(columns[i].copy().degrade());
        i = i + 1;
    }
    assert(column_stats_views(out@) =~= weakened_columns(column_stats_views(columns@)));
    out
}

fn scaled_rows(rows: usize, fraction: Float64) -> (r: usize)
    ensures
        r == kept_rows(rows, fraction),
{
    let n: u64 = Float64::from_u64(rows as u64).mul(fraction).round_to_u64();
    let n: usize = if n > usize::MAX as u64 {
        usize::MAX
    } else {
        n as usize
    };
    if n < 1 {
        1
    } else {
        n
    }
}

/// Checks that expressions refer to columns there are statistics for.
fn check_all(exprs: &Vec<Expr>, n: usize) -> (r: Result<(), BasaltError>)
    ensures
        match r {
            Ok(_) => all_in_range(expr_views(exprs@), n as int),
            Err(e) => e@ == ErrorKind::Internal && !all_in_range(expr_views(exprs@), n as int),
        },
{
    let ghost ev = expr_views(exprs@);
    let mut i: usize = 0;
    while i < exprs.len()
        invariant
            i <= exprs@.len(),
            ev == expr_views(exprs@),
            forall|k: int| 0 <= k < i ==> in_range(#[trigger] ev[k], n as int),
        decreases exprs@.len() - i,
    {
        assert(ev[i as int] == exprs@[i as int]@);
        match check_columns(&exprs[i], n) {
            Ok(_) => {},
            Err(e) => {
                return Err(e);
            },
        }
        i = i + 1;
    }
    Ok(())
}

/// Statistics after filters.
fn apply_filters(stats: TableStatistics, filters: &Vec<Expr>) -> (r: Result<
    TableStatistics,
    BasaltError,
>)
    ensures
        stats_outcome(r) == after_filters(stats@, expr_views(filters@)),
{
    let ghost fv = expr_views(filters@);
    assert(fv.len() == filters@.len());
    if filters.len() == 0 {
        return Ok(stats);
    }
    match check_all(filters, stats.column_statistics.len()) {
        Ok(_) => {},
        Err(e) => {
            return Err(e);
        },
    }
    let mut fraction = Float64::from_bits(ONE);
    let mut i: usize = 0;
    while i < filters.len()
        invariant
            i <= filters@.len(),
            fv == expr_views(filters@),
            all_in_range(fv, stats@.columns.len() as int),
            fraction == kept_fraction(fv, stats@, i as nat),
        decreases filters@.len() - i,
    {
        assert(fv[i as int] == filters@[i as int]@);
        assert(in_range(fv[i as int], stats@.columns.len() as int));
        match selectivity(&filters[i], &stats) {
            Ok(s) => {
                fraction = fraction.mul(s.value);
            },
            Err(e) => {
                return Err(e);
            },
        }
        i = i + 1;
    }
    let num_rows = match stats.num_rows.get_value() {
        Some(n) => Precision::Inexact(scaled_rows(*n, fraction)),
        None => Precision::Absent,
    };
    Ok(
        TableStatistics {
            num_rows,
            total_byte_size: Precision::Absent,
            column_statistics: degrade_columns(&stats.column_statistics),
        },
    )
}

/// The number of groups.
fn estimate_group_count(group_expr: &Vec<Expr>, child: &TableStatistics) -> (r: Precision<usize>)
    ensures
        r == group_estimate(expr_views(group_expr@), child@),
{
    let ghost gv = expr_views(group_expr@);
    assert(gv.len() == group_expr@.len());
    if group_expr.len() == 0 {
        return Precision::Exact(1);
    }
    let mut product: Option<usize> = Some(1);
    let mut i: usize = 0;
    while i < group_expr.len()
        invariant
            i <= group_expr@.len(),
            gv == expr_views(group_expr@),
            product == group_space(gv, child@.columns, i as nat),
        decreases group_expr@.len() - i,
    {
        assert(gv[i as int] == group_expr@[i as int]@);
        let stats = stats_of_expr(&group_expr[i], &child.column_statistics);
        product = match (product, stats.distinct_count.get_value()) {
            (Some(p), Some(ndv)) => Some(
                saturating_product(
                    p,
                    if *ndv < 1 {
                        1
                    } else {
                        *ndv
                    },
                ),
            ),
            _ => None,
        };
        i = i + 1;
    }
    match product {
        None => Precision::Absent,
        Some(p) => match child.num_rows.get_value() {
            Some(rows) => {
                let most: usize = if *rows < 1 {
                    1
                } else {
                    *rows
                };
                if p <= most {
                    Precision::Inexact(p)
                } else {
                    Precision::Inexact(most)
                }
            },
            None => Precision::Inexact(p),
        },
    }
}

/// The key pairs that are plain columns.
fn plain_pairs(on: &Vec<(Expr, Expr)>) -> (r: Vec<(usize, usize)>)
    ensures
        r@ == column_pairs(pair_views(on@), on@.len()),
{
    let ghost pv = pair_views(on@);
    let mut out: Vec<(usize, usize)> = Vec::new();
    let mut i: usize = 0;
    while i < on.len()
        invariant
            i <= on@.len(),
            pv == pair_views(on@),
            out@ == column_pairs(pv, i as nat),
        decreases on@.len() - i,
    {
        assert(pv[i as int] == (on@[i as int].0@, on@[i as int].1@));
        match (&on[i].0, &on[i].1) {
            (
                Expr::Column { index: l, data_type: t, nullable: p },
                Expr::Column { index: r, data_type: u, nullable: q },
            ) => {
                out.push((*l, *r));
            },
            _ => {},
        }
        i = i + 1;
    }
    out
}

/// Checks the keys and the condition of a join.
fn check_join(
    on: &Vec<(Expr, Expr)>,
    filter: &Option<Expr>,
    l: usize,
    r: usize,
    both: usize,
) -> (res: Result<(), BasaltError>)
    requires
        both == l + r,
    ensures
        match res {
            Ok(_) => join_in_range(pair_views(on@), option_view(*filter), l as int, r as int),
            Err(e) => e@ == ErrorKind::Internal && !join_in_range(
                pair_views(on@),
                option_view(*filter),
                l as int,
                r as int,
            ),
        },
{
    let ghost pv = pair_views(on@);
    let mut i: usize = 0;
    while i < on.len()
        invariant
            i <= on@.len(),
            pv == pair_views(on@),
            forall|k: int|
                0 <= k < i ==> in_range((#[trigger] pv[k]).0, l as int) && in_range(
                    pv[k].1,
                    r as int,
                ),
        decreases on@.len() - i,
    {
        assert(pv[i as int] == (on@[i as int].0@, on@[i as int].1@));
        match check_columns(&on[i].0, l) {
            Ok(_) => {},
            Err(e) => {
                assert(!in_range(pv[i as int].0, l as int));
                return Err(e);
            },
        }
        match check_columns(&on[i].1, r) {
            Ok(_) => {},
            Err(e) => {
                assert(!in_range(pv[i as int].1, r as int));
                return Err(e);
            },
        }
        i = i + 1;
    }
    match filter {
        Some(e) => check_columns(e, both),
        None => Ok(()),
    }
}

fn check_keys(keys: &Vec<SortExpr>, n: usize) -> (r: Result<(), BasaltError>)
    ensures
        match r {
            Ok(_) => keys_in_range(sort_expr_views(keys@), n as int),
            Err(e) => e@ == ErrorKind::Internal && !keys_in_range(
                sort_expr_views(keys@),
                n as int,
            ),
        },
{
    let ghost kv = sort_expr_views(keys@);
    let mut i: usize = 0;
    while i < keys.len()
        invariant
            i <= keys@.len(),
            kv == sort_expr_views(keys@),
            forall|k: int| 0 <= k < i ==> in_range((#[trigger] kv[k]).expr, n as int),
        decreases keys@.len() - i,
    {
        assert(kv[i as int] == keys@[i as int]@);
        match check_columns(&keys[i].expr, n) {
            Ok(_) => {},
            Err(e) => {
                assert(!in_range(kv[i as int].expr, n as int));
                return Err(e);
            },
        }
        i = i + 1;
    }
    Ok(())
}

fn check_arguments(aggr: &Vec<AggregateFunction>, n: usize) -> (r: Result<(), BasaltError>)
    ensures
        match r {
            Ok(_) => arguments_in_range(aggregate_views(aggr@), n as int),
            Err(e) => e@ == ErrorKind::Internal && !arguments_in_range(
                aggregate_views(aggr@),
                n as int,
            ),
        },
{
    let ghost av = aggregate_views(aggr@);
    let mut i: usize = 0;
    while i < aggr.len()
        invariant
            i <= aggr@.len(),
            av == aggregate_views(aggr@),
            forall|k: int|
                0 <= k < i ==> ((#[trigger] av[k]).arg matches Some(e) ==> in_range(e, n as int)),
        decreases aggr@.len() - i,
    {
        assert(av[i as int] == aggr@[i as int]@);
        match &aggr[i].arg {
            Some(e) => match check_columns(e, n) {
                Ok(_) => {},
                Err(k) => {
                    assert(av[i as int].arg is Some);
                    return Err(k);
                },
            },
            None => {},
        }
        i = i + 1;
    }
    Ok(())
}

/// Whether a list of columns holds one.
fn holds_column(columns: &Vec<usize>, column: usize) -> (r: bool)
    ensures
        r == columns@.contains(column),
{
    let mut i: usize = 0;
    while i < columns.len()
        invariant
            i <= columns@.len(),
            forall|k: int| 0 <= k < i ==> columns@[k] != column,
        decreases columns@.len() - i,
    {
        if columns[i] == column {
            return true;
        }
        i = i + 1;
    }
    false
}

/// What is expected of a plan's output.
///
/// # Errors
/// An internal error where an expression refers to a column that its node has
/// no statistics for.
pub fn estimate_plan_statistics<C: OptimizerContext>(plan: &LogicalPlan, ctx: &C) -> (r: Result<
    TableStatistics,
    BasaltError,
>)
    ensures
        stats_outcome(r) == plan_estimate(plan@, knowledge(*ctx)),
    decreases plan,
{
    match plan {
        LogicalPlan::TableScan { table_name, source, projection, filters, schema } => {
            assert(plan@ == (PlanView::TableScan {
                table_name: table_name@,
                source: source@,
                projection: columns_view(*projection),
                filters: expr_views(filters@),
                schema: schema@,
            }));
            let base = match ctx.statistics_for(table_name.as_str()) {
                Some(s) => s.copy(),
                None => TableStatistics::unknown(schema.len()),
            };
            match projection {
                None => apply_filters(base, filters),
                Some(wanted) => {
                    let width = schema.len();
                    let mut columns: Vec<ColumnStatistics> = Vec::new();
                    let mut i: usize = 0;
                    while i < width
                        invariant
                            i <= width,
                            columns@.len() == i,
                            forall|k: int|
                                0 <= k < i ==> (#[trigger] columns@[k])@ == read_columns(
                                    base@.columns,
                                    wanted@,
                                    width as nat,
                                )[k],
                        decreases width - i,
                    {
                        if holds_column(wanted, i) {
                            columns.push(column_or_nothing(&base.column_statistics, i));
                        } else {
                            columns.push(ColumnStatistics::unknown());
                        }
                        i = i + 1;
                    }
                    let projected = TableStatistics {
                        num_rows: base.num_rows,
                        total_byte_size: Precision::Absent,
                        column_statistics: columns,
                    };
                    assert(projected@.columns =~= read_columns(
                        base@.columns,
                        wanted@,
                        schema@.len(),
                    ));
                    apply_filters(projected, filters)
                },
            }
        },
        LogicalPlan::Filter { input, predicate } => {
            assert(plan@ == (PlanView::Filter {
                input: Box::new(input@),
                predicate: predicate@,
            }));
            match estimate_plan_statistics(input, ctx) {
                Err(e) => Err(e),
                Ok(child) => {
                    let mut one: Vec<Expr> = Vec::new();
                    one.push(predicate.copy());
                    assert(expr_views(one@) =~= seq![predicate@]);
                    apply_filters(child, &one)
                },
            }
        },
        LogicalPlan::Projection { input, exprs, schema } => {
            assert(plan@ == (PlanView::Projection {
                input: Box::new(input@),
                exprs: expr_views(exprs@),
                schema: schema@,
            }));
            let child = match estimate_plan_statistics(input, ctx) {
                Err(e) => {
                    return Err(e);
                },
                Ok(child) => child,
            };
            match check_all(exprs, child.column_statistics.len()) {
                Err(e) => {
                    return Err(e);
                },
                Ok(_) => {},
            }
            let ghost ev = expr_views(exprs@);
            let mut columns: Vec<ColumnStatistics> = Vec::new();
            let mut i: usize = 0;
            while i < exprs.len()
                invariant
                    i <= exprs@.len(),
                    ev == expr_views(exprs@),
                    columns@.len() == i,
                    forall|k: int|
                        0 <= k < i ==> (#[trigger] columns@[k])@ == expr_stats(
                            ev[k],
                            child@.columns,
                        ),
                decreases exprs@.len() - i,
            {
                assert(ev[i as int] == exprs@[i as int]@);
                columns.push(stats_of_expr(&exprs[i], &child.column_statistics));
                i = i + 1;
            }
            let out = TableStatistics {
                num_rows: child.num_rows,
                total_byte_size: Precision::Absent,
                column_statistics: columns,
            };
            assert(out@.columns =~= Seq::new(ev.len(), |i: int| expr_stats(ev[i], child@.columns)));
            Ok(out)
        },
        LogicalPlan::Join { left, right, on, filter, join_type, schema } => {
            assert(plan@ == (PlanView::Join {
                left: Box::new(left@),
                right: Box::new(right@),
                on: pair_views(on@),
                filter: option_view(*filter),
                join_type: *join_type,
                schema: schema@,
            }));
            let l = match estimate_plan_statistics(left, ctx) {
                Err(e) => {
                    return Err(e);
                },
                Ok(s) => s,
            };
            let r = match estimate_plan_statistics(right, ctx) {
                Err(e) => {
                    return Err(e);
                },
                Ok(s) => s,
            };
            estimate_join(l, r, on, filter, *join_type, schema.len())
        },
        LogicalPlan::Aggregate { input, group_expr, aggr_expr, schema } => {
            assert(plan@ == (PlanView::Aggregate {
                input: Box::new(input@),
                group_expr: expr_views(group_expr@),
                aggr_expr: aggregate_views(aggr_expr@),
                schema: schema@,
            }));
            let child = match estimate_plan_statistics(input, ctx) {
                Err(e) => {
                    return Err(e);
                },
                Ok(child) => child,
            };
            estimate_aggregate(child, group_expr, aggr_expr)
        },
        LogicalPlan::Sort { input, exprs } => {
            assert(plan@ == (PlanView::Sort {
                input: Box::new(input@),
                exprs: sort_expr_views(exprs@),
            }));
            let child = match estimate_plan_statistics(input, ctx) {
                Err(e) => {
                    return Err(e);
                },
                Ok(child) => child,
            };
            match check_keys(exprs, child.column_statistics.len()) {
                Ok(_) => Ok(child),
                Err(e) => Err(e),
            }
        },
        LogicalPlan::Limit { input, skip, fetch } => {
            assert(plan@ == (PlanView::Limit {
                input: Box::new(input@),
                skip: *skip,
                fetch: *fetch,
            }));
            let child = match estimate_plan_statistics(input, ctx) {
                Err(e) => {
                    return Err(e);
                },
                Ok(child) => child,
            };
            let num_rows = match (child.num_rows.get_value(), fetch) {
                (Some(n), Some(f)) => {
                    let rest: usize = if *n >= *skip {
                        *n - *skip
                    } else {
                        0
                    };
                    if *f <= rest {
                        Precision::Inexact(*f)
                    } else {
                        Precision::Inexact(rest)
                    }
                },
                (None, Some(f)) => Precision::Inexact(*f),
                _ => child.num_rows.to_inexact(),
            };
            Ok(
                TableStatistics {
                    num_rows,
                    total_byte_size: Precision::Absent,
                    column_statistics: child.column_statistics,
                },
            )
        },
        LogicalPlan::EmptyRelation { schema } => {
            let unknown = TableStatistics::unknown(schema.len());
            Ok(
                TableStatistics {
                    num_rows: Precision::Exact(0),
                    total_byte_size: Precision::Exact(0),
                    column_statistics: unknown.column_statistics,
                },
            )
        },
    }
}

/// What is expected of a join's output.
fn estimate_join(
    l: TableStatistics,
    r: TableStatistics,
    on: &Vec<(Expr, Expr)>,
    filter: &Option<Expr>,
    join_type: JoinType,
    width: usize,
) -> (res: Result<TableStatistics, BasaltError>)
    ensures
        stats_outcome(res) == estimated_join(
            l@,
            r@,
            pair_views(on@),
            option_view(*filter),
            join_type,
            width as nat,
        ),
{
    let mut all = copy_column_stats(&l.column_statistics);
    let mut i: usize = 0;
    assert(column_stats_views(all@) =~= l@.columns + r@.columns.take(0));
    while i < r.column_statistics.len()
        invariant
            i <= r.column_statistics@.len(),
            column_stats_views(all@) == l@.columns + r@.columns.take(i as int),
        decreases r.column_statistics@.len() - i,
    {
        let ghost was = column_stats_views(all@);
        all.push(r.column_statistics[i].copy());
        proof {
            assert(column_stats_views(all@) =~= was.push(r@.columns[i as int]));
            assert(l@.columns + r@.columns.take(i + 1) =~= (l@.columns + r@.columns.take(
                i as int,
            )).push(r@.columns[i as int]));
        }
        i = i + 1;
    }
    assert(r@.columns.take(i as int) =~= r@.columns);
    assert(column_stats_views(all@).len() == all@.len());
    let total: usize = all.len();
    match check_join(on, filter, l.column_statistics.len(), r.column_statistics.len(), total) {
        Err(e) => {
            return Err(e);
        },
        Ok(_) => {},
    }
    let pairs = plain_pairs(on);
    let num_rows = if pairs.len() == 0 {
        cross_product_cardinality(&l, &r)
    } else {
        join_cardinality(&l, &r, &pairs, join_type)
    };
    let ghost both = column_stats_views(all@);
    let count: usize = if width < total {
        width
    } else {
        total
    };
    let mut columns: Vec<ColumnStatistics> = Vec::new();
    let mut i: usize = 0;
    while i < count
        invariant
            i <= count <= total,
            total == all@.len(),
            both == column_stats_views(all@),
            columns@.len() == i,
            forall|k: int| 0 <= k < i ==> (#[trigger] columns@[k])@ == both[k].weakened(),
        decreases count - i,
    {
        columns.push(all[i].copy().degrade());
        i = i + 1;
    }
    let out = TableStatistics {
        num_rows,
        total_byte_size: Precision::Absent,
        column_statistics: columns,
    };
    assert(out@.columns =~= joined_columns(l@.columns, r@.columns, width as nat));
    Ok(out)
}

/// What is expected of an aggregation's output.
fn estimate_aggregate(
    child: TableStatistics,
    group_expr: &Vec<Expr>,
    aggr_expr: &Vec<AggregateFunction>,
) -> (res: Result<TableStatistics, BasaltError>)
    ensures
        stats_outcome(res) == estimated_aggregate(
            child@,
            expr_views(group_expr@),
            aggregate_views(aggr_expr@),
        ),
{
    let width: usize = child.column_statistics.len();
    match check_all(group_expr, width) {
        Err(e) => {
            return Err(e);
        },
        Ok(_) => {},
    }
    match check_arguments(aggr_expr, width) {
        Err(e) => {
            return Err(e);
        },
        Ok(_) => {},
    }
    let ghost gv = expr_views(group_expr@);
    let num_rows = estimate_group_count(group_expr, &child);
    let mut columns: Vec<ColumnStatistics> = Vec::new();
    let mut i: usize = 0;
    while i < group_expr.len()
        invariant
            i <= group_expr@.len(),
            gv == expr_views(group_expr@),
            columns@.len() == i,
            forall|k: int|
                0 <= k < i ==> (#[trigger] columns@[k])@ == expr_stats(
                    gv[k],
                    child@.columns,
                ).weakened(),
        decreases group_expr@.len() - i,
    {
        assert(gv[i as int] == group_expr@[i as int]@);
        columns.push(stats_of_expr(&group_expr[i], &child.column_statistics).degrade());
        i = i + 1;
    }
    let ghost groups = gv.len();
    let mut i: usize = 0;
    while i < aggr_expr.len()
        invariant
            i <= aggr_expr@.len(),
            groups == gv.len(),
            columns@.len() == groups + i,
            forall|k: int|
                0 <= k < groups ==> (#[trigger] columns@[k])@ == expr_stats(
                    gv[k],
                    child@.columns,
                ).weakened(),
            forall|k: int|
                groups <= k < groups + i ==> (#[trigger] columns@[k])@ == unknown_column(),
        decreases aggr_expr@.len() - i,
    {
        columns.push(ColumnStatistics::unknown());
        i = i + 1;
    }
    let out = TableStatistics {
        num_rows,
        total_byte_size: Precision::Absent,
        column_statistics: columns,
    };
    assert(out@.columns =~= estimated_aggregate(
        child@,
        gv,
        aggregate_views(aggr_expr@),
    )->Ok_0.columns);
    Ok(out)
}

} // verus!
