//! Row estimates, selectivities and costs.

use std::sync::Arc;

use basalt::array::Array;
use basalt::error::BasaltError;
use basalt::expr::expr::Expr;
use basalt::float64::Float64;
use basalt::logical_plan::builder::LogicalPlanBuilder;
use basalt::logical_plan::plan::{JoinType, LogicalPlan, TableSource};
use basalt::optimizer::cardinality::estimate_plan_statistics;
use basalt::optimizer::cardinality::join_card::{cross_product_cardinality, join_cardinality};
use basalt::optimizer::cardinality::selectivity::{
    ascending_values, combine_conjunction, combine_damped, combine_disjunction,
    in_list_selectivity, inequality_selectivity, is_null_selectivity, like_substring_selectivity,
    negate, range_selectivity, selectivity, Selectivity,
};
use basalt::optimizer::cost::model::{Cost, CostWeights};
use basalt::optimizer::cost::operators::{
    aggregate_cost, effective_k, filter_cost, hash_join_cost, limit_cost, nested_loop_join_cost,
    projection_cost, scan_cost, sort_cost, topk_cost,
};
use basalt::optimizer::rule::{FixedStatistics, NoStatistics, OptimizerRule};
use basalt::optimizer::rules::projection_pushdown::ProjectionPushdown;
use basalt::physical_plan::scan::MemoryTableSource;
use basalt::scalar::ScalarValue;
use basalt::statistics::{
    ColumnStatistics, Histogram, MostCommonValues, Precision, TableStatistics,
};
use basalt::types::coercion::BinaryOp;
use basalt::types::data_type::DataType;
use basalt::types::schema::{Field, Schema, SchemaRef};
use basalt::types::value::Value;

fn float(v: f64) -> Float64 {
    Float64::from_bits(v.to_bits())
}

fn num(x: Float64) -> f64 {
    f64::from_bits(x.to_bits())
}

fn memory(schema: SchemaRef) -> TableSource {
    TableSource::Memory(Arc::new(MemoryTableSource::new(schema, vec![])))
}

struct IntBuilder(Vec<Option<i64>>);

impl IntBuilder {
    fn with_capacity(n: usize) -> IntBuilder {
        IntBuilder(Vec::with_capacity(n))
    }

    fn append_value(&mut self, v: i64) {
        self.0.push(Some(v));
    }

    fn finish(self) -> Array {
        Array::Int64(self.0)
    }
}

fn stats(num_rows: usize, ndv: usize) -> TableStatistics {
    let mut s = TableStatistics::unknown(1);
    s.num_rows = Precision::Exact(num_rows);
    s.column_statistics[0].distinct_count = Precision::Exact(ndv);
    s
}

#[test]
fn inner_join_matches_the_selinger_formula() {
    let left = stats(1000, 100);
    let right = stats(500, 50);
    // (1000 * 500) / max(100, 50) = 5000
    let card = join_cardinality(&left, &right, &vec![(0, 0)], JoinType::Inner);
    assert_eq!(card.get_value(), Some(&5000));
}

#[test]
fn left_join_is_floored_at_left_row_count() {
    // A tiny right-side NDV mismatch that would otherwise produce an
    // inner estimate below |left| must still floor at |left| — every
    // left row appears at least once in a LEFT JOIN.
    let left = stats(1000, 1);
    let right = stats(2, 1000);
    let card = join_cardinality(&left, &right, &vec![(0, 0)], JoinType::Left);
    let value = *card.get_value().unwrap();
    assert!(
        value >= 1000,
        "LEFT JOIN cardinality {value} must be >= left row count 1000"
    );
}

#[test]
fn semi_join_never_exceeds_the_preserved_side() {
    let left = stats(100, 10);
    let right = stats(100_000, 5);
    let card = join_cardinality(&left, &right, &vec![(0, 0)], JoinType::LeftSemi);
    let value = *card.get_value().unwrap();
    assert!(
        value <= 100,
        "LEFT SEMI cardinality {value} must not exceed left row count 100"
    );
}

#[test]
fn missing_statistics_yields_absent_not_a_guess() {
    let left = TableStatistics::unknown(1);
    let right = stats(500, 50);
    let card = join_cardinality(&left, &right, &vec![(0, 0)], JoinType::Inner);
    assert!(card.is_absent());
}

#[test]
fn cross_product_multiplies_row_counts() {
    let left = stats(10, 1);
    let right = stats(20, 1);
    assert_eq!(
        cross_product_cardinality(&left, &right).get_value(),
        Some(&200)
    );
}

fn schema() -> SchemaRef {
    Arc::new(Schema::new(vec![Field::new("a", DataType::Int64, false)]).unwrap())
}

fn col(i: usize) -> Expr {
    Expr::Column {
        index: i,
        data_type: DataType::Int64,
        nullable: false,
    }
}

#[test]
fn table_scan_with_no_statistics_is_unknown() {
    let source = memory(schema());
    let plan = LogicalPlanBuilder::scan("t", source).build();
    let stats = estimate_plan_statistics(&plan, &NoStatistics).unwrap();
    assert!(stats.num_rows.is_absent());
}

#[test]
fn table_scan_uses_provided_statistics() {
    let source = memory(schema());
    let plan = LogicalPlanBuilder::scan("t", source).build();
    let mut table_stats = TableStatistics::unknown(1);
    table_stats.num_rows = Precision::Exact(1000);
    let ctx = FixedStatistics { tables: vec![("t".to_string(), Arc::new(table_stats))] };
    let stats = estimate_plan_statistics(&plan, &ctx).unwrap();
    assert_eq!(stats.num_rows.get_value(), Some(&1000));
}

#[test]
fn filter_degrades_row_count_precision_and_reduces_count() {
    let source = memory(schema());
    let mut table_stats = TableStatistics::unknown(1);
    table_stats.num_rows = Precision::Exact(1000);
    table_stats.column_statistics[0].distinct_count = Precision::Exact(100);
    let ctx = FixedStatistics { tables: vec![("t".to_string(), Arc::new(table_stats))] };

    let plan = LogicalPlanBuilder::scan("t", source)
        .filter(Expr::Binary {
            left: Box::new(col(0)),
            op: BinaryOp::Eq,
            right: Box::new(Expr::Literal(Value::Int64(5))),
        })
        .build();
    let stats = estimate_plan_statistics(&plan, &ctx).unwrap();
    assert!(
        !stats.num_rows.is_exact(),
        "row count precision must degrade after a filter"
    );
    let rows = *stats.num_rows.get_value().unwrap();
    assert!(
        rows < 1000,
        "an equality filter with NDV=100 should reduce the estimated row count"
    );
}

#[test]
fn limit_caps_row_count_at_fetch() {
    let source = memory(schema());
    let mut table_stats = TableStatistics::unknown(1);
    table_stats.num_rows = Precision::Exact(1000);
    let ctx = FixedStatistics { tables: vec![("t".to_string(), Arc::new(table_stats))] };
    let plan = LogicalPlan::Limit {
        input: LogicalPlanBuilder::scan("t", source).build(),
        skip: 0,
        fetch: Some(10),
    };
    let stats = estimate_plan_statistics(&plan, &ctx).unwrap();
    assert_eq!(stats.num_rows.get_value(), Some(&10));
}

#[test]
fn empty_relation_has_exactly_zero_rows() {
    let plan = LogicalPlan::EmptyRelation { schema: schema() };
    let stats = estimate_plan_statistics(&plan, &NoStatistics).unwrap();
    assert_eq!(stats.num_rows, Precision::Exact(0));
}

#[test]
fn aggregate_with_no_group_expr_is_exactly_one_row() {
    let source = memory(schema());
    let plan = LogicalPlan::Aggregate {
        input: LogicalPlanBuilder::scan("t", source).build(),
        group_expr: vec![],
        aggr_expr: vec![],
        schema: schema(),
    };
    let stats = estimate_plan_statistics(&plan, &NoStatistics).unwrap();
    assert_eq!(stats.num_rows, Precision::Exact(1));
}

fn stats_unknown() -> TableStatistics {
    TableStatistics::unknown(1)
}

fn lit(v: i64) -> Expr {
    Expr::Literal(Value::Int64(v))
}

#[test]
fn equality_falls_back_to_default_with_no_statistics() {
    let s = selectivity(
        &Expr::Binary { left: Box::new(col(0)), op: BinaryOp::Eq, right: Box::new(lit(5)) },
        &stats_unknown(),
    )
    .unwrap();
    assert_eq!(s.value, float(0.005));
    assert!(!s.precision.is_exact());
}

#[test]
fn equality_uses_ndv_when_present() {
    let mut stats = stats_unknown();
    stats.column_statistics[0].distinct_count = Precision::Exact(100);
    let s = selectivity(
        &Expr::Binary { left: Box::new(col(0)), op: BinaryOp::Eq, right: Box::new(lit(5)) },
        &stats,
    )
    .unwrap();
    assert!((num(s.value) - 0.01).abs() < 1e-9);
}

#[test]
fn equality_prefers_mcv_frequency_over_ndv() {
    let mut stats = stats_unknown();
    stats.column_statistics[0].distinct_count = Precision::Exact(100);
    stats.column_statistics[0].mcv = Some(MostCommonValues {
        values: vec![ScalarValue::Int64(Some(5))],
        frequencies: vec![float(0.6)],
    });
    let s = selectivity(
        &Expr::Binary { left: Box::new(col(0)), op: BinaryOp::Eq, right: Box::new(lit(5)) },
        &stats,
    )
    .unwrap();
    assert_eq!(s.value, float(0.6));
    assert!(s.precision.is_exact());
}

#[test]
fn conjunction_assumes_independence_and_multiplies() {
    let a = Selectivity::exact(float(0.5));
    let b = Selectivity::exact(float(0.4));
    let combined = combine_conjunction(&a, &b);
    assert!((num(combined.value) - 0.2).abs() < 1e-9);
}

#[test]
fn disjunction_matches_inclusion_exclusion() {
    let a = Selectivity::exact(float(0.5));
    let b = Selectivity::exact(float(0.4));
    let combined = combine_disjunction(&a, &b);
    // 0.5 + 0.4 - 0.2 = 0.7
    assert!((num(combined.value) - 0.7).abs() < 1e-9);
}

#[test]
fn negation_is_one_minus_original() {
    // NOT (x > 5) does not include rows where x is NULL, because
    // NULL > 5 is NULL and NOT NULL is still NULL, and WHERE rejects
    // it — this function only computes the arithmetic complement of
    // the *known* selectivity; the null-exclusion is handled by
    // whatever selectivity was passed in already not counting nulls
    // (`comparison_selectivity` never assigns nulls to either branch).
    let a = Selectivity::exact(float(0.3));
    let combined = negate(&a);
    assert!((num(combined.value) - 0.7).abs() < 1e-9);
}

#[test]
fn zero_selectivity_is_clamped_to_a_nonzero_floor() {
    let s = Selectivity::exact(float(0.0));
    assert!(num(s.value) > 0.0, "a selectivity of exactly 0 must not propagate as free");
}

#[test]
fn is_null_selectivity_uses_null_count_over_num_rows() {
    let mut stats = stats_unknown();
    stats.num_rows = Precision::Exact(100);
    stats.column_statistics[0].null_count = Precision::Exact(10);
    let s = is_null_selectivity(&col(0), &stats, true).unwrap();
    assert!((num(s.value) - 0.1).abs() < 1e-9);
    assert!(s.precision.is_exact());

    let s = is_null_selectivity(&col(0), &stats, false).unwrap();
    assert!((num(s.value) - 0.9).abs() < 1e-9);
}

#[test]
fn backoff_damps_later_conjuncts_more_than_independence() {
    let sels = vec![
        Selectivity::exact(float(0.5)),
        Selectivity::exact(float(0.5)),
        Selectivity::exact(float(0.5)),
    ];
    let independence = sels.iter().fold(1.0, |acc, s| acc * num(s.value));
    // The least selectivity counts in full, the next by its square root, the
    // one after that by its fourth root.
    let damped: Vec<Float64> = ascending_values(&sels)
        .iter()
        .enumerate()
        .map(|(i, v)| float(num(*v).powf(1.0 / (1u64 << i) as f64)))
        .collect();
    let backoff = num(combine_damped(&sels, &damped).value);
    assert!(backoff > independence, "backoff ({backoff}) should be less aggressive than independence ({independence})");
}

#[test]
fn range_selectivity_falls_back_without_a_histogram() {
    let col_stats = ColumnStatistics::unknown();
    let s = range_selectivity(&col_stats, &Value::Int64(1), &Value::Int64(10));
    assert_eq!(s.value, float(0.25));
}

#[test]
fn histogram_backed_inequality_differs_from_the_default_constant() {
    let mut b = IntBuilder::with_capacity(100);
    for i in 0..100i64 {
        b.append_value(i);
    }
    let hist = Histogram::from_sorted(&b.finish(), 10).unwrap();
    let mut col_stats = ColumnStatistics::unknown();
    col_stats.histogram = Some(hist);
    let s = inequality_selectivity(
        &col_stats,
        BinaryOp::Lt,
        &Some(ScalarValue::Int64(Some(10))),
    );
    assert!(num(s.value) < 0.33, "10/100 rows below 10 should be well below the 0.33 default");
}

#[test]
fn total_weights_each_component() {
    let cost = Cost {
        io: float(10.0),
        cpu: float(5.0),
        memory: float(2.0),
        network: float(1.0),
    };
    let weights = CostWeights {
        io_per_byte: float(1.0),
        cpu_per_tuple: float(2.0),
        memory_penalty: float(3.0),
        network_per_byte: float(4.0),
    };
    // 10*1 + 5*2 + 2*3 + 1*4 = 10+10+6+4 = 30
    assert!((num(cost.total(&weights)) - 30.0).abs() < 1e-9);
}

#[test]
fn combine_sums_everything_but_memory_which_takes_the_max() {
    let a = Cost {
        io: float(1.0),
        cpu: float(1.0),
        memory: float(10.0),
        network: float(1.0),
    };
    let b = Cost {
        io: float(2.0),
        cpu: float(2.0),
        memory: float(5.0),
        network: float(2.0),
    };
    let combined = a.combine(&b);
    assert_eq!(num(combined.io), 3.0);
    assert_eq!(num(combined.cpu), 3.0);
    assert_eq!(num(combined.memory), 10.0);
    assert_eq!(num(combined.network), 3.0);
}

#[test]
fn measured_weights_are_kept() {
    let weights = CostWeights::measured(float(1.5), float(0.25));
    assert_eq!(num(weights.cpu_per_tuple), 1.5);
    assert_eq!(num(weights.io_per_byte), 0.25);
    assert!(num(weights.memory_penalty).is_finite());
}

#[test]
fn zero_cost_totals_to_zero_under_any_weights() {
    let weights = CostWeights::defaults();
    assert_eq!(num(Cost::zero().total(&weights)), 0.0);
}

#[test]
fn topk_is_much_cheaper_than_sort_for_a_small_k() {
    let n: f64 = 1_000_000.0;
    let k = 10.0;
    let width = 16.0;
    let sort = sort_cost(float(n), float(n.log2()), float(width), float(f64::INFINITY));
    let topk = topk_cost(float(n), float(k), float(num(effective_k(float(k))).log2()), float(width));
    assert!(
        num(topk.cpu) < num(sort.cpu),
        "TopK cpu ({}) should be far below Sort cpu ({})",
        num(topk.cpu),
        num(sort.cpu)
    );
    assert!(num(topk.memory) < num(sort.memory));
}

#[test]
fn sort_spilling_costs_more_io_than_an_in_memory_sort() {
    let n: f64 = 1_000_000.0;
    let width = 100.0; // 100MB total, exceeds a small budget
    let in_memory = sort_cost(float(n), float(n.log2()), float(width), float(f64::INFINITY));
    let spilled = sort_cost(float(n), float(n.log2()), float(width), float(1_000_000.0)); // 1MB budget
    assert_eq!(num(in_memory.io), 0.0);
    assert!(
        num(spilled.io) > 0.0,
        "a sort exceeding its memory budget must show nonzero I/O"
    );
}

#[test]
fn nested_loop_join_is_quadratic() {
    let cost_100 = nested_loop_join_cost(float(100.0), float(100.0));
    let cost_200 = nested_loop_join_cost(float(200.0), float(200.0));
    assert!(
        (num(cost_200.cpu) / num(cost_100.cpu) - 4.0).abs() < 1e-9,
        "doubling both sides should quadruple cost"
    );
}

#[test]
fn hash_join_memory_reflects_only_the_build_side() {
    let cost = hash_join_cost(float(1000.0), float(1_000_000.0), float(1000.0), float(16.0));
    assert_eq!(num(cost.memory), 1000.0 * 16.0);
}

#[test]
fn limit_cost_is_zero() {
    assert_eq!(limit_cost(), Cost::zero());
}

#[test]
fn columns_without_statistics_are_an_error() {
    let predicate =
        Expr::Binary { left: Box::new(col(3)), op: BinaryOp::Eq, right: Box::new(lit(5)) };
    assert!(matches!(selectivity(&predicate, &stats_unknown()), Err(BasaltError::Internal(_))));
}

#[test]
fn outer_joins_keep_the_rows_of_their_side() {
    let on = vec![(0, 0)];
    let left = stats(100, 10);
    let right = stats(7, 7);
    let count = |t: JoinType| *join_cardinality(&left, &right, &on, t).get_value().unwrap();
    assert!(count(JoinType::Left) >= 100);
    assert!(count(JoinType::Right) >= 7);
    assert!(count(JoinType::Full) >= 100);
    assert!(count(JoinType::LeftAnti) <= 100);
    assert!(count(JoinType::RightSemi) <= 7);
}

#[test]
fn estimates_never_claim_more_groups_than_rows() {
    let mut table_stats = TableStatistics::unknown(1);
    table_stats.num_rows = Precision::Exact(40);
    table_stats.column_statistics[0].distinct_count = Precision::Exact(1000);
    let ctx = FixedStatistics { tables: vec![("t".to_string(), Arc::new(table_stats))] };
    let plan = LogicalPlan::Aggregate {
        input: LogicalPlanBuilder::scan("t", memory(schema())).build(),
        group_expr: vec![col(0)],
        aggr_expr: vec![],
        schema: schema(),
    };
    let estimate = estimate_plan_statistics(&plan, &ctx).unwrap();
    assert!(*estimate.num_rows.get_value().unwrap() <= 40);
}

#[test]
fn the_estimates_of_a_list_of_values_add_up_to_at_most_one() {
    let mut column = ColumnStatistics::unknown();
    column.distinct_count = Precision::Exact(4);
    let two = in_list_selectivity(&column, &vec![Value::Int64(1), Value::Int64(2)]);
    assert_eq!(num(two.value), 0.5);
    let six: Vec<Value> = (0..6).map(Value::Int64).collect();
    assert_eq!(num(in_list_selectivity(&column, &six).value), 1.0);
    assert_eq!(num(in_list_selectivity(&column, &vec![]).value), 1e-6);
}

#[test]
fn a_substring_match_is_a_guess() {
    let guess = like_substring_selectivity();
    assert_eq!(num(guess.value), 0.05);
}

#[test]
fn streaming_operators_cost_work_alone() {
    let filter = filter_cost(float(10.0), float(3.0));
    assert_eq!(num(filter.cpu), 30.0);
    assert_eq!(num(filter.io), 0.0);
    assert_eq!(num(filter_cost(float(10.0), float(0.0)).cpu), 10.0);
    let projection = projection_cost(float(4.0), float(2.0));
    assert_eq!(num(projection.cpu), 8.0);
    assert_eq!(num(projection.memory), 0.0);
    let scan = scan_cost(float(800.0), float(100.0));
    assert_eq!(num(scan.io), 800.0);
    assert_eq!(num(scan.cpu), 100.0);
}

#[test]
fn an_aggregation_holds_its_groups_in_memory() {
    let cost = aggregate_cost(float(1000.0), float(10.0), float(16.0));
    assert_eq!(num(cost.cpu), 1010.0);
    assert_eq!(num(cost.memory), 160.0);
    assert_eq!(num(cost.io), 0.0);
}

#[test]
fn a_filter_is_estimated_to_keep_some_but_no_more_rows() {
    let filtered = |rows: Precision<usize>| {
        let mut table_stats = TableStatistics::unknown(1);
        table_stats.num_rows = rows;
        table_stats.column_statistics[0].distinct_count = Precision::Exact(4);
        let ctx = FixedStatistics { tables: vec![("t".to_string(), Arc::new(table_stats))] };
        let plan = LogicalPlanBuilder::scan("t", memory(schema()))
            .filter(Expr::Binary {
                left: Box::new(col(0)),
                op: BinaryOp::Eq,
                right: Box::new(lit(5)),
            })
            .build();
        let stats = estimate_plan_statistics(&plan, &ctx).unwrap();
        assert_eq!(stats.column_statistics.len(), 1);
        stats.num_rows
    };
    assert_eq!(filtered(Precision::Exact(1000)), Precision::Inexact(250));
    assert_eq!(filtered(Precision::Exact(1)), Precision::Inexact(1));
    assert_eq!(filtered(Precision::Exact(0)), Precision::Inexact(1));
    assert_eq!(filtered(Precision::Absent), Precision::Absent);
}

#[test]
fn recorded_columns_keep_their_place_in_the_statistics() {
    let two: SchemaRef = Arc::new(
        Schema::new(vec![
            Field::new("a", DataType::Int64, false),
            Field::new("b", DataType::Int64, false),
        ])
        .unwrap(),
    );
    let mut table_stats = TableStatistics::unknown(2);
    table_stats.num_rows = Precision::Exact(1000);
    table_stats.column_statistics[0].distinct_count = Precision::Exact(3);
    table_stats.column_statistics[1].distinct_count = Precision::Exact(7);
    let ctx = FixedStatistics { tables: vec![("t".to_string(), Arc::new(table_stats))] };
    let plan = LogicalPlanBuilder::scan("t", memory(two))
        .project(vec![col(1)], vec!["b".to_string()])
        .unwrap()
        .build();
    let recorded = ProjectionPushdown.apply(plan.as_ref().clone(), &ctx).unwrap();
    assert!(recorded.is_yes());
    let recorded = recorded.into_inner();
    let stats = estimate_plan_statistics(&recorded, &ctx).unwrap();
    assert_eq!(stats.num_rows, Precision::Exact(1000));
    assert_eq!(stats.column_statistics[0].distinct_count, Precision::Exact(7));
    let LogicalPlan::Projection { input, .. } = &recorded else {
        panic!("expected a projection, got {recorded:?}");
    };
    let scanned = estimate_plan_statistics(input, &ctx).unwrap();
    assert_eq!(scanned.column_statistics.len(), 2);
    assert!(scanned.column_statistics[0].distinct_count.is_absent());
    assert_eq!(scanned.column_statistics[1].distinct_count, Precision::Exact(7));
}
