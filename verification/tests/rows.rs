//! The rows that plans deliver, before and after a rewrite.

use std::sync::Arc;

use basalt::array::Array;
use basalt::batch::ColumnarBatch;
use basalt::expr::expr::Expr;
use basalt::logical_plan::builder::LogicalPlanBuilder;
use basalt::logical_plan::plan::{
    AggregateFunction, AggregateKind, JoinType, LogicalPlan, SortExpr, SortOptions, TableSource,
};
use basalt::optimizer::optimizer::default_optimizer;
use basalt::optimizer::rule::{NoStatistics, OptimizerRule};
use basalt::optimizer::rules::common_subexpr::CommonSubexprEliminate;
use basalt::optimizer::rules::constant_folding::ConstantFolding;
use basalt::optimizer::rules::eliminate_cross_join::EliminateCrossJoin;
use basalt::optimizer::rules::eliminate_filter::EliminateFilter;
use basalt::optimizer::rules::limit_pushdown::LimitPushdown;
use basalt::optimizer::rules::merge_filters::MergeFilters;
use basalt::optimizer::rules::predicate_pushdown::PredicatePushdown;
use basalt::optimizer::rules::projection_pushdown::ProjectionPushdown;
use basalt::optimizer::rules::simplify_expressions::SimplifyExpressions;
use basalt::physical_plan::planner::PhysicalPlanner;
use basalt::physical_plan::scan::MemoryTableSource;
use basalt::types::coercion::BinaryOp;
use basalt::types::data_type::DataType;
use basalt::types::schema::{Field, Schema, SchemaRef};
use basalt::types::value::Value;

fn pair_schema(a: &str, b: &str) -> SchemaRef {
    Arc::new(
        Schema::new(vec![
            Field::new(a, DataType::Int64, true),
            Field::new(b, DataType::Int64, true),
        ])
        .unwrap(),
    )
}

fn batch(schema: &SchemaRef, rows: &[(Option<i64>, Option<i64>)]) -> ColumnarBatch {
    let first: Vec<Option<i64>> = rows.iter().map(|r| r.0).collect();
    let second: Vec<Option<i64>> = rows.iter().map(|r| r.1).collect();
    ColumnarBatch::try_new(
        schema.clone(),
        vec![Arc::new(Array::Int64(first)), Arc::new(Array::Int64(second))],
    )
    .unwrap()
}

fn table(a: &str, b: &str, parts: &[&[(Option<i64>, Option<i64>)]]) -> LogicalPlanBuilder {
    let schema = pair_schema(a, b);
    let batches = parts.iter().map(|rows| batch(&schema, rows)).collect();
    LogicalPlanBuilder::scan(
        a,
        TableSource::Memory(Arc::new(MemoryTableSource::new(schema, batches))),
    )
}

/// Five rows in two batches, one of them with a null.
fn numbers() -> LogicalPlanBuilder {
    table(
        "n",
        "m",
        &[
            &[(Some(1), Some(10)), (Some(2), Some(20)), (Some(1), Some(30))],
            &[(Some(2), None), (Some(3), Some(50))],
        ],
    )
}

fn others() -> LogicalPlanBuilder {
    table(
        "x",
        "y",
        &[
            &[(Some(2), Some(7)), (None, Some(8))],
            &[(Some(1), Some(9)), (Some(2), Some(20))],
        ],
    )
}

fn col(i: usize) -> Expr {
    Expr::Column { index: i, data_type: DataType::Int64, nullable: true }
}

fn lit(v: i64) -> Expr {
    Expr::Literal(Value::Int64(v))
}

fn binary(left: Expr, op: BinaryOp, right: Expr) -> Expr {
    Expr::Binary { left: Box::new(left), op, right: Box::new(right) }
}

fn and(left: Expr, right: Expr) -> Expr {
    binary(left, BinaryOp::And, right)
}

fn aggregate(name: &str, kind: AggregateKind, arg: Option<Expr>) -> AggregateFunction {
    AggregateFunction { output_name: name.to_string(), kind, arg }
}

fn rows(plan: &LogicalPlan) -> Vec<Vec<Value>> {
    let physical = PhysicalPlanner
        .create_physical_plan(&Arc::new(plan.clone()))
        .unwrap();
    let mut out = Vec::new();
    for item in physical.execute(0).unwrap() {
        let b = item.unwrap();
        for i in 0..b.num_rows() {
            out.push((0..b.num_columns()).map(|c| b.column(c).unwrap().value(i)).collect());
        }
    }
    out
}

fn ints(plan: &LogicalPlan) -> Vec<Vec<Option<i64>>> {
    rows(plan)
        .into_iter()
        .map(|r| {
            r.into_iter()
                .map(|v| match v {
                    Value::Int64(n) => Some(n),
                    Value::Null => None,
                    other => panic!("expected an integer, got {other:?}"),
                })
                .collect()
        })
        .collect()
}

fn rewritten<R: OptimizerRule>(rule: R, plan: &LogicalPlan) -> LogicalPlan {
    let result = rule.apply(plan.clone(), &NoStatistics).unwrap();
    assert!(result.is_yes(), "the rule leaves {plan:?} as it is");
    result.into_inner()
}

fn two(a: i64, b: i64) -> Vec<Option<i64>> {
    vec![Some(a), Some(b)]
}

#[test]
fn a_filter_keeps_rows_across_batches_in_order() {
    let plan = numbers().filter(binary(col(0), BinaryOp::Lt, lit(3))).build();
    assert_eq!(
        ints(&plan),
        vec![two(1, 10), two(2, 20), two(1, 30), vec![Some(2), None]]
    );
}

#[test]
fn a_projection_computes_each_row() {
    let plan = numbers()
        .project(
            vec![binary(col(0), BinaryOp::Add, col(1))],
            vec!["s".to_string()],
        )
        .unwrap()
        .build();
    assert_eq!(
        ints(&plan),
        vec![vec![Some(11)], vec![Some(22)], vec![Some(31)], vec![None], vec![Some(53)]]
    );
}

#[test]
fn a_sort_keeps_the_order_of_equal_keys() {
    let plan = numbers()
        .sort(vec![SortExpr {
            expr: col(0),
            options: SortOptions { descending: true, nulls_first: false },
        }])
        .build();
    assert_eq!(
        ints(&plan),
        vec![two(3, 50), two(2, 20), vec![Some(2), None], two(1, 10), two(1, 30)]
    );
}

#[test]
fn an_inner_join_goes_by_the_rows_of_its_right_side() {
    let plan = numbers()
        .join(others().build(), vec![(col(0), col(0))], None, JoinType::Inner)
        .unwrap()
        .build();
    assert_eq!(
        ints(&plan),
        vec![
            vec![Some(2), Some(20), Some(2), Some(7)],
            vec![Some(2), None, Some(2), Some(7)],
            vec![Some(1), Some(10), Some(1), Some(9)],
            vec![Some(1), Some(30), Some(1), Some(9)],
            vec![Some(2), Some(20), Some(2), Some(20)],
            vec![Some(2), None, Some(2), Some(20)],
        ]
    );
}

#[test]
fn a_join_without_keys_goes_by_the_rows_of_its_left_side() {
    let plan = numbers()
        .join(
            others().build(),
            vec![],
            Some(binary(col(1), BinaryOp::Lt, col(3))),
            JoinType::Inner,
        )
        .unwrap()
        .build();
    assert_eq!(ints(&plan), vec![vec![Some(1), Some(10), Some(2), Some(20)]]);
    let same = numbers()
        .join(
            others().build(),
            vec![],
            Some(binary(col(0), BinaryOp::Eq, col(2))),
            JoinType::Inner,
        )
        .unwrap()
        .build();
    let by_key = numbers()
        .join(others().build(), vec![(col(0), col(0))], None, JoinType::Inner)
        .unwrap()
        .build();
    let nested = ints(&same);
    let hashed = ints(&by_key);
    assert_ne!(nested, hashed);
    let mut a = nested;
    let mut b = hashed;
    a.sort();
    b.sort();
    assert_eq!(a, b);
}

#[test]
fn groups_come_in_the_order_in_which_they_are_seen() {
    let plan = numbers()
        .aggregate(
            vec![col(0)],
            vec![
                aggregate("rows", AggregateKind::Count, None),
                aggregate("values", AggregateKind::Count, Some(col(1))),
                aggregate("total", AggregateKind::Sum, Some(col(1))),
                aggregate("least", AggregateKind::Min, Some(col(1))),
                aggregate("greatest", AggregateKind::Max, Some(col(1))),
            ],
        )
        .unwrap()
        .build();
    assert_eq!(
        ints(&plan),
        vec![
            vec![Some(1), Some(2), Some(2), Some(40), Some(10), Some(30)],
            vec![Some(2), Some(2), Some(1), Some(20), Some(20), Some(20)],
            vec![Some(3), Some(1), Some(1), Some(50), Some(50), Some(50)],
        ]
    );
}

#[test]
fn an_aggregation_of_no_rows_delivers_one() {
    let plan = numbers()
        .filter(binary(col(0), BinaryOp::Gt, lit(9)))
        .aggregate(
            vec![],
            vec![
                aggregate("rows", AggregateKind::Count, None),
                aggregate("total", AggregateKind::Sum, Some(col(1))),
            ],
        )
        .unwrap()
        .build();
    assert_eq!(ints(&plan), vec![vec![Some(0), None]]);
}

#[test]
fn dropping_and_merging_filters_keeps_rows() {
    let all = numbers().filter(Expr::Literal(Value::Boolean(true))).build();
    assert_eq!(ints(&rewritten(EliminateFilter, &all)), ints(&all));
    let none = numbers().filter(Expr::Literal(Value::Boolean(false))).build();
    assert_eq!(ints(&rewritten(EliminateFilter, &none)), ints(&none));
    assert!(ints(&none).is_empty());
    let both = numbers()
        .filter(binary(col(0), BinaryOp::Lt, lit(3)))
        .filter(binary(col(1), BinaryOp::Gt, lit(10)))
        .build();
    assert_eq!(ints(&both), vec![two(2, 20), two(1, 30)]);
    assert_eq!(ints(&rewritten(MergeFilters, &both)), ints(&both));
}

#[test]
fn lowering_a_limit_keeps_rows() {
    let plan = numbers()
        .project(vec![col(1)], vec!["m".to_string()])
        .unwrap()
        .limit(1, Some(3))
        .build();
    assert_eq!(ints(&plan), vec![vec![Some(20)], vec![Some(30)], vec![None]]);
    assert_eq!(ints(&rewritten(LimitPushdown, &plan)), ints(&plan));
}

#[test]
fn recording_columns_keeps_rows() {
    let plan = numbers().project(vec![col(1)], vec!["m".to_string()]).unwrap().build();
    let result = ProjectionPushdown.apply((*plan).clone(), &NoStatistics).unwrap();
    assert_eq!(ints(&result.into_inner()), ints(&plan));
}

#[test]
fn moving_a_filter_below_a_projection_keeps_rows() {
    let plan = numbers()
        .project(
            vec![col(1), binary(col(0), BinaryOp::Add, lit(1))],
            vec!["m".to_string(), "k".to_string()],
        )
        .unwrap()
        .filter(and(
            binary(col(0), BinaryOp::Gt, lit(10)),
            binary(col(1), BinaryOp::Lt, lit(4)),
        ))
        .build();
    assert_eq!(ints(&plan), vec![two(20, 3), two(30, 2)]);
    assert_eq!(ints(&rewritten(PredicatePushdown, &plan)), ints(&plan));
}

#[test]
fn moving_a_filter_below_a_sort_keeps_rows() {
    let plan = numbers()
        .sort(vec![SortExpr {
            expr: col(1),
            options: SortOptions { descending: true, nulls_first: true },
        }])
        .filter(binary(col(0), BinaryOp::NotEq, lit(1)))
        .build();
    assert_eq!(ints(&plan), vec![vec![Some(2), None], two(3, 50), two(2, 20)]);
    assert_eq!(ints(&rewritten(PredicatePushdown, &plan)), ints(&plan));
}

#[test]
fn moving_a_filter_below_an_aggregation_keeps_rows() {
    let plan = numbers()
        .aggregate(
            vec![col(0)],
            vec![aggregate("total", AggregateKind::Sum, Some(col(1)))],
        )
        .unwrap()
        .filter(and(
            binary(col(0), BinaryOp::Gt, lit(1)),
            binary(col(1), BinaryOp::Gt, lit(20)),
        ))
        .build();
    assert_eq!(ints(&plan), vec![two(3, 50)]);
    let pushed = rewritten(PredicatePushdown, &plan);
    match &pushed {
        LogicalPlan::Filter { input, .. } => match input.as_ref() {
            LogicalPlan::Aggregate { input, .. } => {
                assert!(matches!(input.as_ref(), LogicalPlan::Filter { .. }));
            }
            other => panic!("expected an aggregation, got {other:?}"),
        },
        other => panic!("expected a filter, got {other:?}"),
    }
    assert_eq!(ints(&pushed), ints(&plan));
}

#[test]
fn moving_a_filter_into_an_inner_join_keeps_rows() {
    let predicate = and(
        and(
            binary(col(1), BinaryOp::Gt, lit(5)),
            binary(col(3), BinaryOp::Gt, lit(8)),
        ),
        and(
            binary(col(1), BinaryOp::Eq, col(3)),
            binary(
                binary(col(1), BinaryOp::Add, col(3)),
                BinaryOp::Gt,
                lit(30),
            ),
        ),
    );
    let plan = numbers()
        .join(others().build(), vec![(col(0), col(0))], None, JoinType::Inner)
        .unwrap()
        .filter(predicate)
        .build();
    assert_eq!(ints(&plan), vec![vec![Some(2), Some(20), Some(2), Some(20)]]);
    let pushed = rewritten(PredicatePushdown, &plan);
    match &pushed {
        LogicalPlan::Join { on, filter, .. } => {
            assert_eq!(on.len(), 2);
            assert!(filter.is_some());
        }
        other => panic!("expected a join, got {other:?}"),
    }
    assert_eq!(ints(&pushed), ints(&plan));
}

#[test]
fn a_new_key_turns_the_order_of_a_join_without_keys() {
    let plan = numbers()
        .join(
            others().build(),
            vec![],
            Some(binary(col(3), BinaryOp::Gt, lit(0))),
            JoinType::Inner,
        )
        .unwrap()
        .filter(binary(col(0), BinaryOp::Eq, col(2)))
        .build();
    let pushed = rewritten(PredicatePushdown, &plan);
    let mut before = ints(&plan);
    let mut after = ints(&pushed);
    assert_ne!(before, after);
    before.sort();
    after.sort();
    assert_eq!(before, after);
    let one_side = numbers()
        .join(
            others().build(),
            vec![],
            Some(binary(col(1), BinaryOp::Gt, col(3))),
            JoinType::Inner,
        )
        .unwrap()
        .filter(binary(col(0), BinaryOp::Gt, lit(1)))
        .build();
    assert_eq!(ints(&rewritten(PredicatePushdown, &one_side)), ints(&one_side));
}

#[test]
fn a_filtered_cross_join_delivers_the_pairs_that_pass() {
    let plan = numbers()
        .join(others().build(), vec![], None, JoinType::Inner)
        .unwrap()
        .filter(and(
            binary(col(0), BinaryOp::Eq, col(2)),
            binary(col(1), BinaryOp::Lt, lit(30)),
        ))
        .build();
    assert_eq!(
        ints(&rewritten(EliminateCrossJoin, &plan)),
        vec![
            vec![Some(2), Some(20), Some(2), Some(7)],
            vec![Some(1), Some(10), Some(1), Some(9)],
            vec![Some(2), Some(20), Some(2), Some(20)],
        ]
    );
}

#[test]
fn rewriting_expressions_keeps_rows() {
    let folded = numbers()
        .filter(binary(col(0), BinaryOp::Lt, binary(lit(1), BinaryOp::Add, lit(2))))
        .build();
    assert_eq!(ints(&rewritten(ConstantFolding, &folded)), ints(&folded));
    let simple = numbers()
        .filter(and(
            Expr::Literal(Value::Boolean(true)),
            binary(col(0), BinaryOp::Lt, lit(3)),
        ))
        .build();
    assert_eq!(ints(&rewritten(SimplifyExpressions, &simple)), ints(&simple));
    let sum = binary(col(0), BinaryOp::Add, col(1));
    let shared = numbers()
        .project(
            vec![
                binary(sum.clone(), BinaryOp::Mul, lit(2)),
                binary(sum.clone(), BinaryOp::Mul, lit(3)),
            ],
            vec!["two".to_string(), "three".to_string()],
        )
        .unwrap()
        .build();
    assert_eq!(ints(&rewritten(CommonSubexprEliminate, &shared)), ints(&shared));
}

#[test]
fn the_optimizer_keeps_rows() {
    let plan = numbers()
        .join(others().build(), vec![(col(0), col(0))], None, JoinType::Inner)
        .unwrap()
        .filter(and(
            binary(col(1), BinaryOp::Gt, lit(5)),
            binary(col(3), BinaryOp::Lt, binary(lit(4), BinaryOp::Mul, lit(5))),
        ))
        .aggregate(
            vec![col(0)],
            vec![aggregate("total", AggregateKind::Sum, Some(col(1)))],
        )
        .unwrap()
        .filter(binary(col(0), BinaryOp::Lt, lit(3)))
        .build();
    let best = default_optimizer().optimize((*plan).clone(), &NoStatistics).unwrap();
    assert_eq!(ints(&plan), vec![two(2, 20), two(1, 40)]);
    assert_eq!(ints(&best), ints(&plan));
}

fn joined_rows(join_type: JoinType) -> Vec<Vec<Option<i64>>> {
    let left = table("n", "m", &[&[(Some(1), Some(10)), (Some(4), Some(40))]]);
    let right = table("x", "y", &[&[(Some(5), Some(50)), (Some(1), Some(11))]]);
    let plan = left
        .join(right.build(), vec![(col(0), col(0))], None, join_type)
        .unwrap()
        .build();
    ints(&plan)
}

#[test]
fn outer_joins_put_the_kept_rows_behind_the_matches() {
    let matched = vec![Some(1), Some(10), Some(1), Some(11)];
    let lone_right = vec![None, None, Some(5), Some(50)];
    let lone_left = vec![Some(4), Some(40), None, None];
    assert_eq!(joined_rows(JoinType::Inner), vec![matched.clone()]);
    assert_eq!(
        joined_rows(JoinType::Left),
        vec![matched.clone(), lone_left.clone()]
    );
    assert_eq!(
        joined_rows(JoinType::Right),
        vec![matched.clone(), lone_right.clone()]
    );
    assert_eq!(joined_rows(JoinType::Full), vec![matched, lone_right, lone_left]);
}

#[test]
fn semi_and_anti_joins_deliver_the_rows_of_their_side() {
    assert_eq!(joined_rows(JoinType::LeftSemi), vec![two(1, 10)]);
    assert_eq!(joined_rows(JoinType::LeftAnti), vec![two(4, 40)]);
    assert_eq!(joined_rows(JoinType::RightSemi), vec![two(1, 11)]);
    assert_eq!(joined_rows(JoinType::RightAnti), vec![two(5, 50)]);
}

#[test]
fn the_columns_of_a_side_filled_with_nulls_may_hold_nulls() {
    let side = |name: &str| {
        let schema: SchemaRef =
            Arc::new(Schema::new(vec![Field::new(name, DataType::Int64, false)]).unwrap());
        LogicalPlanBuilder::scan(
            name,
            TableSource::Memory(Arc::new(MemoryTableSource::new(schema, vec![]))),
        )
    };
    let fields = |join_type: JoinType| -> Vec<(String, bool)> {
        let plan = side("a")
            .join(side("b").build(), vec![(col(0), col(0))], None, join_type)
            .unwrap()
            .build();
        let schema = plan.schema();
        schema.fields().iter().map(|f| (f.name.clone(), f.nullable)).collect()
    };
    let both = |a: bool, b: bool| vec![("a".to_string(), a), ("b".to_string(), b)];
    assert_eq!(fields(JoinType::Inner), both(false, false));
    assert_eq!(fields(JoinType::Left), both(false, true));
    assert_eq!(fields(JoinType::Right), both(true, false));
    assert_eq!(fields(JoinType::Full), both(true, true));
    assert_eq!(fields(JoinType::LeftSemi), vec![("a".to_string(), false)]);
    assert_eq!(fields(JoinType::LeftAnti), vec![("a".to_string(), false)]);
    assert_eq!(fields(JoinType::RightSemi), vec![("b".to_string(), false)]);
    assert_eq!(fields(JoinType::RightAnti), vec![("b".to_string(), false)]);
}

#[test]
fn moving_a_filter_below_an_outer_join_keeps_rows() {
    let missing = |i: usize| Expr::IsNull(Box::new(col(i)));
    let left = numbers()
        .join(others().build(), vec![(col(0), col(0))], None, JoinType::Left)
        .unwrap()
        .filter(and(binary(col(1), BinaryOp::Gt, lit(15)), missing(3)))
        .build();
    assert_eq!(ints(&left), vec![vec![Some(3), Some(50), None, None]]);
    let right = numbers()
        .join(others().build(), vec![(col(0), col(0))], None, JoinType::Right)
        .unwrap()
        .filter(and(binary(col(3), BinaryOp::Gt, lit(7)), missing(1)))
        .build();
    assert_eq!(
        ints(&right),
        vec![
            vec![Some(2), None, Some(2), Some(20)],
            vec![None, None, None, Some(8)],
        ]
    );
    for plan in [left, right] {
        let pushed = rewritten(PredicatePushdown, &plan);
        let LogicalPlan::Filter { input, .. } = &pushed else {
            panic!("expected a filter, got {pushed:?}");
        };
        let LogicalPlan::Join { left, right, join_type, .. } = input.as_ref() else {
            panic!("expected a join, got {input:?}");
        };
        let lowered = if *join_type == JoinType::Left { left } else { right };
        assert!(matches!(lowered.as_ref(), LogicalPlan::Filter { .. }));
        assert_eq!(ints(&pushed), ints(&plan));
    }
}

#[test]
fn moving_a_filter_below_a_semi_or_anti_join_keeps_rows() {
    for (join_type, moves) in [
        (JoinType::LeftSemi, true),
        (JoinType::LeftAnti, true),
        (JoinType::RightSemi, false),
        (JoinType::RightAnti, false),
        (JoinType::Full, false),
    ] {
        let plan = numbers()
            .join(others().build(), vec![(col(0), col(0))], None, join_type)
            .unwrap()
            .filter(binary(col(1), BinaryOp::Gt, lit(7)))
            .build();
        let result = PredicatePushdown.apply(plan.as_ref().clone(), &NoStatistics).unwrap();
        assert_eq!(result.is_yes(), moves);
        assert_eq!(ints(&result.into_inner()), ints(&plan));
    }
}

#[test]
fn operators_have_the_schema_of_their_plan() {
    let plan = numbers()
        .filter(binary(col(0), BinaryOp::Lt, lit(3)))
        .aggregate(
            vec![col(0)],
            vec![aggregate("total", AggregateKind::Sum, Some(col(1)))],
        )
        .unwrap()
        .sort(vec![SortExpr {
            expr: col(1),
            options: SortOptions { descending: false, nulls_first: false },
        }])
        .limit(0, Some(1))
        .build();
    let physical = PhysicalPlanner.create_physical_plan(&plan).unwrap();
    assert_eq!(physical.schema().as_ref(), plan.schema().as_ref());
    assert_eq!(ints(&plan), vec![two(2, 20)]);
}

#[test]
fn rewriting_expressions_of_aggregations_keeps_rows() {
    let two = binary(lit(1), BinaryOp::Add, lit(1));
    let grouped = numbers()
        .aggregate(
            vec![binary(col(0), BinaryOp::Mul, lit(1))],
            vec![
                aggregate("total", AggregateKind::Sum, Some(two.clone())),
                aggregate("same", AggregateKind::Sum, Some(binary(col(1), BinaryOp::Add, lit(0)))),
                aggregate("rows", AggregateKind::Count, None),
            ],
        )
        .unwrap()
        .build();
    assert_eq!(
        ints(&grouped),
        vec![
            vec![Some(1), Some(4), Some(40), Some(2)],
            vec![Some(2), Some(4), Some(20), Some(2)],
            vec![Some(3), Some(2), Some(50), Some(1)],
        ]
    );
    assert_eq!(ints(&rewritten(ConstantFolding, &grouped)), ints(&grouped));
    assert_eq!(ints(&rewritten(SimplifyExpressions, &grouped)), ints(&grouped));
    let all = numbers()
        .aggregate(vec![], vec![aggregate("total", AggregateKind::Sum, Some(two))])
        .unwrap()
        .build();
    assert_eq!(ints(&all), vec![vec![Some(10)]]);
    assert_eq!(ints(&rewritten(ConstantFolding, &all)), ints(&all));
}

#[test]
fn folding_keys_keeps_rows() {
    let key = binary(col(0), BinaryOp::Mul, binary(lit(2), BinaryOp::Sub, lit(3)));
    let sorted = numbers()
        .sort(vec![SortExpr {
            expr: key.clone(),
            options: SortOptions { descending: false, nulls_first: false },
        }])
        .build();
    assert_eq!(ints(&rewritten(ConstantFolding, &sorted)), ints(&sorted));
    for join_type in [JoinType::Inner, JoinType::Left, JoinType::Full, JoinType::LeftAnti] {
        let joined = numbers()
            .join(others().build(), vec![(key.clone(), key.clone())], None, join_type)
            .unwrap()
            .build();
        assert_eq!(ints(&rewritten(ConstantFolding, &joined)), ints(&joined));
    }
}

#[test]
fn a_null_has_the_type_that_it_is_cast_to() {
    let null = || Expr::Literal(Value::Null);
    let cast = Expr::Cast { expr: Box::new(null()), to: DataType::Int64 };
    let plan = numbers().project(vec![cast.clone()], vec!["n".to_string()]).unwrap().build();
    assert_eq!(ints(&plan), vec![vec![None]; 5]);
    let missing = numbers().filter(Expr::IsNull(Box::new(cast))).build();
    assert_eq!(ints(&missing), ints(&numbers().build()));
    let bare = numbers().filter(Expr::IsNull(Box::new(null()))).build();
    assert!(PhysicalPlanner.create_physical_plan(&bare).is_err());
}

#[test]
fn a_comparison_of_both_sides_keeps_rows_in_an_inner_join() {
    let less = binary(col(1), BinaryOp::Lt, col(3));
    for condition in [None, Some(binary(col(0), BinaryOp::GtEq, col(2)))] {
        let keyed = numbers()
            .join(others().build(), vec![(col(0), col(0))], condition, JoinType::Inner)
            .unwrap()
            .filter(less.clone())
            .build();
        assert_eq!(ints(&rewritten(PredicatePushdown, &keyed)), ints(&keyed));
    }
    let loose = numbers()
        .join(others().build(), vec![], Some(binary(col(0), BinaryOp::Lt, col(2))), JoinType::Inner)
        .unwrap()
        .filter(less)
        .build();
    assert_eq!(ints(&rewritten(PredicatePushdown, &loose)), ints(&loose));
}

#[test]
fn simplifying_keys_keeps_rows() {
    let key = binary(col(0), BinaryOp::Add, lit(0));
    let sorted = numbers()
        .sort(vec![SortExpr {
            expr: key.clone(),
            options: SortOptions { descending: true, nulls_first: false },
        }])
        .build();
    assert_eq!(ints(&rewritten(SimplifyExpressions, &sorted)), ints(&sorted));
    let condition = binary(binary(col(1), BinaryOp::Mul, lit(1)), BinaryOp::Lt, col(3));
    let loose = numbers()
        .join(others().build(), vec![], Some(condition.clone()), JoinType::Inner)
        .unwrap()
        .build();
    assert_eq!(ints(&rewritten(SimplifyExpressions, &loose)), ints(&loose));
    for join_type in [
        JoinType::Inner,
        JoinType::Left,
        JoinType::Right,
        JoinType::Full,
        JoinType::LeftSemi,
        JoinType::LeftAnti,
        JoinType::RightSemi,
        JoinType::RightAnti,
    ] {
        let on = vec![(key.clone(), key.clone())];
        let joined = numbers()
            .join(others().build(), on, Some(condition.clone()), join_type)
            .unwrap()
            .build();
        assert_eq!(ints(&rewritten(SimplifyExpressions, &joined)), ints(&joined));
    }
}
