//! Rewrites of plans, and the optimizer that runs them.

use std::cell::Cell;
use std::sync::Arc;

use basalt::array::Array;
use basalt::batch::ColumnarBatch;
use basalt::error::{BasaltError, ErrorKind};
use basalt::expr::expr::Expr;
use basalt::logical_plan::builder::LogicalPlanBuilder;
use basalt::logical_plan::plan::{JoinType, LogicalPlan, PlanView, TableSource};
use basalt::optimizer::optimizer::default_optimizer;
use basalt::optimizer::rule::{
    ApplyOrder, Knowledge, NoStatistics, Optimizer, OptimizerContext, OptimizerRule, RuleMeasure,
    RuleName,
};
use basalt::optimizer::rules::common_subexpr::CommonSubexprEliminate;
use basalt::optimizer::rules::eliminate_cross_join::EliminateCrossJoin;
use basalt::optimizer::rules::eliminate_filter::EliminateFilter;
use basalt::optimizer::rules::limit_pushdown::LimitPushdown;
use basalt::optimizer::rules::merge_filters::MergeFilters;
use basalt::optimizer::rules::predicate_pushdown::PredicatePushdown;
use basalt::optimizer::rules::projection_pushdown::ProjectionPushdown;
use basalt::optimizer::tree_node::{Rewritten, Transformed};
use basalt::physical_plan::planner::PhysicalPlanner;
use basalt::physical_plan::scan::MemoryTableSource;
use basalt::types::coercion::BinaryOp;
use basalt::types::data_type::DataType;
use basalt::types::schema::{Field, Schema, SchemaRef};
use basalt::types::value::Value;

fn memory(schema: SchemaRef) -> TableSource {
    TableSource::Memory(Arc::new(MemoryTableSource::new(schema, vec![])))
}

struct IntBuilder(Vec<Option<i64>>);

impl IntBuilder {
    fn with_capacity(n: usize) -> IntBuilder {
        IntBuilder(Vec::with_capacity(n))
    }

    fn append_value(&mut self, v: i64) {
        self.0.push(Some(v));
    }

    fn finish(self) -> Array {
        Array::Int64(self.0)
    }
}

struct TextBuilder(Vec<Option<String>>);

impl TextBuilder {
    fn with_capacity(n: usize) -> TextBuilder {
        TextBuilder(Vec::with_capacity(n))
    }

    fn append_value(&mut self, v: &str) {
        self.0.push(Some(v.to_string()));
    }

    fn finish(self) -> Array {
        Array::Utf8(self.0)
    }
}

fn plain_schema() -> SchemaRef {
    Arc::new(Schema::new(vec![Field::new("a", DataType::Int64, false)]).unwrap())
}

fn pair_schema() -> SchemaRef {
    Arc::new(
        Schema::new(vec![
            Field::new("a", DataType::Int64, false),
            Field::new("b", DataType::Int64, false),
        ])
        .unwrap(),
    )
}

fn col(i: usize) -> Expr {
    Expr::Column {
        index: i,
        data_type: DataType::Int64,
        nullable: false,
    }
}

fn a_plus_b() -> Expr {
    Expr::Binary {
        left: Box::new(col(0)),
        op: BinaryOp::Add,
        right: Box::new(col(1)),
    }
}

#[test]
fn hoists_a_subexpression_repeated_across_projection_outputs() {
    let source = memory(pair_schema());
    let scan = LogicalPlanBuilder::scan("t", source).build();
    let exprs = vec![
        a_plus_b(),
        Expr::Binary {
            left: Box::new(a_plus_b()),
            op: BinaryOp::Mul,
            right: Box::new(Expr::Literal(Value::Int64(2))),
        },
    ];
    let out_schema = Arc::new(
        Schema::new(vec![
            Field::new("sum", DataType::Int64, false),
            Field::new("doubled", DataType::Int64, false),
        ])
        .unwrap(),
    );
    let plan = LogicalPlan::Projection {
        input: scan,
        exprs,
        schema: out_schema,
    };
    let result = CommonSubexprEliminate.apply(plan, &NoStatistics).unwrap();
    assert!(result.is_yes());
    match result.into_inner() {
        LogicalPlan::Projection { input, exprs, .. } => {
            // Both output expressions should now just reference the
            // hoisted column (index 2, after a=0, b=1).
            assert_eq!(exprs[0], col(2));
            match &input.as_ref() {
                LogicalPlan::Projection {
                    exprs: lower_exprs, ..
                } => {
                    assert_eq!(lower_exprs.len(), 3);
                    assert_eq!(lower_exprs[2], a_plus_b());
                }
                other => panic!("expected a lower Projection, got {other:?}"),
            }
        }
        other => panic!("expected Projection, got {other:?}"),
    }
}

#[test]
fn no_repeated_subexpression_leaves_plan_unchanged() {
    let source = memory(pair_schema());
    let scan = LogicalPlanBuilder::scan("t", source).build();
    let plan = LogicalPlan::Projection {
        input: scan,
        exprs: vec![col(0), col(1)],
        schema: pair_schema(),
    };
    let result = CommonSubexprEliminate.apply(plan, &NoStatistics).unwrap();
    assert!(!result.is_yes());
}

fn schema(name: &str) -> SchemaRef {
    Arc::new(Schema::new(vec![Field::new(name, DataType::Int64, false)]).unwrap())
}

fn joined_schema() -> SchemaRef {
    Arc::new(Schema::new_allow_duplicate_names(vec![
        Field::new("l", DataType::Int64, false),
        Field::new("r", DataType::Int64, false),
    ]))
}

fn cross_join() -> LogicalPlan {
    let left =
        LogicalPlanBuilder::scan("l", memory(schema("l")))
            .build();
    let right =
        LogicalPlanBuilder::scan("r", memory(schema("r")))
            .build();
    LogicalPlan::Join {
        left,
        right,
        on: vec![],
        filter: None,
        join_type: JoinType::Inner,
        schema: joined_schema(),
    }
}

#[test]
fn promotes_an_equality_conjunct_to_on() {
    let plan = LogicalPlan::Filter {
        input: Arc::new(cross_join()),
        predicate: Expr::Binary {
            left: Box::new(col(0)),
            op: BinaryOp::Eq,
            right: Box::new(col(1)),
        },
    };
    let result = EliminateCrossJoin.apply(plan, &NoStatistics).unwrap();
    assert!(result.is_yes());
    match result.into_inner() {
        LogicalPlan::Join { on, filter, .. } => {
            assert_eq!(on.len(), 1);
            assert!(filter.is_none());
            assert_eq!(on[0], (col(0), col(0))); // right column rebased to index 0
        }
        other => panic!("expected Join, got {other:?}"),
    }
}

#[test]
fn keeps_non_equi_conjuncts_as_a_residual_join_filter() {
    let equi = Expr::Binary {
        left: Box::new(col(0)),
        op: BinaryOp::Eq,
        right: Box::new(col(1)),
    };
    let non_equi = Expr::Binary {
        left: Box::new(col(0)),
        op: BinaryOp::Lt,
        right: Box::new(col(1)),
    };
    let plan = LogicalPlan::Filter {
        input: Arc::new(cross_join()),
        predicate: Expr::Binary {
            left: Box::new(equi),
            op: BinaryOp::And,
            right: Box::new(non_equi.clone()),
        },
    };
    let result = EliminateCrossJoin.apply(plan, &NoStatistics).unwrap();
    assert!(result.is_yes());
    match result.into_inner() {
        LogicalPlan::Join { on, filter, .. } => {
            assert_eq!(on.len(), 1);
            assert_eq!(filter, Some(non_equi));
        }
        other => panic!("expected Join, got {other:?}"),
    }
}

#[test]
fn no_equi_conjunct_leaves_plan_unchanged_in_shape() {
    let non_equi = Expr::Binary {
        left: Box::new(col(0)),
        op: BinaryOp::Lt,
        right: Box::new(col(1)),
    };
    let plan = LogicalPlan::Filter {
        input: Arc::new(cross_join()),
        predicate: non_equi,
    };
    let result = EliminateCrossJoin.apply(plan, &NoStatistics).unwrap();
    assert!(!result.is_yes());
}

#[test]
fn already_conditioned_join_is_left_alone() {
    let mut join = cross_join();
    if let LogicalPlan::Join { on, .. } = &mut join {
        *on = vec![(col(0), col(0))];
    }
    let plan = LogicalPlan::Filter {
        input: Arc::new(join),
        predicate: Expr::Literal(Value::Boolean(true)),
    };
    let result = EliminateCrossJoin.apply(plan, &NoStatistics).unwrap();
    assert!(!result.is_yes());
}

fn plain_scan() -> Arc<LogicalPlan> {
    LogicalPlanBuilder::scan("t", memory(plain_schema())).build()
}

#[test]
fn where_true_drops_the_filter_node() {
    let plan = LogicalPlan::Filter {
        input: plain_scan(),
        predicate: Expr::Literal(Value::Boolean(true)),
    };
    let result = EliminateFilter.apply(plan, &NoStatistics).unwrap();
    assert!(result.is_yes());
    assert!(matches!(result.into_inner(), LogicalPlan::TableScan { .. }));
}

#[test]
fn where_false_becomes_empty_relation_with_the_right_schema() {
    let plan = LogicalPlan::Filter {
        input: plain_scan(),
        predicate: Expr::Literal(Value::Boolean(false)),
    };
    let result = EliminateFilter.apply(plan, &NoStatistics).unwrap();
    assert!(result.is_yes());
    match result.into_inner() {
        LogicalPlan::EmptyRelation { schema: s } => assert_eq!(s, plain_schema()),
        other => panic!("expected EmptyRelation, got {other:?}"),
    }
}

#[test]
fn non_literal_predicate_is_unchanged() {
    let predicate = Expr::Column {
        index: 0,
        data_type: DataType::Boolean,
        nullable: false,
    };
    let plan = LogicalPlan::Filter {
        input: plain_scan(),
        predicate: predicate.clone(),
    };
    let result = EliminateFilter.apply(plan, &NoStatistics).unwrap();
    assert!(!result.is_yes());
}

#[test]
fn pushes_limit_through_projection() {
    let scan =
        LogicalPlanBuilder::scan("t", memory(plain_schema()))
            .build();
    let projection = LogicalPlan::Projection {
        input: scan,
        exprs: vec![col(0)],
        schema: plain_schema(),
    };
    let plan = LogicalPlan::Limit {
        input: Arc::new(projection),
        skip: 0,
        fetch: Some(10),
    };
    let result = LimitPushdown.apply(plan, &NoStatistics).unwrap();
    assert!(result.is_yes());
    match result.into_inner() {
        LogicalPlan::Projection { input, .. } => match input.as_ref() {
            LogicalPlan::Limit { fetch, .. } => assert_eq!(*fetch, Some(10)),
            other => panic!("expected Limit, got {other:?}"),
        },
        other => panic!("expected Projection, got {other:?}"),
    }
}

#[test]
fn does_not_push_through_a_filter() {
    let scan =
        LogicalPlanBuilder::scan("t", memory(plain_schema()))
            .build();
    let filter = LogicalPlan::Filter {
        input: scan,
        predicate: Expr::Literal(Value::Boolean(true)),
    };
    let plan = LogicalPlan::Limit {
        input: Arc::new(filter),
        skip: 0,
        fetch: Some(10),
    };
    let result = LimitPushdown.apply(plan, &NoStatistics).unwrap();
    assert!(!result.is_yes());
}

#[test]
fn merges_nested_filters_into_one_conjunction() {
    let scan = LogicalPlanBuilder::scan("t", memory(plain_schema())).build();
    let p1 = Expr::Literal(Value::Boolean(true));
    let p2 = Expr::Literal(Value::Boolean(false));
    let plan = LogicalPlan::Filter {
        input: Arc::new(LogicalPlan::Filter {
            input: scan.clone(),
            predicate: p1.clone(),
        }),
        predicate: p2.clone(),
    };
    let result = MergeFilters.apply(plan, &NoStatistics).unwrap();
    assert!(result.is_yes());
    match result.into_inner() {
        LogicalPlan::Filter { input, predicate } => {
            assert!(matches!(input.as_ref(), LogicalPlan::TableScan { .. }));
            assert_eq!(
                predicate,
                Expr::Binary {
                    left: Box::new(p1),
                    op: BinaryOp::And,
                    right: Box::new(p2),
                }
            );
        }
        other => panic!("expected Filter, got {other:?}"),
    }
}

#[test]
fn single_filter_is_unchanged() {
    let scan = LogicalPlanBuilder::scan("t", memory(plain_schema())).build();
    let plan = LogicalPlan::Filter {
        input: scan,
        predicate: Expr::Literal(Value::Boolean(true)),
    };
    let result = MergeFilters.apply(plan, &NoStatistics).unwrap();
    assert!(!result.is_yes());
}

fn scan(name: &str) -> Arc<LogicalPlan> {
    LogicalPlanBuilder::scan(name, memory(schema(name)))
        .build()
}

fn join(join_type: JoinType) -> LogicalPlan {
    LogicalPlan::Join {
        left: scan("l"),
        right: scan("r"),
        on: vec![(col(0), col(0))],
        filter: None,
        join_type,
        schema: joined_schema(),
    }
}

#[test]
fn pushes_into_table_scan_filters_but_keeps_the_filter_node() {
    let plan = LogicalPlan::Filter {
        input: scan("t"),
        predicate: Expr::Literal(Value::Boolean(true)),
    };
    let result = PredicatePushdown.apply(plan, &NoStatistics).unwrap();
    assert!(result.is_yes());
    match result.into_inner() {
        LogicalPlan::Filter { input, .. } => match input.as_ref() {
            LogicalPlan::TableScan { filters, .. } => assert_eq!(filters.len(), 1),
            other => panic!("expected TableScan, got {other:?}"),
        },
        other => panic!("expected Filter, got {other:?}"),
    }
}

#[test]
fn inner_join_left_only_predicate_pushes_to_left_side() {
    let predicate = Expr::Binary {
        left: Box::new(col(0)),
        op: BinaryOp::Gt,
        right: Box::new(Expr::Literal(Value::Int64(5))),
    };
    let plan = LogicalPlan::Filter {
        input: Arc::new(join(JoinType::Inner)),
        predicate,
    };
    let result = PredicatePushdown.apply(plan, &NoStatistics).unwrap();
    assert!(result.is_yes());
    match result.into_inner() {
        LogicalPlan::Join { left, .. } => {
            assert!(matches!(left.as_ref(), LogicalPlan::Filter { .. }));
        }
        other => panic!("expected Join, got {other:?}"),
    }
}

#[test]
fn left_join_right_only_predicate_is_never_pushed_to_the_right() {
    // The outer-join asymmetry this module's doc comment warns about:
    // a predicate on the right (null-producing) side of a LEFT JOIN
    // must stay a post-join Filter, never become a pre-join filter on
    // the right side or part of Join.filter.
    let predicate = Expr::Binary {
        left: Box::new(col(1)), // column 1 = right side's column 0, in the joined schema
        op: BinaryOp::Gt,
        right: Box::new(Expr::Literal(Value::Int64(5))),
    };
    let plan = LogicalPlan::Filter {
        input: Arc::new(join(JoinType::Left)),
        predicate: predicate.clone(),
    };
    let result = PredicatePushdown.apply(plan, &NoStatistics).unwrap();
    assert!(
        !result.is_yes(),
        "must not push a right-side predicate through a LEFT JOIN"
    );
    match result.into_inner() {
        LogicalPlan::Filter {
            input,
            predicate: p,
        } => {
            assert_eq!(p, predicate);
            assert!(matches!(input.as_ref(), LogicalPlan::Join { .. }));
            if let LogicalPlan::Join { right, filter, .. } = input.as_ref() {
                assert!(
                    matches!(right.as_ref(), LogicalPlan::TableScan { .. }),
                    "right side must stay unfiltered"
                );
                assert!(
                    filter.is_none(),
                    "must not become part of Join.filter either"
                );
            }
        }
        other => panic!("expected Filter, got {other:?}"),
    }
}

#[test]
fn left_join_left_only_predicate_pushes_to_the_preserved_side() {
    let predicate = Expr::Binary {
        left: Box::new(col(0)),
        op: BinaryOp::Gt,
        right: Box::new(Expr::Literal(Value::Int64(5))),
    };
    let plan = LogicalPlan::Filter {
        input: Arc::new(join(JoinType::Left)),
        predicate,
    };
    let result = PredicatePushdown.apply(plan, &NoStatistics).unwrap();
    assert!(result.is_yes());
    match result.into_inner() {
        LogicalPlan::Join { left, .. } => {
            assert!(matches!(left.as_ref(), LogicalPlan::Filter { .. }));
        }
        other => panic!("expected Join, got {other:?}"),
    }
}

#[test]
fn full_join_never_pushes_either_side() {
    let predicate = Expr::Binary {
        left: Box::new(col(0)),
        op: BinaryOp::Gt,
        right: Box::new(Expr::Literal(Value::Int64(5))),
    };
    let plan = LogicalPlan::Filter {
        input: Arc::new(join(JoinType::Full)),
        predicate,
    };
    let result = PredicatePushdown.apply(plan, &NoStatistics).unwrap();
    assert!(!result.is_yes());
}

#[test]
fn pushes_through_a_passthrough_projection() {
    let projection = LogicalPlan::Projection {
        input: scan("t"),
        exprs: vec![col(0)],
        schema: schema("t"),
    };
    let predicate = Expr::Binary {
        left: Box::new(col(0)),
        op: BinaryOp::Gt,
        right: Box::new(Expr::Literal(Value::Int64(5))),
    };
    let plan = LogicalPlan::Filter {
        input: Arc::new(projection),
        predicate,
    };
    let result = PredicatePushdown.apply(plan, &NoStatistics).unwrap();
    assert!(result.is_yes());
    match result.into_inner() {
        LogicalPlan::Projection { input, .. } => {
            assert!(matches!(input.as_ref(), LogicalPlan::Filter { .. }));
        }
        other => panic!("expected Projection, got {other:?}"),
    }
}

#[test]
fn does_not_push_through_a_computed_projection_column() {
    let computed = Expr::Binary {
        left: Box::new(col(0)),
        op: BinaryOp::Add,
        right: Box::new(Expr::Literal(Value::Int64(1))),
    };
    let projection = LogicalPlan::Projection {
        input: scan("t"),
        exprs: vec![computed],
        schema: schema("t"),
    };
    let predicate = Expr::Binary {
        left: Box::new(col(0)), // references the *computed* output column
        op: BinaryOp::Gt,
        right: Box::new(Expr::Literal(Value::Int64(5))),
    };
    let plan = LogicalPlan::Filter {
        input: Arc::new(projection),
        predicate,
    };
    let result = PredicatePushdown.apply(plan, &NoStatistics).unwrap();
    assert!(!result.is_yes());
}

#[test]
fn does_not_push_through_limit() {
    let limit = LogicalPlan::Limit {
        input: scan("t"),
        skip: 0,
        fetch: Some(10),
    };
    let plan = LogicalPlan::Filter {
        input: Arc::new(limit),
        predicate: Expr::Literal(Value::Boolean(true)),
    };
    let result = PredicatePushdown.apply(plan, &NoStatistics).unwrap();
    assert!(!result.is_yes());
}

#[test]
fn pushes_through_sort() {
    let sort = LogicalPlan::Sort {
        input: scan("t"),
        exprs: vec![],
    };
    let predicate = Expr::Binary {
        left: Box::new(col(0)),
        op: BinaryOp::Gt,
        right: Box::new(Expr::Literal(Value::Int64(5))),
    };
    let plan = LogicalPlan::Filter {
        input: Arc::new(sort),
        predicate,
    };
    let result = PredicatePushdown.apply(plan, &NoStatistics).unwrap();
    assert!(result.is_yes());
    match result.into_inner() {
        LogicalPlan::Sort { input, .. } => {
            assert!(matches!(input.as_ref(), LogicalPlan::Filter { .. }));
        }
        other => panic!("expected Sort, got {other:?}"),
    }
}

fn wide_schema() -> SchemaRef {
    Arc::new(
        Schema::new(vec![
            Field::new("a", DataType::Int64, false),
            Field::new("b", DataType::Int64, false),
            Field::new("c", DataType::Int64, false),
        ])
        .unwrap(),
    )
}

#[test]
fn projection_pushes_only_referenced_columns_into_the_scan() {
    let scan =
        LogicalPlanBuilder::scan("t", memory(wide_schema()))
            .build();
    let out_schema =
        Arc::new(Schema::new(vec![Field::new("a", DataType::Int64, false)]).unwrap());
    let plan = LogicalPlan::Projection {
        input: scan,
        exprs: vec![col(0)],
        schema: out_schema,
    };
    let result = ProjectionPushdown.apply(plan, &NoStatistics).unwrap();
    assert!(result.is_yes());
    match result.into_inner() {
        LogicalPlan::Projection { input, .. } => match input.as_ref() {
            LogicalPlan::TableScan { projection, .. } => {
                assert_eq!(projection.as_deref(), Some(&[0usize][..]));
            }
            other => panic!("expected TableScan, got {other:?}"),
        },
        other => panic!("expected Projection, got {other:?}"),
    }
}

#[test]
fn does_not_push_when_every_column_is_needed() {
    let scan =
        LogicalPlanBuilder::scan("t", memory(wide_schema()))
            .build();
    let plan = LogicalPlan::Projection {
        input: scan,
        exprs: vec![col(0), col(1), col(2)],
        schema: wide_schema(),
    };
    let result = ProjectionPushdown.apply(plan, &NoStatistics).unwrap();
    assert!(!result.is_yes());
}

fn orders_schema() -> SchemaRef {
    Arc::new(
        Schema::new(vec![
            Field::new("customer_id", DataType::Int64, false),
            Field::new("amount", DataType::Int64, false),
        ])
        .unwrap(),
    )
}

fn customers_schema() -> SchemaRef {
    Arc::new(
        Schema::new(vec![
            Field::new("id", DataType::Int64, false),
            Field::new("region", DataType::Utf8, false),
        ])
        .unwrap(),
    )
}

fn orders_source() -> TableSource {
    // (customer_id, amount): (1,50) (1,200) (2,150) (2,80)
    let mut customer_id = IntBuilder::with_capacity(4);
    let mut amount = IntBuilder::with_capacity(4);
    for &(c, a) in &[(1i64, 50i64), (1, 200), (2, 150), (2, 80)] {
        customer_id.append_value(c);
        amount.append_value(a);
    }
    let batch = ColumnarBatch::try_new(
        orders_schema(),
        vec![Arc::new(customer_id.finish()), Arc::new(amount.finish())],
    )
    .unwrap();
    TableSource::Memory(Arc::new(MemoryTableSource::new(orders_schema(), vec![batch])))
}

fn customers_source() -> TableSource {
    // (id, region): (1, "west") (2, "east")
    let mut id = IntBuilder::with_capacity(2);
    let mut region = TextBuilder::with_capacity(2);
    id.append_value(1);
    region.append_value("west");
    id.append_value(2);
    region.append_value("east");
    let batch = ColumnarBatch::try_new(
        customers_schema(),
        vec![Arc::new(id.finish()), Arc::new(region.finish())],
    )
    .unwrap();
    TableSource::Memory(Arc::new(MemoryTableSource::new(customers_schema(), vec![batch])))
}

fn typed_col(i: usize, dt: DataType) -> Expr {
    Expr::Column {
        index: i,
        data_type: dt,
        nullable: false,
    }
}

#[test]
fn implicit_cross_join_query_optimizes_and_executes_correctly() {
    let orders = LogicalPlanBuilder::scan("orders", orders_source());
    let customers = LogicalPlanBuilder::scan("customers", customers_source()).build();

    let combined_schema = Arc::new(Schema::new_allow_duplicate_names(
        orders_schema()
            .fields()
            .iter()
            .cloned()
            .chain(customers_schema().fields().iter().cloned())
            .collect(),
    ));
    let cross_join = LogicalPlan::Join {
        left: orders.build(),
        right: customers,
        on: vec![],
        filter: None,
        join_type: JoinType::Inner,
        schema: Arc::clone(&combined_schema),
    };

    // o.customer_id = c.id AND c.region = 'west' AND o.amount > 100
    let predicate = Expr::Binary {
        left: Box::new(Expr::Binary {
            left: Box::new(Expr::Binary {
                left: Box::new(typed_col(0, DataType::Int64)),
                op: BinaryOp::Eq,
                right: Box::new(typed_col(2, DataType::Int64)),
            }),
            op: BinaryOp::And,
            right: Box::new(Expr::Binary {
                left: Box::new(typed_col(3, DataType::Utf8)),
                op: BinaryOp::Eq,
                right: Box::new(Expr::Literal(Value::Utf8("west".to_string()))),
            }),
        }),
        op: BinaryOp::And,
        right: Box::new(Expr::Binary {
            left: Box::new(typed_col(1, DataType::Int64)),
            op: BinaryOp::Gt,
            right: Box::new(Expr::Literal(Value::Int64(100))),
        }),
    };
    let plan = LogicalPlan::Filter {
        input: Arc::new(cross_join),
        predicate,
    };

    let optimized = default_optimizer().optimize(plan, &NoStatistics).unwrap();

    // EliminateCrossJoin must have promoted the equi-conjunct into a
    // real join condition — the whole point of the rule.
    let join_on_len = find_join(&optimized).map(|j| match j {
        LogicalPlan::Join { on, .. } => on.len(),
        _ => unreachable!(),
    });
    assert_eq!(
        join_on_len,
        Some(1),
        "expected the equi-conjunct promoted into Join.on: {optimized:?}"
    );

    // Execute and check the actual result: only customer 1 is in the
    // west region, and only their $200 order exceeds $100 — customer
    // 1's $50 order and customer 2's orders must not appear.
    let physical = PhysicalPlanner.create_physical_plan(&optimized).unwrap();
    let batches: Vec<ColumnarBatch> =
        physical.execute(0).unwrap().into_iter().map(|b| b.unwrap()).collect();
    let total_rows: usize = batches.iter().map(|b| b.num_rows()).sum();
    assert_eq!(
        total_rows, 1,
        "expected exactly one matching row (customer 1's $200 order): {optimized:?}"
    );
}

fn find_join(plan: &LogicalPlan) -> Option<&LogicalPlan> {
    if matches!(plan, LogicalPlan::Join { .. }) {
        return Some(plan);
    }
    plan.inputs().into_iter().find_map(find_join)
}

fn scan_plan() -> LogicalPlan {
    let source = memory(plain_schema());
    LogicalPlanBuilder::scan("t", source).build().as_ref().clone()
}

/// A rule that gives a scan a filter at a time, up to a number of them, and
/// counts how often it is applied.
struct CountingRule {
    applications: Cell<usize>,
    max_applications: usize,
}

impl OptimizerRule for CountingRule {
    fn name(&self) -> &str {
        "counting_rule"
    }

    fn apply<C: OptimizerContext>(
        &self,
        plan: LogicalPlan,
        _ctx: &C,
    ) -> Result<Transformed<LogicalPlan>, BasaltError> {
        self.applications.set(self.applications.get() + 1);
        match plan {
            LogicalPlan::TableScan { table_name, source, projection, mut filters, schema }
                if filters.len() < self.max_applications =>
            {
                filters.push(Expr::Literal(Value::Boolean(true)));
                Ok(Transformed::Yes(LogicalPlan::TableScan {
                    table_name,
                    source,
                    projection,
                    filters,
                    schema,
                }))
            }
            other => Ok(Transformed::No(other)),
        }
    }

    fn apply_order(&self) -> ApplyOrder {
        ApplyOrder::BottomUp
    }

    fn rewrite(&self, _: Knowledge, _: PlanView) -> Result<Rewritten<PlanView>, ErrorKind> {
        unreachable!()
    }

    fn title(&self) -> RuleName {
        unreachable!()
    }

    fn order(&self) -> ApplyOrder {
        unreachable!()
    }

    fn measure(&self, _: PlanView) -> RuleMeasure {
        unreachable!()
    }

    fn ends(&self, _: Knowledge) {
        unreachable!()
    }
}

#[test]
fn stops_iterating_once_no_rule_reports_a_change() {
    let rule = Arc::new(CountingRule { applications: Cell::new(0), max_applications: 3 });
    let optimizer = Optimizer::new(vec![rule.clone()]);
    optimizer.optimize(scan_plan(), &NoStatistics).unwrap();
    // 3 "Yes" iterations + 1 "No" iteration that stops the loop = 4.
    assert_eq!(rule.applications.get(), 4);
}

/// A rule that always reports a change.
struct AlwaysChanges;

impl OptimizerRule for AlwaysChanges {
    fn name(&self) -> &str {
        "always_changes"
    }

    fn apply<C: OptimizerContext>(
        &self,
        plan: LogicalPlan,
        _ctx: &C,
    ) -> Result<Transformed<LogicalPlan>, BasaltError> {
        Ok(Transformed::Yes(plan))
    }

    fn apply_order(&self) -> ApplyOrder {
        ApplyOrder::BottomUp
    }

    fn rewrite(&self, _: Knowledge, _: PlanView) -> Result<Rewritten<PlanView>, ErrorKind> {
        unreachable!()
    }

    fn title(&self) -> RuleName {
        unreachable!()
    }

    fn order(&self) -> ApplyOrder {
        unreachable!()
    }

    fn measure(&self, _: PlanView) -> RuleMeasure {
        unreachable!()
    }

    fn ends(&self, _: Knowledge) {
        unreachable!()
    }
}

#[test]
fn respects_max_iterations_cap_for_an_oscillating_rule() {
    let mut optimizer = Optimizer::new(vec![Arc::new(AlwaysChanges)]);
    optimizer.max_iterations = 3;
    // Must terminate rather than loop forever.
    optimizer.optimize(scan_plan(), &NoStatistics).unwrap();
}

#[test]
fn passes_end_when_no_rule_changes_the_plan() {
    let plan = || LogicalPlan::Filter {
        input: Arc::new(LogicalPlan::Filter {
            input: Arc::new(scan_plan()),
            predicate: Expr::Literal(Value::Boolean(true)),
        }),
        predicate: Expr::Literal(Value::Boolean(true)),
    };
    let optimizer = Optimizer::new(vec![Arc::new(EliminateFilter)]);
    let (result, settled) = optimizer.optimize_to_fixed_point(plan(), &NoStatistics).unwrap();
    assert!(settled);
    assert!(matches!(result, LogicalPlan::TableScan { .. }));
    assert!(!EliminateFilter.apply(result, &NoStatistics).unwrap().is_yes());
}

#[test]
fn the_number_of_passes_is_capped() {
    let plan = LogicalPlan::Filter {
        input: Arc::new(scan_plan()),
        predicate: Expr::Literal(Value::Boolean(true)),
    };
    let mut optimizer = Optimizer::new(vec![Arc::new(EliminateFilter)]);
    optimizer.max_iterations = 1;
    // The only pass changes the plan, so nothing shows that it has settled.
    let (_, settled) = optimizer.optimize_to_fixed_point(plan, &NoStatistics).unwrap();
    assert!(!settled);
}

#[test]
fn right_joins_mirror_left_joins() {
    let above = |column: usize| LogicalPlan::Filter {
        input: Arc::new(join(JoinType::Right)),
        predicate: Expr::Binary {
            left: Box::new(col(column)),
            op: BinaryOp::Gt,
            right: Box::new(Expr::Literal(Value::Int64(5))),
        },
    };
    assert!(!PredicatePushdown.apply(above(0), &NoStatistics).unwrap().is_yes());
    match PredicatePushdown.apply(above(1), &NoStatistics).unwrap().into_inner() {
        LogicalPlan::Join { right, .. } => match right.as_ref() {
            LogicalPlan::Filter { predicate, .. } => assert_eq!(
                *predicate,
                Expr::Binary {
                    left: Box::new(col(0)),
                    op: BinaryOp::Gt,
                    right: Box::new(Expr::Literal(Value::Int64(5))),
                }
            ),
            other => panic!("expected Filter, got {other:?}"),
        },
        other => panic!("expected Join, got {other:?}"),
    }
}

#[test]
fn a_filter_over_a_scan_records_no_columns() {
    let plan = LogicalPlan::Filter {
        input: LogicalPlanBuilder::scan("t", memory(wide_schema())).build(),
        predicate: Expr::IsNull(Box::new(col(1))),
    };
    let result = ProjectionPushdown.apply(plan, &NoStatistics).unwrap();
    assert!(!result.is_yes());
    match result.into_inner() {
        LogicalPlan::Filter { input, .. } => match input.as_ref() {
            LogicalPlan::TableScan { projection, .. } => assert_eq!(*projection, None),
            other => panic!("expected TableScan, got {other:?}"),
        },
        other => panic!("expected Filter, got {other:?}"),
    }
}

#[test]
fn a_projection_over_a_filter_records_the_columns_of_both() {
    let plan = LogicalPlan::Projection {
        input: Arc::new(LogicalPlan::Filter {
            input: LogicalPlanBuilder::scan("t", memory(wide_schema())).build(),
            predicate: Expr::IsNull(Box::new(col(2))),
        }),
        exprs: vec![col(0)],
        schema: plain_schema(),
    };
    let result = ProjectionPushdown.apply(plan, &NoStatistics).unwrap();
    assert!(result.is_yes());
    match result.into_inner() {
        LogicalPlan::Projection { input, .. } => match input.as_ref() {
            LogicalPlan::Filter { input, .. } => match input.as_ref() {
                LogicalPlan::TableScan { projection, .. } => {
                    assert_eq!(projection.as_deref(), Some(&[0usize, 2][..]));
                }
                other => panic!("expected TableScan, got {other:?}"),
            },
            other => panic!("expected Filter, got {other:?}"),
        },
        other => panic!("expected Projection, got {other:?}"),
    }
}

#[test]
fn the_standard_rules_run_in_order() {
    let optimizer = default_optimizer();
    let names: Vec<&str> = optimizer.rules.iter().map(|r| r.name()).collect();
    assert_eq!(
        names,
        vec![
            "constant_folding",
            "simplify_expressions",
            "eliminate_cross_join",
            "merge_filters",
            "eliminate_filter",
            "common_subexpression_elimination",
            "predicate_pushdown",
            "projection_pushdown",
            "limit_pushdown",
        ]
    );
    assert_eq!(optimizer.max_iterations, 10);
}

#[test]
fn semi_and_anti_joins_push_to_the_left_alone() {
    for (join_type, moves) in [
        (JoinType::LeftSemi, true),
        (JoinType::LeftAnti, true),
        (JoinType::RightSemi, false),
        (JoinType::RightAnti, false),
    ] {
        for column in [0, 1] {
            let plan = LogicalPlan::Filter {
                input: Arc::new(join(join_type)),
                predicate: Expr::Binary {
                    left: Box::new(col(column)),
                    op: BinaryOp::Gt,
                    right: Box::new(Expr::Literal(Value::Int64(5))),
                },
            };
            let result = PredicatePushdown.apply(plan, &NoStatistics).unwrap();
            assert_eq!(result.is_yes(), moves && column == 0);
        }
    }
}

#[test]
fn a_comparison_of_both_sides_becomes_the_condition_of_an_inner_join() {
    let less = Expr::Binary {
        left: Box::new(col(0)),
        op: BinaryOp::Lt,
        right: Box::new(col(1)),
    };
    let above = |join_type: JoinType| LogicalPlan::Filter {
        input: Arc::new(join(join_type)),
        predicate: less.clone(),
    };
    let result = PredicatePushdown.apply(above(JoinType::Inner), &NoStatistics).unwrap();
    assert!(result.is_yes());
    match result.into_inner() {
        LogicalPlan::Join { on, filter, .. } => {
            assert_eq!(on.len(), 1);
            assert_eq!(filter, Some(less.clone()));
        }
        other => panic!("expected Join, got {other:?}"),
    }
    assert!(!PredicatePushdown.apply(above(JoinType::Left), &NoStatistics).unwrap().is_yes());
    assert!(!PredicatePushdown.apply(above(JoinType::Right), &NoStatistics).unwrap().is_yes());
    let constant = LogicalPlan::Filter {
        input: Arc::new(join(JoinType::Inner)),
        predicate: Expr::Literal(Value::Boolean(true)),
    };
    assert!(!PredicatePushdown.apply(constant, &NoStatistics).unwrap().is_yes());
}
