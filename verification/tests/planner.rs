//! From logical plans to results.

use std::sync::Arc;

use basalt::array::Array;
use basalt::batch::ColumnarBatch;
use basalt::error::BasaltError;
use basalt::expr::expr::Expr;
use basalt::logical_plan::builder::LogicalPlanBuilder;
use basalt::logical_plan::plan::{
    AggregateFunction, AggregateKind, JoinType, SortExpr, SortOptions, TableSource,
};
use basalt::physical_plan::plan::{BatchStream, ExecutionPlan};
use basalt::physical_plan::planner::PhysicalPlanner;
use basalt::physical_plan::scan::MemoryTableSource;
use basalt::types::coercion::BinaryOp;
use basalt::types::data_type::DataType;
use basalt::types::schema::{Field, Schema, SchemaRef};
use basalt::types::value::Value;

fn memory(source: MemoryTableSource) -> TableSource {
    TableSource::Memory(Arc::new(source))
}

fn collect(stream: BatchStream) -> Vec<ColumnarBatch> {
    stream.into_iter().map(|b| b.unwrap()).collect()
}

struct IntBuilder(Vec<Option<i64>>);

impl IntBuilder {
    fn with_capacity(n: usize) -> IntBuilder {
        IntBuilder(Vec::with_capacity(n))
    }

    fn append_value(&mut self, v: i64) {
        self.0.push(Some(v));
    }

    fn finish(self) -> Array {
        Array::Int64(self.0)
    }
}

fn int_at(a: &Array, i: usize) -> i64 {
    match a.value(i) {
        Value::Int64(v) => v,
        other => panic!("expected an integer, got {other:?}"),
    }
}

fn schema() -> SchemaRef {
    Arc::new(Schema::new(vec![Field::new("a", DataType::Int64, false)]).unwrap())
}

fn source_batch(values: &[i64]) -> ColumnarBatch {
    let mut b = IntBuilder::with_capacity(values.len());
    for &v in values {
        b.append_value(v);
    }
    ColumnarBatch::try_new(schema(), vec![Arc::new(b.finish())]).unwrap()
}

/// scan -> filter -> project -> limit.
#[test]
fn end_to_end_scan_filter_project_limit() {
    let source = memory(MemoryTableSource::new(
        schema(),
        vec![source_batch(&[1, 2, 3, 4, 5])],
    ));
    let filter_expr = Expr::Binary {
        left: Box::new(Expr::Column {
            index: 0,
            data_type: DataType::Int64,
            nullable: false,
        }),
        op: BinaryOp::Gt,
        right: Box::new(Expr::Literal(Value::Int64(2))),
    };
    let project_expr = Expr::Binary {
        left: Box::new(Expr::Column {
            index: 0,
            data_type: DataType::Int64,
            nullable: false,
        }),
        op: BinaryOp::Mul,
        right: Box::new(Expr::Literal(Value::Int64(10))),
    };

    let logical = LogicalPlanBuilder::scan("t", source)
        .filter(filter_expr)
        .project(vec![project_expr], vec!["a_times_10".to_string()])
        .unwrap()
        .limit(0, Some(2))
        .build();

    let physical = PhysicalPlanner.create_physical_plan(&logical).unwrap();
    let batches = collect(physical.execute(0).unwrap());
    let values: Vec<i64> = batches
        .iter()
        .flat_map(|b| {
            let col = b.column(0).unwrap();
            (0..b.num_rows()).map(|i| int_at(col, i)).collect::<Vec<_>>()
        })
        .collect();
    // a > 2 -> [3,4,5]; * 10 -> [30,40,50]; limit 2 -> [30,40]
    assert_eq!(values, vec![30, 40]);
}

#[test]
fn end_to_end_scan_then_aggregate() {
    let source = memory(MemoryTableSource::new(
        schema(),
        vec![source_batch(&[1, 2, 3, 4, 5])],
    ));
    let logical = LogicalPlanBuilder::scan("t", source)
        .aggregate(
            vec![],
            vec![AggregateFunction {
                output_name: "total".to_string(),
                kind: AggregateKind::Sum,
                arg: Some(Expr::Column {
                    index: 0,
                    data_type: DataType::Int64,
                    nullable: false,
                }),
            }],
        )
        .unwrap()
        .build();

    let physical = PhysicalPlanner.create_physical_plan(&logical).unwrap();
    let batches = collect(physical.execute(0).unwrap());
    assert_eq!(batches.len(), 1);
    let col = batches[0].column(0).unwrap();
    assert_eq!(int_at(col, 0), 15);
}

#[test]
fn untyped_null_literal_errors_like_phase_one_does() {
    let source = memory(MemoryTableSource::new(schema(), vec![]));
    let logical = LogicalPlanBuilder::scan("t", source)
        .filter(Expr::Literal(Value::Null))
        .build();
    assert!(PhysicalPlanner.create_physical_plan(&logical).is_err());
}

#[test]
fn unsupported_plan_node_errors_cleanly_not_panics() {
    let source = memory(MemoryTableSource::new(schema(), vec![]));
    let right =
        LogicalPlanBuilder::scan("t2", memory(MemoryTableSource::new(schema(), vec![])));
    let logical = LogicalPlanBuilder::scan("t", source)
        .join(
            right.build(),
            vec![],
            None,
            JoinType::Inner,
        )
        .unwrap()
        .build();
    assert!(PhysicalPlanner.create_physical_plan(&logical).is_err());
}

#[test]
fn end_to_end_scan_then_sort() {
    let source = memory(MemoryTableSource::new(
        schema(),
        vec![source_batch(&[3, 1, 2])],
    ));
    let logical = LogicalPlanBuilder::scan("t", source)
        .sort(vec![SortExpr {
            expr: Expr::Column {
                index: 0,
                data_type: DataType::Int64,
                nullable: false,
            },
            options: SortOptions {
                descending: false,
                nulls_first: true,
            },
        }])
        .build();
    let physical = PhysicalPlanner.create_physical_plan(&logical).unwrap();
    let batches = collect(physical.execute(0).unwrap());
    let col = batches[0].column(0).unwrap();
    assert_eq!(
        (0..3).map(|i| int_at(col, i)).collect::<Vec<_>>(),
        vec![1, 2, 3]
    );
}

/// `ORDER BY ... LIMIT k` without an offset plans to a `TopKExec`.
#[test]
fn order_by_limit_plans_to_topk_exec() {
    let source = memory(MemoryTableSource::new(
        schema(),
        vec![source_batch(&[5, 3, 1, 4, 2])],
    ));
    let logical = LogicalPlanBuilder::scan("t", source)
        .sort(vec![SortExpr {
            expr: Expr::Column {
                index: 0,
                data_type: DataType::Int64,
                nullable: false,
            },
            options: SortOptions {
                descending: false,
                nulls_first: true,
            },
        }])
        .limit(0, Some(3))
        .build();
    let physical = PhysicalPlanner.create_physical_plan(&logical).unwrap();
    assert!(matches!(&*physical, ExecutionPlan::TopK(_)));

    let batches = collect(physical.execute(0).unwrap());
    let col = batches[0].column(0).unwrap();
    assert_eq!(
        (0..3).map(|i| int_at(col, i)).collect::<Vec<_>>(),
        vec![1, 2, 3]
    );
}

#[test]
fn end_to_end_inner_join() {
    let left_source = memory(MemoryTableSource::new(
        schema(),
        vec![source_batch(&[1, 2, 3])],
    ));
    let right_source = memory(MemoryTableSource::new(
        schema(),
        vec![source_batch(&[2, 3, 4])],
    ));
    let left = LogicalPlanBuilder::scan("l", left_source);
    let right = LogicalPlanBuilder::scan("r", right_source).build();

    let key = Expr::Column {
        index: 0,
        data_type: DataType::Int64,
        nullable: false,
    };
    let logical = left
        .join(
            right,
            vec![(key.clone(), key)],
            None,
            JoinType::Inner,
        )
        .unwrap()
        .build();

    let physical = PhysicalPlanner.create_physical_plan(&logical).unwrap();
    let batches = collect(physical.execute(0).unwrap());
    assert_eq!(batches[0].num_rows(), 2); // 2 and 3 match on both sides
}

#[test]
fn tables_of_other_readers_cannot_be_planned() {
    let logical = LogicalPlanBuilder::scan("t", TableSource::External(schema())).build();
    assert!(matches!(
        PhysicalPlanner.create_physical_plan(&logical),
        Err(BasaltError::Internal(_))
    ));
}
