//! Operators over in-memory batches.

use std::sync::Arc;

use basalt::array::Array;
use basalt::batch::ColumnarBatch;
use basalt::error::BasaltError;
use basalt::logical_plan::plan::{AggregateKind, SortOptions};
use basalt::physical_expr::binary::BinaryExpr;
use basalt::physical_expr::column::ColumnExpr;
use basalt::physical_expr::expr::{PhysicalExpr, PhysicalExprRef};
use basalt::physical_expr::literal::LiteralExpr;
use basalt::physical_plan::aggregate::AggregateExec;
use basalt::physical_plan::filter::FilterExec;
use basalt::physical_plan::limit::LimitExec;
use basalt::physical_plan::plan::{BatchStream, ExecutionPlan};
use basalt::physical_plan::projection::ProjectionExec;
use basalt::physical_plan::scan::MemoryScanExec;
use basalt::physical_plan::sort::{PhysicalSortExpr, SortExec, TopKExec};
use basalt::scalar::ScalarValue;
use basalt::types::coercion::BinaryOp;
use basalt::types::data_type::DataType;
use basalt::types::schema::{Field, Schema, SchemaRef};
use basalt::types::value::Value;

fn column(index: usize) -> PhysicalExprRef {
    Arc::new(PhysicalExpr::Column(ColumnExpr::new(index)))
}

fn literal(value: ScalarValue) -> PhysicalExprRef {
    Arc::new(PhysicalExpr::Literal(LiteralExpr::new(value)))
}

fn collect(stream: BatchStream) -> Vec<ColumnarBatch> {
    stream.into_iter().map(|b| b.unwrap()).collect()
}

struct IntBuilder(Vec<Option<i64>>);

impl IntBuilder {
    fn with_capacity(n: usize) -> IntBuilder {
        IntBuilder(Vec::with_capacity(n))
    }

    fn append_value(&mut self, v: i64) {
        self.0.push(Some(v));
    }

    fn finish(self) -> Array {
        Array::Int64(self.0)
    }
}

fn int_at(a: &Array, i: usize) -> i64 {
    match a.value(i) {
        Value::Int64(v) => v,
        other => panic!("expected an integer, got {other:?}"),
    }
}

fn schema() -> SchemaRef {
    Arc::new(Schema::new(vec![Field::new("a", DataType::Int64, false)]).unwrap())
}

fn batch(values: &[i64]) -> ColumnarBatch {
    let mut b = IntBuilder::with_capacity(values.len());
    for &v in values {
        b.append_value(v);
    }
    ColumnarBatch::try_new(schema(), vec![Arc::new(b.finish())]).unwrap()
}

#[test]
fn execute_yields_every_batch_in_order() {
    let exec = MemoryScanExec::new(schema(), vec![batch(&[1, 2]), batch(&[3])]);
    let batches = collect(exec.execute(0).unwrap());
    assert_eq!(batches.len(), 2);
    assert_eq!(batches[0].num_rows(), 2);
    assert_eq!(batches[1].num_rows(), 1);
}

#[test]
fn execute_on_invalid_partition_errors() {
    let exec = MemoryScanExec::new(schema(), vec![]);
    assert!(exec.execute(1).is_err());
}

#[test]
fn scanning_zero_batches_yields_an_empty_stream() {
    let exec = MemoryScanExec::new(schema(), vec![]);
    let batches = collect(exec.execute(0).unwrap());
    assert!(batches.is_empty());
}

#[test]
fn filters_each_batch_and_skips_empty_results() {
    let scan = Arc::new(ExecutionPlan::MemoryScan(MemoryScanExec::new(
        schema(),
        vec![batch(&[1, 2, 3]), batch(&[10, 20])],
    )));
    // a > 15: batch 1 matches nothing, batch 2 matches [20].
    let predicate = Arc::new(PhysicalExpr::Binary(BinaryExpr::new(
        column(0),
        BinaryOp::Gt,
        literal(ScalarValue::Int64(Some(15))),
    )));
    let exec = FilterExec::new(scan, predicate);
    let batches = collect(exec.execute(0).unwrap());

    // The empty-result batch must be skipped entirely, not emitted as
    // a zero-row batch.
    assert_eq!(batches.len(), 1);
    assert_eq!(batches[0].num_rows(), 1);
}

#[test]
fn scalar_true_predicate_passes_every_row() {
    let scan = Arc::new(ExecutionPlan::MemoryScan(MemoryScanExec::new(schema(), vec![batch(&[1, 2])])));
    let predicate = literal(ScalarValue::Boolean(Some(true)));
    let exec = FilterExec::new(scan, predicate);
    let batches = collect(exec.execute(0).unwrap());
    assert_eq!(batches.len(), 1);
    assert_eq!(batches[0].num_rows(), 2);
}

#[test]
fn scalar_false_predicate_yields_no_batches() {
    let scan = Arc::new(ExecutionPlan::MemoryScan(MemoryScanExec::new(schema(), vec![batch(&[1, 2])])));
    let predicate = literal(ScalarValue::Boolean(Some(false)));
    let exec = FilterExec::new(scan, predicate);
    let batches = collect(exec.execute(0).unwrap());
    assert!(batches.is_empty());
}

#[test]
fn projects_a_computed_expression() {
    let scan = Arc::new(ExecutionPlan::MemoryScan(MemoryScanExec::new(schema(), vec![batch(&[1, 2, 3])])));
    let output_schema =
        Arc::new(Schema::new(vec![Field::new("a_plus_1", DataType::Int64, false)]).unwrap());
    let expr: PhysicalExprRef = Arc::new(PhysicalExpr::Binary(BinaryExpr::new(
        column(0),
        BinaryOp::Add,
        literal(ScalarValue::Int64(Some(1))),
    )));
    let exec = ProjectionExec::new(scan, vec![expr], output_schema);
    let batches = collect(exec.execute(0).unwrap());
    assert_eq!(batches.len(), 1);
    let col = batches[0].column(0).unwrap();
    assert_eq!(int_at(col, 0), 2);
    assert_eq!(int_at(col, 2), 4);
}

#[test]
fn schema_matches_the_declared_projection_schema() {
    let scan = Arc::new(ExecutionPlan::MemoryScan(MemoryScanExec::new(schema(), vec![])));
    let output_schema =
        Arc::new(Schema::new(vec![Field::new("x", DataType::Int64, false)]).unwrap());
    let exec = ProjectionExec::new(
        scan,
        vec![column(0)],
        Arc::clone(&output_schema),
    );
    assert_eq!(exec.schema(), output_schema);
}

fn values_of(b: &ColumnarBatch) -> Vec<i64> {
    let col = b.column(0).unwrap();
    (0..b.num_rows()).map(|i| int_at(col, i)).collect()
}

#[test]
fn fetch_slices_the_crossing_batch() {
    let scan = Arc::new(ExecutionPlan::MemoryScan(MemoryScanExec::new(
        schema(),
        vec![batch(&[1, 2, 3]), batch(&[4, 5])],
    )));
    let exec = LimitExec::new(scan, 0, Some(4));
    let batches = collect(exec.execute(0).unwrap());
    let all: Vec<i64> = batches.iter().flat_map(values_of).collect();
    assert_eq!(all, vec![1, 2, 3, 4]);
}

#[test]
fn skip_consumes_whole_batches_and_slices_the_crossing_one() {
    let scan = Arc::new(ExecutionPlan::MemoryScan(MemoryScanExec::new(
        schema(),
        vec![batch(&[1, 2]), batch(&[3, 4, 5])],
    )));
    let exec = LimitExec::new(scan, 3, None);
    let batches = collect(exec.execute(0).unwrap());
    let all: Vec<i64> = batches.iter().flat_map(values_of).collect();
    assert_eq!(all, vec![4, 5]);
}

#[test]
fn skip_and_fetch_combine() {
    let scan = Arc::new(ExecutionPlan::MemoryScan(MemoryScanExec::new(schema(), vec![batch(&[1, 2, 3, 4, 5])])));
    let exec = LimitExec::new(scan, 1, Some(2));
    let batches = collect(exec.execute(0).unwrap());
    let all: Vec<i64> = batches.iter().flat_map(values_of).collect();
    assert_eq!(all, vec![2, 3]);
}

#[test]
fn fetch_zero_yields_no_rows() {
    let scan = Arc::new(ExecutionPlan::MemoryScan(MemoryScanExec::new(schema(), vec![batch(&[1, 2, 3])])));
    let exec = LimitExec::new(scan, 0, Some(0));
    let batches = collect(exec.execute(0).unwrap());
    assert!(batches.is_empty());
}

#[test]
fn fetch_beyond_input_returns_everything() {
    let scan = Arc::new(ExecutionPlan::MemoryScan(MemoryScanExec::new(schema(), vec![batch(&[1, 2])])));
    let exec = LimitExec::new(scan, 0, Some(100));
    let batches = collect(exec.execute(0).unwrap());
    let all: Vec<i64> = batches.iter().flat_map(values_of).collect();
    assert_eq!(all, vec![1, 2]);
}

#[test]
fn sorts_across_multiple_input_batches() {
    let scan = Arc::new(ExecutionPlan::MemoryScan(MemoryScanExec::new(
        schema(),
        vec![batch(&[3, 1]), batch(&[2, 5, 4])],
    )));
    let exec = SortExec::new(
        scan,
        vec![PhysicalSortExpr {
            expr: column(0),
            options: SortOptions {
                descending: false,
                nulls_first: true,
            },
        }],
    );
    let batches = collect(exec.execute(0).unwrap());
    assert_eq!(batches.len(), 1);
    assert_eq!(values_of(&batches[0]), vec![1, 2, 3, 4, 5]);
}

#[test]
fn sort_on_empty_input_yields_no_batches() {
    let scan = Arc::new(ExecutionPlan::MemoryScan(MemoryScanExec::new(schema(), vec![])));
    let exec = SortExec::new(
        scan,
        vec![PhysicalSortExpr {
            expr: column(0),
            options: SortOptions {
                descending: false,
                nulls_first: true,
            },
        }],
    );
    let batches = collect(exec.execute(0).unwrap());
    assert!(batches.is_empty());
}

#[test]
fn topk_truncates_the_sorted_output() {
    let scan = Arc::new(ExecutionPlan::MemoryScan(MemoryScanExec::new(schema(), vec![batch(&[5, 3, 1, 4, 2])])));
    let exec = TopKExec::new(
        scan,
        vec![PhysicalSortExpr {
            expr: column(0),
            options: SortOptions {
                descending: false,
                nulls_first: true,
            },
        }],
        3,
    );
    let batches = collect(exec.execute(0).unwrap());
    assert_eq!(values_of(&batches[0]), vec![1, 2, 3]);
}

#[test]
fn topk_with_k_larger_than_input_returns_everything() {
    let scan = Arc::new(ExecutionPlan::MemoryScan(MemoryScanExec::new(schema(), vec![batch(&[2, 1])])));
    let exec = TopKExec::new(
        scan,
        vec![PhysicalSortExpr {
            expr: column(0),
            options: SortOptions {
                descending: false,
                nulls_first: true,
            },
        }],
        100,
    );
    let batches = collect(exec.execute(0).unwrap());
    assert_eq!(values_of(&batches[0]), vec![1, 2]);
}

fn pair_schema() -> SchemaRef {
    Arc::new(
        Schema::new(vec![
            Field::new("k", DataType::Int64, false),
            Field::new("v", DataType::Int64, false),
        ])
        .unwrap(),
    )
}

fn pair_batch(keys: &[i64], values: &[i64]) -> ColumnarBatch {
    let mut kb = IntBuilder::with_capacity(keys.len());
    for &k in keys {
        kb.append_value(k);
    }
    let mut vb = IntBuilder::with_capacity(values.len());
    for &v in values {
        vb.append_value(v);
    }
    ColumnarBatch::try_new(
        pair_schema(),
        vec![Arc::new(kb.finish()), Arc::new(vb.finish())],
    )
    .unwrap()
}

#[test]
fn no_group_by_sum_over_multiple_batches() {
    let scan = Arc::new(ExecutionPlan::MemoryScan(MemoryScanExec::new(
        pair_schema(),
        vec![pair_batch(&[1, 1], &[10, 20]), pair_batch(&[2], &[30])],
    )));
    let output_schema =
        Arc::new(Schema::new(vec![Field::new("total", DataType::Int64, true)]).unwrap());
    let exec = AggregateExec::new(
        scan,
        vec![],
        vec![],
        vec![Some(column(1))],
        vec![AggregateKind::Sum],
        vec![DataType::Int64],
        output_schema,
    );
    let batches = collect(exec.execute(0).unwrap());
    assert_eq!(batches.len(), 1);
    assert_eq!(batches[0].num_rows(), 1);
    let col = batches[0].column(0).unwrap();
    assert_eq!(int_at(col, 0), 60);
}

#[test]
fn group_by_sum_across_multiple_batches() {
    let scan = Arc::new(ExecutionPlan::MemoryScan(MemoryScanExec::new(
        pair_schema(),
        vec![pair_batch(&[1, 2], &[10, 20]), pair_batch(&[1], &[5])],
    )));
    let output_schema = Arc::new(
        Schema::new(vec![
            Field::new("k", DataType::Int64, false),
            Field::new("total", DataType::Int64, true),
        ])
        .unwrap(),
    );
    let exec = AggregateExec::new(
        scan,
        vec![column(0)],
        vec![DataType::Int64],
        vec![Some(column(1))],
        vec![AggregateKind::Sum],
        vec![DataType::Int64],
        output_schema,
    );
    let batches = collect(exec.execute(0).unwrap());
    assert_eq!(batches[0].num_rows(), 2);

    let keys = batches[0].column(0).unwrap();
    let sums = batches[0].column(1).unwrap();
    let mut by_key = std::collections::HashMap::new();
    for i in 0..2 {
        by_key.insert(int_at(keys, i), int_at(sums, i));
    }
    assert_eq!(by_key.get(&1), Some(&15));
    assert_eq!(by_key.get(&2), Some(&20));
}

#[test]
fn count_star_ignores_the_arg_and_counts_rows() {
    let scan = Arc::new(ExecutionPlan::MemoryScan(MemoryScanExec::new(
        pair_schema(),
        vec![pair_batch(&[1, 1, 1], &[1, 2, 3])],
    )));
    let output_schema =
        Arc::new(Schema::new(vec![Field::new("n", DataType::Int64, false)]).unwrap());
    let exec = AggregateExec::new(
        scan,
        vec![],
        vec![],
        vec![None],
        vec![AggregateKind::Count],
        vec![DataType::Int64],
        output_schema,
    );
    let batches = collect(exec.execute(0).unwrap());
    let col = batches[0].column(0).unwrap();
    assert_eq!(int_at(col, 0), 3);
}

#[test]
fn empty_input_with_no_group_by_still_emits_one_row() {
    let scan = Arc::new(ExecutionPlan::MemoryScan(MemoryScanExec::new(pair_schema(), vec![])));
    let output_schema =
        Arc::new(Schema::new(vec![Field::new("total", DataType::Int64, true)]).unwrap());
    let exec = AggregateExec::new(
        scan,
        vec![],
        vec![],
        vec![Some(column(1))],
        vec![AggregateKind::Sum],
        vec![DataType::Int64],
        output_schema,
    );
    let batches = collect(exec.execute(0).unwrap());
    assert_eq!(batches.len(), 1);
    assert_eq!(batches[0].num_rows(), 1);
    assert!(batches[0].column(0).unwrap().is_null(0));
}

#[test]
fn empty_input_with_group_by_emits_zero_groups() {
    let scan = Arc::new(ExecutionPlan::MemoryScan(MemoryScanExec::new(pair_schema(), vec![])));
    let output_schema = Arc::new(
        Schema::new(vec![
            Field::new("k", DataType::Int64, false),
            Field::new("total", DataType::Int64, true),
        ])
        .unwrap(),
    );
    let exec = AggregateExec::new(
        scan,
        vec![column(0)],
        vec![DataType::Int64],
        vec![Some(column(1))],
        vec![AggregateKind::Sum],
        vec![DataType::Int64],
        output_schema,
    );
    let batches = collect(exec.execute(0).unwrap());
    assert_eq!(batches[0].num_rows(), 0);
}

#[test]
fn a_limit_above_a_sort_is_a_top_k() {
    let rows = || {
        Arc::new(ExecutionPlan::MemoryScan(MemoryScanExec::new(
            schema(),
            vec![batch(&[4, 2, 9]), batch(&[1, 4])],
        )))
    };
    let keys = || {
        vec![PhysicalSortExpr {
            expr: column(0),
            options: SortOptions { descending: true, nulls_first: false },
        }]
    };
    for k in 0..7 {
        let sort = Arc::new(ExecutionPlan::Sort(SortExec::new(rows(), keys())));
        let limited: Vec<i64> = collect(LimitExec::new(sort, 0, Some(k)).execute(0).unwrap())
            .iter()
            .flat_map(values_of)
            .collect();
        let top: Vec<i64> = collect(TopKExec::new(rows(), keys(), k).execute(0).unwrap())
            .iter()
            .flat_map(values_of)
            .collect();
        assert_eq!(limited, top);
    }
}

#[test]
fn sorting_keeps_the_order_of_ties_and_places_nulls() {
    let schema: SchemaRef = Arc::new(
        Schema::new(vec![
            Field::new("k", DataType::Int64, true),
            Field::new("v", DataType::Int64, false),
        ])
        .unwrap(),
    );
    let keys = Array::Int64(vec![Some(2), None, Some(1), Some(2), None]);
    let values = Array::Int64(vec![Some(0), Some(1), Some(2), Some(3), Some(4)]);
    let rows = ColumnarBatch::try_new(
        Arc::clone(&schema),
        vec![Arc::new(keys), Arc::new(values)],
    )
    .unwrap();
    for (descending, nulls_first, expected) in [
        (false, true, vec![1, 4, 2, 0, 3]),
        (false, false, vec![2, 0, 3, 1, 4]),
        (true, true, vec![1, 4, 0, 3, 2]),
        (true, false, vec![0, 3, 2, 1, 4]),
    ] {
        let scan = Arc::new(ExecutionPlan::MemoryScan(MemoryScanExec::new(
            Arc::clone(&schema),
            vec![rows.clone()],
        )));
        let key = PhysicalSortExpr {
            expr: column(0),
            options: SortOptions { descending, nulls_first },
        };
        let sorted = collect(SortExec::new(scan, vec![key]).execute(0).unwrap());
        let order: Vec<i64> = (0..5).map(|i| int_at(sorted[0].column(1).unwrap(), i)).collect();
        assert_eq!(order, expected);
    }
}

#[test]
fn operators_are_rebuilt_over_new_children() {
    let scan = || {
        Arc::new(ExecutionPlan::MemoryScan(MemoryScanExec::new(schema(), vec![batch(&[7])])))
    };
    let limit = ExecutionPlan::Limit(LimitExec::new(scan(), 0, Some(1)));
    assert_eq!(limit.children().len(), 1);
    assert!(matches!(limit.with_new_children(vec![]), Err(BasaltError::Internal(_))));
    let again = limit.with_new_children(vec![scan()]).unwrap();
    assert_eq!(values_of(&collect(again.execute(0).unwrap())[0]), vec![7]);
    assert!(limit.execute(1).is_err());
}

#[test]
fn operators_have_one_partition_and_count_nothing() {
    let scan = ExecutionPlan::MemoryScan(MemoryScanExec::new(schema(), vec![batch(&[1, 2])]));
    assert_eq!(scan.output_partitioning().partition_count(), 1);
    assert!(scan.metrics().is_none());
}

#[test]
fn limits_pass_no_empty_batches_on() {
    let scan = || {
        Arc::new(ExecutionPlan::MemoryScan(MemoryScanExec::new(
            schema(),
            vec![batch(&[]), batch(&[1, 2]), batch(&[]), batch(&[3])],
        )))
    };
    for (skip, fetch, expected) in [
        (0, None, vec![vec![1, 2], vec![3]]),
        (2, None, vec![vec![3]]),
        (1, Some(1), vec![vec![2]]),
        (3, Some(5), vec![]),
    ] {
        let batches = collect(LimitExec::new(scan(), skip, fetch).execute(0).unwrap());
        let values: Vec<Vec<i64>> = batches.iter().map(values_of).collect();
        assert_eq!(values, expected);
    }
}
