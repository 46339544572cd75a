//! Hash joins and nested-loop joins.

use std::sync::Arc;

use basalt::array::Array;
use basalt::batch::ColumnarBatch;
use basalt::logical_plan::plan::JoinType;
use basalt::physical_expr::binary::BinaryExpr;
use basalt::physical_expr::column::ColumnExpr;
use basalt::physical_expr::expr::{PhysicalExpr, PhysicalExprRef};
use basalt::physical_plan::join::hash_join::HashJoinExec;
use basalt::physical_plan::join::nested_loop::NestedLoopJoinExec;
use basalt::physical_plan::plan::{BatchStream, ExecutionPlan};
use basalt::physical_plan::scan::MemoryScanExec;
use basalt::types::coercion::BinaryOp;
use basalt::types::data_type::DataType;
use basalt::types::schema::{Field, Schema, SchemaRef};
use basalt::types::value::Value;

fn column(index: usize) -> PhysicalExprRef {
    Arc::new(PhysicalExpr::Column(ColumnExpr::new(index)))
}

fn collect(stream: BatchStream) -> Vec<ColumnarBatch> {
    stream.into_iter().map(|b| b.unwrap()).collect()
}

struct IntBuilder(Vec<Option<i64>>);

impl IntBuilder {
    fn with_capacity(n: usize) -> IntBuilder {
        IntBuilder(Vec::with_capacity(n))
    }

    fn append_value(&mut self, v: i64) {
        self.0.push(Some(v));
    }

    fn append_null(&mut self) {
        self.0.push(None);
    }

    fn finish(self) -> Array {
        Array::Int64(self.0)
    }
}

fn int_at(a: &Array, i: usize) -> i64 {
    match a.value(i) {
        Value::Int64(v) => v,
        other => panic!("expected an integer, got {other:?}"),
    }
}

fn side_schema(col_name: &str) -> SchemaRef {
    Arc::new(
        Schema::new(vec![
            Field::new("key", DataType::Int64, true),
            Field::new(col_name, DataType::Int64, false),
        ])
        .unwrap(),
    )
}

fn side_batch(schema: SchemaRef, keys: &[Option<i64>], vals: &[i64]) -> ColumnarBatch {
    let mut kb = IntBuilder::with_capacity(keys.len());
    for &k in keys {
        match k {
            Some(k) => kb.append_value(k),
            None => kb.append_null(),
        }
    }
    let mut vb = IntBuilder::with_capacity(vals.len());
    for &v in vals {
        vb.append_value(v);
    }
    ColumnarBatch::try_new(schema, vec![Arc::new(kb.finish()), Arc::new(vb.finish())]).unwrap()
}

fn output_schema() -> SchemaRef {
    Arc::new(
        Schema::new(vec![
            Field::new("bkey", DataType::Int64, true),
            Field::new("bval", DataType::Int64, false),
            Field::new("pkey", DataType::Int64, true),
            Field::new("pval", DataType::Int64, false),
        ])
        .unwrap(),
    )
}

fn make_join(
    join_type: JoinType,
    build_rows: ColumnarBatch,
    probe_rows: ColumnarBatch,
) -> HashJoinExec {
    let build_schema = Arc::clone(build_rows.schema());
    let probe_schema = Arc::clone(probe_rows.schema());
    let build = Arc::new(ExecutionPlan::MemoryScan(MemoryScanExec::new(Arc::clone(&build_schema), vec![build_rows])));
    let probe = Arc::new(ExecutionPlan::MemoryScan(MemoryScanExec::new(Arc::clone(&probe_schema), vec![probe_rows])));
    // Semi/anti joins keep only one side's columns; every other type
    // keeps both (build fields followed by probe fields).
    let schema = match join_type {
        JoinType::LeftSemi | JoinType::LeftAnti => probe_schema,
        JoinType::RightSemi | JoinType::RightAnti => build_schema,
        _ => output_schema(),
    };
    HashJoinExec::new(
        build,
        probe,
        vec![(column(0), column(0))],
        join_type,
        schema,
    )
}

fn int_col(b: &ColumnarBatch, i: usize) -> Vec<Option<i64>> {
    let arr = b.column(i).unwrap();
    (0..b.num_rows())
        .map(|r| {
            if arr.is_null(r) {
                None
            } else {
                Some(int_at(arr, r))
            }
        })
        .collect()
}

#[test]
fn inner_join_emits_only_matched_pairs() {
    let build = side_batch(side_schema("bval"), &[Some(1), Some(2)], &[10, 20]);
    let probe = side_batch(side_schema("pval"), &[Some(2), Some(3)], &[200, 300]);
    let join = make_join(JoinType::Inner, build, probe);
    let batches = collect(join.execute(0).unwrap());
    assert_eq!(batches[0].num_rows(), 1);
    assert_eq!(int_col(&batches[0], 0), vec![Some(2)]);
    assert_eq!(int_col(&batches[0], 3), vec![Some(200)]);
}

#[test]
fn left_join_keeps_unmatched_probe_rows_with_null_build_side() {
    let build = side_batch(side_schema("bval"), &[Some(1)], &[10]);
    let probe = side_batch(side_schema("pval"), &[Some(1), Some(99)], &[100, 900]);
    let join = make_join(JoinType::Left, build, probe);
    let batches = collect(join.execute(0).unwrap());
    assert_eq!(batches[0].num_rows(), 2);
    // The unmatched probe row (key 99) must appear with nulls on the build side.
    let bkeys = int_col(&batches[0], 0);
    let pkeys = int_col(&batches[0], 2);
    assert!(bkeys.contains(&None));
    assert!(pkeys.contains(&Some(99)));
}

#[test]
fn right_join_keeps_unmatched_build_rows_with_null_probe_side() {
    let build = side_batch(side_schema("bval"), &[Some(1), Some(2)], &[10, 20]);
    let probe = side_batch(side_schema("pval"), &[Some(1)], &[100]);
    let join = make_join(JoinType::Right, build, probe);
    let batches = collect(join.execute(0).unwrap());
    assert_eq!(batches[0].num_rows(), 2);
    let pkeys = int_col(&batches[0], 2);
    assert!(pkeys.contains(&None));
}

#[test]
fn full_join_keeps_both_sides_unmatched_rows() {
    let build = side_batch(side_schema("bval"), &[Some(1), Some(2)], &[10, 20]);
    let probe = side_batch(side_schema("pval"), &[Some(2), Some(3)], &[200, 300]);
    let join = make_join(JoinType::Full, build, probe);
    let batches = collect(join.execute(0).unwrap());
    // matched: (2,2); unmatched build: 1; unmatched probe: 3 -> 3 total rows
    assert_eq!(batches[0].num_rows(), 3);
}

#[test]
fn left_semi_emits_each_matching_probe_row_once() {
    let build = side_batch(side_schema("bval"), &[Some(1), Some(1)], &[10, 11]); // two build rows share key 1
    let probe = side_batch(side_schema("pval"), &[Some(1), Some(2)], &[100, 200]);
    let join = make_join(JoinType::LeftSemi, build, probe);
    let batches = collect(join.execute(0).unwrap());
    // Only the probe schema (2 fields), and the matching probe row exactly once
    // despite matching two build rows.
    assert_eq!(batches[0].num_columns(), 2);
    assert_eq!(batches[0].num_rows(), 1);
}

#[test]
fn left_anti_emits_unmatched_probe_rows_only() {
    let build = side_batch(side_schema("bval"), &[Some(1)], &[10]);
    let probe = side_batch(side_schema("pval"), &[Some(1), Some(2)], &[100, 200]);
    let join = make_join(JoinType::LeftAnti, build, probe);
    let batches = collect(join.execute(0).unwrap());
    assert_eq!(batches[0].num_rows(), 1);
}

#[test]
fn right_semi_and_anti_operate_on_build_rows() {
    let build = side_batch(side_schema("bval"), &[Some(1), Some(2)], &[10, 20]);
    let probe = side_batch(side_schema("pval"), &[Some(1)], &[100]);

    let semi = make_join(JoinType::RightSemi, build.clone(), probe.clone());
    let semi_batches = collect(semi.execute(0).unwrap());
    assert_eq!(semi_batches[0].num_rows(), 1); // build key 1 matched

    let anti = make_join(JoinType::RightAnti, build, probe);
    let anti_batches = collect(anti.execute(0).unwrap());
    assert_eq!(anti_batches[0].num_rows(), 1); // build key 2 unmatched
}

#[test]
fn null_keys_never_match_but_still_appear_as_unmatched() {
    let build = side_batch(side_schema("bval"), &[None, Some(1)], &[10, 11]);
    let probe = side_batch(side_schema("pval"), &[None, Some(1)], &[100, 111]);
    let join = make_join(JoinType::Full, build, probe);
    let batches = collect(join.execute(0).unwrap());
    // (1,1) matches; null-keyed build row and null-keyed probe row both
    // appear as unmatched (never matching each other, per NULL = NULL = NULL).
    assert_eq!(batches[0].num_rows(), 3);
}

#[test]
fn one_to_many_match_produces_a_row_per_pair() {
    let build = side_batch(
        side_schema("bval"),
        &[Some(1), Some(1), Some(1)],
        &[10, 11, 12],
    );
    let probe = side_batch(side_schema("pval"), &[Some(1)], &[100]);
    let join = make_join(JoinType::Inner, build, probe);
    let batches = collect(join.execute(0).unwrap());
    assert_eq!(batches[0].num_rows(), 3);
}

#[test]
fn empty_build_side_with_inner_join_yields_no_rows() {
    let build = side_batch(side_schema("bval"), &[], &[]);
    let probe = side_batch(side_schema("pval"), &[Some(1)], &[100]);
    let join = make_join(JoinType::Inner, build, probe);
    let batches = collect(join.execute(0).unwrap());
    assert_eq!(batches[0].num_rows(), 0);
}

fn schema(name: &str) -> SchemaRef {
    Arc::new(Schema::new(vec![Field::new(name, DataType::Int64, false)]).unwrap())
}

fn batch(schema: SchemaRef, values: &[i64]) -> ColumnarBatch {
    let mut b = IntBuilder::with_capacity(values.len());
    for &v in values {
        b.append_value(v);
    }
    ColumnarBatch::try_new(schema, vec![Arc::new(b.finish())]).unwrap()
}

#[test]
fn joins_on_a_non_equi_predicate() {
    let build = Arc::new(ExecutionPlan::MemoryScan(MemoryScanExec::new(
        schema("b"),
        vec![batch(schema("b"), &[1, 2, 3])],
    )));
    let probe = Arc::new(ExecutionPlan::MemoryScan(MemoryScanExec::new(
        schema("p"),
        vec![batch(schema("p"), &[2])],
    )));
    let output_schema = Arc::new(
        Schema::new(vec![
            Field::new("b", DataType::Int64, false),
            Field::new("p", DataType::Int64, false),
        ])
        .unwrap(),
    );
    // ON b.b < p.p : only build row 1 (value 1) satisfies 1 < 2
    let predicate = Arc::new(PhysicalExpr::Binary(BinaryExpr::new(
        column(0),
        BinaryOp::Lt,
        column(1),
    )));
    let exec = NestedLoopJoinExec::new(build, probe, predicate, output_schema);
    let batches = collect(exec.execute(0).unwrap());
    assert_eq!(batches[0].num_rows(), 1);
    let bcol = batches[0].column(0).unwrap();
    assert_eq!(int_at(bcol, 0), 1);
}

#[test]
fn empty_probe_side_yields_no_rows() {
    let build = Arc::new(ExecutionPlan::MemoryScan(MemoryScanExec::new(
        schema("b"),
        vec![batch(schema("b"), &[1, 2])],
    )));
    let probe = Arc::new(ExecutionPlan::MemoryScan(MemoryScanExec::new(schema("p"), vec![])));
    let output_schema = Arc::new(
        Schema::new(vec![
            Field::new("b", DataType::Int64, false),
            Field::new("p", DataType::Int64, false),
        ])
        .unwrap(),
    );
    let predicate = Arc::new(PhysicalExpr::Binary(BinaryExpr::new(
        column(0),
        BinaryOp::Lt,
        column(1),
    )));
    let exec = NestedLoopJoinExec::new(build, probe, predicate, output_schema);
    let batches = collect(exec.execute(0).unwrap());
    assert_eq!(batches[0].num_rows(), 0);
}

#[test]
fn semi_and_anti_joins_part_the_rows() {
    let build = side_batch(side_schema("bval"), &[Some(1), Some(4), None], &[10, 40, 50]);
    let probe = side_batch(
        side_schema("pval"),
        &[Some(4), Some(2), None, Some(4)],
        &[400, 200, 300, 401],
    );
    let values = |join_type: JoinType| -> Vec<Option<i64>> {
        let join = make_join(join_type, build.clone(), probe.clone());
        int_col(&collect(join.execute(0).unwrap())[0], 1)
    };
    assert_eq!(values(JoinType::LeftSemi), vec![Some(400), Some(401)]);
    assert_eq!(values(JoinType::LeftAnti), vec![Some(200), Some(300)]);
    assert_eq!(values(JoinType::RightSemi), vec![Some(40)]);
    assert_eq!(values(JoinType::RightAnti), vec![Some(10), Some(50)]);
}

#[test]
fn a_residual_filter_decides_which_pairs_match() {
    let build = side_batch(side_schema("bval"), &[Some(1), Some(1)], &[10, 500]);
    let probe = side_batch(side_schema("pval"), &[Some(1), Some(2)], &[100, 200]);
    let scan = |b: ColumnarBatch| {
        Arc::new(ExecutionPlan::MemoryScan(MemoryScanExec::new(Arc::clone(b.schema()), vec![b])))
    };
    // bval < pval
    let filter = Arc::new(PhysicalExpr::Binary(BinaryExpr::new(
        column(1),
        BinaryOp::Lt,
        column(3),
    )));
    let join = HashJoinExec::with_filter(
        scan(build),
        scan(probe),
        vec![(column(0), column(0))],
        Some(filter),
        JoinType::Left,
        output_schema(),
    );
    let batches = collect(join.execute(0).unwrap());
    assert_eq!(int_col(&batches[0], 1), vec![Some(10), None]);
    assert_eq!(int_col(&batches[0], 3), vec![Some(100), Some(200)]);
}
