//! Spilled batches and the memory budget.

use std::sync::Arc;

use basalt::array::{Array, ArrayRef};
use basalt::batch::ColumnarBatch;
use basalt::error::BasaltError;
use basalt::physical_plan::spill::{read_batch, write_batch, MemoryReservation, SpillReader};
use basalt::types::data_type::DataType;
use basalt::types::schema::{Field, Schema, SchemaRef};
use basalt::types::value::Value;

struct IntBuilder(Vec<Option<i64>>);

impl IntBuilder {
    fn with_capacity(n: usize) -> IntBuilder {
        IntBuilder(Vec::with_capacity(n))
    }

    fn append_value(&mut self, v: i64) {
        self.0.push(Some(v));
    }

    fn append_null(&mut self) {
        self.0.push(None);
    }

    fn finish(self) -> Array {
        Array::Int64(self.0)
    }
}

struct TextBuilder(Vec<Option<String>>);

impl TextBuilder {
    fn with_capacity(n: usize) -> TextBuilder {
        TextBuilder(Vec::with_capacity(n))
    }

    fn append_value(&mut self, v: &str) {
        self.0.push(Some(v.to_string()));
    }

    fn append_null(&mut self) {
        self.0.push(None);
    }

    fn finish(self) -> Array {
        Array::Utf8(self.0)
    }
}

fn int_at(a: &Array, i: usize) -> i64 {
    match a.value(i) {
        Value::Int64(v) => v,
        other => panic!("expected an integer, got {other:?}"),
    }
}

fn schema() -> SchemaRef {
    Arc::new(
        Schema::new(vec![
            Field::new("a", DataType::Int64, true),
            Field::new("b", DataType::Utf8, true),
        ])
        .unwrap(),
    )
}

fn sample_batch() -> ColumnarBatch {
    let mut a = IntBuilder::with_capacity(3);
    a.append_value(1);
    a.append_null();
    a.append_value(3);
    let mut b = TextBuilder::with_capacity(3);
    b.append_value("x");
    b.append_value("y");
    b.append_null();
    ColumnarBatch::try_new(schema(), vec![Arc::new(a.finish()), Arc::new(b.finish())]).unwrap()
}

#[test]
fn write_then_read_round_trips_values_and_nulls() {
    let batch = sample_batch();
    let mut buf = Vec::new();
    write_batch(&mut buf, &batch).unwrap();

    let mut cursor = SpillReader::new(buf);
    let read_back = read_batch(&mut cursor, schema()).unwrap();

    assert_eq!(read_back.num_rows(), 3);
    let a = read_back.column(0).unwrap();
    assert_eq!(int_at(a, 0), 1);
    assert!(a.is_null(1));
    assert_eq!(int_at(a, 2), 3);
    assert!(read_back.column(1).unwrap().is_null(2));
}

#[test]
fn multiple_batches_can_be_written_sequentially_and_read_back_in_order() {
    let mut buf = Vec::new();
    write_batch(&mut buf, &sample_batch()).unwrap();
    write_batch(&mut buf, &sample_batch()).unwrap();

    let mut cursor = SpillReader::new(buf);
    let first = read_batch(&mut cursor, schema()).unwrap();
    let second = read_batch(&mut cursor, schema()).unwrap();
    assert_eq!(first.num_rows(), 3);
    assert_eq!(second.num_rows(), 3);
}

#[test]
fn empty_batch_round_trips() {
    let empty = ColumnarBatch::try_new(
        schema(),
        vec![
            Arc::new(IntBuilder::with_capacity(0).finish()) as ArrayRef,
            Arc::new(TextBuilder::with_capacity(0).finish())
                as ArrayRef,
        ],
    )
    .unwrap();
    let mut buf = Vec::new();
    write_batch(&mut buf, &empty).unwrap();
    let mut cursor = SpillReader::new(buf);
    let read_back = read_batch(&mut cursor, schema()).unwrap();
    assert_eq!(read_back.num_rows(), 0);
}

#[test]
fn memory_reservation_errors_when_budget_exceeded() {
    let mut res = MemoryReservation::new(100);
    res.try_grow(60).unwrap();
    assert!(res.try_grow(60).is_err()); // would be 120 > 100
    assert_eq!(res.used(), 60); // failed grow doesn't partially apply
}

#[test]
fn memory_reservation_shrink_frees_budget_for_reuse() {
    let mut res = MemoryReservation::new(100);
    res.try_grow(80).unwrap();
    res.shrink(80);
    assert_eq!(res.used(), 0);
    assert!(res.try_grow(100).is_ok());
}

#[test]
fn memory_reservation_shrink_does_not_underflow_below_zero() {
    let mut res = MemoryReservation::new(100);
    res.try_grow(10).unwrap();
    res.shrink(1000); // shrinking by more than used must not panic/underflow
    assert_eq!(res.used(), 0);
}

#[test]
fn bytes_that_are_cut_short_are_refused() {
    let mut buf = Vec::new();
    write_batch(&mut buf, &sample_batch()).unwrap();
    buf.pop();
    let mut cursor = SpillReader::new(buf);
    assert!(matches!(read_batch(&mut cursor, schema()), Err(BasaltError::Internal(_))));
    assert!(matches!(
        read_batch(&mut SpillReader::new(vec![]), schema()),
        Err(BasaltError::Internal(_))
    ));
}

#[test]
fn rows_with_bytes_left_over_are_refused() {
    let one = Arc::new(Schema::new(vec![Field::new("a", DataType::Int64, true)]).unwrap());
    // One row, its bytes, and the boundaries before and after it.
    let spilled = |row: &[u8]| {
        let mut buf = vec![1, 0, 0, 0, 0, 0, 0, 0, row.len() as u8, 0, 0, 0, 0, 0, 0, 0];
        buf.extend_from_slice(row);
        buf.extend_from_slice(&[0, 0, 0, 0, row.len() as u8, 0, 0, 0]);
        SpillReader::new(buf)
    };
    let batch = read_batch(&mut spilled(&[0]), one.clone()).unwrap();
    assert_eq!(batch.num_rows(), 1);
    assert!(matches!(read_batch(&mut spilled(&[0, 7]), one), Err(BasaltError::Internal(_))));
}
