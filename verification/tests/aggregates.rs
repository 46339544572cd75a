//! Accumulators, group keys and the grouping table.

use std::sync::Arc;

use basalt::array::{Array, ArrayRef};
use basalt::error::BasaltError;
use basalt::float64::Float64;
use basalt::logical_plan::plan::AggregateKind;
use basalt::physical_plan::aggregate::accumulator::{
    AccumulatorFactory, AvgAccumulator, CountAccumulator, MinMaxAccumulator, SumAccumulator,
};
use basalt::physical_plan::aggregate::group_keys::GroupKeyEncoder;
use basalt::physical_plan::aggregate::hash_table::GroupedHashAggregator;
use basalt::scalar::ScalarValue;
use basalt::types::data_type::DataType;

fn float(v: f64) -> Float64 {
    Float64::from_bits(v.to_bits())
}

struct IntBuilder(Vec<Option<i64>>);

impl IntBuilder {
    fn with_capacity(n: usize) -> IntBuilder {
        IntBuilder(Vec::with_capacity(n))
    }

    fn append_value(&mut self, v: i64) {
        self.0.push(Some(v));
    }

    fn append_null(&mut self) {
        self.0.push(None);
    }

    fn finish(self) -> Array {
        Array::Int64(self.0)
    }
}

struct FloatBuilder(Vec<Option<Float64>>);

impl FloatBuilder {
    fn with_capacity(n: usize) -> FloatBuilder {
        FloatBuilder(Vec::with_capacity(n))
    }

    fn append_value(&mut self, v: f64) {
        self.0.push(Some(Float64::from_bits(v.to_bits())));
    }

    fn finish(self) -> Array {
        Array::Float64(self.0)
    }
}

struct BoolBuilder(Vec<Option<bool>>);

impl BoolBuilder {
    fn with_capacity(n: usize) -> BoolBuilder {
        BoolBuilder(Vec::with_capacity(n))
    }

    fn append_value(&mut self, v: bool) {
        self.0.push(Some(v));
    }

    fn append_null(&mut self) {
        self.0.push(None);
    }

    fn finish(self) -> Array {
        Array::Boolean(self.0)
    }
}

struct TextBuilder(Vec<Option<String>>);

impl TextBuilder {
    fn with_capacity(n: usize) -> TextBuilder {
        TextBuilder(Vec::with_capacity(n))
    }

    fn append_value(&mut self, v: &str) {
        self.0.push(Some(v.to_string()));
    }

    fn append_null(&mut self) {
        self.0.push(None);
    }

    fn finish(self) -> Array {
        Array::Utf8(self.0)
    }
}

fn int_array(values: &[Option<i64>]) -> ArrayRef {
    let mut b = IntBuilder::with_capacity(values.len());
    for &v in values {
        match v {
            Some(v) => b.append_value(v),
            None => b.append_null(),
        }
    }
    Arc::new(b.finish())
}

#[test]
fn sum_skips_nulls_and_returns_null_for_all_null_input() {
    let mut acc = SumAccumulator::new(DataType::Int64);
    acc.update_batch(&vec![int_array(&[None, None])]).unwrap();
    assert_eq!(acc.evaluate().unwrap(), ScalarValue::Int64(None));

    let mut acc = SumAccumulator::new(DataType::Int64);
    acc.update_batch(&vec![int_array(&[Some(1), None, Some(2)])])
        .unwrap();
    assert_eq!(acc.evaluate().unwrap(), ScalarValue::Int64(Some(3)));
}

#[test]
fn sum_overflow_errors() {
    let mut acc = SumAccumulator::new(DataType::Int64);
    acc.update_batch(&vec![int_array(&[Some(i64::MAX), Some(1)])])
        .unwrap_err();
}

#[test]
fn sum_two_phase_merge_matches_single_phase_sum() {
    let mut partial_a = SumAccumulator::new(DataType::Int64);
    partial_a
        .update_batch(&vec![int_array(&[Some(1), Some(2)])])
        .unwrap();
    let mut partial_b = SumAccumulator::new(DataType::Int64);
    partial_b
        .update_batch(&vec![int_array(&[Some(3), Some(4)])])
        .unwrap();

    let mut final_acc = SumAccumulator::new(DataType::Int64);
    let state_a = partial_a.state().unwrap();
    let state_b = partial_b.state().unwrap();
    let combined = int_array(&[
        match state_a[0] {
            ScalarValue::Int64(v) => v,
            _ => panic!(),
        },
        match state_b[0] {
            ScalarValue::Int64(v) => v,
            _ => panic!(),
        },
    ]);
    final_acc.merge_batch(&vec![combined]).unwrap();

    let mut whole = SumAccumulator::new(DataType::Int64);
    whole
        .update_batch(&vec![int_array(&[Some(1), Some(2), Some(3), Some(4)])])
        .unwrap();

    assert_eq!(final_acc.evaluate().unwrap(), whole.evaluate().unwrap());
}

#[test]
fn count_star_counts_rows_including_nulls() {
    let mut acc = CountAccumulator::star();
    acc.update_batch(&vec![int_array(&[Some(1), None, Some(2)])])
        .unwrap();
    assert_eq!(acc.evaluate().unwrap(), ScalarValue::Int64(Some(3)));
}

#[test]
fn count_expr_skips_nulls() {
    let mut acc = CountAccumulator::expr();
    acc.update_batch(&vec![int_array(&[Some(1), None, Some(2)])])
        .unwrap();
    assert_eq!(acc.evaluate().unwrap(), ScalarValue::Int64(Some(2)));
}

#[test]
fn count_over_empty_input_is_zero_not_null() {
    let acc = CountAccumulator::expr();
    assert_eq!(acc.evaluate().unwrap(), ScalarValue::Int64(Some(0)));
}

#[test]
fn min_max_skip_nulls() {
    let mut min_acc = MinMaxAccumulator::min(DataType::Int64);
    min_acc
        .update_batch(&vec![int_array(&[Some(5), None, Some(2), Some(8)])])
        .unwrap();
    assert_eq!(min_acc.evaluate().unwrap(), ScalarValue::Int64(Some(2)));

    let mut max_acc = MinMaxAccumulator::max(DataType::Int64);
    max_acc
        .update_batch(&vec![int_array(&[Some(5), None, Some(2), Some(8)])])
        .unwrap();
    assert_eq!(max_acc.evaluate().unwrap(), ScalarValue::Int64(Some(8)));
}

#[test]
fn min_over_all_null_input_is_null() {
    let mut acc = MinMaxAccumulator::min(DataType::Int64);
    acc.update_batch(&vec![int_array(&[None, None])]).unwrap();
    assert_eq!(acc.evaluate().unwrap(), ScalarValue::Int64(None));
}

/// The two-phase contract's reason for existing: averages cannot be
/// merged by averaging them, only by summing sums and counts.
#[test]
fn avg_state_is_richer_than_output_and_merges_correctly() {
    let mut partial_a = AvgAccumulator::new();
    partial_a
        .update_batch(&vec![int_array(&[Some(10), Some(20)])])
        .unwrap(); // avg 15
    let mut partial_b = AvgAccumulator::new();
    partial_b.update_batch(&vec![int_array(&[Some(100)])]).unwrap(); // avg 100

    // Naively averaging 15 and 100 would give 57.5 — wrong. The correct
    // merged average of [10, 20, 100] is 130/3.
    let mut merged = AvgAccumulator::new();
    let sums = {
        let mut b = FloatBuilder::with_capacity(2);
        for state in [partial_a.state().unwrap(), partial_b.state().unwrap()] {
            match state[0] {
                ScalarValue::Float64(Some(v)) => b.append_value(f64::from_bits(v.to_bits())),
                _ => panic!(),
            }
        }
        Arc::new(b.finish()) as ArrayRef
    };
    let counts = {
        let mut b = IntBuilder::with_capacity(2);
        for state in [partial_a.state().unwrap(), partial_b.state().unwrap()] {
            match state[1] {
                ScalarValue::Int64(Some(v)) => b.append_value(v),
                _ => panic!(),
            }
        }
        Arc::new(b.finish()) as ArrayRef
    };
    merged.merge_batch(&vec![sums, counts]).unwrap();

    assert_eq!(
        merged.evaluate().unwrap(),
        ScalarValue::Float64(Some(float(130.0 / 3.0)))
    );
}

#[test]
fn avg_over_all_null_input_is_null() {
    let acc = AvgAccumulator::new();
    assert_eq!(acc.evaluate().unwrap(), ScalarValue::Float64(None));
}

#[test]
fn int64_round_trips_through_encode_decode() {
    let encoder = GroupKeyEncoder::new(vec![DataType::Int64]);
    let mut b = IntBuilder::with_capacity(1);
    b.append_value(-42);
    let arrays: Vec<ArrayRef> = vec![Arc::new(b.finish())];
    let mut out = Vec::new();
    let mut offsets = Vec::new();
    encoder.encode(&arrays, &mut out, &mut offsets).unwrap();
    let key = &out[offsets[0] as usize..offsets[1] as usize];
    assert_eq!(
        encoder.decode(key).unwrap(),
        vec![ScalarValue::Int64(Some(-42))]
    );
}

#[test]
fn int64_encoding_preserves_numeric_order_including_negatives() {
    let encoder = GroupKeyEncoder::new(vec![DataType::Int64]);
    let values = [i64::MIN, -100, -1, 0, 1, 100, i64::MAX];
    let mut b = IntBuilder::with_capacity(values.len());
    for &v in &values {
        b.append_value(v);
    }
    let arrays: Vec<ArrayRef> = vec![Arc::new(b.finish())];
    let mut out = Vec::new();
    let mut offsets = Vec::new();
    encoder.encode(&arrays, &mut out, &mut offsets).unwrap();

    let keys: Vec<&[u8]> = (0..values.len())
        .map(|i| &out[offsets[i] as usize..offsets[i + 1] as usize])
        .collect();
    let mut sorted = keys.clone();
    sorted.sort();
    assert_eq!(
        keys, sorted,
        "encoded keys should already be in ascending order"
    );
}

#[test]
fn float64_encoding_preserves_numeric_order() {
    let encoder = GroupKeyEncoder::new(vec![DataType::Float64]);
    let values = [f64::NEG_INFINITY, -1.5, -0.0, 0.0, 1.5, f64::INFINITY];
    let mut b = FloatBuilder::with_capacity(values.len());
    for &v in &values {
        b.append_value(v);
    }
    let arrays: Vec<ArrayRef> = vec![Arc::new(b.finish())];
    let mut out = Vec::new();
    let mut offsets = Vec::new();
    encoder.encode(&arrays, &mut out, &mut offsets).unwrap();
    let keys: Vec<&[u8]> = (0..values.len())
        .map(|i| &out[offsets[i] as usize..offsets[i + 1] as usize])
        .collect();
    let mut sorted = keys.clone();
    sorted.sort();
    assert_eq!(keys, sorted);
}

#[test]
fn null_values_encode_and_decode_distinctly() {
    let encoder = GroupKeyEncoder::new(vec![DataType::Int64]);
    let mut b = IntBuilder::with_capacity(1);
    b.append_null();
    let arrays: Vec<ArrayRef> = vec![Arc::new(b.finish())];
    let mut out = Vec::new();
    let mut offsets = Vec::new();
    encoder.encode(&arrays, &mut out, &mut offsets).unwrap();
    let key = &out[offsets[0] as usize..offsets[1] as usize];
    assert_eq!(encoder.decode(key).unwrap(), vec![ScalarValue::Int64(None)]);
}

#[test]
fn string_and_boolean_round_trip() {
    let encoder = GroupKeyEncoder::new(vec![DataType::Utf8, DataType::Boolean]);
    let mut sb = TextBuilder::with_capacity(1);
    sb.append_value("hello");
    let mut bb = BoolBuilder::with_capacity(1);
    bb.append_value(true);
    let arrays: Vec<ArrayRef> = vec![Arc::new(sb.finish()), Arc::new(bb.finish())];
    let mut out = Vec::new();
    let mut offsets = Vec::new();
    encoder.encode(&arrays, &mut out, &mut offsets).unwrap();
    let key = &out[offsets[0] as usize..offsets[1] as usize];
    assert_eq!(
        encoder.decode(key).unwrap(),
        vec![
            ScalarValue::Utf8(Some("hello".to_string())),
            ScalarValue::Boolean(Some(true))
        ]
    );
}

#[test]
fn multiple_rows_produce_distinct_keys_for_distinct_values() {
    let encoder = GroupKeyEncoder::new(vec![DataType::Int64]);
    let mut b = IntBuilder::with_capacity(3);
    b.append_value(1);
    b.append_value(2);
    b.append_value(1);
    let arrays: Vec<ArrayRef> = vec![Arc::new(b.finish())];
    let mut out = Vec::new();
    let mut offsets = Vec::new();
    encoder.encode(&arrays, &mut out, &mut offsets).unwrap();
    let key0 = &out[offsets[0] as usize..offsets[1] as usize];
    let key1 = &out[offsets[1] as usize..offsets[2] as usize];
    let key2 = &out[offsets[2] as usize..offsets[3] as usize];
    assert_eq!(key0, key2, "same value must produce the same key");
    assert_ne!(key0, key1, "different values must produce different keys");
}

fn whole_array(values: &[i64]) -> ArrayRef {
    let mut b = IntBuilder::with_capacity(values.len());
    for &v in values {
        b.append_value(v);
    }
    Arc::new(b.finish())
}

#[test]
fn groups_rows_and_sums_per_group() {
    // group_key: [1, 2, 1, 2] ; value: [10, 20, 30, 40]
    // expect group 1 -> sum 40, group 2 -> sum 60
    let mut agg = GroupedHashAggregator::new(
        vec![DataType::Int64],
        vec![AccumulatorFactory::new(AggregateKind::Sum, DataType::Int64, false)],
    );
    agg.update_batch(&vec![whole_array(&[1, 2, 1, 2])], &vec![whole_array(&[10, 20, 30, 40])])
        .unwrap();
    assert_eq!(agg.num_groups(), 2);

    let (group_rows, agg_outputs) = agg.finish().unwrap();
    let mut by_key: std::collections::HashMap<i64, i64> = std::collections::HashMap::new();
    for (row, sum) in group_rows.iter().zip(&agg_outputs[0]) {
        let ScalarValue::Int64(Some(key)) = row[0] else {
            panic!()
        };
        let ScalarValue::Int64(Some(s)) = sum else {
            panic!()
        };
        by_key.insert(key, *s);
    }
    assert_eq!(by_key.get(&1), Some(&40));
    assert_eq!(by_key.get(&2), Some(&60));
}

#[test]
fn new_groups_across_multiple_batches_accumulate_correctly() {
    let mut agg = GroupedHashAggregator::new(
        vec![DataType::Int64],
        vec![AccumulatorFactory::new(AggregateKind::Count, DataType::Int64, true)],
    );
    agg.update_batch(&vec![whole_array(&[1, 1])], &vec![whole_array(&[0, 0])])
        .unwrap();
    agg.update_batch(&vec![whole_array(&[1, 2])], &vec![whole_array(&[0, 0])])
        .unwrap();
    assert_eq!(agg.num_groups(), 2);

    let (group_rows, agg_outputs) = agg.finish().unwrap();
    let mut by_key: std::collections::HashMap<i64, i64> = std::collections::HashMap::new();
    for (row, count) in group_rows.iter().zip(&agg_outputs[0]) {
        let ScalarValue::Int64(Some(key)) = row[0] else {
            panic!()
        };
        let ScalarValue::Int64(Some(c)) = count else {
            panic!()
        };
        by_key.insert(key, *c);
    }
    assert_eq!(by_key.get(&1), Some(&3));
    assert_eq!(by_key.get(&2), Some(&1));
}

#[test]
fn empty_input_yields_zero_groups() {
    let agg = GroupedHashAggregator::new(
        vec![DataType::Int64],
        vec![AccumulatorFactory::new(AggregateKind::Sum, DataType::Int64, false)],
    );
    assert_eq!(agg.num_groups(), 0);
    let (group_rows, agg_outputs) = agg.finish().unwrap();
    assert!(group_rows.is_empty());
    assert!(agg_outputs[0].is_empty());
}

#[test]
fn partial_states_merge_into_the_whole() {
    for kind in [
        AggregateKind::Sum,
        AggregateKind::Count,
        AggregateKind::Min,
        AggregateKind::Max,
    ] {
        let factory = AccumulatorFactory::new(kind, DataType::Int64, false);
        let first = int_array(&[Some(4), None, Some(-2)]);
        let second = int_array(&[None, Some(9)]);
        let (mut a, mut b, mut one, mut two) =
            (factory.make(), factory.make(), factory.make(), factory.make());
        a.update_batch(&vec![Arc::clone(&first)]).unwrap();
        b.update_batch(&vec![Arc::clone(&second)]).unwrap();
        one.update_batch(&vec![first]).unwrap();
        one.update_batch(&vec![second]).unwrap();
        let state = |s: Vec<ScalarValue>| match s[0] {
            ScalarValue::Int64(v) => v,
            _ => panic!(),
        };
        let states = int_array(&[state(a.state().unwrap()), state(b.state().unwrap())]);
        two.merge_batch(&vec![states]).unwrap();
        assert_eq!(one.evaluate().unwrap(), two.evaluate().unwrap());
        assert!(one.size() > 0);
    }
}

#[test]
fn aggregates_reject_types_they_do_not_take() {
    let texts: ArrayRef = Arc::new(Array::Utf8(vec![Some("x".to_string())]));
    let mut sum = SumAccumulator::new(DataType::Int64);
    assert!(matches!(sum.update_batch(&vec![Arc::clone(&texts)]), Err(BasaltError::Type { .. })));
    let mut avg = AvgAccumulator::new();
    assert!(matches!(avg.update_batch(&vec![Arc::clone(&texts)]), Err(BasaltError::Type { .. })));
    let mut count = CountAccumulator::expr();
    assert!(matches!(count.merge_batch(&vec![texts]), Err(BasaltError::Type { .. })));
    let unsummed = SumAccumulator::new(DataType::Utf8);
    assert!(matches!(unsummed.evaluate(), Err(BasaltError::Type { .. })));
}

#[test]
fn minima_of_text_and_doubles() {
    let texts: ArrayRef =
        Arc::new(Array::Utf8(vec![Some("b".to_string()), None, Some("a".to_string())]));
    let mut min = MinMaxAccumulator::min(DataType::Utf8);
    min.update_batch(&vec![texts]).unwrap();
    assert_eq!(min.evaluate().unwrap(), ScalarValue::Utf8(Some("a".to_string())));
    let doubles: ArrayRef = Arc::new(Array::Float64(vec![Some(float(-0.5)), Some(float(2.5))]));
    let mut max = MinMaxAccumulator::max(DataType::Float64);
    max.update_batch(&vec![doubles]).unwrap();
    assert_eq!(max.evaluate().unwrap(), ScalarValue::Float64(Some(float(2.5))));
}

#[test]
fn malformed_keys_are_refused() {
    let encoder = GroupKeyEncoder::new(vec![DataType::Utf8]);
    let arrays: Vec<ArrayRef> = vec![Arc::new(Array::Utf8(vec![Some("h\u{e9}".to_string())]))];
    let mut out = Vec::new();
    let mut offsets = Vec::new();
    encoder.encode(&arrays, &mut out, &mut offsets).unwrap();
    assert_eq!(
        encoder.decode(&out).unwrap(),
        vec![ScalarValue::Utf8(Some("h\u{e9}".to_string()))]
    );
    let last = out.len() - 1;
    out[last] = 0xFF;
    assert!(encoder.decode(&out).is_err());
    assert!(encoder.decode(&out[..last]).is_err());
}

#[test]
fn keys_with_bytes_left_over_are_refused() {
    let encoder = GroupKeyEncoder::new(vec![DataType::Int64]);
    assert_eq!(encoder.decode(&[0]).unwrap(), vec![ScalarValue::Int64(None)]);
    assert!(encoder.decode(&[0, 7]).is_err());
    assert!(GroupKeyEncoder::new(vec![]).decode(&[7]).is_err());
}

fn overflows(r: Result<(), BasaltError>) -> bool {
    matches!(r, Err(BasaltError::NumericOverflow))
}

#[test]
fn what_came_before_an_overflow_stays() {
    let mut sum = SumAccumulator::new(DataType::Int64);
    let column = int_array(&[Some(5), None, Some(i64::MAX), Some(1)]);
    assert!(overflows(sum.update_batch(&vec![column])));
    assert_eq!(sum.evaluate().unwrap(), ScalarValue::Int64(Some(5)));
    sum.update_batch(&vec![int_array(&[Some(2)])]).unwrap();
    assert_eq!(sum.evaluate().unwrap(), ScalarValue::Int64(Some(7)));

    let near = int_array(&[Some(i64::MAX - 1)]);
    let mut count = CountAccumulator::expr();
    count.merge_batch(&vec![near.clone()]).unwrap();
    assert!(overflows(count.update_batch(&vec![int_array(&[Some(1), None, Some(1)])])));
    assert_eq!(count.evaluate().unwrap(), ScalarValue::Int64(Some(i64::MAX)));
    let mut merged = CountAccumulator::expr();
    assert!(overflows(merged.merge_batch(&vec![int_array(&[Some(4), Some(i64::MAX), Some(1)])])));
    assert_eq!(merged.evaluate().unwrap(), ScalarValue::Int64(Some(4)));

    let mut rows = CountAccumulator::star();
    rows.merge_batch(&vec![near.clone()]).unwrap();
    assert!(overflows(rows.update_batch(&vec![int_array(&[Some(1), None])])));
    assert_eq!(rows.evaluate().unwrap(), ScalarValue::Int64(Some(i64::MAX - 1)));

    let sums = |v: f64| -> ArrayRef { Arc::new(Array::Float64(vec![Some(float(v))])) };
    let mut avg = AvgAccumulator::new();
    avg.merge_batch(&vec![sums(0.5), near]).unwrap();
    assert!(overflows(avg.update_batch(&vec![int_array(&[Some(2), Some(3)])])));
    let left = vec![
        ScalarValue::Float64(Some(float(2.5))),
        ScalarValue::Int64(Some(i64::MAX)),
    ];
    assert_eq!(avg.state().unwrap(), left);
    assert!(avg.merge_batch(&vec![sums(1.0), int_array(&[Some(1)])]).is_err());
    assert_eq!(avg.state().unwrap(), left);
}
