//! Physical expressions over batches.

use std::sync::Arc;

use basalt::array::Array;
use basalt::batch::ColumnarBatch;
use basalt::compute::ColumnarValue;
use basalt::error::BasaltError;
use basalt::float64::Float64;
use basalt::physical_expr::binary::BinaryExpr;
use basalt::physical_expr::cast::CastExpr;
use basalt::physical_expr::column::ColumnExpr;
use basalt::physical_expr::expr::{PhysicalExpr, PhysicalExprRef};
use basalt::physical_expr::is_null::IsNullExpr;
use basalt::physical_expr::literal::LiteralExpr;
use basalt::physical_expr::unary::{NegExpr, NotExpr};
use basalt::scalar::ScalarValue;
use basalt::types::coercion::BinaryOp;
use basalt::types::data_type::DataType;
use basalt::types::schema::{Field, Schema};
use basalt::types::value::Value;

fn column(index: usize) -> PhysicalExprRef {
    Arc::new(PhysicalExpr::Column(ColumnExpr::new(index)))
}

fn literal(value: ScalarValue) -> PhysicalExprRef {
    Arc::new(PhysicalExpr::Literal(LiteralExpr::new(value)))
}

fn float(v: f64) -> Float64 {
    Float64::from_bits(v.to_bits())
}

struct IntBuilder(Vec<Option<i64>>);

impl IntBuilder {
    fn with_capacity(n: usize) -> IntBuilder {
        IntBuilder(Vec::with_capacity(n))
    }

    fn append_value(&mut self, v: i64) {
        self.0.push(Some(v));
    }

    fn append_null(&mut self) {
        self.0.push(None);
    }

    fn finish(self) -> Array {
        Array::Int64(self.0)
    }
}

struct BoolBuilder(Vec<Option<bool>>);

impl BoolBuilder {
    fn with_capacity(n: usize) -> BoolBuilder {
        BoolBuilder(Vec::with_capacity(n))
    }

    fn append_value(&mut self, v: bool) {
        self.0.push(Some(v));
    }

    fn append_null(&mut self) {
        self.0.push(None);
    }

    fn finish(self) -> Array {
        Array::Boolean(self.0)
    }
}

fn int_at(a: &Array, i: usize) -> i64 {
    match a.value(i) {
        Value::Int64(v) => v,
        other => panic!("expected an integer, got {other:?}"),
    }
}

fn float_at(a: &Array, i: usize) -> f64 {
    match a.value(i) {
        Value::Float64(v) => f64::from_bits(v.to_bits()),
        other => panic!("expected a double, got {other:?}"),
    }
}

fn bool_at(a: &Array, i: usize) -> bool {
    match a.value(i) {
        Value::Boolean(v) => v,
        other => panic!("expected a boolean, got {other:?}"),
    }
}

fn binary_batch() -> ColumnarBatch {
    let schema = Arc::new(
        Schema::new(vec![Field::new("a", DataType::Int64, false)]).unwrap(),
    );
    let mut b = IntBuilder::with_capacity(3);
    b.append_value(1);
    b.append_value(2);
    b.append_value(3);
    ColumnarBatch::try_new(schema, vec![Arc::new(b.finish())]).unwrap()
}

#[test]
fn add_column_and_literal() {
    let batch = binary_batch();
    let expr = BinaryExpr::new(
        column(0),
        BinaryOp::Add,
        literal(ScalarValue::Int64(Some(10))),
    );
    let result = expr.evaluate(&batch).unwrap();
    match result {
        ColumnarValue::Array(a) => {
            assert_eq!(int_at(&a, 0), 11);
            assert_eq!(int_at(&a, 2), 13);
        }
        _ => panic!("expected array"),
    }
}

#[test]
fn and_short_circuit_semantics_via_kleene() {
    let schema = Schema::new(vec![]).unwrap();
    let expr = BinaryExpr::new(
        literal(ScalarValue::Boolean(Some(false))),
        BinaryOp::And,
        literal(ScalarValue::Boolean(None)),
    );
    assert_eq!(expr.data_type(&schema).unwrap(), DataType::Boolean);
    // false AND NULL = false, not NULL.
    match expr
        .evaluate(&ColumnarBatch::try_new(Arc::new(schema), vec![]).unwrap())
        .unwrap()
    {
        ColumnarValue::Scalar(ScalarValue::Boolean(v)) => assert_eq!(v, Some(false)),
        _ => panic!("expected boolean scalar"),
    }
}

#[test]
fn mismatched_types_error_via_coercion() {
    let schema = Schema::new(vec![Field::new("a", DataType::Utf8, false)]).unwrap();
    let expr = BinaryExpr::new(
        column(0),
        BinaryOp::Add,
        literal(ScalarValue::Int64(Some(1))),
    );
    assert!(expr.data_type(&schema).is_err());
}

#[test]
fn casts_a_literal_scalar() {
    let schema = Schema::new(vec![]).unwrap();
    let batch = ColumnarBatch::try_new(Arc::new(schema.copy()), vec![]).unwrap();
    let expr = CastExpr::new(
        literal(ScalarValue::Int64(Some(5))),
        DataType::Float64,
    );
    assert_eq!(expr.data_type(&schema).unwrap(), DataType::Float64);
    match expr.evaluate(&batch).unwrap() {
        ColumnarValue::Scalar(ScalarValue::Float64(Some(v))) => assert_eq!(v, float(5.0)),
        other => panic!("unexpected {other:?}"),
    }
}

#[test]
fn casts_an_array_column() {
    let mut b = IntBuilder::with_capacity(2);
    b.append_value(1);
    b.append_value(2);
    let schema = Arc::new(
        Schema::new(vec![Field::new(
            "a",
            DataType::Int64,
            false,
        )])
        .unwrap(),
    );
    let batch = ColumnarBatch::try_new(schema, vec![Arc::new(b.finish())]).unwrap();
    let expr = CastExpr::new(
        column(0),
        DataType::Float64,
    );
    match expr.evaluate(&batch).unwrap() {
        ColumnarValue::Array(a) => {
            assert_eq!(float_at(&a, 0), 1.0);
        }
        _ => panic!("expected array"),
    }
}

fn column_batch() -> (ColumnarBatch, Schema) {
    let schema = Schema::new(vec![Field::new("a", DataType::Int64, false)]).unwrap();
    let mut b = IntBuilder::with_capacity(2);
    b.append_value(1);
    b.append_value(2);
    let batch =
        ColumnarBatch::try_new(Arc::new(schema.copy()), vec![Arc::new(b.finish())]).unwrap();
    (batch, schema)
}

#[test]
fn evaluates_to_the_referenced_column() {
    let (batch, schema) = column_batch();
    let expr = ColumnExpr::new(0);
    assert_eq!(expr.data_type(&schema).unwrap(), DataType::Int64);
    assert!(!expr.nullable(&schema).unwrap());
    match expr.evaluate(&batch).unwrap() {
        ColumnarValue::Array(a) => assert_eq!(a.len(), 2),
        _ => panic!("expected array"),
    }
}

#[test]
fn out_of_bounds_index_errors_not_panics() {
    let (batch, schema) = column_batch();
    let expr = ColumnExpr::new(5);
    assert!(expr.data_type(&schema).is_err());
    assert!(expr.evaluate(&batch).is_err());
}

#[test]
fn is_null_and_is_not_null_never_produce_null_themselves() {
    let schema =
        Arc::new(Schema::new(vec![Field::new("a", DataType::Int64, true)]).unwrap());
    let mut b = IntBuilder::with_capacity(2);
    b.append_null();
    b.append_value(1);
    let batch = ColumnarBatch::try_new(schema, vec![Arc::new(b.finish())]).unwrap();

    let is_null = IsNullExpr::new(column(0), false);
    let result = is_null.evaluate(&batch).unwrap();
    let result = match result {
        ColumnarValue::Array(a) => a,
        _ => panic!("expected array"),
    };
    assert!(bool_at(&result, 0));
    assert!(!bool_at(&result, 1));
    assert_eq!((0..result.len()).filter(|&i| result.is_null(i)).count(), 0);

    let is_not_null = IsNullExpr::new(column(0), true);
    let result = is_not_null.evaluate(&batch).unwrap();
    let result = match result {
        ColumnarValue::Array(a) => a,
        _ => panic!("expected array"),
    };
    assert!(!bool_at(&result, 0));
    assert!(bool_at(&result, 1));
}

#[test]
fn scalar_literal_is_null_check() {
    let schema = Schema::new(vec![]).unwrap();
    let batch = ColumnarBatch::try_new(Arc::new(schema), vec![]).unwrap();
    let expr = IsNullExpr::new(literal(ScalarValue::Int64(None)), false);
    match expr.evaluate(&batch).unwrap() {
        ColumnarValue::Scalar(ScalarValue::Boolean(Some(v))) => assert!(v),
        other => panic!("unexpected {other:?}"),
    }
}

#[test]
fn evaluates_to_the_constant_scalar() {
    let schema = Schema::new(vec![Field::new("a", DataType::Int64, false)]).unwrap();
    let expr = LiteralExpr::new(ScalarValue::Int64(Some(42)));
    assert_eq!(expr.data_type(&schema).unwrap(), DataType::Int64);
    assert!(!expr.nullable(&schema).unwrap());
}

#[test]
fn null_literal_reports_nullable() {
    let schema = Schema::new(vec![]).unwrap();
    let expr = LiteralExpr::new(ScalarValue::Utf8(None));
    assert!(expr.nullable(&schema).unwrap());
}

#[test]
fn not_negates_boolean_array_and_preserves_null() {
    let schema = Arc::new(
        Schema::new(vec![Field::new("a", DataType::Boolean, true)]).unwrap(),
    );
    let mut b = BoolBuilder::with_capacity(3);
    b.append_value(true);
    b.append_value(false);
    b.append_null();
    let batch = ColumnarBatch::try_new(schema, vec![Arc::new(b.finish())]).unwrap();

    let expr = NotExpr::new(column(0));
    let result = expr.evaluate(&batch).unwrap();
    let result = match result {
        ColumnarValue::Array(a) => a,
        _ => panic!("expected array"),
    };
    assert!(!bool_at(&result, 0));
    assert!(bool_at(&result, 1));
    assert!(result.is_null(2));
}

#[test]
fn neg_negates_int_array_and_errors_on_min_overflow() {
    let schema = Arc::new(
        Schema::new(vec![Field::new("a", DataType::Int64, false)]).unwrap(),
    );
    let mut b = IntBuilder::with_capacity(1);
    b.append_value(5);
    let batch = ColumnarBatch::try_new(schema, vec![Arc::new(b.finish())]).unwrap();

    let expr = NegExpr::new(column(0));
    let result = expr.evaluate(&batch).unwrap();
    match result {
        ColumnarValue::Array(a) => {
            assert_eq!(int_at(&a, 0), -5)
        }
        _ => panic!("expected array"),
    }

    let overflow_expr = NegExpr::new(literal(ScalarValue::Int64(Some(
        i64::MIN,
    ))));
    assert!(overflow_expr.evaluate(&batch).is_err());
}

#[test]
fn neg_on_non_numeric_type_errors() {
    let schema = Schema::new(vec![Field::new("a", DataType::Utf8, false)]).unwrap();
    let expr = NegExpr::new(column(0));
    assert!(expr.data_type(&schema).is_err());
}

#[test]
fn null_variants_report_their_type() {
    assert_eq!(ScalarValue::Int64(None).data_type(), DataType::Int64);
    assert_eq!(ScalarValue::Float64(None).data_type(), DataType::Float64);
    assert!(ScalarValue::Int64(None).is_null());
}

#[test]
fn non_null_variants_report_value_and_type() {
    let v = ScalarValue::Int64(Some(5));
    assert!(!v.is_null());
    assert_eq!(v.data_type(), DataType::Int64);
    assert_eq!(v.to_text().unwrap(), "5");
}

#[test]
fn display_renders_null_uniformly() {
    assert_eq!(ScalarValue::Int64(None).to_text().unwrap(), "NULL");
    assert_eq!(ScalarValue::Utf8(None).to_text().unwrap(), "NULL");
}

fn evaluate(op: BinaryOp, l: ScalarValue, r: ScalarValue) -> Result<ScalarValue, BasaltError> {
    let batch = ColumnarBatch::try_new(Arc::new(Schema::new(vec![]).unwrap()), vec![]).unwrap();
    match BinaryExpr::new(literal(l), op, literal(r)).evaluate(&batch)? {
        ColumnarValue::Scalar(s) => Ok(s),
        ColumnarValue::Array(a) => panic!("expected a scalar, got {a:?}"),
    }
}

#[test]
fn three_valued_logic_follows_its_tables() {
    let b = |v: Option<bool>| ScalarValue::Boolean(v);
    for (x, y, and, or) in [
        (Some(true), None, None, Some(true)),
        (Some(false), None, Some(false), None),
        (None, None, None, None),
        (Some(true), Some(false), Some(false), Some(true)),
    ] {
        assert_eq!(evaluate(BinaryOp::And, b(x), b(y)).unwrap(), b(and));
        assert_eq!(evaluate(BinaryOp::And, b(y), b(x)).unwrap(), b(and));
        assert_eq!(evaluate(BinaryOp::Or, b(x), b(y)).unwrap(), b(or));
        assert_eq!(evaluate(BinaryOp::Or, b(y), b(x)).unwrap(), b(or));
    }
}

#[test]
fn integer_arithmetic_is_checked() {
    let i = |v: i64| ScalarValue::Int64(Some(v));
    assert!(matches!(
        evaluate(BinaryOp::Add, i(i64::MAX), i(1)),
        Err(BasaltError::NumericOverflow)
    ));
    assert!(matches!(evaluate(BinaryOp::Div, i(1), i(0)), Err(BasaltError::DivisionByZero)));
    assert!(matches!(
        evaluate(BinaryOp::Div, i(i64::MIN), i(-1)),
        Err(BasaltError::NumericOverflow)
    ));
    assert_eq!(evaluate(BinaryOp::Div, i(-7), i(2)).unwrap(), i(-3));
    assert_eq!(evaluate(BinaryOp::Mod, i(-7), i(2)).unwrap(), i(-1));
    assert_eq!(
        evaluate(BinaryOp::Add, i(1), ScalarValue::Int64(None)).unwrap(),
        ScalarValue::Int64(None)
    );
}

#[test]
fn doubles_round_as_the_hardware_does() {
    let f = |v: f64| ScalarValue::Float64(Some(float(v)));
    for (x, y) in [(0.1, 0.2), (1e16, 1.0), (5e-324, 3.0), (1e308, 1e308), (-0.0, 0.0), (7.0, 3.0)] {
        assert_eq!(evaluate(BinaryOp::Add, f(x), f(y)).unwrap(), f(x + y));
        assert_eq!(evaluate(BinaryOp::Sub, f(x), f(y)).unwrap(), f(x - y));
        assert_eq!(evaluate(BinaryOp::Mul, f(x), f(y)).unwrap(), f(x * y));
        if y != 0.0 {
            assert_eq!(evaluate(BinaryOp::Div, f(x), f(y)).unwrap(), f(x / y));
        }
        assert_eq!(
            evaluate(BinaryOp::Lt, f(x), f(y)).unwrap(),
            ScalarValue::Boolean(Some(x < y))
        );
        assert_eq!(
            evaluate(BinaryOp::Eq, f(x), f(y)).unwrap(),
            ScalarValue::Boolean(Some(x == y))
        );
    }
}

#[test]
fn scalars_print_what_they_hold() {
    assert_eq!(ScalarValue::Utf8(Some("x".to_string())).to_text().unwrap(), "x");
    assert_eq!(ScalarValue::Boolean(Some(false)).to_text().unwrap(), "false");
    assert_eq!(ScalarValue::Int64(Some(i64::MIN)).to_text().unwrap(), "-9223372036854775808");
    assert_eq!(ScalarValue::Float64(Some(float(1.5))).to_text(), None);
}
