//! Binding queries to a schema.

use basalt::error::BasaltError;
use basalt::expr::expr::Expr;
use basalt::plan::binder::{Binder, BoundQuery};
use basalt::sql::lexer::Lexer;
use basalt::sql::parser::Parser;
use basalt::types::coercion::BinaryOp;
use basalt::types::data_type::DataType;
use basalt::types::schema::{Field, Schema};

fn test_schema() -> Schema {
    Schema::new(vec![
        Field::new("id", DataType::Int64, false),
        Field::new("name", DataType::Utf8, false),
        Field::new("score", DataType::Float64, true),
    ]).unwrap()
}

fn bind_sql(sql: &str, schema: &Schema) -> BoundQuery {
    let mut lexer = Lexer::new(sql);
    let tokens = lexer.tokenize().unwrap();
    let mut parser = Parser::new(tokens);
    let stmt = parser.parse_statement().unwrap();
    let binder = Binder::new(schema);
    binder.bind_statement(&stmt).unwrap()
}

#[test]
fn test_bind_wildcard() {
    let schema = test_schema();
    let q = bind_sql("SELECT * FROM tbl", &schema);
    assert_eq!(q.projections.len(), 3);
    assert_eq!(q.projections[0].output_name, "id");
    assert_eq!(q.projections[1].output_name, "name");
    assert_eq!(q.projections[2].output_name, "score");
    assert_eq!(q.output_schema, schema);
}

#[test]
fn test_bind_coercion() {
    let schema = test_schema();
    let q = bind_sql("SELECT id FROM tbl WHERE score > 80", &schema);
    let filter = q.filter.unwrap();
    assert!(matches!(
        filter,
        Expr::Binary {
            op: BinaryOp::Gt,
            right: box_right,
            ..
        } if matches!(*box_right, Expr::Cast { to: DataType::Float64, .. })
    ));
}

#[test]
fn test_bind_type_error() {
    let schema = test_schema();
    let mut lexer = Lexer::new("SELECT id FROM tbl WHERE name > 10");
    let tokens = lexer.tokenize().unwrap();
    let mut parser = Parser::new(tokens);
    let stmt = parser.parse_statement().unwrap();
    let binder = Binder::new(&schema);
    assert!(binder.bind_statement(&stmt).is_err());
}

#[test]
fn test_bind_unknown_column_error() {
    let schema = test_schema();
    let mut lexer = Lexer::new("SELECT fake_col FROM tbl");
    let tokens = lexer.tokenize().unwrap();
    let mut parser = Parser::new(tokens);
    let stmt = parser.parse_statement().unwrap();
    let binder = Binder::new(&schema);
    
    let err = binder.bind_statement(&stmt).unwrap_err();
    assert!(matches!(err, BasaltError::UnknownColumn { .. }));
}

#[test]
fn test_bind_duplicate_column_bindings() {
    let schema = test_schema();
    let q = bind_sql("SELECT id, id AS id_alias FROM tbl", &schema);
    assert_eq!(q.projections.len(), 2);
    assert_eq!(q.projections[0].output_name, "id");
    assert_eq!(q.projections[1].output_name, "id_alias");
}

fn bind_error(sql: &str) -> BasaltError {
    let schema = test_schema();
    let tokens = Lexer::new(sql).tokenize().unwrap();
    let stmt = Parser::new(tokens).parse_statement().unwrap();
    Binder::new(&schema).bind_statement(&stmt).unwrap_err()
}

#[test]
fn output_columns_carry_names_types_and_nullability() {
    let schema = test_schema();
    let q = bind_sql("SELECT id + 1, score AS s, -id FROM tbl LIMIT 7", &schema);
    let fields = q.output_schema.fields();
    assert_eq!(fields[0].name, "expr_0");
    assert_eq!(fields[0].data_type, DataType::Int64);
    assert_eq!(fields[1].name, "s");
    assert_eq!(fields[1].data_type, DataType::Float64);
    assert!(fields[1].nullable);
    assert_eq!(fields[2].name, "expr_2");
    assert!(!fields[2].nullable);
    assert_eq!(q.limit, Some(7));
    assert_eq!(q.source, "tbl");
}

#[test]
fn ill_typed_clauses_are_type_errors() {
    assert!(matches!(bind_error("SELECT id FROM t WHERE id"), BasaltError::Type { .. }));
    assert!(matches!(bind_error("SELECT -name FROM t"), BasaltError::Type { .. }));
    assert!(matches!(bind_error("SELECT NOT id FROM t"), BasaltError::Type { .. }));
    assert!(matches!(bind_error("SELECT NULL FROM t"), BasaltError::Type { .. }));
    assert!(matches!(
        bind_error("SELECT id FROM t ORDER BY missing"),
        BasaltError::UnknownColumn { name } if name == "missing"
    ));
    assert!(matches!(bind_error("SELECT id, id FROM t"), BasaltError::Internal(_)));
}

#[test]
fn parentheses_and_null_tests_bind_to_what_they_hold() {
    let schema = test_schema();
    let q = bind_sql("SELECT (id) FROM t WHERE (score) IS NOT NULL ORDER BY name DESC", &schema);
    assert_eq!(
        q.projections[0].expr,
        Expr::Column { index: 0, data_type: DataType::Int64, nullable: false }
    );
    assert_eq!(
        q.filter,
        Some(Expr::IsNotNull(Box::new(Expr::Column {
            index: 2,
            data_type: DataType::Float64,
            nullable: true
        })))
    );
    assert!(!q.order_by[0].asc);
}
