//! Rewrites of expressions, and the walks that apply them.

use std::cell::{Cell, RefCell};
use std::sync::Arc;

use basalt::expr::expr::Expr;
use basalt::logical_plan::builder::LogicalPlanBuilder;
use basalt::logical_plan::plan::{
    AggregateFunction, AggregateKind, LogicalPlan, TableSource,
};
use basalt::optimizer::rule::{NoStatistics, OptimizerRule};
use basalt::optimizer::rules::common::map_all_exprs;
use basalt::optimizer::rules::constant_folding::{fold_one, ConstantFolding};
use basalt::optimizer::rules::simplify_expressions::simplify_one;
use basalt::optimizer::tree_node::{Transformed, VisitRecursion};
use basalt::physical_plan::scan::MemoryTableSource;
use basalt::types::coercion::{BinaryOp, UnaryOp};
use basalt::types::data_type::DataType;
use basalt::types::schema::{Field, Schema, SchemaRef};
use basalt::types::value::Value;

fn memory(schema: SchemaRef) -> TableSource {
    TableSource::Memory(Arc::new(MemoryTableSource::new(schema, vec![])))
}

fn schema() -> SchemaRef {
    Arc::new(Schema::new(vec![Field::new("a", DataType::Int64, false)]).unwrap())
}

#[test]
fn folds_nested_arithmetic() {
    let expr = Expr::Binary {
        left: Box::new(Expr::Binary {
            left: Box::new(Expr::Literal(Value::Int64(2))),
            op: BinaryOp::Add,
            right: Box::new(Expr::Literal(Value::Int64(3))),
        }),
        op: BinaryOp::Mul,
        right: Box::new(Expr::Literal(Value::Int64(4))),
    };
    let folded = fold_one(expr).unwrap();
    assert_eq!(folded, Expr::Literal(Value::Int64(20)));
}

#[test]
fn overflow_leaves_expression_unfolded_not_panicking() {
    let expr = Expr::Binary {
        left: Box::new(Expr::Literal(Value::Int64(i64::MAX))),
        op: BinaryOp::Add,
        right: Box::new(Expr::Literal(Value::Int64(1))),
    };
    let folded = fold_one(expr.clone()).unwrap();
    assert_eq!(folded, expr);
}

#[test]
fn division_by_zero_leaves_expression_unfolded() {
    let expr = Expr::Binary {
        left: Box::new(Expr::Literal(Value::Int64(10))),
        op: BinaryOp::Div,
        right: Box::new(Expr::Literal(Value::Int64(0))),
    };
    let folded = fold_one(expr.clone()).unwrap();
    assert_eq!(folded, expr);
}

#[test]
fn null_operand_is_not_folded_here() {
    let expr = Expr::Binary {
        left: Box::new(Expr::Literal(Value::Null)),
        op: BinaryOp::Add,
        right: Box::new(Expr::Literal(Value::Int64(1))),
    };
    let folded = fold_one(expr.clone()).unwrap();
    assert_eq!(folded, expr);
}

#[test]
fn is_null_on_a_literal_folds_to_a_boolean() {
    let folded = fold_one(Expr::IsNull(Box::new(Expr::Literal(Value::Null)))).unwrap();
    assert_eq!(folded, Expr::Literal(Value::Boolean(true)));
}

#[test]
fn rule_folds_expressions_inside_a_filter_node() {
    let source = memory(schema());
    let plan = LogicalPlanBuilder::scan("t", source)
        .filter(Expr::Binary {
            left: Box::new(Expr::Literal(Value::Int64(1))),
            op: BinaryOp::Add,
            right: Box::new(Expr::Literal(Value::Int64(1))),
        })
        .build();
    let result = map_all_exprs(plan.as_ref().clone(), &fold_one).unwrap();
    assert!(result.is_yes());
    match result.into_inner() {
        LogicalPlan::Filter { predicate, .. } => {
            assert_eq!(predicate, Expr::Literal(Value::Int64(2)));
        }
        _ => panic!("expected Filter"),
    }
}

#[test]
fn rule_is_idempotent() {
    let source = memory(schema());
    let plan = LogicalPlanBuilder::scan("t", source)
        .filter(Expr::Literal(Value::Boolean(true)))
        .build();
    let rule = ConstantFolding;
    let once = rule
        .apply(plan.as_ref().clone(), &NoStatistics)
        .unwrap()
        .into_inner();
    let twice = rule.apply(once.clone(), &NoStatistics).unwrap();
    assert!(!twice.is_yes(), "second application should find nothing left to fold");
}

fn int_col(i: usize, nullable: bool) -> Expr {
    Expr::Column {
        index: i,
        data_type: DataType::Int64,
        nullable,
    }
}

fn bool_lit(b: bool) -> Expr {
    Expr::Literal(Value::Boolean(b))
}

#[test]
fn true_and_x_simplifies_to_x() {
    let e = Expr::Binary {
        left: Box::new(bool_lit(true)),
        op: BinaryOp::And,
        right: Box::new(int_col(0, false)),
    };
    assert_eq!(simplify_one(e).unwrap(), int_col(0, false));
}

#[test]
fn false_and_x_simplifies_to_false() {
    let e = Expr::Binary {
        left: Box::new(bool_lit(false)),
        op: BinaryOp::And,
        right: Box::new(int_col(0, false)),
    };
    assert_eq!(simplify_one(e).unwrap(), bool_lit(false));
}

#[test]
fn x_or_true_simplifies_to_true() {
    let e = Expr::Binary {
        left: Box::new(int_col(0, false)),
        op: BinaryOp::Or,
        right: Box::new(bool_lit(true)),
    };
    assert_eq!(simplify_one(e).unwrap(), bool_lit(true));
}

#[test]
fn not_not_x_simplifies_to_x() {
    let e = Expr::Unary {
        op: UnaryOp::Not,
        expr: Box::new(Expr::Unary {
            op: UnaryOp::Not,
            expr: Box::new(int_col(0, false)),
        }),
    };
    assert_eq!(simplify_one(e).unwrap(), int_col(0, false));
}

#[test]
fn x_plus_zero_simplifies_to_x_even_when_nullable() {
    // Valid unconditionally: this doesn't change x's null-ness, it just
    // skips computing "+ 0".
    let e = Expr::Binary {
        left: Box::new(int_col(0, true)),
        op: BinaryOp::Add,
        right: Box::new(Expr::Literal(Value::Int64(0))),
    };
    assert_eq!(simplify_one(e).unwrap(), int_col(0, true));
}

#[test]
fn x_times_zero_is_not_simplified_when_x_is_nullable() {
    // The null trap: NULL * 0 is NULL, not 0.
    let e = Expr::Binary {
        left: Box::new(int_col(0, true)),
        op: BinaryOp::Mul,
        right: Box::new(Expr::Literal(Value::Int64(0))),
    };
    let result = simplify_one(e.clone()).unwrap();
    assert_eq!(result, e, "must not fold x*0 to 0 when x is nullable");
}

#[test]
fn x_times_zero_simplifies_when_x_is_non_nullable() {
    let e = Expr::Binary {
        left: Box::new(int_col(0, false)),
        op: BinaryOp::Mul,
        right: Box::new(Expr::Literal(Value::Int64(0))),
    };
    assert_eq!(simplify_one(e).unwrap(), Expr::Literal(Value::Int64(0)));
}

#[test]
fn x_eq_x_is_not_simplified_when_nullable() {
    let e = Expr::Binary {
        left: Box::new(int_col(0, true)),
        op: BinaryOp::Eq,
        right: Box::new(int_col(0, true)),
    };
    let result = simplify_one(e.clone()).unwrap();
    assert_eq!(result, e, "must not fold x=x to true when x is nullable");
}

#[test]
fn x_eq_x_simplifies_to_true_when_non_nullable() {
    let e = Expr::Binary {
        left: Box::new(int_col(0, false)),
        op: BinaryOp::Eq,
        right: Box::new(int_col(0, false)),
    };
    assert_eq!(simplify_one(e).unwrap(), bool_lit(true));
}

#[test]
fn x_minus_x_is_not_simplified_when_nullable() {
    let e = Expr::Binary {
        left: Box::new(int_col(0, true)),
        op: BinaryOp::Sub,
        right: Box::new(int_col(0, true)),
    };
    let result = simplify_one(e.clone()).unwrap();
    assert_eq!(result, e);
}

#[test]
fn x_minus_x_simplifies_to_zero_when_non_nullable() {
    let e = Expr::Binary {
        left: Box::new(int_col(0, false)),
        op: BinaryOp::Sub,
        right: Box::new(int_col(0, false)),
    };
    assert_eq!(simplify_one(e).unwrap(), Expr::Literal(Value::Int64(0)));
}

fn col(i: usize) -> Expr {
    Expr::Column {
        index: i,
        data_type: DataType::Int64,
        nullable: false,
    }
}

#[test]
fn transform_up_rewrites_leaves_before_the_root_sees_them() {
    // Replace every Literal(1) with Literal(2); the root Binary node
    // should see the already-rewritten children.
    let expr = Expr::Binary {
        left: Box::new(Expr::Literal(Value::Int64(1))),
        op: BinaryOp::Add,
        right: Box::new(col(0)),
    };
    let result = expr
        .transform_up(&|e| {
            Ok(match e {
                Expr::Literal(Value::Int64(1)) => {
                    Transformed::Yes(Expr::Literal(Value::Int64(2)))
                }
                other => Transformed::No(other),
            })
        })
        .unwrap();
    assert!(result.is_yes());
    match result.into_inner() {
        Expr::Binary { left, .. } => assert_eq!(*left, Expr::Literal(Value::Int64(2))),
        _ => panic!("expected Binary"),
    }
}

#[test]
fn transform_down_sees_the_root_before_rewriting_children() {
    let visited_order = RefCell::new(Vec::new());
    let expr = Expr::Binary {
        left: Box::new(col(0)),
        op: BinaryOp::Add,
        right: Box::new(col(1)),
    };
    expr.visit(&|node| {
        visited_order.borrow_mut().push(format!("{node:?}").chars().take(6).collect::<String>());
        Ok(VisitRecursion::Continue)
    })
    .unwrap();
    // Root visited first (pre-order), matching transform_down's shape.
    assert_eq!(visited_order.borrow().len(), 3);
}

#[test]
fn no_change_reports_no() {
    let expr = col(0);
    let result = expr.transform_up(&|e| Ok(Transformed::No(e))).unwrap();
    assert!(!result.is_yes());
}

#[test]
fn visit_stops_early_when_requested() {
    let expr = Expr::Binary {
        left: Box::new(col(0)),
        op: BinaryOp::Add,
        right: Box::new(col(1)),
    };
    let count = Cell::new(0);
    expr.visit(&|_| {
        count.set(count.get() + 1);
        Ok(VisitRecursion::Stop)
    })
    .unwrap();
    assert_eq!(count.get(), 1, "should have stopped after the first (root) node");
}

#[test]
fn rule_folds_expressions_inside_an_aggregate_node() {
    let sum = |left: i64, right: i64| Expr::Binary {
        left: Box::new(Expr::Literal(Value::Int64(left))),
        op: BinaryOp::Add,
        right: Box::new(Expr::Literal(Value::Int64(right))),
    };
    let out = Arc::new(
        Schema::new(vec![
            Field::new("k", DataType::Int64, false),
            Field::new("s", DataType::Int64, true),
            Field::new("n", DataType::Int64, false),
        ])
        .unwrap(),
    );
    let aggregate = |group: Expr, arg: Expr| LogicalPlan::Aggregate {
        input: LogicalPlanBuilder::scan("t", memory(schema())).build(),
        group_expr: vec![group],
        aggr_expr: vec![
            AggregateFunction {
                output_name: "s".to_string(),
                kind: AggregateKind::Sum,
                arg: Some(arg),
            },
            AggregateFunction {
                output_name: "n".to_string(),
                kind: AggregateKind::Count,
                arg: None,
            },
        ],
        schema: out.clone(),
    };
    let result = ConstantFolding.apply(aggregate(sum(2, 3), sum(1, 1)), &NoStatistics).unwrap();
    assert!(result.is_yes());
    match result.into_inner() {
        LogicalPlan::Aggregate { group_expr, aggr_expr, schema, .. } => {
            assert_eq!(group_expr, vec![Expr::Literal(Value::Int64(5))]);
            assert_eq!(aggr_expr[0].arg, Some(Expr::Literal(Value::Int64(2))));
            assert_eq!(aggr_expr[0].output_name, "s");
            assert_eq!(aggr_expr[1].arg, None);
            assert_eq!(schema, out);
        }
        other => panic!("expected Aggregate, got {other:?}"),
    }
    let settled = ConstantFolding.apply(aggregate(col(0), col(0)), &NoStatistics).unwrap();
    assert!(!settled.is_yes());
}

#[test]
fn a_tree_changes_exactly_where_a_node_does() {
    let expr = Expr::Binary {
        left: Box::new(col(0)),
        op: BinaryOp::Add,
        right: Box::new(Expr::IsNull(Box::new(col(1)))),
    };
    let touch = |i: usize| {
        expr.clone()
            .transform_up(&|e| match e {
                Expr::Column { index, data_type, nullable } if index == i => {
                    Ok(Transformed::Yes(Expr::Column { index, data_type, nullable }))
                }
                other => Ok(Transformed::No(other)),
            })
            .unwrap()
            .is_yes()
    };
    assert!(touch(0));
    assert!(touch(1));
    assert!(!touch(2));
}
