//! Skipping data by its statistics.

use basalt::expr::expr::Expr;
use basalt::pruning::predicate::{prune, PruningResult};
use basalt::scalar::ScalarValue;
use basalt::statistics::{ColumnStatistics, Precision};
use basalt::types::coercion::BinaryOp;
use basalt::types::data_type::DataType;
use basalt::types::value::Value;

fn col(i: usize) -> Expr {
    Expr::Column {
        index: i,
        data_type: DataType::Int64,
        nullable: false,
    }
}

fn lit(v: i64) -> Expr {
    Expr::Literal(Value::Int64(v))
}

fn stats_with_range(min: i64, max: i64) -> Vec<ColumnStatistics> {
    let mut c = ColumnStatistics::unknown();
    c.min_value = Precision::Exact(ScalarValue::Int64(Some(min)));
    c.max_value = Precision::Exact(ScalarValue::Int64(Some(max)));
    vec![c]
}

#[test]
fn skips_when_predicate_is_provably_outside_the_range() {
    // amount > 1000, but this partition's max is 500 — provably no match.
    let stats = stats_with_range(0, 500);
    let predicate = Expr::Binary {
        left: Box::new(col(0)),
        op: BinaryOp::Gt,
        right: Box::new(lit(1000)),
    };
    assert_eq!(prune(&predicate, &stats).unwrap(), PruningResult::CanSkip);
}

#[test]
fn must_scan_when_the_range_could_contain_a_match() {
    let stats = stats_with_range(0, 2000);
    let predicate = Expr::Binary {
        left: Box::new(col(0)),
        op: BinaryOp::Gt,
        right: Box::new(lit(1000)),
    };
    assert_eq!(prune(&predicate, &stats).unwrap(), PruningResult::MustScan);
}

#[test]
fn must_scan_without_statistics() {
    let stats = vec![ColumnStatistics::unknown()];
    let predicate = Expr::Binary {
        left: Box::new(col(0)),
        op: BinaryOp::Gt,
        right: Box::new(lit(1000)),
    };
    assert_eq!(prune(&predicate, &stats).unwrap(), PruningResult::MustScan);
}

#[test]
fn equality_outside_range_can_skip() {
    let stats = stats_with_range(0, 100);
    let predicate = Expr::Binary {
        left: Box::new(col(0)),
        op: BinaryOp::Eq,
        right: Box::new(lit(500)),
    };
    assert_eq!(prune(&predicate, &stats).unwrap(), PruningResult::CanSkip);
}

#[test]
fn and_skips_if_either_conjunct_proves_no_match() {
    let stats = stats_with_range(0, 100);
    let predicate = Expr::Binary {
        left: Box::new(Expr::Binary {
            left: Box::new(col(0)),
            op: BinaryOp::Gt,
            right: Box::new(lit(1000)),
        }),
        op: BinaryOp::And,
        right: Box::new(Expr::Binary {
            left: Box::new(col(0)),
            op: BinaryOp::Gt,
            right: Box::new(lit(-1000)),
        }),
    };
    assert_eq!(prune(&predicate, &stats).unwrap(), PruningResult::CanSkip);
}

#[test]
fn or_requires_both_sides_to_prove_no_match() {
    let stats = stats_with_range(0, 100);
    // First disjunct provably fails; second doesn't — must scan.
    let predicate = Expr::Binary {
        left: Box::new(Expr::Binary {
            left: Box::new(col(0)),
            op: BinaryOp::Gt,
            right: Box::new(lit(1000)),
        }),
        op: BinaryOp::Or,
        right: Box::new(Expr::Binary {
            left: Box::new(col(0)),
            op: BinaryOp::Lt,
            right: Box::new(lit(50)),
        }),
    };
    assert_eq!(prune(&predicate, &stats).unwrap(), PruningResult::MustScan);
}

#[test]
fn out_of_range_column_index_errors_instead_of_guessing() {
    let stats: Vec<ColumnStatistics> = vec![];
    let predicate = Expr::Binary {
        left: Box::new(col(0)),
        op: BinaryOp::Gt,
        right: Box::new(lit(1000)),
    };
    assert!(prune(&predicate, &stats).is_err());
}

#[test]
fn estimates_never_justify_skipping() {
    let mut stats = stats_with_range(0, 500);
    stats[0].max_value = Precision::Inexact(ScalarValue::Int64(Some(500)));
    let predicate = Expr::Binary {
        left: Box::new(col(0)),
        op: BinaryOp::Gt,
        right: Box::new(lit(1000)),
    };
    assert_eq!(prune(&predicate, &stats).unwrap(), PruningResult::MustScan);
}

#[test]
fn large_integers_are_compared_exactly() {
    let stats = stats_with_range(0, (1 << 53) + 1);
    let above = |v: i64| Expr::Binary {
        left: Box::new(col(0)),
        op: BinaryOp::Gt,
        right: Box::new(lit(v)),
    };
    assert_eq!(prune(&above(1 << 53), &stats).unwrap(), PruningResult::MustScan);
    assert_eq!(prune(&above((1 << 53) + 1), &stats).unwrap(), PruningResult::CanSkip);
}
