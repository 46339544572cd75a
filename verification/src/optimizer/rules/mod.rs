//! The rule catalogue.

pub mod common;
pub mod common_subexpr;
pub mod constant_folding;
pub mod effects;
pub mod eliminate_cross_join;
pub mod eliminate_filter;
pub mod limit_pushdown;
pub mod merge_filters;
pub mod predicate_pushdown;
pub mod projection_pushdown;
pub mod sharing_laws;
pub mod simplify_expressions;
