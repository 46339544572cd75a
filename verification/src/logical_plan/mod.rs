//! Logical query plans.

pub mod builder;
pub mod laws;
pub mod plan;

pub use builder::LogicalPlanBuilder;
pub use plan::{
    AggregateFunction, AggregateKind, JoinType, LogicalPlan, SortExpr, SortOptions, TableSource,
};
