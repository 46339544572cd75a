//! The physical execution plan: operators that produce batches from the
//! batches of their children.

pub mod aggregate;
pub mod filter;
pub mod join;
pub mod limit;
pub mod operator_laws;
pub mod plan;
pub mod planner;
pub mod projection;
pub mod rows;
pub mod scan;
pub mod sort;
pub mod sort_rows;
pub mod spill;
pub mod spill_laws;
pub mod widths;

pub use plan::{BatchStream, ExecutionPlan, ExecutionPlanRef, Metrics, Partitioning};
pub use planner::PhysicalPlanner;
