//! The optimizer: rules that rewrite logical plans to a fixed point, estimates
//! of how many rows a plan produces and what it costs, and join ordering.

pub mod aggregate_laws;
pub mod assumption_laws;
pub mod cardinality;
pub mod cost;
pub mod join_laws;
pub mod join_order;
pub mod laws;
pub mod optimizer;
pub mod outer_join_laws;
pub mod pass_laws;
pub mod rewritten_laws;
pub mod rule;
pub mod rules;
pub mod tree_node;
pub mod walk_laws;

pub use optimizer::default_optimizer;
pub use rule::{ApplyOrder, NoStatistics, Optimizer, OptimizerContext, OptimizerRule};
pub use tree_node::{Transformed, TreeNode, VisitRecursion};
