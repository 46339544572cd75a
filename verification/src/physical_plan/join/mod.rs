//! Joins.

pub mod hash_join;
pub mod nested_loop;
pub mod nested_rows;
pub mod outer_rows;
pub mod rows;

pub use hash_join::HashJoinExec;
pub use nested_loop::NestedLoopJoinExec;
