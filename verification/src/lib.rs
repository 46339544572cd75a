//! Basalt: a vectorized SQL query engine.

pub mod array;
pub mod batch;
pub mod compute;
pub mod compute_laws;
pub mod error;
pub mod expr;
pub mod float64;
pub mod float_laws;
pub mod float_text;
pub mod lexsort;
pub mod lexsort_laws;
pub mod logical_plan;
pub mod natural;
pub mod optimizer;
pub mod physical_expr;
pub mod physical_plan;
pub mod plan;
pub mod pruning;
pub mod rounding_laws;
pub mod scalar;
pub mod sql;
pub mod statistics;
pub mod statistics_laws;
pub mod text;
pub mod types;
