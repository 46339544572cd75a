//! Physical expressions: trees evaluated once per batch.

pub mod binary;
pub mod cast;
pub mod column;
pub mod expr;
pub mod is_null;
pub mod laws;
pub mod literal;
pub mod unary;

pub use expr::{PhysicalExpr, PhysicalExprRef};
