//! Data types, values, coercions and schemas.

pub mod coercion;
pub mod data_type;
pub mod schema;
pub mod value;
pub mod value_laws;
