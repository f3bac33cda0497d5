//! A verified core for a small property-graph engine: the query syntax, the
//! gradual type checker, the storage formats and the vector sidecar.

pub mod fields;
pub mod heap;
pub mod model;
pub mod order;
pub mod store;
pub mod syntax;
pub mod text;
pub mod typing;
pub mod vector;
