//! Values and graphs.

pub mod equality_laws;
pub mod float_text;
pub mod graph;
pub mod graph_access;
pub mod value;
