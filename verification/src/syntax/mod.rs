//! The syntax tree of queries.

pub mod descriptor;
pub mod dm;
pub mod expr;
pub mod part_laws;
pub mod path_pattern;
pub mod path_prefix;
pub mod print_laws;
pub mod query;
pub mod statement;
