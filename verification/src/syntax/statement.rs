//! Top-level statements.

use vstd::prelude::*;

use super::query::Query;
use crate::typing::variable_type::VariableType;

verus! {

/// A statement: a query, or a command on graph types.
#[derive(Debug)]
pub enum Statement {
    Query(Query),
    CreateGraphType { name: String, body: Vec<TypeElement> },
    /// `refresh_default` is set where the name is the reserved one, whose
    /// schema is inferred anew before it is activated.
    UseGraphType { name: String, refresh_default: bool },
    DropGraphType { name: String },
    ShowGraphTypes,
    ShowGraphType { name: String },
    ShowCurrentGraphType,
    ValidateGraphType { name: String },
}

/// One element of the body of a graph type.
#[derive(Debug)]
pub enum TypeElement {
    Node(VariableType),
    Edge(VariableType),
}

} // verus!
