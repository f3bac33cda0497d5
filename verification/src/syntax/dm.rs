//! Data-modifying statements.

use vstd::prelude::*;

use super::expr::Expr;
use super::path_pattern::PathPattern;
use super::query::{MatchStatement, ReturnItem};
use crate::text::copy_text;

verus! {

/// A chain of MATCH clauses, one modification, and what it returns.
#[derive(Debug, PartialEq)]
pub struct DmStatement {
    /// Empty for a modification that needs no bindings.
    pub matches: Vec<MatchStatement>,
    pub op: DmOp,
    pub returns: Option<Vec<ReturnItem>>,
    pub limit: Option<u32>,
}

/// The modification.
#[derive(Debug, PartialEq)]
pub enum DmOp {
    Insert(Vec<PathPattern>),
    Delete { detach: bool, targets: Vec<Expr> },
    SetItems(Vec<SetItem>),
    Remove(Vec<RemoveItem>),
}

/// What is removed from an element.
#[derive(Debug, PartialEq)]
pub enum RemoveItem {
    Property { var: String, prop: String },
    Label { var: String, label: String },
}

/// What is set on an element.
#[derive(Debug, PartialEq)]
pub enum SetItem {
    Property { var: String, prop: String, value: Expr },
    /// Replaces all properties.
    AllProperties { var: String, props: Vec<(String, Expr)> },
    Label { var: String, label: String },
}

/// Why a pattern cannot be inserted: the first part of it, from the left,
/// that is not a node, an edge of one direction or a concatenation.
pub open spec fn insert_objection(p: PathPattern) -> Option<Seq<char>>
    decreases p,
{
    match p {
        PathPattern::Node(_) => None,
        PathPattern::EdgeRight(_) => None,
        PathPattern::EdgeLeft(_) => None,
        PathPattern::EdgeUndirected(_) => None,
        PathPattern::Concat(a, b) => match insert_objection(*a) {
            Some(m) => Some(m),
            None => insert_objection(*b),
        },
        PathPattern::EdgeAnyDirection(_) => Some(
            "INSERT patterns cannot use any-direction edges (-[]-); pick a direction (§16.5)"@,
        ),
        PathPattern::Filter(_, _) => Some("INSERT patterns cannot have WHERE filters (§16.5)"@),
        PathPattern::Repeat { .. } => Some(
            "INSERT patterns cannot use {n,m} repetition (§16.5)"@,
        ),
        PathPattern::Union(_, _) => Some("INSERT patterns cannot use | union (§16.5)"@),
        PathPattern::Questioned(_) => Some("INSERT patterns cannot use ? optional (§16.5)"@),
        PathPattern::Join(_, _) => Some(
            "INSERT path patterns inside one statement use comma at the top level only (§13.2)"@,
        ),
        PathPattern::Selected { .. } => Some(
            "INSERT patterns cannot carry a path pattern prefix (WALK/TRAIL/SIMPLE/ACYCLIC/ALL/ANY/SHORTEST) (§16.5)"@,
        ),
        PathPattern::Named { .. } => Some(
            "INSERT patterns cannot bind a path variable (`p = ...`) (§16.5)"@,
        ),
    }
}

/// Checks that a pattern can be inserted.
pub fn validate_insert_pattern(p: &PathPattern) -> (r: Result<(), String>)
    ensures
        match r {
            Ok(_) => insert_objection(*p) is None,
            Err(m) => insert_objection(*p) == Some(m@),
        },
    decreases p,
{
    match p {
        PathPattern::Node(_) => Ok(()),
        PathPattern::EdgeRight(_) => Ok(()),
        PathPattern::EdgeLeft(_) => Ok(()),
        PathPattern::EdgeUndirected(_) => Ok(()),
        PathPattern::Concat(a, b) => match validate_insert_pattern(a) {
            Err(m) => Err(m),
            Ok(_) => validate_insert_pattern(b),
        },
        PathPattern::EdgeAnyDirection(_) => Err(
            copy_text(
                "INSERT patterns cannot use any-direction edges (-[]-); pick a direction (§16.5)",
            ),
        ),
        PathPattern::Filter(_, _) => Err(
            copy_text("INSERT patterns cannot have WHERE filters (§16.5)"),
        ),
        PathPattern::Repeat { .. } => Err(
            copy_text("INSERT patterns cannot use {n,m} repetition (§16.5)"),
        ),
        PathPattern::Union(_, _) => Err(
            copy_text("INSERT patterns cannot use | union (§16.5)"),
        ),
        PathPattern::Questioned(_) => Err(
            copy_text("INSERT patterns cannot use ? optional (§16.5)"),
        ),
        PathPattern::Join(_, _) => Err(
            copy_text(
                "INSERT path patterns inside one statement use comma at the top level only (§13.2)",
            ),
        ),
        PathPattern::Selected { .. } => Err(
            copy_text(
                "INSERT patterns cannot carry a path pattern prefix (WALK/TRAIL/SIMPLE/ACYCLIC/ALL/ANY/SHORTEST) (§16.5)",
            ),
        ),
        PathPattern::Named { .. } => Err(
            copy_text("INSERT patterns cannot bind a path variable (`p = ...`) (§16.5)"),
        ),
    }
}

} // verus!
