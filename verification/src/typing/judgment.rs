//! The typing judgments: what the type checker finds and says.

use vstd::prelude::*;

use super::path_type::{EdgeDir, PathTypeView};
use super::simple_type::SimpleTypeView;
use super::type_environment::Env;
use super::variable_type::{SchemaView, VariableTypeView};
use crate::syntax::descriptor::Descriptor;
use crate::syntax::expr::{BinOp, Expr};
use crate::syntax::path_pattern::PathPattern;
use crate::syntax::query::{Aggregator, GeneralSetKind, MatchStatement, Query, ReturnItem};

verus! {

/// The errors and warnings so far, in order.
pub struct Notes {
    pub errors: Seq<Seq<char>>,
    pub warnings: Seq<Seq<char>>,
}

impl Notes {
    /// No notes.
    pub open spec fn none() -> Notes {
        Notes { errors: Seq::empty(), warnings: Seq::empty() }
    }

    /// One more error.
    pub open spec fn error(self, text: Seq<char>) -> Notes {
        Notes { errors: self.errors.push(text), warnings: self.warnings }
    }

    /// One more warning.
    pub open spec fn warn(self, text: Seq<char>) -> Notes {
        Notes { errors: self.errors, warnings: self.warnings.push(text) }
    }
}

/// Where a pattern or an expression stands.
pub struct Scope {
    pub schema: SchemaView,
    /// The variables of the enclosing list comprehensions.
    pub locals: Seq<Seq<char>>,
    /// The environments of the enclosing queries, the nearest last.
    pub outer: Seq<Env>,
}

impl Scope {
    /// Inside a list comprehension over `var`.
    pub open spec fn with_local(self, var: Seq<char>) -> Scope {
        Scope { locals: self.locals.push(var), ..self }
    }

    /// Inside a subquery of a query with this environment.
    pub open spec fn with_outer(self, env: Env) -> Scope {
        Scope { outer: self.outer.push(env), ..self }
    }

    /// What a predicate sees: the pattern's bindings over those of the
    /// enclosing query.
    pub open spec fn filter_env(self, env: Env) -> Env {
        if self.outer.len() == 0 {
            env
        } else {
            super::type_environment::env_overlay(self.outer.last(), env)
        }
    }
}

/// What is found of a pattern: its shape and its bindings.
pub struct Shape {
    pub path: PathTypeView,
    pub env: Env,
}

/// The union of several types, from the left; there is at least one.
pub open spec fn union_types(ts: Seq<SimpleTypeView>) -> SimpleTypeView
    decreases ts.len(),
{
    if ts.len() <= 1 {
        ts[0]
    } else {
        union_types(ts.drop_last()).union(ts.last())
    }
}

/// A function on paths.
pub open spec fn is_path_function(name: Seq<char>) -> bool {
    name == "ELEMENTS"@ || name == "NODES"@ || name == "EDGES"@ || name == "PATH_LENGTH"@ || name
        == "CARDINALITY"@
}

/// The type of a call whose arguments have the types `ts`.
pub open spec fn call_type(
    name: Seq<char>,
    args: Seq<Expr>,
    ts: Seq<SimpleTypeView>,
    n: Notes,
) -> (SimpleTypeView, Notes) {
    if name == "FLOOR"@ {
        (SimpleTypeView::F, n)
    } else if name == "CAST"@ {
        if args.len() > 1 && args[1] is Type {
            (args[1]->Type_0@, n)
        } else {
            (SimpleTypeView::Zero, n.error("CAST is missing its target type"@))
        }
    } else if is_path_function(name) {
        let n1 = if ts.len() == 0 {
            n.error(name + " expects one PATH argument, got none"@)
        } else if ts[0].meet(SimpleTypeView::Path).is_empty() {
            n.error(name + " expects a PATH argument, got "@ + ts[0].text())
        } else {
            n
        };
        if name == "PATH_LENGTH"@ || name == "CARDINALITY"@ {
            (SimpleTypeView::Z, n1)
        } else {
            (SimpleTypeView::List(Box::new(SimpleTypeView::Star)), n1)
        }
    } else {
        (SimpleTypeView::Zero, n.error("unknown built-in function `"@ + name + "`"@))
    }
}

/// The type of a variable.
pub open spec fn var_type(s: Scope, name: Seq<char>, env: Env, n: Notes) -> (
    SimpleTypeView,
    Notes,
) {
    if s.locals.contains(name) {
        (SimpleTypeView::Star, n)
    } else if env.contains_key(name) {
        (super::diagnosis::reference_type(env[name]), n)
    } else {
        (SimpleTypeView::Zero, n.error("Variable "@ + name + " not found in context"@))
    }
}

/// The type of an attribute of a variable.
pub open spec fn attribute_type(
    s: Scope,
    var: Seq<char>,
    attr: Seq<char>,
    env: Env,
    n: Notes,
) -> (SimpleTypeView, Notes) {
    if s.locals.contains(var) {
        (SimpleTypeView::Star, n)
    } else if !env.contains_key(var) {
        (SimpleTypeView::Zero, n.error("Variable "@ + var + " not found in context"@))
    } else if env[var] is Zero {
        (SimpleTypeView::Zero, n.warn("Variable "@ + var + " is bound to empty type"@))
    } else {
        let t = env[var].attribute(attr);
        if t.is_empty() {
            (t, n.warn("Attribute "@ + attr + " not found in "@ + env[var].text()))
        } else {
            (t, n)
        }
    }
}

/// The type of a field of a value of type `base`.
pub open spec fn field_type(base: SimpleTypeView, field: Seq<char>, n: Notes) -> (
    SimpleTypeView,
    Notes,
) {
    match base {
        SimpleTypeView::Record(fields) => if fields.contains_key(field) {
            (fields[field], n)
        } else {
            (
                SimpleTypeView::Zero,
                n.warn("Field "@ + field + " not found in record "@ + base.text()),
            )
        },
        SimpleTypeView::Star => (base, n),
        SimpleTypeView::Zero => (base, n),
        _ => (
            SimpleTypeView::Zero,
            n.warn("Field access <expr>."@ + field + " on non-record type "@ + base.text()),
        ),
    }
}

/// The type of a binary operation on operands of the given types.
pub open spec fn binop_type(op: BinOp, t1: SimpleTypeView, t2: SimpleTypeView, n: Notes) -> (
    SimpleTypeView,
    Notes,
) {
    let (e1, e2, r) = op.signature(t1, t2);
    if !(t1.meet(e1) is Zero) && !(t2.meet(e2) is Zero) {
        (r, n)
    } else {
        (
            SimpleTypeView::Zero,
            n.warn(
                "Binop "@ + op.name() + " between types "@ + t1.text() + " and "@ + t2.text()
                    + " is not defined"@,
            ),
        )
    }
}

/// The condition of a CASE branch.
pub open spec fn condition_notes(t: SimpleTypeView, n: Notes) -> Notes {
    if t.meet(SimpleTypeView::B) is Zero {
        n.warn("CASE WHEN condition has non-bool type "@ + t.text())
    } else {
        n
    }
}

/// The source of a list comprehension, which must be a list.
pub open spec fn source_notes(t: SimpleTypeView, n: Notes) -> Notes {
    if !(t is List) && !(t is Star) {
        n.warn("list comprehension source has non-list type "@ + t.text())
    } else {
        n
    }
}

/// The filter of a list comprehension.
pub open spec fn where_notes(t: SimpleTypeView, n: Notes) -> Notes {
    if t.meet(SimpleTypeView::B) is Zero {
        n.warn("list comprehension WHERE has non-bool type "@ + t.text())
    } else {
        n
    }
}

/// The type of an aggregate over values of type `inner`.
pub open spec fn aggregate_type(kind: GeneralSetKind, inner: SimpleTypeView) -> SimpleTypeView {
    match kind {
        GeneralSetKind::Count => SimpleTypeView::Z,
        GeneralSetKind::Avg => SimpleTypeView::F,
        GeneralSetKind::Sum => crate::syntax::expr::number_type(),
        GeneralSetKind::Min => inner,
        GeneralSetKind::Max => inner,
        GeneralSetKind::CollectList => SimpleTypeView::List(Box::new(inner)),
    }
}

/// The type of an expression.
pub open spec fn judge_expr(s: Scope, e: Expr, env: Env, n: Notes) -> (SimpleTypeView, Notes)
    decreases e,
{
    match e {
        Expr::Const(v) => (super::diagnosis::value_type(v@), n),
        Expr::Type(t) => (t@, n),
        Expr::Var(name) => var_type(s, name@, env, n),
        Expr::AttrLookup { var, attr } => attribute_type(s, var@, attr@, env, n),
        Expr::FieldAccess { base, field } => {
            let (t, n1) = judge_expr(s, *base, env, n);
            field_type(t, field@, n1)
        },
        Expr::Binop { op, left, right } => {
            let (t1, n1) = judge_expr(s, *left, env, n);
            if op == BinOp::Is && *right is Type {
                (SimpleTypeView::B, n1)
            } else if op == BinOp::As && *right is Type {
                ((*right)->Type_0@, n1)
            } else {
                let (t2, n2) = judge_expr(s, *right, env, n1);
                binop_type(op, t1, t2, n2)
            }
        },
        Expr::Unop { op, operand } => {
            let (t, n1) = judge_expr(s, *operand, env, n);
            let (expected, r) = op.signature();
            if !(t.meet(expected) is Zero) {
                (r, n1)
            } else {
                (
                    SimpleTypeView::Zero,
                    n1.warn(
                        "Unop "@ + op.name() + " on type "@ + t.text() + " is not defined"@,
                    ),
                )
            }
        },
        Expr::IsNull { operand, .. } => (
            SimpleTypeView::B,
            judge_expr(s, *operand, env, n).1,
        ),
        Expr::Coalesce(args) => {
            let (ts, n1) = judge_all(s, args@, env, n);
            (union_types(ts), n1)
        },
        Expr::Call { name, args } => {
            let (ts, n1) = judge_all(s, args@, env, n);
            call_type(name@, args@, ts, n1)
        },
        Expr::Case { branches, else_expr } => {
            let (t, n1) = judge_branches(s, branches@, env, n);
            match else_expr {
                Some(value) => {
                    let (t2, n2) = judge_expr(s, *value, env, n1);
                    (t.union(t2), n2)
                },
                None => (t.union(SimpleTypeView::Zero), n1),
            }
        },
        Expr::ListComprehension { var, source, filter, body } => {
            let (t, n1) = judge_expr(s, *source, env, n);
            let n2 = source_notes(t, n1);
            let inner = s.with_local(var@);
            let n3 = match filter {
                Some(f) => {
                    let (ft, m) = judge_expr(inner, *f, env, n2);
                    where_notes(ft, m)
                },
                None => n2,
            };
            let (bt, n4) = judge_expr(inner, *body, env, n3);
            (SimpleTypeView::List(Box::new(bt)), n4)
        },
        Expr::Record { fields } => {
            let (m, n1) = judge_fields(s, fields@, env, n);
            (SimpleTypeView::Record(m), n1)
        },
        Expr::ValueSubquery { body } => judge_value(s, *body, env, n),
        Expr::Exists { body } => (
            SimpleTypeView::B,
            judge_body(s.with_outer(env), body.matches@, env, n).2,
        ),
        Expr::NotExists { body } => (
            SimpleTypeView::B,
            judge_body(s.with_outer(env), body.matches@, env, n).2,
        ),
        Expr::Agg(agg) => judge_aggregate(s, *agg, env, n),
    }
}

/// The type of the value that a subquery yields: of its first RETURN item
/// under the bindings of its body.
pub open spec fn judge_value(s: Scope, q: Query, env: Env, n: Notes) -> (SimpleTypeView, Notes)
    decreases q,
{
    let (path, inner, n1) = judge_body(s.with_outer(env), q.matches@, env, n);
    match q.returns {
        Some(items) => if items@.len() > 0 {
            match items@[0] {
                ReturnItem::Expr { expr, .. } => judge_expr(s, expr, inner, n1),
                ReturnItem::Aggregate { agg, .. } => judge_aggregate(s, agg, inner, n1),
            }
        } else {
            (SimpleTypeView::Zero, n1.error("VALUE subquery has no RETURN item"@))
        },
        None => (SimpleTypeView::Zero, n1.error("VALUE subquery has no RETURN item"@)),
    }
}

/// The type of an aggregate.
pub open spec fn judge_aggregate(s: Scope, agg: Aggregator, env: Env, n: Notes) -> (
    SimpleTypeView,
    Notes,
)
    decreases agg,
{
    match agg {
        Aggregator::CountStar => (SimpleTypeView::Z, n),
        Aggregator::GeneralSet { kind, expr, .. } => {
            let (t, n1) = judge_expr(s, expr, env, n);
            (aggregate_type(kind, t), n1)
        },
    }
}

/// The types of several expressions, in order.
pub open spec fn judge_all(s: Scope, es: Seq<Expr>, env: Env, n: Notes) -> (
    Seq<SimpleTypeView>,
    Notes,
)
    decreases es,
{
    if es.len() == 0 {
        (Seq::empty(), n)
    } else {
        let (ts, n1) = judge_all(s, es.drop_last(), env, n);
        let (t, n2) = judge_expr(s, es.last(), env, n1);
        (ts.push(t), n2)
    }
}

/// The union of the types of the branches of a CASE.
pub open spec fn judge_branches(s: Scope, branches: Seq<(Expr, Expr)>, env: Env, n: Notes) -> (
    SimpleTypeView,
    Notes,
)
    decreases branches,
{
    if branches.len() == 0 {
        (SimpleTypeView::Zero, n)
    } else {
        let (t, n1) = judge_branches(s, branches.drop_last(), env, n);
        let (ct, n2) = judge_expr(s, branches.last().0, env, n1);
        let (vt, n3) = judge_expr(s, branches.last().1, env, condition_notes(ct, n2));
        (t.union(vt), n3)
    }
}

/// The types of the fields of a record; a later field replaces an earlier one.
pub open spec fn judge_fields(s: Scope, fields: Seq<(String, Expr)>, env: Env, n: Notes) -> (
    Map<Seq<char>, SimpleTypeView>,
    Notes,
)
    decreases fields,
{
    if fields.len() == 0 {
        (Map::empty(), n)
    } else {
        let (m, n1) = judge_fields(s, fields.drop_last(), env, n);
        let (t, n2) = judge_expr(s, fields.last().1, env, n1);
        (m.insert(fields.last().0@, t), n2)
    }
}

/// The body of a subquery: the shape of its first clause and the bindings of
/// all, joined onto those of the enclosing query.
pub open spec fn judge_body(s: Scope, ms: Seq<MatchStatement>, outer: Env, n: Notes) -> (
    Option<PathTypeView>,
    Env,
    Notes,
)
    decreases ms,
{
    if ms.len() == 0 {
        (None, outer, n)
    } else {
        let (path, env, n1) = judge_body(s, ms.drop_last(), outer, n);
        match ms.last() {
            MatchStatement::Simple { pattern } => {
                let (r, n2) = judge_pattern(s, pattern, n1);
                let first = if path is None {
                    Some(r.path)
                } else {
                    path
                };
                match super::type_environment::env_meet_result(s.schema, env, r.env) {
                    Ok(e) => (first, e, n2),
                    Err(msg) => (
                        first,
                        env,
                        n2.error("EXISTS body: concatenation of contexts failed: "@ + msg),
                    ),
                }
            },
            MatchStatement::Optional { pattern } => {
                let (r, n2) = judge_pattern(s, pattern, n1);
                let first = if path is None {
                    Some(r.path)
                } else {
                    path
                };
                (
                    first,
                    super::type_environment::env_outer_join(s.schema, env, r.env),
                    n2,
                )
            },
        }
    }
}

/// The type that a descriptor asks for.
pub open spec fn asked(d: Option<Descriptor>) -> super::descriptor_type::DescriptorTypeView {
    match d {
        Some(d) => d.dtype@,
        None => super::descriptor_type::DescriptorTypeView::star(),
    }
}

/// The variable that a descriptor binds.
pub open spec fn bound_name(d: Option<Descriptor>) -> Option<Seq<char>> {
    match d {
        Some(d) => d.var_name(),
        None => None,
    }
}

/// What is said of equalities left in a descriptor.
pub open spec fn leftover_text(shown: Seq<char>) -> Seq<char> {
    "Descriptor for "@ + shown + " still carries value_filters at typecheck time (elaboration bug)"@
}

/// The variable of a descriptor as it is shown in that case.
pub open spec fn shown_name(name: Option<Seq<char>>) -> Seq<char> {
    match name {
        Some(v) => "Some("@ + crate::text::quoted(v) + ")"@,
        None => "None"@,
    }
}

/// Equalities in a descriptor should have become filters.
pub open spec fn filters_notes(d: Option<Descriptor>, n: Notes) -> Notes {
    match d {
        Some(d) => if d.value_filters@.len() > 0 {
            n.error(leftover_text(shown_name(d.var_name())))
        } else {
            n
        },
        None => n,
    }
}

/// The type of a node pattern.
pub open spec fn node_type(s: Scope, d: Option<Descriptor>, n: Notes) -> (
    VariableTypeView,
    Notes,
) {
    let n1 = filters_notes(d, n);
    let t = s.schema.refine(VariableTypeView::Node(asked(d)));
    if t is Zero {
        (t, n1.warn(super::diagnosis::node_mismatch_text(s.schema, asked(d))))
    } else {
        (t, n1)
    }
}

/// The refinement of an edge pattern: an edge of any direction is directed or
/// undirected.
pub open spec fn edge_refined(
    schema: SchemaView,
    dir: EdgeDir,
    d: super::descriptor_type::DescriptorTypeView,
) -> VariableTypeView {
    let directed = schema.refine(VariableTypeView::edge_directional(d));
    let undirected = schema.refine(VariableTypeView::edge_non_directional(d));
    match dir {
        EdgeDir::Right => directed,
        EdgeDir::Left => directed,
        EdgeDir::Undirected => undirected,
        EdgeDir::Any => directed.join(undirected),
    }
}

/// The type of an edge pattern.
pub open spec fn edge_type(s: Scope, dir: EdgeDir, d: Option<Descriptor>, n: Notes) -> (
    VariableTypeView,
    Notes,
) {
    let n1 = filters_notes(d, n);
    let t = edge_refined(s.schema, dir, asked(d));
    if t is Zero {
        (t, n1.warn(super::diagnosis::edge_mismatch_text(s.schema, asked(d), dir)))
    } else {
        (t, n1)
    }
}

/// The shape of an edge pattern.
pub open spec fn judge_edge(s: Scope, dir: EdgeDir, d: Option<Descriptor>, n: Notes) -> (
    Shape,
    Notes,
) {
    let (t, n1) = edge_type(s, dir, d, n);
    (
        Shape {
            path: PathTypeView::from_variable(t, dir),
            env: super::type_environment::env_of(bound_name(d), t),
        },
        n1,
    )
}

/// What is said of a variable whose type became empty; nothing where it was
/// empty before.
pub open spec fn collapse_note(merged: Env, left: Env, right: Env, k: Seq<char>) -> Option<
    Seq<char>,
> {
    if !merged[k].is_empty() {
        None
    } else if left.contains_key(k) && left[k].is_empty() {
        None
    } else if right.contains_key(k) && right[k].is_empty() {
        None
    } else if left.contains_key(k) && right.contains_key(k) {
        Some(
            "variable "@ + k + " cannot be both "@ + super::diagnosis::short_text(left[k]) + " and "@ + super::diagnosis::short_text(
                right[k],
            ) + " under the active schema"@,
        )
    } else if left.contains_key(k) {
        Some(
            "variable "@ + k + " bound to "@ + super::diagnosis::short_text(left[k])
                + " collapses to empty under the active schema"@,
        )
    } else if right.contains_key(k) {
        Some(
            "variable "@ + k + " bound to "@ + super::diagnosis::short_text(right[k])
                + " collapses to empty under the active schema"@,
        )
    } else {
        None
    }
}

/// What is said of variables whose type became empty.
pub open spec fn collapse_notes(
    merged: Env,
    left: Env,
    right: Env,
    keys: Seq<Seq<char>>,
    n: Notes,
) -> Notes
    decreases keys.len(),
{
    if keys.len() == 0 {
        n
    } else {
        let n1 = collapse_notes(merged, left, right, keys.drop_last(), n);
        match collapse_note(merged, left, right, keys.last()) {
            Some(text) => n1.warn(text),
            None => n1,
        }
    }
}

/// The bindings of two patterns together. Where they conflict those of the
/// first stay.
pub open spec fn met_bindings(schema: SchemaView, a: Env, b: Env, n: Notes) -> (Env, Notes) {
    match super::type_environment::env_meet_result(schema, a, b) {
        Ok(e) => (e, collapse_notes(e, a, b, crate::fields::sorted_keys(e), n)),
        Err(msg) => (
            a,
            collapse_notes(
                a,
                a,
                b,
                crate::fields::sorted_keys(a),
                n.error("Concatenation of contexts failed: "@ + msg),
            ),
        ),
    }
}

/// Two patterns whose rows are joined. Their shapes are independent, but
/// where one has no match neither has the join.
pub open spec fn joined_shape(s: Scope, r1: Shape, r2: Shape, n: Notes) -> (Shape, Notes) {
    let (env, n1) = met_bindings(s.schema, r1.env, r2.env, n);
    let path = if r1.path.is_unsatisfiable() || r2.path.is_unsatisfiable() {
        PathTypeView::Zero
    } else {
        r1.path
    };
    (Shape { path, env }, n1)
}

/// Two patterns one after the other.
pub open spec fn concat_shape(s: Scope, r1: Shape, r2: Shape, n: Notes) -> (Shape, Notes) {
    let (env, n1) = met_bindings(s.schema, r1.env, r2.env, n);
    (Shape { path: PathTypeView::meet(s.schema, r1.path, r2.path), env }, n1)
}

/// A pattern and a predicate of type `t`.
pub open spec fn filtered_shape(r: Shape, t: SimpleTypeView, n: Notes) -> (Shape, Notes) {
    if t.meet(SimpleTypeView::B).is_empty() {
        (
            Shape { path: PathTypeView::Zero, env: r.env },
            n.warn("Filter expression has type "@ + t.text() + ", which is not a boolean"@),
        )
    } else {
        (r, n)
    }
}

/// How often a repeated shape is laid out: three laps tell all there is to
/// know of one with edges.
pub open spec fn laps(r: Shape, lb: nat) -> nat {
    if !r.path.is_empty() && lb > 3 {
        3
    } else {
        lb
    }
}

/// What is said of the repetition of a pattern that can match nothing.
pub open spec fn repeat_notes(r: Shape, ub: Option<usize>, n: Notes) -> Notes {
    if !r.path.is_empty() {
        n
    } else if ub is None {
        n.error(
            "Unbounded repetition (`*`, `+`, `{n,}`) requires an inner pattern of length > 0; an inner that can match the empty path makes the repetition non-terminating."@,
        )
    } else {
        n.warn("Repeat expression must have length > 0"@)
    }
}

/// A pattern repeated.
pub open spec fn repeated_shape(s: Scope, r: Shape, times: nat) -> Shape {
    Shape {
        path: PathTypeView::pow(s.schema, r.path, times),
        env: super::type_environment::env_to_group(r.env),
    }
}

/// The shape and the bindings of a pattern.
pub open spec fn judge_pattern(s: Scope, p: PathPattern, n: Notes) -> (Shape, Notes)
    decreases p,
{
    match p {
        PathPattern::Node(d) => {
            let (t, n1) = node_type(s, d, n);
            (
                Shape {
                    path: PathTypeView::from_variable(t, EdgeDir::Any),
                    env: super::type_environment::env_of(bound_name(d), t),
                },
                n1,
            )
        },
        PathPattern::EdgeRight(d) => judge_edge(s, EdgeDir::Right, d, n),
        PathPattern::EdgeLeft(d) => judge_edge(s, EdgeDir::Left, d, n),
        PathPattern::EdgeUndirected(d) => judge_edge(s, EdgeDir::Undirected, d, n),
        PathPattern::EdgeAnyDirection(d) => judge_edge(s, EdgeDir::Any, d, n),
        PathPattern::Concat(p1, p2) => {
            let (r1, n1) = judge_pattern(s, *p1, n);
            let (r2, n2) = judge_pattern(s, *p2, n1);
            concat_shape(s, r1, r2, n2)
        },
        PathPattern::Join(p1, p2) => {
            let (r1, n1) = judge_pattern(s, *p1, n);
            let (r2, n2) = judge_pattern(s, *p2, n1);
            joined_shape(s, r1, r2, n2)
        },
        PathPattern::Filter(pattern, expr) => {
            let (r, n1) = judge_pattern(s, *pattern, n);
            let (t, n2) = judge_expr(s, expr, s.filter_env(r.env), n1);
            filtered_shape(r, t, n2)
        },
        PathPattern::Union(p1, p2) => {
            let (r1, n1) = judge_pattern(s, *p1, n);
            let (r2, n2) = judge_pattern(s, *p2, n1);
            (
                Shape {
                    path: r1.path.union(r2.path),
                    env: super::type_environment::env_union(r1.env, r2.env),
                },
                n2,
            )
        },
        PathPattern::Selected { pattern, .. } => judge_pattern(s, *pattern, n),
        PathPattern::Named { var, pattern } => {
            let (r, n1) = judge_pattern(s, *pattern, n);
            (Shape { path: r.path, env: r.env.insert(var@, VariableTypeView::Path) }, n1)
        },
        PathPattern::Repeat { pattern, lb, ub } => {
            let (r, n1) = judge_pattern(s, *pattern, n);
            (repeated_shape(s, r, laps(r, lb as nat)), repeat_notes(r, ub, n1))
        },
        PathPattern::Questioned(pattern) => {
            let (r, n1) = judge_pattern(s, *pattern, n);
            let n2 = if r.path.is_empty() {
                n1.warn("Repeat expression must have length > 0"@)
            } else {
                n1
            };
            (repeated_shape(s, r, 0), n2)
        },
    }
}

/// Every COALESCE that is looked at has an argument.
pub open spec fn expr_ready(e: Expr) -> bool
    decreases e,
{
    match e {
        Expr::FieldAccess { base, .. } => expr_ready(*base),
        Expr::Binop { left, right, .. } => expr_ready(*left) && expr_ready(*right),
        Expr::Unop { operand, .. } => expr_ready(*operand),
        Expr::IsNull { operand, .. } => expr_ready(*operand),
        Expr::Coalesce(args) => args@.len() > 0 && all_ready(args@),
        Expr::Call { args, .. } => all_ready(args@),
        Expr::Case { branches, else_expr } => branches_ready(branches@) && match else_expr {
            Some(value) => expr_ready(*value),
            None => true,
        },
        Expr::ListComprehension { source, filter, body, .. } => expr_ready(*source) && expr_ready(
            *body,
        ) && match filter {
            Some(f) => expr_ready(*f),
            None => true,
        },
        Expr::Record { fields } => fields_ready(fields@),
        Expr::ValueSubquery { body } => value_ready(*body),
        Expr::Exists { body } => body_ready(body.matches@),
        Expr::NotExists { body } => body_ready(body.matches@),
        Expr::Agg(agg) => aggregate_ready(*agg),
        _ => true,
    }
}

/// `expr_ready` for what is looked at of a value subquery.
pub open spec fn value_ready(q: Query) -> bool
    decreases q,
{
    body_ready(q.matches@) && match q.returns {
        Some(items) => items@.len() > 0 ==> match items@[0] {
            ReturnItem::Expr { expr, .. } => expr_ready(expr),
            ReturnItem::Aggregate { agg, .. } => aggregate_ready(agg),
        },
        None => true,
    }
}

/// `expr_ready` for the argument of an aggregate.
pub open spec fn aggregate_ready(agg: Aggregator) -> bool
    decreases agg,
{
    match agg {
        Aggregator::CountStar => true,
        Aggregator::GeneralSet { expr, .. } => expr_ready(expr),
    }
}

/// `expr_ready` for each of several expressions.
pub open spec fn all_ready(es: Seq<Expr>) -> bool
    decreases es,
{
    forall|i: int| 0 <= i < es.len() ==> expr_ready(#[trigger] es[i])
}

/// `expr_ready` for each branch of a CASE.
pub open spec fn branches_ready(branches: Seq<(Expr, Expr)>) -> bool
    decreases branches,
{
    forall|i: int|
        0 <= i < branches.len() ==> expr_ready((#[trigger] branches[i]).0) && expr_ready(
            branches[i].1,
        )
}

/// `expr_ready` for each field of a record.
pub open spec fn fields_ready(fields: Seq<(String, Expr)>) -> bool
    decreases fields,
{
    forall|i: int| 0 <= i < fields.len() ==> expr_ready((#[trigger] fields[i]).1)
}

/// `pattern_ready` for each clause.
pub open spec fn body_ready(ms: Seq<MatchStatement>) -> bool
    decreases ms,
{
    forall|i: int|
        0 <= i < ms.len() ==> match #[trigger] ms[i] {
            MatchStatement::Simple { pattern } => pattern_ready(pattern),
            MatchStatement::Optional { pattern } => pattern_ready(pattern),
        }
}

/// `expr_ready` for the predicates of a pattern.
pub open spec fn pattern_ready(p: PathPattern) -> bool
    decreases p,
{
    match p {
        PathPattern::Concat(a, b) => pattern_ready(*a) && pattern_ready(*b),
        PathPattern::Join(a, b) => pattern_ready(*a) && pattern_ready(*b),
        PathPattern::Union(a, b) => pattern_ready(*a) && pattern_ready(*b),
        PathPattern::Filter(inner, expr) => pattern_ready(*inner) && expr_ready(expr),
        PathPattern::Repeat { pattern, .. } => pattern_ready(*pattern),
        PathPattern::Questioned(inner) => pattern_ready(*inner),
        PathPattern::Selected { pattern, .. } => pattern_ready(*pattern),
        PathPattern::Named { pattern, .. } => pattern_ready(*pattern),
        _ => true,
    }
}

} // verus!
