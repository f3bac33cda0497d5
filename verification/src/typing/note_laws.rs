//! What the checker says does not depend on what it has said before: it only
//! adds to its notes, and finds the same types whatever they are.

use vstd::prelude::*;

use super::judgment::{Notes, Scope};
use super::type_environment::Env;
use crate::syntax::expr::{BinOp, Expr};
use crate::syntax::path_pattern::PathPattern;
use crate::syntax::query::{Aggregator, MatchStatement, Query, ReturnItem};

verus! {

/// Notes with others behind them.
pub open spec fn followed(n: Notes, more: Notes) -> Notes {
    Notes { errors: n.errors + more.errors, warnings: n.warnings + more.warnings }
}

proof fn one_more(n: Notes)
    ensures
        forall|d: Notes, x: Seq<char>| #[trigger]
            followed(n, d).warn(x) == followed(n, d.warn(x)),
        forall|d: Notes, x: Seq<char>| #[trigger]
            followed(n, d).error(x) == followed(n, d.error(x)),
{
    assert forall|d: Notes, x: Seq<char>| #[trigger]
        followed(n, d).warn(x) == followed(n, d.warn(x)) by {
        assert(followed(n, d).warn(x).warnings =~= followed(n, d.warn(x)).warnings);
    }
    assert forall|d: Notes, x: Seq<char>| #[trigger]
        followed(n, d).error(x) == followed(n, d.error(x)) by {
        assert(followed(n, d).error(x).errors =~= followed(n, d.error(x)).errors);
    }
}

proof fn expr_carries(s: Scope, e: Expr, env: Env, n: Notes, d: Notes)
    ensures
        ({
            let (t, d1) = super::judgment::judge_expr(s, e, env, d);
            super::judgment::judge_expr(s, e, env, followed(n, d)) == (t, followed(n, d1))
        }),
    decreases e,
{
    one_more(n);
    match e {
        Expr::FieldAccess { base, field } => {
            expr_carries(s, *base, env, n, d);
        },
        Expr::Binop { op, left, right } => {
            expr_carries(s, *left, env, n, d);
            let d1 = super::judgment::judge_expr(s, *left, env, d).1;
            if !(op == BinOp::Is && *right is Type) && !(op == BinOp::As && *right is Type) {
                expr_carries(s, *right, env, n, d1);
            }
        },
        Expr::Unop { op, operand } => {
            expr_carries(s, *operand, env, n, d);
        },
        Expr::IsNull { operand, .. } => {
            expr_carries(s, *operand, env, n, d);
        },
        Expr::Coalesce(args) => {
            all_carry(s, args@, env, n, d);
        },
        Expr::Call { name, args } => {
            all_carry(s, args@, env, n, d);
        },
        Expr::Case { branches, else_expr } => {
            branches_carry(s, branches@, env, n, d);
            let d1 = super::judgment::judge_branches(s, branches@, env, d).1;
            match else_expr {
                Some(value) => {
                    expr_carries(s, *value, env, n, d1);
                },
                None => {},
            }
        },
        Expr::ListComprehension { var, source, filter, body } => {
            expr_carries(s, *source, env, n, d);
            let (t, d1) = super::judgment::judge_expr(s, *source, env, d);
            let d2 = super::judgment::source_notes(t, d1);
            let inner = s.with_local(var@);
            let d3 = match filter {
                Some(f) => {
                    let (ft, m) = super::judgment::judge_expr(inner, *f, env, d2);
                    super::judgment::where_notes(ft, m)
                },
                None => d2,
            };
            match filter {
                Some(f) => {
                    expr_carries(inner, *f, env, n, d2);
                },
                None => {},
            }
            expr_carries(inner, *body, env, n, d3);
        },
        Expr::Record { fields } => {
            fields_carry(s, fields@, env, n, d);
        },
        Expr::ValueSubquery { body } => {
            value_carries(s, *body, env, n, d);
        },
        Expr::Exists { body } => {
            body_carries(s.with_outer(env), body.matches@, env, n, d);
        },
        Expr::NotExists { body } => {
            body_carries(s.with_outer(env), body.matches@, env, n, d);
        },
        Expr::Agg(agg) => {
            aggregate_carries(s, *agg, env, n, d);
        },
        _ => {},
    }
}

proof fn value_carries(s: Scope, q: Query, env: Env, n: Notes, d: Notes)
    ensures
        ({
            let (t, d1) = super::judgment::judge_value(s, q, env, d);
            super::judgment::judge_value(s, q, env, followed(n, d)) == (t, followed(n, d1))
        }),
    decreases q,
{
    one_more(n);
    body_carries(s.with_outer(env), q.matches@, env, n, d);
    let (_, inner, d1) = super::judgment::judge_body(s.with_outer(env), q.matches@, env, d);
    match q.returns {
        Some(items) => {
            if items@.len() > 0 {
                match items@[0] {
                    ReturnItem::Expr { expr, .. } => {
                        expr_carries(s, expr, inner, n, d1);
                    },
                    ReturnItem::Aggregate { agg, .. } => {
                        aggregate_carries(s, agg, inner, n, d1);
                    },
                }
            }
        },
        None => {},
    }
}

proof fn aggregate_carries(s: Scope, agg: Aggregator, env: Env, n: Notes, d: Notes)
    ensures
        ({
            let (t, d1) = super::judgment::judge_aggregate(s, agg, env, d);
            super::judgment::judge_aggregate(s, agg, env, followed(n, d)) == (t, followed(n, d1))
        }),
    decreases agg,
{
    match agg {
        Aggregator::CountStar => {},
        Aggregator::GeneralSet { expr, .. } => {
            expr_carries(s, expr, env, n, d);
        },
    }
}

proof fn all_carry(s: Scope, es: Seq<Expr>, env: Env, n: Notes, d: Notes)
    ensures
        ({
            let (ts, d1) = super::judgment::judge_all(s, es, env, d);
            super::judgment::judge_all(s, es, env, followed(n, d)) == (ts, followed(n, d1))
        }),
    decreases es,
{
    if es.len() > 0 {
        all_carry(s, es.drop_last(), env, n, d);
        let d1 = super::judgment::judge_all(s, es.drop_last(), env, d).1;
        expr_carries(s, es.last(), env, n, d1);
    }
}

proof fn branches_carry(s: Scope, branches: Seq<(Expr, Expr)>, env: Env, n: Notes, d: Notes)
    ensures
        ({
            let (t, d1) = super::judgment::judge_branches(s, branches, env, d);
            super::judgment::judge_branches(s, branches, env, followed(n, d)) == (
                t,
                followed(n, d1),
            )
        }),
    decreases branches,
{
    one_more(n);
    if branches.len() > 0 {
        branches_carry(s, branches.drop_last(), env, n, d);
        let d1 = super::judgment::judge_branches(s, branches.drop_last(), env, d).1;
        expr_carries(s, branches.last().0, env, n, d1);
        let (ct, d2) = super::judgment::judge_expr(s, branches.last().0, env, d1);
        expr_carries(s, branches.last().1, env, n, super::judgment::condition_notes(ct, d2));
    }
}

proof fn fields_carry(s: Scope, fields: Seq<(String, Expr)>, env: Env, n: Notes, d: Notes)
    ensures
        ({
            let (m, d1) = super::judgment::judge_fields(s, fields, env, d);
            super::judgment::judge_fields(s, fields, env, followed(n, d)) == (m, followed(n, d1))
        }),
    decreases fields,
{
    if fields.len() > 0 {
        fields_carry(s, fields.drop_last(), env, n, d);
        let d1 = super::judgment::judge_fields(s, fields.drop_last(), env, d).1;
        expr_carries(s, fields.last().1, env, n, d1);
    }
}

proof fn body_carries(s: Scope, ms: Seq<MatchStatement>, outer: Env, n: Notes, d: Notes)
    ensures
        ({
            let (path, env, d1) = super::judgment::judge_body(s, ms, outer, d);
            super::judgment::judge_body(s, ms, outer, followed(n, d)) == (
                path,
                env,
                followed(n, d1),
            )
        }),
    decreases ms,
{
    one_more(n);
    if ms.len() > 0 {
        body_carries(s, ms.drop_last(), outer, n, d);
        let d1 = super::judgment::judge_body(s, ms.drop_last(), outer, d).2;
        match ms.last() {
            MatchStatement::Simple { pattern } => {
                pattern_carries(s, pattern, n, d1);
            },
            MatchStatement::Optional { pattern } => {
                pattern_carries(s, pattern, n, d1);
            },
        }
    }
}

proof fn collapse_carries(
    merged: Env,
    left: Env,
    right: Env,
    keys: Seq<Seq<char>>,
    n: Notes,
    d: Notes,
)
    ensures
        super::judgment::collapse_notes(merged, left, right, keys, followed(n, d)) == followed(
            n,
            super::judgment::collapse_notes(merged, left, right, keys, d),
        ),
    decreases keys.len(),
{
    one_more(n);
    if keys.len() > 0 {
        collapse_carries(merged, left, right, keys.drop_last(), n, d);
    }
}

proof fn met_carries(
    schema: super::variable_type::SchemaView,
    a: Env,
    b: Env,
    n: Notes,
    d: Notes,
)
    ensures
        ({
            let (env, d1) = super::judgment::met_bindings(schema, a, b, d);
            super::judgment::met_bindings(schema, a, b, followed(n, d)) == (env, followed(n, d1))
        }),
{
    one_more(n);
    match super::type_environment::env_meet_result(schema, a, b) {
        Ok(e) => {
            collapse_carries(e, a, b, crate::fields::sorted_keys(e), n, d);
        },
        Err(msg) => {
            collapse_carries(
                a,
                a,
                b,
                crate::fields::sorted_keys(a),
                n,
                d.error("Concatenation of contexts failed: "@ + msg),
            );
        },
    }
}

proof fn pattern_carries(s: Scope, p: PathPattern, n: Notes, d: Notes)
    ensures
        ({
            let (r, d1) = super::judgment::judge_pattern(s, p, d);
            super::judgment::judge_pattern(s, p, followed(n, d)) == (r, followed(n, d1))
        }),
    decreases p,
{
    one_more(n);
    match p {
        PathPattern::Concat(p1, p2) => {
            pattern_carries(s, *p1, n, d);
            let (r1, d1) = super::judgment::judge_pattern(s, *p1, d);
            pattern_carries(s, *p2, n, d1);
            let (r2, d2) = super::judgment::judge_pattern(s, *p2, d1);
            met_carries(s.schema, r1.env, r2.env, n, d2);
        },
        PathPattern::Join(p1, p2) => {
            pattern_carries(s, *p1, n, d);
            let (r1, d1) = super::judgment::judge_pattern(s, *p1, d);
            pattern_carries(s, *p2, n, d1);
            let (r2, d2) = super::judgment::judge_pattern(s, *p2, d1);
            met_carries(s.schema, r1.env, r2.env, n, d2);
        },
        PathPattern::Filter(pattern, expr) => {
            pattern_carries(s, *pattern, n, d);
            let (r, d1) = super::judgment::judge_pattern(s, *pattern, d);
            expr_carries(s, expr, s.filter_env(r.env), n, d1);
        },
        PathPattern::Union(p1, p2) => {
            pattern_carries(s, *p1, n, d);
            let (r1, d1) = super::judgment::judge_pattern(s, *p1, d);
            pattern_carries(s, *p2, n, d1);
        },
        PathPattern::Selected { pattern, .. } => {
            pattern_carries(s, *pattern, n, d);
        },
        PathPattern::Named { var, pattern } => {
            pattern_carries(s, *pattern, n, d);
        },
        PathPattern::Repeat { pattern, lb, ub } => {
            pattern_carries(s, *pattern, n, d);
        },
        PathPattern::Questioned(pattern) => {
            pattern_carries(s, *pattern, n, d);
        },
        _ => {},
    }
}

/// To check an expression adds its own notes behind those that are there, and
/// finds the type that it finds without any.
pub proof fn expr_appends(s: Scope, e: Expr, env: Env, n: Notes)
    ensures
        ({
            let (t, more) = super::judgment::judge_expr(s, e, env, Notes::none());
            super::judgment::judge_expr(s, e, env, n) == (t, followed(n, more))
        }),
{
    expr_carries(s, e, env, n, Notes::none());
    nothing_follows(n);
}

/// To check an expression once more finds its type once more.
pub proof fn expr_again(s: Scope, e: Expr, env: Env, n: Notes)
    ensures
        ({
            let (t, n1) = super::judgment::judge_expr(s, e, env, n);
            super::judgment::judge_expr(s, e, env, n1).0 == t
        }),
{
    expr_appends(s, e, env, n);
    expr_appends(s, e, env, super::judgment::judge_expr(s, e, env, n).1);
}

/// To check a pattern adds its own notes behind those that are there, and finds
/// the shape that it finds without any.
pub proof fn pattern_appends(s: Scope, p: PathPattern, n: Notes)
    ensures
        ({
            let (r, more) = super::judgment::judge_pattern(s, p, Notes::none());
            super::judgment::judge_pattern(s, p, n) == (r, followed(n, more))
        }),
{
    pattern_carries(s, p, n, Notes::none());
    nothing_follows(n);
}

proof fn nothing_follows(n: Notes)
    ensures
        followed(n, Notes::none()) == n,
{
    assert(followed(n, Notes::none()).errors =~= n.errors);
    assert(followed(n, Notes::none()).warnings =~= n.warnings);
}

} // verus!
