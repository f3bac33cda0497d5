//! The typing judgments on whole queries.

use vstd::prelude::*;

use super::judgment::{Notes, Scope, Shape};
use super::simple_type::SimpleTypeView;
use super::type_environment::Env;
use crate::syntax::expr::Expr;
use crate::syntax::path_pattern::PathPattern;
use crate::syntax::path_prefix::{PathPrefix, PathSearch, UnboundedSupport};
use crate::syntax::query::{MatchStatement, Query, ReturnItem, SortKey, SortSpec};

verus! {

/// A chain of MATCH clauses: a plain one is met, an OPTIONAL one is joined
/// from the left. The shape is that of the first.
pub open spec fn judge_chain(s: Scope, ms: Seq<MatchStatement>, n: Notes) -> (Shape, Notes)
    decreases ms.len(),
{
    if ms.len() <= 1 {
        let (r, n1) = super::judgment::judge_pattern(s, ms[0].own_pattern(), n);
        if ms[0] is Optional {
            (
                Shape {
                    path: r.path,
                    env: super::type_environment::env_outer_join(s.schema, Map::empty(), r.env),
                },
                n1,
            )
        } else {
            (r, n1)
        }
    } else {
        let (acc, n1) = judge_chain(s, ms.drop_last(), n);
        let (r, n2) = super::judgment::judge_pattern(s, ms.last().own_pattern(), n1);
        if ms.last() is Optional {
            (
                Shape {
                    path: acc.path,
                    env: super::type_environment::env_outer_join(s.schema, acc.env, r.env),
                },
                n2,
            )
        } else {
            match super::type_environment::env_meet_result(s.schema, acc.env, r.env) {
                Ok(e) => (
                    Shape { path: acc.path, env: e },
                    super::judgment::collapse_notes(
                        e,
                        acc.env,
                        r.env,
                        crate::fields::sorted_keys(e),
                        n2,
                    ),
                ),
                Err(msg) => (acc, n2.error("Concatenation of contexts failed: "@ + msg)),
            }
        }
    }
}

/// What is said of unbounded repetition under a prefix that does not make it
/// finite.
pub open spec fn unbounded_note(lb: usize, prefix: Option<PathPrefix>, n: Notes) -> Notes {
    let support = match prefix {
        Some(p) => p.support(),
        None => None,
    };
    match support {
        None => n.error(
            "Unbounded repetition (`*`, `+`, `{n,}`) is only supported under a SHORTEST-family path search prefix (`ANY SHORTEST`, `ALL SHORTEST`, `SHORTEST n [PATHS]`, `SHORTEST n GROUPS`) or a restrictive path mode (`ACYCLIC`, `SIMPLE`, `TRAIL`). Bounded repetition `{n,m}` works without any prefix."@,
        ),
        Some(UnboundedSupport::Shortest { .. }) => if lb > 1 {
            n.error(
                "SHORTEST over unbounded repetition supports `*` and `+` only; `{n,}` with n >= 2 needs a restrictive path mode (`ACYCLIC` / `SIMPLE` / `TRAIL`) instead."@,
            )
        } else {
            n
        },
        Some(UnboundedSupport::Mode(_)) => n,
    }
}

/// What is said of the unbounded repetitions in a pattern under its nearest
/// prefix.
pub open spec fn unbounded_notes(p: PathPattern, prefix: Option<PathPrefix>, n: Notes) -> Notes
    decreases p,
{
    match p {
        PathPattern::Selected { prefix: pp, pattern } => unbounded_notes(*pattern, Some(pp), n),
        PathPattern::Repeat { pattern, lb, ub } => unbounded_notes(
            *pattern,
            prefix,
            if ub is None {
                unbounded_note(lb, prefix, n)
            } else {
                n
            },
        ),
        PathPattern::Concat(a, b) => unbounded_notes(
            *b,
            prefix,
            unbounded_notes(*a, prefix, n),
        ),
        PathPattern::Union(a, b) => unbounded_notes(*b, prefix, unbounded_notes(*a, prefix, n)),
        PathPattern::Join(a, b) => unbounded_notes(*b, prefix, unbounded_notes(*a, prefix, n)),
        PathPattern::Filter(inner, _) => unbounded_notes(*inner, prefix, n),
        PathPattern::Questioned(inner) => unbounded_notes(*inner, prefix, n),
        PathPattern::Named { pattern, .. } => unbounded_notes(*pattern, prefix, n),
        _ => n,
    }
}

/// `unbounded_notes` for each clause.
pub open spec fn unbounded_clauses(ms: Seq<MatchStatement>, n: Notes) -> Notes
    decreases ms.len(),
{
    if ms.len() == 0 {
        n
    } else {
        unbounded_notes(
            ms.last().own_pattern(),
            None,
            unbounded_clauses(ms.drop_last(), n),
        )
    }
}

/// The name, as a sequence of at most one.
pub open spec fn one_name(name: Option<Seq<char>>) -> Seq<Seq<char>> {
    match name {
        Some(v) => seq![v],
        None => Seq::empty(),
    }
}

/// The variables that the nodes and edges of a pattern declare, each as often
/// as it is declared.
pub open spec fn declared(p: PathPattern) -> Seq<Seq<char>>
    decreases p,
{
    match p {
        PathPattern::Node(d) => one_name(super::judgment::bound_name(d)),
        PathPattern::EdgeRight(d) => one_name(super::judgment::bound_name(d)),
        PathPattern::EdgeLeft(d) => one_name(super::judgment::bound_name(d)),
        PathPattern::EdgeUndirected(d) => one_name(super::judgment::bound_name(d)),
        PathPattern::EdgeAnyDirection(d) => one_name(super::judgment::bound_name(d)),
        PathPattern::Concat(a, b) => declared(*a) + declared(*b),
        PathPattern::Union(a, b) => declared(*a) + declared(*b),
        PathPattern::Join(a, b) => declared(*a) + declared(*b),
        PathPattern::Filter(inner, _) => declared(*inner),
        PathPattern::Questioned(inner) => declared(*inner),
        PathPattern::Repeat { pattern, .. } => declared(*pattern),
        PathPattern::Selected { pattern, .. } => declared(*pattern),
        PathPattern::Named { pattern, .. } => declared(*pattern),
    }
}

/// The variables that the clauses declare.
pub open spec fn declared_in_all(ms: Seq<MatchStatement>) -> Seq<Seq<char>>
    decreases ms.len(),
{
    if ms.len() == 0 {
        Seq::empty()
    } else {
        declared_in_all(ms.drop_last()) + declared(ms.last().own_pattern())
    }
}

/// How often a name occurs.
pub open spec fn occurrences(names: Seq<Seq<char>>, v: Seq<char>) -> nat
    decreases names.len(),
{
    if names.len() == 0 {
        0
    } else {
        occurrences(names.drop_last(), v) + if names.last() == v {
            1nat
        } else {
            0nat
        }
    }
}

/// The variables of the nodes on the top level of a pattern, from the left.
pub open spec fn top_nodes(p: PathPattern) -> Seq<Seq<char>>
    decreases p,
{
    match p {
        PathPattern::Node(d) => one_name(super::judgment::bound_name(d)),
        PathPattern::Concat(a, b) => top_nodes(*a) + top_nodes(*b),
        PathPattern::Filter(inner, _) => top_nodes(*inner),
        PathPattern::Named { pattern, .. } => top_nodes(*pattern),
        _ => Seq::empty(),
    }
}

/// The name is the first or the last node of a pattern.
pub open spec fn is_boundary(p: PathPattern, v: Seq<char>) -> bool {
    let ns = top_nodes(p);
    ns.len() > 0 && (ns.first() == v || ns.last() == v)
}

/// The operands with a prefix, each before those inside it.
pub open spec fn selected_in(p: PathPattern) -> Seq<PathPattern>
    decreases p,
{
    match p {
        PathPattern::Selected { pattern, .. } => seq![p] + selected_in(*pattern),
        PathPattern::Concat(a, b) => selected_in(*a) + selected_in(*b),
        PathPattern::Union(a, b) => selected_in(*a) + selected_in(*b),
        PathPattern::Join(a, b) => selected_in(*a) + selected_in(*b),
        PathPattern::Filter(inner, _) => selected_in(*inner),
        PathPattern::Questioned(inner) => selected_in(*inner),
        PathPattern::Repeat { pattern, .. } => selected_in(*pattern),
        PathPattern::Named { pattern, .. } => selected_in(*pattern),
        _ => Seq::empty(),
    }
}

/// The operands with a prefix in all clauses.
pub open spec fn selected_in_all(ms: Seq<MatchStatement>) -> Seq<PathPattern>
    decreases ms.len(),
{
    if ms.len() == 0 {
        Seq::empty()
    } else {
        selected_in_all(ms.drop_last()) + selected_in(ms.last().own_pattern())
    }
}

/// The variables inside a pattern, its ends left out, that the rest of the
/// query declares too.
pub open spec fn shared_inside(p: PathPattern, all: Seq<Seq<char>>) -> Set<Seq<char>> {
    Set::new(
        |v: Seq<char>|
            declared(p).contains(v) && !is_boundary(p, v) && occurrences(all, v) > occurrences(
                declared(p),
                v,
            ),
    )
}

/// What is said of a selective operand that shares variables inside it.
pub open spec fn isolation_note(p: PathPattern, all: Seq<Seq<char>>, n: Notes) -> Notes {
    match p {
        PathPattern::Selected { prefix, pattern } => {
            let shared = crate::fields::sorted_names(shared_inside(*pattern, all));
            if prefix.search == PathSearch::All || shared.len() == 0 {
                n
            } else {
                n.error(
                    "Selective path pattern (a SHORTEST/ANY pattern) shares interior variable(s) `"@
                        + crate::text::joined(shared, "`, `"@)
                        + "` with the rest of the query. ISO §16.6 SR 7 requires a selective pattern to be evaluable in isolation: only its boundary (endpoint) variables may join other patterns. Rename the interior variable(s), or restructure so the shared variable is an endpoint."@,
                )
            }
        },
        _ => n,
    }
}

/// `isolation_note` for each operand.
pub open spec fn isolation_notes(ps: Seq<PathPattern>, all: Seq<Seq<char>>, n: Notes) -> Notes
    decreases ps.len(),
{
    if ps.len() == 0 {
        n
    } else {
        isolation_note(ps.last(), all, isolation_notes(ps.drop_last(), all, n))
    }
}

/// The items of a RETURN clause.
pub open spec fn return_notes(s: Scope, items: Seq<ReturnItem>, env: Env, n: Notes) -> Notes
    decreases items.len(),
{
    if items.len() == 0 {
        n
    } else {
        let n1 = return_notes(s, items.drop_last(), env, n);
        match items.last() {
            ReturnItem::Expr { expr, .. } => super::judgment::judge_expr(s, expr, env, n1).1,
            ReturnItem::Aggregate { agg, .. } => super::judgment::judge_aggregate(s, agg, env, n1).1,
        }
    }
}

/// Without GROUP BY, aggregates do not stand beside other items.
pub open spec fn mixing_note(items: Seq<ReturnItem>, n: Notes) -> Notes {
    if (exists|i: int| 0 <= i < items.len() && (#[trigger] items[i]).aggregates()) && (exists|
        i: int,
    |
        0 <= i < items.len() && !(#[trigger] items[i]).aggregates()) {
        n.error(
            "RETURN mixes aggregate and non-aggregate items but no GROUP BY clause is present. Add `GROUP BY <expr>...` before the RETURN."@,
        )
    } else {
        n
    }
}

/// The variables that are grouping keys themselves.
pub open spec fn grouped_vars(keys: Seq<Expr>) -> Set<Seq<char>> {
    Set::new(
        |v: Seq<char>|
            exists|i: int|
                0 <= i < keys.len() && #[trigger] keys[i] is Var && keys[i]->Var_0@ == v,
    )
}

/// The grouping keys determine the value of the expression: it is reduced
/// over the group, evaluated on a row of it, a key itself, or built from
/// variables that are keys.
pub open spec fn determined(e: Expr, keys: Seq<Expr>) -> bool {
    ||| e.has_agg()
    ||| e.has_subquery()
    ||| exists|i: int| 0 <= i < keys.len() && (#[trigger] keys[i]).plain_equal(e)
    ||| e.vars() != Set::<Seq<char>>::empty() && e.vars().subset_of(grouped_vars(keys))
}

/// The items of a grouped RETURN clause.
pub open spec fn grouping_notes(
    items: Seq<ReturnItem>,
    keys: Seq<Expr>,
    shown: spec_fn(u64) -> Seq<char>,
    n: Notes,
) -> Notes
    decreases items.len(),
{
    if items.len() == 0 {
        n
    } else {
        let n1 = grouping_notes(items.drop_last(), keys, shown, n);
        match items.last() {
            ReturnItem::Expr { expr, .. } => if determined(expr, keys) {
                n1
            } else {
                n1.error(
                    "RETURN item `"@ + expr.text(shown)
                        + "` is not functionally determined by the GROUP BY keys; a non-aggregate projection must match a grouping key or depend only on grouped binding variables."@,
                )
            },
            ReturnItem::Aggregate { .. } => n1,
        }
    }
}

/// The items of a RETURN clause, none where there is no clause.
pub open spec fn items_of(projected: Option<Vec<ReturnItem>>) -> Seq<ReturnItem> {
    match projected {
        Some(items) => items@,
        None => Seq::empty(),
    }
}

/// What is said of a column that is not there.
pub open spec fn bounds_text(col: usize, items: Seq<ReturnItem>) -> Seq<char> {
    "ORDER BY column reference #"@ + crate::text::decimal(col as nat)
        + " is out of bounds for the RETURN clause (only "@ + crate::text::decimal(items.len())
        + " item(s) projected)"@
}

/// The type of a projected column.
pub open spec fn column_type(
    s: Scope,
    col: usize,
    items: Seq<ReturnItem>,
    env: Env,
    n: Notes,
) -> (Option<SimpleTypeView>, Notes) {
    if col < items.len() {
        match items[col as int] {
            ReturnItem::Expr { expr, .. } => {
                let (t, n1) = super::judgment::judge_expr(s, expr, env, n);
                (Some(t), n1)
            },
            ReturnItem::Aggregate { .. } => (Some(SimpleTypeView::Star), n),
        }
    } else {
        (None, n.error(bounds_text(col, items)))
    }
}

/// The type at the end of a path of fields.
pub open spec fn walked_type(t: SimpleTypeView, path: Seq<String>, n: Notes) -> (
    SimpleTypeView,
    Notes,
)
    decreases path.len(),
{
    if path.len() == 0 {
        (t, n)
    } else {
        let (inner, n1) = walked_type(t, path.drop_last(), n);
        let field = path.last()@;
        match inner {
            SimpleTypeView::Record(fields) => if fields.contains_key(field) {
                (fields[field], n1)
            } else {
                (SimpleTypeView::Zero, n1)
            },
            SimpleTypeView::Star => (inner, n1),
            SimpleTypeView::Zero => (inner, n1),
            _ => (
                SimpleTypeView::Zero,
                n1.error(
                    "ORDER BY field `."@ + field + "` accesses a non-record type "@ + inner.text(),
                ),
            ),
        }
    }
}

/// The type of a sort key; none where its column is not there.
pub open spec fn sort_type(
    s: Scope,
    key: SortKey,
    items: Seq<ReturnItem>,
    env: Env,
    n: Notes,
) -> (Option<SimpleTypeView>, Notes) {
    match key {
        SortKey::Expr(e) => {
            let (t, n1) = super::judgment::judge_expr(s, e, env, n);
            (Some(t), n1)
        },
        SortKey::Column(col) => column_type(s, col, items, env, n),
        SortKey::ColumnCast { col, ty } => if col < items.len() {
            (Some(ty@), n)
        } else {
            (None, n.error(bounds_text(col, items)))
        },
        SortKey::ColumnField { col, path } => {
            let (t, n1) = column_type(s, col, items, env, n);
            match t {
                Some(t) => {
                    let (r, n2) = walked_type(t, path@, n1);
                    (Some(r), n2)
                },
                None => (None, n1),
            }
        },
    }
}

/// What is said of a sort key whose values have no order.
pub open spec fn unordered_text(
    key: SortKey,
    t: SimpleTypeView,
    shown: spec_fn(u64) -> Seq<char>,
) -> Seq<char> {
    "ORDER BY sort key `"@ + key.text(shown) + "` has type "@ + t.text()
        + " which is not a comparable value type per ISO §22.14 Conformance Rule 1; expected a scalar (Int, Float, Bool, Str) — gqlite does not implement Feature GA04 'Universal comparison'."@
}

/// Each sort key.
pub open spec fn sort_notes(
    s: Scope,
    specs: Seq<SortSpec>,
    items: Seq<ReturnItem>,
    env: Env,
    shown: spec_fn(u64) -> Seq<char>,
    n: Notes,
) -> Notes
    decreases specs.len(),
{
    if specs.len() == 0 {
        n
    } else {
        let n1 = sort_notes(s, specs.drop_last(), items, env, shown, n);
        let (t, n2) = sort_type(s, specs.last().key, items, env, n1);
        match t {
            Some(t) => if super::diagnosis::orderable(t) {
                n2
            } else {
                n2.error(unordered_text(specs.last().key, t, shown))
            },
            None => n2,
        }
    }
}

/// Keys over the bindings and keys over the projected row do not mix.
pub open spec fn mixed_keys(specs: Seq<SortSpec>) -> bool {
    &&& exists|i: int| 0 <= i < specs.len() && (#[trigger] specs[i]).key is Expr
    &&& exists|i: int| 0 <= i < specs.len() && !((#[trigger] specs[i]).key is Expr)
}

/// An ORDER BY clause.
pub open spec fn order_notes(
    s: Scope,
    specs: Seq<SortSpec>,
    items: Seq<ReturnItem>,
    env: Env,
    shown: spec_fn(u64) -> Seq<char>,
    n: Notes,
) -> Notes {
    let n1 = if mixed_keys(specs) {
        n.error(
            "ORDER BY mixes RETURN-alias references and free expressions; either use only aliases (each sort target with `AS <name>` in RETURN) or only free expressions over the binding table."@,
        )
    } else {
        n
    };
    sort_notes(s, specs, items, env, shown, n1)
}

/// The clauses of a query that follow its patterns, under their bindings.
pub open spec fn clause_notes(
    s: Scope,
    q: Query,
    env: Env,
    shown: spec_fn(u64) -> Seq<char>,
    n: Notes,
) -> Notes {
    let n1 = match q.group_by {
        Some(keys) => super::judgment::judge_all(s, keys@, env, n).1,
        None => n,
    };
    let n2 = match q.returns {
        Some(items) => {
            let m = return_notes(s, items@, env, n1);
            match q.group_by {
                Some(keys) => grouping_notes(items@, keys@, shown, m),
                None => mixing_note(items@, m),
            }
        },
        None => n1,
    };
    match q.order_by {
        Some(specs) => order_notes(s, specs@, items_of(q.returns), env, shown, n2),
        None => n2,
    }
}

/// The shape and the bindings of a query, and all that is said of it, with
/// floating-point numbers as they are shown.
pub open spec fn judge_query(
    s: Scope,
    q: Query,
    shown: spec_fn(u64) -> Seq<char>,
) -> (Shape, Notes) {
    let (r, n1) = if q.any_optional() {
        judge_chain(s, q.matches@, Notes::none())
    } else {
        super::judgment::judge_pattern(
            s,
            crate::syntax::query::joined_patterns(q.matches@),
            Notes::none(),
        )
    };
    let n2 = unbounded_clauses(q.matches@, n1);
    let n3 = isolation_notes(
        selected_in_all(q.matches@),
        declared_in_all(q.matches@),
        n2,
    );
    (r, clause_notes(s, q, r.env, shown, n3))
}

/// No match of the query can exist.
pub open spec fn shape_is_empty(r: Shape) -> bool {
    r.path.is_unsatisfiable() || super::type_environment::env_is_empty(r.env)
}

/// `expr_ready` for each item of a RETURN clause.
pub open spec fn items_ready(items: Seq<ReturnItem>) -> bool {
    forall|i: int|
        0 <= i < items.len() ==> match #[trigger] items[i] {
            ReturnItem::Expr { expr, .. } => super::judgment::expr_ready(expr),
            ReturnItem::Aggregate { agg, .. } => super::judgment::aggregate_ready(agg),
        }
}

/// `expr_ready` for each sort key.
pub open spec fn specs_ready(specs: Seq<SortSpec>) -> bool {
    forall|i: int|
        0 <= i < specs.len() ==> match (#[trigger] specs[i]).key {
            SortKey::Expr(e) => super::judgment::expr_ready(e),
            _ => true,
        }
}

/// The query has a MATCH clause, and every COALESCE that is looked at has an
/// argument.
pub open spec fn query_ready(q: Query) -> bool {
    &&& q.matches@.len() > 0
    &&& super::judgment::body_ready(q.matches@)
    &&& match q.group_by {
        Some(keys) => super::judgment::all_ready(keys@),
        None => true,
    }
    &&& items_ready(items_of(q.returns))
    &&& match q.order_by {
        Some(specs) => specs_ready(specs@),
        None => true,
    }
}

} // verus!
