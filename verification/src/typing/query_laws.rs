//! What is said of the clauses of a query.

use vstd::prelude::*;

use super::element_laws::Thing;
use super::judgment::{Notes, Scope};
use super::simple_type::SimpleTypeView;
use super::type_environment::Env;
use super::variable_type::{SchemaView, VariableTypeView};
use crate::syntax::expr::Expr;
use crate::syntax::path_pattern::PathPattern;
use crate::syntax::path_prefix::{PathMode, PathPrefix};
use crate::syntax::query::{MatchStatement, Query, ReturnItem, SortKey};

verus! {

/// One error is said, and no more.
pub open spec fn failed_once(a: Notes, b: Notes) -> bool {
    &&& b.warnings == a.warnings
    &&& b.errors.len() == a.errors.len() + 1
    &&& b.errors.drop_last() == a.errors
}

proof fn one_error(n: Notes, text: Seq<char>)
    ensures
        failed_once(n, n.error(text)),
{
    assert(n.error(text).errors.drop_last() =~= n.errors);
}

/// A variable that is bound, or that a comprehension introduces, is known. Any
/// other is an error.
pub proof fn variables_must_be_bound(s: Scope, name: String, env: Env, n: Notes)
    ensures
        ({
            let (t, m) = super::judgment::judge_expr(s, Expr::Var(name), env, n);
            &&& s.locals.contains(name@) || env.contains_key(name@) ==> m == n
            &&& !s.locals.contains(name@) && !env.contains_key(name@) ==> failed_once(n, m)
                && t is Zero
            &&& !s.locals.contains(name@) && env.contains_key(name@) && env[name@] is Node
                ==> t is Node
            &&& !s.locals.contains(name@) && env.contains_key(name@) && (env[name@] is
                EdgeDirectional || env[name@] is EdgeNonDirectional) ==> t is Edge
            &&& !s.locals.contains(name@) && env.contains_key(name@) && env[name@] is Path
                ==> t is Path
        }),
{
    one_error(n, "Variable "@ + name@ + " not found in context"@);
}

/// An attribute of a bound element has the type that the element's record gives
/// it. One that cannot be there is warned of, and one of an unbound variable is an
/// error.
pub proof fn attributes_must_be_there(s: Scope, var: String, attr: String, env: Env, n: Notes)
    requires
        !s.locals.contains(var@),
    ensures
        ({
            let (t, m) = super::judgment::judge_expr(s, Expr::AttrLookup { var, attr }, env, n);
            &&& !env.contains_key(var@) ==> failed_once(n, m) && t is Zero
            &&& env.contains_key(var@) && env[var@] is Node ==> t
                == env[var@]->Node_0.props.get(attr@) && (t.is_empty()
                ==> super::value_laws::warned_once(n, m)) && (!t.is_empty() ==> m == n)
            &&& env.contains_key(var@) && env[var@] is Zero ==> super::value_laws::warned_once(
                n,
                m,
            ) && t is Zero
        }),
{
    one_error(n, "Variable "@ + var@ + " not found in context"@);
    let text1 = "Variable "@ + var@ + " is bound to empty type"@;
    assert(n.warn(text1).warnings.drop_last() =~= n.warnings);
    let text2 = "Attribute "@ + attr@ + " not found in "@ + env[var@].text();
    assert(n.warn(text2).warnings.drop_last() =~= n.warnings);
}

/// Without GROUP BY a RETURN of an aggregate beside another item is an error, and
/// one of aggregates alone or of none is not.
pub proof fn aggregates_stand_alone(items: Seq<ReturnItem>, n: Notes)
    ensures
        ({
            let m = super::query_judgment::mixing_note(items, n);
            &&& (forall|i: int| 0 <= i < items.len() ==> #[trigger] items[i] is Aggregate) ==> m
                == n
            &&& (forall|i: int|
                0 <= i < items.len() ==> #[trigger] items[i] is Expr && !items[i]->expr.has_agg())
                ==> m == n
            &&& (forall|a: int, b: int|
                0 <= a < items.len() && 0 <= b < items.len() && #[trigger] items[a] is Aggregate
                    && #[trigger] items[b] is Expr && !items[b]->expr.has_agg() ==> failed_once(
                    n,
                    m,
                ))
        }),
{
    let m = super::query_judgment::mixing_note(items, n);
    one_error(
        n,
        "RETURN mixes aggregate and non-aggregate items but no GROUP BY clause is present. Add `GROUP BY <expr>...` before the RETURN."@,
    );
    assert forall|a: int, b: int|
        0 <= a < items.len() && 0 <= b < items.len() && #[trigger] items[a] is Aggregate
            && #[trigger] items[b] is Expr && !items[b]->expr.has_agg() implies failed_once(
        n,
        m,
    ) by {
        assert(items[a].aggregates());
        assert(!items[b].aggregates());
    }
    if forall|i: int| 0 <= i < items.len() ==> #[trigger] items[i] is Aggregate {
        assert forall|i: int| 0 <= i < items.len() implies (#[trigger] items[i]).aggregates() by {
            assert(items[i] is Aggregate);
        }
    }
    if forall|i: int|
        0 <= i < items.len() ==> #[trigger] items[i] is Expr && !items[i]->expr.has_agg() {
        assert forall|i: int| 0 <= i < items.len() implies !(#[trigger] items[i]).aggregates() by {
            assert(items[i] is Expr);
        }
    }
}

/// An attribute in a grouped RETURN is determined exactly where it is a key itself
/// or its variable is one. A variable is determined where it is a key.
pub proof fn grouped_attributes(var: String, attr: String, keys: Seq<Expr>)
    ensures
        super::query_judgment::determined(Expr::AttrLookup { var, attr }, keys) <==> exists|i: int|
            0 <= i < keys.len() && match #[trigger] keys[i] {
                Expr::Var(v) => v@ == var@,
                Expr::AttrLookup { var: v, attr: a } => v@ == var@ && a@ == attr@,
                _ => false,
            },
        super::query_judgment::determined(Expr::Var(var), keys) <==> exists|i: int|
            0 <= i < keys.len() && match #[trigger] keys[i] {
                Expr::Var(v) => v@ == var@,
                _ => false,
            },
{
    let e = Expr::AttrLookup { var, attr };
    let f = Expr::Var(var);
    let grouped = super::query_judgment::grouped_vars(keys);
    assert(e.vars() =~= Set::<Seq<char>>::empty().insert(var@));
    assert(f.vars() =~= Set::<Seq<char>>::empty().insert(var@));
    assert(e.vars().contains(var@) && f.vars().contains(var@));
    if exists|i: int|
        0 <= i < keys.len() && match #[trigger] keys[i] {
            Expr::Var(v) => v@ == var@,
            _ => false,
        } {
        let i = choose|i: int|
            0 <= i < keys.len() && match #[trigger] keys[i] {
                Expr::Var(v) => v@ == var@,
                _ => false,
            };
        assert(keys[i] is Var && keys[i]->Var_0@ == var@);
        assert(grouped.contains(var@));
        assert(e.vars().subset_of(grouped) && f.vars().subset_of(grouped));
    }
    if e.vars().subset_of(grouped) {
        assert(grouped.contains(var@));
        let i = choose|i: int|
            0 <= i < keys.len() && #[trigger] keys[i] is Var && keys[i]->Var_0@ == var@;
        assert(match keys[i] {
            Expr::Var(v) => v@ == var@,
            _ => false,
        });
    }
    if exists|i: int| 0 <= i < keys.len() && (#[trigger] keys[i]).plain_equal(e) {
        let i = choose|i: int| 0 <= i < keys.len() && (#[trigger] keys[i]).plain_equal(e);
        assert(match keys[i] {
            Expr::AttrLookup { var: v, attr: a } => v@ == var@ && a@ == attr@,
            _ => false,
        });
    }
    if exists|i: int| 0 <= i < keys.len() && (#[trigger] keys[i]).plain_equal(f) {
        let i = choose|i: int| 0 <= i < keys.len() && (#[trigger] keys[i]).plain_equal(f);
        assert(match keys[i] {
            Expr::Var(v) => v@ == var@,
            _ => false,
        });
    }
    if exists|i: int|
        0 <= i < keys.len() && match #[trigger] keys[i] {
            Expr::AttrLookup { var: v, attr: a } => v@ == var@ && a@ == attr@,
            _ => false,
        } {
        let i = choose|i: int|
            0 <= i < keys.len() && match #[trigger] keys[i] {
                Expr::AttrLookup { var: v, attr: a } => v@ == var@ && a@ == attr@,
                _ => false,
            };
        assert(keys[i].plain_equal(e));
    }
}

/// Rows can be sorted by scalars and by what is unknown, and by nothing else: a
/// type is such that every alternative of it is a scalar or unknown.
pub proof fn only_scalars_are_sorted(
    t: SimpleTypeView,
    a: SimpleTypeView,
    b: SimpleTypeView,
)
    ensures
        t is Z || t is F || t is B || t is S || t is Star ==> super::diagnosis::orderable(t),
        t is Node || t is Edge || t is Path || t is List || t is Record || t is Group || t is Zero
            ==> !super::diagnosis::orderable(t),
        super::diagnosis::orderable(SimpleTypeView::Union(Box::new(a), Box::new(b)))
            <==> super::diagnosis::orderable(a) && super::diagnosis::orderable(b),
{
}

/// A sort by a column wants the column to be there: an error otherwise, and no
/// type.
pub proof fn sorted_columns_must_be_there(
    s: Scope,
    col: usize,
    items: Seq<ReturnItem>,
    env: Env,
    n: Notes,
)
    ensures
        ({
            let (t, m) = super::query_judgment::sort_type(s, SortKey::Column(col), items, env, n);
            &&& col >= items.len() ==> t is None && failed_once(n, m)
            &&& col < items.len() ==> t is Some
            &&& col < items.len() && items[col as int] is Expr ==> (t->Some_0, m)
                == super::judgment::judge_expr(s, items[col as int]->expr, env, n)
        }),
{
    one_error(n, super::query_judgment::bounds_text(col, items));
}

/// Repetition without an upper bound is an error under no prefix, and under a
/// prefix that keeps all or arbitrary walks. It is none under a mode that leaves
/// finitely many paths, and under a search for shortest walks where the lower bound
/// is at most one. Repetition with an upper bound is never one.
pub proof fn unbounded_repetition_needs_a_prefix(
    edge: PathPattern,
    lb: usize,
    ub: usize,
    prefix: PathPrefix,
    any: Option<PathPrefix>,
    n: Notes,
)
    requires
        edge is EdgeRight || edge is EdgeLeft || edge is EdgeUndirected || edge is EdgeAnyDirection,
    ensures
        ({
            let rep = PathPattern::Repeat { pattern: Box::new(edge), lb, ub: None };
            let bare = super::query_judgment::unbounded_notes(rep, None, n);
            let under = super::query_judgment::unbounded_notes(
                PathPattern::Selected { prefix, pattern: Box::new(rep) },
                None,
                n,
            );
            let shortest = prefix.search is ShortestPaths || prefix.search is ShortestGroups;
            &&& failed_once(n, bare)
            &&& prefix.mode != PathMode::Walk ==> under == n
            &&& prefix.mode == PathMode::Walk && !shortest ==> failed_once(n, under)
            &&& prefix.mode == PathMode::Walk && shortest && lb <= 1 ==> under == n
            &&& prefix.mode == PathMode::Walk && shortest && lb > 1 ==> failed_once(n, under)
        }),
        super::query_judgment::unbounded_notes(
            PathPattern::Repeat { pattern: Box::new(edge), lb, ub: Some(ub) },
            any,
            n,
        ) == n,
{
    reveal_with_fuel(super::query_judgment::unbounded_notes, 3);
    let rep = PathPattern::Repeat { pattern: Box::new(edge), lb, ub: None };
    one_error(
        n,
        "Unbounded repetition (`*`, `+`, `{n,}`) is only supported under a SHORTEST-family path search prefix (`ANY SHORTEST`, `ALL SHORTEST`, `SHORTEST n [PATHS]`, `SHORTEST n GROUPS`) or a restrictive path mode (`ACYCLIC`, `SIMPLE`, `TRAIL`). Bounded repetition `{n,m}` works without any prefix."@,
    );
    one_error(
        n,
        "SHORTEST over unbounded repetition supports `*` and `+` only; `{n,}` with n >= 2 needs a restrictive path mode (`ACYCLIC` / `SIMPLE` / `TRAIL`) instead."@,
    );
}

/// What an OPTIONAL MATCH binds: variables that were bound keep every element they
/// could stand for, new ones can be null besides.
pub proof fn optional_clauses_lose_nothing(
    schema: SchemaView,
    a: Env,
    b: Env,
    k: Seq<char>,
    x: Thing,
)
    ensures
        ({
            let j = super::type_environment::env_outer_join(schema, a, b);
            &&& j.contains_key(k) <==> a.contains_key(k) || b.contains_key(k)
            &&& a.contains_key(k) && super::element_laws::is_of(x, a[k])
                ==> super::element_laws::is_of(x, j[k])
            &&& a.contains_key(k) && !b.contains_key(k) ==> j[k] == a[k]
            &&& !a.contains_key(k) && b.contains_key(k) ==> (super::element_laws::is_of(x, j[k])
                <==> super::element_laws::is_of(x, b[k]) || x is Null)
        }),
{
    if a.contains_key(k) && b.contains_key(k) {
        super::element_laws::join_holds_either(x, a[k], schema.refine(a[k].meet(b[k])));
    } else if b.contains_key(k) {
        super::element_laws::join_holds_either(x, b[k], VariableTypeView::Null);
    }
}

/// A query that filters its one pattern by a predicate that no truth value belongs
/// to can match nothing. One whose predicate can be true can match nothing only
/// where its pattern can match nothing.
pub proof fn filters_decide_emptiness(
    s: Scope,
    p: PathPattern,
    e: Expr,
    q: Query,
    shown: spec_fn(u64) -> Seq<char>,
)
    requires
        q.matches@ == seq![MatchStatement::Simple { pattern: PathPattern::Filter(Box::new(p), e) }],
    ensures
        ({
            let (r, n1) = super::judgment::judge_pattern(s, p, Notes::none());
            let (t, n2) = super::judgment::judge_expr(s, e, s.filter_env(r.env), n1);
            let whole = super::query_judgment::judge_query(s, q, shown).0;
            &&& !super::value_laws::can_be_bool(t) ==> super::query_judgment::shape_is_empty(whole)
            &&& super::value_laws::can_be_bool(t) ==> (super::query_judgment::shape_is_empty(whole)
                <==> r.path.is_unsatisfiable() || exists|k: Seq<char>| #[trigger]
                r.env.contains_key(k) && r.env[k].is_empty())
        }),
{
    let f = PathPattern::Filter(Box::new(p), e);
    super::value_laws::filter_asks_for_truth(s, p, e, Notes::none());
    assert(q.matches@[0] == MatchStatement::Simple { pattern: f });
    assert(!q.any_optional());
    assert(crate::syntax::query::joined_patterns(q.matches@) == f);
}

} // verus!
