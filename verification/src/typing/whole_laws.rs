//! A query is refused where a part of it is: nothing that is said of a part is
//! lost, and nothing is said of what is in order.

use vstd::prelude::*;

use super::judgment::{Notes, Scope};
use super::type_environment::Env;
use crate::syntax::expr::Expr;
use crate::syntax::path_pattern::PathPattern;
use crate::syntax::path_prefix::{PathMode, PathPrefix, PathSearch};
use crate::syntax::query::{Aggregator, MatchStatement, Query, ReturnItem, SortKey, SortSpec};

verus! {

/// As much is said, or more.
pub open spec fn grew(a: Notes, b: Notes) -> bool {
    a.errors.len() <= b.errors.len() && a.warnings.len() <= b.warnings.len()
}

/// Of a pattern without prefixes one error is said for each unbounded repetition
/// in it, and under a mode that leaves finitely many paths nothing is said.
pub proof fn each_unbounded_repetition_is_an_error(p: PathPattern, prefix: PathPrefix, n: Notes)
    requires
        !p.selects(),
    ensures
        super::query_judgment::unbounded_notes(p, None, n).errors.len() == n.errors.len()
            + p.unbounded_lbs().len(),
        super::query_judgment::unbounded_notes(p, None, n).warnings == n.warnings,
        prefix.mode != PathMode::Walk ==> super::query_judgment::unbounded_notes(
            p,
            Some(prefix),
            n,
        ) == n,
        prefix.mode == PathMode::Walk && (prefix.search == PathSearch::All || prefix.search is Any)
            ==> super::query_judgment::unbounded_notes(p, Some(prefix), n).errors.len()
            == n.errors.len() + p.unbounded_lbs().len(),
    decreases p,
{
    match p {
        PathPattern::Concat(a, b) => {
            each_unbounded_repetition_is_an_error(*a, prefix, n);
            each_unbounded_repetition_is_an_error(
                *b,
                prefix,
                super::query_judgment::unbounded_notes(*a, None, n),
            );
            each_unbounded_repetition_is_an_error(
                *b,
                prefix,
                super::query_judgment::unbounded_notes(*a, Some(prefix), n),
            );
        },
        PathPattern::Union(a, b) => {
            each_unbounded_repetition_is_an_error(*a, prefix, n);
            each_unbounded_repetition_is_an_error(
                *b,
                prefix,
                super::query_judgment::unbounded_notes(*a, None, n),
            );
            each_unbounded_repetition_is_an_error(
                *b,
                prefix,
                super::query_judgment::unbounded_notes(*a, Some(prefix), n),
            );
        },
        PathPattern::Join(a, b) => {
            each_unbounded_repetition_is_an_error(*a, prefix, n);
            each_unbounded_repetition_is_an_error(
                *b,
                prefix,
                super::query_judgment::unbounded_notes(*a, None, n),
            );
            each_unbounded_repetition_is_an_error(
                *b,
                prefix,
                super::query_judgment::unbounded_notes(*a, Some(prefix), n),
            );
        },
        PathPattern::Filter(a, _) => each_unbounded_repetition_is_an_error(*a, prefix, n),
        PathPattern::Questioned(a) => each_unbounded_repetition_is_an_error(*a, prefix, n),
        PathPattern::Named { pattern, .. } => each_unbounded_repetition_is_an_error(
            *pattern,
            prefix,
            n,
        ),
        PathPattern::Repeat { pattern, lb, ub } => {
            let bare = if ub is None {
                super::query_judgment::unbounded_note(lb, None, n)
            } else {
                n
            };
            let under = if ub is None {
                super::query_judgment::unbounded_note(lb, Some(prefix), n)
            } else {
                n
            };
            each_unbounded_repetition_is_an_error(*pattern, prefix, bare);
            each_unbounded_repetition_is_an_error(*pattern, prefix, under);
        },
        _ => {},
    }
}

proof fn unbounded_grows(p: PathPattern, prefix: Option<PathPrefix>, n: Notes)
    ensures
        grew(n, super::query_judgment::unbounded_notes(p, prefix, n)),
    decreases p,
{
    match p {
        PathPattern::Selected { prefix: pp, pattern } => unbounded_grows(*pattern, Some(pp), n),
        PathPattern::Repeat { pattern, lb, ub } => {
            let m = if ub is None {
                super::query_judgment::unbounded_note(lb, prefix, n)
            } else {
                n
            };
            unbounded_grows(*pattern, prefix, m);
        },
        PathPattern::Concat(a, b) => {
            unbounded_grows(*a, prefix, n);
            unbounded_grows(*b, prefix, super::query_judgment::unbounded_notes(*a, prefix, n));
        },
        PathPattern::Union(a, b) => {
            unbounded_grows(*a, prefix, n);
            unbounded_grows(*b, prefix, super::query_judgment::unbounded_notes(*a, prefix, n));
        },
        PathPattern::Join(a, b) => {
            unbounded_grows(*a, prefix, n);
            unbounded_grows(*b, prefix, super::query_judgment::unbounded_notes(*a, prefix, n));
        },
        PathPattern::Filter(a, _) => unbounded_grows(*a, prefix, n),
        PathPattern::Questioned(a) => unbounded_grows(*a, prefix, n),
        PathPattern::Named { pattern, .. } => unbounded_grows(*pattern, prefix, n),
        _ => {},
    }
}

proof fn clauses_grow(ms: Seq<MatchStatement>, n: Notes, i: int)
    ensures
        grew(n, super::query_judgment::unbounded_clauses(ms, n)),
        0 <= i < ms.len() && !ms[i].own_pattern().selects()
            && ms[i].own_pattern().unbounded_lbs().len() > 0
            ==> super::query_judgment::unbounded_clauses(ms, n).errors.len() > n.errors.len(),
    decreases ms.len(),
{
    if ms.len() > 0 {
        let u = ms.drop_last();
        clauses_grow(u, n, i);
        let m = super::query_judgment::unbounded_clauses(u, n);
        unbounded_grows(ms.last().own_pattern(), None, m);
        if 0 <= i < u.len() {
            assert(u[i] == ms[i]);
        }
        if i == ms.len() - 1 && !ms[i].own_pattern().selects() {
            each_unbounded_repetition_is_an_error(
                ms[i].own_pattern(),
                PathPrefix { mode: PathMode::Walk, search: PathSearch::All },
                m,
            );
        }
    }
}

proof fn isolation_grows(ps: Seq<PathPattern>, all: Seq<Seq<char>>, n: Notes, i: int)
    ensures
        grew(n, super::query_judgment::isolation_notes(ps, all, n)),
        0 <= i < ps.len() && (forall|m: Notes|
            (#[trigger] super::query_judgment::isolation_note(ps[i], all, m)).errors.len()
                > m.errors.len()) ==> super::query_judgment::isolation_notes(
            ps,
            all,
            n,
        ).errors.len() > n.errors.len(),
    decreases ps.len(),
{
    if ps.len() > 0 {
        isolation_grows(ps.drop_last(), all, n, i);
        let m = super::query_judgment::isolation_notes(ps.drop_last(), all, n);
        assert(grew(m, super::query_judgment::isolation_note(ps.last(), all, m)));
        if i == ps.len() - 1 {
            assert(ps[i] == ps.last());
        } else if 0 <= i < ps.len() {
            assert(ps.drop_last()[i] == ps[i]);
        }
    }
}

proof fn expr_grows(s: Scope, e: Expr, env: Env, n: Notes)
    ensures
        grew(n, super::judgment::judge_expr(s, e, env, n).1),
{
    super::note_laws::expr_appends(s, e, env, n);
}

proof fn aggregate_grows(s: Scope, agg: Aggregator, env: Env, n: Notes)
    ensures
        grew(n, super::judgment::judge_aggregate(s, agg, env, n).1),
{
    if let Aggregator::GeneralSet { expr, .. } = agg {
        expr_grows(s, expr, env, n);
    }
}

proof fn all_grow(s: Scope, es: Seq<Expr>, env: Env, n: Notes)
    ensures
        grew(n, super::judgment::judge_all(s, es, env, n).1),
    decreases es.len(),
{
    if es.len() > 0 {
        all_grow(s, es.drop_last(), env, n);
        expr_grows(s, es.last(), env, super::judgment::judge_all(s, es.drop_last(), env, n).1);
    }
}

proof fn returns_grow(s: Scope, items: Seq<ReturnItem>, env: Env, n: Notes)
    ensures
        grew(n, super::query_judgment::return_notes(s, items, env, n)),
    decreases items.len(),
{
    if items.len() > 0 {
        returns_grow(s, items.drop_last(), env, n);
        let m = super::query_judgment::return_notes(s, items.drop_last(), env, n);
        match items.last() {
            ReturnItem::Expr { expr, .. } => expr_grows(s, expr, env, m),
            ReturnItem::Aggregate { agg, .. } => aggregate_grows(s, agg, env, m),
        }
    }
}

proof fn column_grows(s: Scope, col: usize, items: Seq<ReturnItem>, env: Env, n: Notes)
    ensures
        grew(n, super::query_judgment::column_type(s, col, items, env, n).1),
{
    if col < items.len() {
        if let ReturnItem::Expr { expr, .. } = items[col as int] {
            expr_grows(s, expr, env, n);
        }
    }
}

proof fn sorts_grow(
    s: Scope,
    specs: Seq<SortSpec>,
    items: Seq<ReturnItem>,
    env: Env,
    shown: spec_fn(u64) -> Seq<char>,
    n: Notes,
)
    ensures
        grew(n, super::query_judgment::sort_notes(s, specs, items, env, shown, n)),
    decreases specs.len(),
{
    if specs.len() > 0 {
        sorts_grow(s, specs.drop_last(), items, env, shown, n);
        let m = super::query_judgment::sort_notes(s, specs.drop_last(), items, env, shown, n);
        match specs.last().key {
            SortKey::Expr(e) => expr_grows(s, e, env, m),
            SortKey::Column(col) => column_grows(s, col, items, env, m),
            SortKey::ColumnCast { .. } => {},
            SortKey::ColumnField { col, path } => {
                column_grows(s, col, items, env, m);
                let (t, n1) = super::query_judgment::column_type(s, col, items, env, m);
                if let Some(t) = t {
                    super::access_laws::walks_only_add(t, path@, n1);
                }
            },
        }
    }
}

/// The result mixes aggregates with items that are none.
pub open spec fn mixes(items: Seq<ReturnItem>) -> bool {
    exists|i: int, j: int|
        0 <= i < items.len() && 0 <= j < items.len() && #[trigger] items[i] is Aggregate
            && #[trigger] items[j] is Expr && !items[j]->expr.has_agg()
}

proof fn clauses_after_grow(
    s: Scope,
    q: Query,
    env: Env,
    shown: spec_fn(u64) -> Seq<char>,
    n: Notes,
)
    ensures
        ({
            let m = super::query_judgment::clause_notes(s, q, env, shown, n);
            &&& grew(n, m)
            &&& q.order_by is Some && super::query_judgment::mixed_keys(q.order_by->Some_0@)
                ==> m.errors.len() > n.errors.len()
            &&& q.returns is Some && q.group_by is None && mixes(q.returns->Some_0@)
                ==> m.errors.len() > n.errors.len()
            &&& q.returns is Some && q.group_by is Some && super::clause_laws::misfits(
                q.returns->Some_0@,
                q.group_by->Some_0@,
            ) > 0 ==> m.errors.len() > n.errors.len()
        }),
{
    let n1 = match q.group_by {
        Some(keys) => super::judgment::judge_all(s, keys@, env, n).1,
        None => n,
    };
    if let Some(keys) = q.group_by {
        all_grow(s, keys@, env, n);
    }
    let n2 = match q.returns {
        Some(items) => {
            let m = super::query_judgment::return_notes(s, items@, env, n1);
            match q.group_by {
                Some(keys) => super::query_judgment::grouping_notes(items@, keys@, shown, m),
                None => super::query_judgment::mixing_note(items@, m),
            }
        },
        None => n1,
    };
    if let Some(items) = q.returns {
        returns_grow(s, items@, env, n1);
        let m = super::query_judgment::return_notes(s, items@, env, n1);
        match q.group_by {
            Some(keys) => super::clause_laws::grouped_items_are_decided(items@, keys@, shown, m),
            None => {
                if mixes(items@) {
                    let (i, j) = choose|i: int, j: int|
                        0 <= i < items@.len() && 0 <= j < items@.len()
                            && #[trigger] items@[i] is Aggregate && #[trigger] items@[j] is Expr
                            && !items@[j]->expr.has_agg();
                    assert(items@[i].aggregates());
                    assert(!items@[j].aggregates());
                }
            },
        }
    }
    if let Some(specs) = q.order_by {
        let n3 = if super::query_judgment::mixed_keys(specs@) {
            n2.error(
                "ORDER BY mixes RETURN-alias references and free expressions; either use only aliases (each sort target with `AS <name>` in RETURN) or only free expressions over the binding table."@,
            )
        } else {
            n2
        };
        sorts_grow(s, specs@, super::query_judgment::items_of(q.returns), env, shown, n3);
    }
}

/// A query is refused where its patterns are, where one of them repeats without
/// bound under no prefix, where its sort keys mix columns of the result with
/// expressions over the bindings, where its result mixes aggregates with other
/// items without grouping, and where grouping does not decide an item.
pub proof fn queries_are_refused_with_their_parts(
    s: Scope,
    q: Query,
    shown: spec_fn(u64) -> Seq<char>,
    i: int,
)
    requires
        ({
            ||| !q.any_optional() && super::judgment::judge_pattern(
                s,
                crate::syntax::query::joined_patterns(q.matches@),
                Notes::none(),
            ).1.errors.len() > 0
            ||| 0 <= i < q.matches@.len() && !q.matches@[i].own_pattern().selects()
                && q.matches@[i].own_pattern().unbounded_lbs().len() > 0
            ||| q.order_by is Some && super::query_judgment::mixed_keys(q.order_by->Some_0@)
            ||| q.returns is Some && q.group_by is None && mixes(q.returns->Some_0@)
            ||| q.returns is Some && q.group_by is Some && super::clause_laws::misfits(
                q.returns->Some_0@,
                q.group_by->Some_0@,
            ) > 0
        }),
    ensures
        super::query_judgment::judge_query(s, q, shown).1.errors.len() > 0,
{
    let (r, n1) = if q.any_optional() {
        super::query_judgment::judge_chain(s, q.matches@, Notes::none())
    } else {
        super::judgment::judge_pattern(
            s,
            crate::syntax::query::joined_patterns(q.matches@),
            Notes::none(),
        )
    };
    clauses_grow(q.matches@, n1, i);
    let n2 = super::query_judgment::unbounded_clauses(q.matches@, n1);
    isolation_grows(
        super::query_judgment::selected_in_all(q.matches@),
        super::query_judgment::declared_in_all(q.matches@),
        n2,
        -1,
    );
    let n3 = super::query_judgment::isolation_notes(
        super::query_judgment::selected_in_all(q.matches@),
        super::query_judgment::declared_in_all(q.matches@),
        n2,
    );
    clauses_after_grow(s, q, r.env, shown, n3);
}

/// A query is refused where an operand that keeps some paths and not all of them
/// has a variable inside it that the rest of the query declares too.
pub proof fn queries_do_not_share_interiors(
    s: Scope,
    q: Query,
    shown: spec_fn(u64) -> Seq<char>,
    prefix: PathPrefix,
    p: PathPattern,
    before: Seq<Seq<char>>,
    after: Seq<Seq<char>>,
    v: Seq<char>,
)
    requires
        super::query_judgment::selected_in_all(q.matches@).contains(
            (PathPattern::Selected { prefix, pattern: Box::new(p) }),
        ),
        prefix.search != PathSearch::All,
        super::query_judgment::declared_in_all(q.matches@) == before
            + super::query_judgment::declared(p) + after,
        super::clause_laws::shares_interior(p, before + after, v),
    ensures
        super::query_judgment::judge_query(s, q, shown).1.errors.len() > 0,
{
    let operand = PathPattern::Selected { prefix, pattern: Box::new(p) };
    let ps = super::query_judgment::selected_in_all(q.matches@);
    let all = super::query_judgment::declared_in_all(q.matches@);
    let i = choose|i: int| 0 <= i < ps.len() && ps[i] == operand;
    let (r, n1) = if q.any_optional() {
        super::query_judgment::judge_chain(s, q.matches@, Notes::none())
    } else {
        super::judgment::judge_pattern(
            s,
            crate::syntax::query::joined_patterns(q.matches@),
            Notes::none(),
        )
    };
    let n2 = super::query_judgment::unbounded_clauses(q.matches@, n1);
    assert forall|m: Notes| (#[trigger] super::query_judgment::isolation_note(
        ps[i],
        all,
        m,
    )).errors.len() > m.errors.len() by {
        super::clause_laws::interiors_are_not_shared(prefix, p, before, after, m);
    }
    isolation_grows(ps, all, n2, i);
    let n3 = super::query_judgment::isolation_notes(ps, all, n2);
    clauses_after_grow(s, q, r.env, shown, n3);
}

} // verus!
