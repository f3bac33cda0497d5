//! What is said of a pattern or an expression as a whole is said of its parts:
//! a prefix, a variable or an aggregate occurs in it where a part is one.

use vstd::prelude::*;

use super::expr::Expr;
use super::path_pattern::PathPattern;
use super::query::MatchStatement;

verus! {

/// One pattern is a part of another, or the other itself.
pub open spec fn is_part(q: PathPattern, p: PathPattern) -> bool
    decreases p,
{
    q == p || match p {
        PathPattern::Concat(a, b) => is_part(q, *a) || is_part(q, *b),
        PathPattern::Union(a, b) => is_part(q, *a) || is_part(q, *b),
        PathPattern::Join(a, b) => is_part(q, *a) || is_part(q, *b),
        PathPattern::Filter(a, _) => is_part(q, *a),
        PathPattern::Repeat { pattern, .. } => is_part(q, *pattern),
        PathPattern::Questioned(a) => is_part(q, *a),
        PathPattern::Selected { pattern, .. } => is_part(q, *pattern),
        PathPattern::Named { pattern, .. } => is_part(q, *pattern),
        _ => false,
    }
}

/// What a pattern by itself can be.
pub ghost enum Feature {
    /// An operand with a prefix.
    Prefixed,
    /// This operand with a prefix.
    Operand(PathPattern),
    /// An edge without a direction.
    Undirected,
    /// A node or an edge under this variable.
    Binds(Seq<char>),
    /// A repetition from this number on, without an end.
    Unbounded(usize),
    /// Neither a node, nor an edge of one direction, nor a concatenation.
    NotInserted,
}

/// A pattern by itself, whatever its parts are, is what is asked for.
pub open spec fn shows(q: PathPattern, f: Feature) -> bool {
    match f {
        Feature::Prefixed => q is Selected,
        Feature::Operand(x) => q is Selected && q == x,
        Feature::Undirected => q is EdgeUndirected,
        Feature::Binds(v) => match q {
            PathPattern::Node(Some(d)) => d.var is Some && d.var->Some_0@ == v,
            PathPattern::EdgeRight(Some(d)) => d.var is Some && d.var->Some_0@ == v,
            PathPattern::EdgeLeft(Some(d)) => d.var is Some && d.var->Some_0@ == v,
            PathPattern::EdgeUndirected(Some(d)) => d.var is Some && d.var->Some_0@ == v,
            PathPattern::EdgeAnyDirection(Some(d)) => d.var is Some && d.var->Some_0@ == v,
            _ => false,
        },
        Feature::Unbounded(n) => q matches PathPattern::Repeat { lb, ub, .. } && lb == n
            && ub is None,
        Feature::NotInserted => !(q is Node || q is EdgeRight || q is EdgeLeft
            || q is EdgeUndirected || q is Concat),
    }
}

/// Some part is what is asked for.
pub open spec fn some_part(p: PathPattern, f: Feature) -> bool {
    exists|q: PathPattern| #[trigger] is_part(q, p) && shows(q, f)
}

/// Some part is, or the pattern itself.
spec fn steps(p: PathPattern, f: Feature) -> bool {
    shows(p, f) || match p {
        PathPattern::Concat(a, b) => some_part(*a, f) || some_part(*b, f),
        PathPattern::Union(a, b) => some_part(*a, f) || some_part(*b, f),
        PathPattern::Join(a, b) => some_part(*a, f) || some_part(*b, f),
        PathPattern::Filter(a, _) => some_part(*a, f),
        PathPattern::Repeat { pattern, .. } => some_part(*pattern, f),
        PathPattern::Questioned(a) => some_part(*a, f),
        PathPattern::Selected { pattern, .. } => some_part(*pattern, f),
        PathPattern::Named { pattern, .. } => some_part(*pattern, f),
        _ => false,
    }
}

proof fn lifted(p: PathPattern, child: PathPattern, f: Feature)
    requires
        some_part(child, f),
        forall|q: PathPattern| #[trigger] is_part(q, child) ==> is_part(q, p),
    ensures
        some_part(p, f),
{
    let q = choose|q: PathPattern| #[trigger] is_part(q, child) && shows(q, f);
    assert(is_part(q, p));
}

proof fn parts_step(p: PathPattern, f: Feature)
    ensures
        some_part(p, f) <==> steps(p, f),
{
    if some_part(p, f) {
        let q = choose|q: PathPattern| #[trigger] is_part(q, p) && shows(q, f);
        if q != p {
            match p {
                PathPattern::Concat(a, b) => assert(is_part(q, *a) || is_part(q, *b)),
                PathPattern::Union(a, b) => assert(is_part(q, *a) || is_part(q, *b)),
                PathPattern::Join(a, b) => assert(is_part(q, *a) || is_part(q, *b)),
                PathPattern::Filter(a, _) => assert(is_part(q, *a)),
                PathPattern::Repeat { pattern, .. } => assert(is_part(q, *pattern)),
                PathPattern::Questioned(a) => assert(is_part(q, *a)),
                PathPattern::Selected { pattern, .. } => assert(is_part(q, *pattern)),
                PathPattern::Named { pattern, .. } => assert(is_part(q, *pattern)),
                _ => {},
            }
        }
    }
    if shows(p, f) {
        assert(is_part(p, p));
    } else if steps(p, f) {
        match p {
            PathPattern::Concat(a, b) => if some_part(*a, f) {
                lifted(p, *a, f);
            } else {
                lifted(p, *b, f);
            },
            PathPattern::Union(a, b) => if some_part(*a, f) {
                lifted(p, *a, f);
            } else {
                lifted(p, *b, f);
            },
            PathPattern::Join(a, b) => if some_part(*a, f) {
                lifted(p, *a, f);
            } else {
                lifted(p, *b, f);
            },
            PathPattern::Filter(a, _) => lifted(p, *a, f),
            PathPattern::Repeat { pattern, .. } => lifted(p, *pattern, f),
            PathPattern::Questioned(a) => lifted(p, *a, f),
            PathPattern::Selected { pattern, .. } => lifted(p, *pattern, f),
            PathPattern::Named { pattern, .. } => lifted(p, *pattern, f),
            _ => {},
        }
    }
}

/// A prefix occurs in a pattern, or an undirected edge, or a variable is bound by
/// it, exactly where a part is one.
pub proof fn occurrences_are_parts(p: PathPattern, v: Seq<char>)
    ensures
        p.selects() <==> some_part(p, Feature::Prefixed),
        p.undirected() <==> some_part(p, Feature::Undirected),
        p.vars().contains(v) <==> some_part(p, Feature::Binds(v)),
    decreases p,
{
    parts_step(p, Feature::Prefixed);
    parts_step(p, Feature::Undirected);
    parts_step(p, Feature::Binds(v));
    match p {
        PathPattern::Concat(a, b) => {
            occurrences_are_parts(*a, v);
            occurrences_are_parts(*b, v);
        },
        PathPattern::Union(a, b) => {
            occurrences_are_parts(*a, v);
            occurrences_are_parts(*b, v);
        },
        PathPattern::Join(a, b) => {
            occurrences_are_parts(*a, v);
            occurrences_are_parts(*b, v);
        },
        PathPattern::Filter(a, _) => occurrences_are_parts(*a, v),
        PathPattern::Repeat { pattern, .. } => occurrences_are_parts(*pattern, v),
        PathPattern::Questioned(a) => occurrences_are_parts(*a, v),
        PathPattern::Selected { pattern, .. } => occurrences_are_parts(*pattern, v),
        PathPattern::Named { pattern, .. } => occurrences_are_parts(*pattern, v),
        _ => {},
    }
}

/// A pattern can be inserted exactly where all its parts are nodes, edges of one
/// direction and concatenations of such.
pub proof fn inserted_patterns_are_plain(p: PathPattern)
    ensures
        super::dm::insert_objection(p) is Some <==> some_part(p, Feature::NotInserted),
    decreases p,
{
    parts_step(p, Feature::NotInserted);
    match p {
        PathPattern::Concat(a, b) => {
            inserted_patterns_are_plain(*a);
            inserted_patterns_are_plain(*b);
        },
        _ => {},
    }
}

proof fn held_by_either<A>(s: Seq<A>, t: Seq<A>, x: A)
    ensures
        (s + t).contains(x) <==> s.contains(x) || t.contains(x),
{
    if s.contains(x) {
        let k = choose|k: int| 0 <= k < s.len() && s[k] == x;
        assert((s + t)[k] == x);
    }
    if t.contains(x) {
        let k = choose|k: int| 0 <= k < t.len() && t[k] == x;
        assert((s + t)[s.len() + k] == x);
    }
}

/// The lower bounds of unbounded repetitions are those of the parts that are
/// such.
pub proof fn unbounded_repetitions_are_parts(p: PathPattern, lb: usize)
    ensures
        p.unbounded_lbs().contains(lb) <==> some_part(p, Feature::Unbounded(lb)),
    decreases p,
{
    parts_step(p, Feature::Unbounded(lb));
    match p {
        PathPattern::Concat(a, b) => {
            unbounded_repetitions_are_parts(*a, lb);
            unbounded_repetitions_are_parts(*b, lb);
            held_by_either(a.unbounded_lbs(), b.unbounded_lbs(), lb);
        },
        PathPattern::Union(a, b) => {
            unbounded_repetitions_are_parts(*a, lb);
            unbounded_repetitions_are_parts(*b, lb);
            held_by_either(a.unbounded_lbs(), b.unbounded_lbs(), lb);
        },
        PathPattern::Join(a, b) => {
            unbounded_repetitions_are_parts(*a, lb);
            unbounded_repetitions_are_parts(*b, lb);
            held_by_either(a.unbounded_lbs(), b.unbounded_lbs(), lb);
        },
        PathPattern::Filter(a, _) => unbounded_repetitions_are_parts(*a, lb),
        PathPattern::Repeat { pattern, lb: n, ub } => {
            unbounded_repetitions_are_parts(*pattern, lb);
            held_by_either(seq![n], pattern.unbounded_lbs(), lb);
            assert(seq![n].contains(lb) <==> n == lb) by {
                assert(seq![n][0] == n);
            }
        },
        PathPattern::Questioned(a) => unbounded_repetitions_are_parts(*a, lb),
        PathPattern::Selected { pattern, .. } => unbounded_repetitions_are_parts(*pattern, lb),
        PathPattern::Named { pattern, .. } => unbounded_repetitions_are_parts(*pattern, lb),
        _ => {},
    }
}

/// The operands with a prefix that a pattern is searched for are its parts with a
/// prefix, all of them.
pub proof fn operands_are_parts(p: PathPattern, x: PathPattern)
    ensures
        crate::typing::query_judgment::selected_in(p).contains(x) <==> some_part(
            p,
            Feature::Operand(x),
        ),
    decreases p,
{
    let f = Feature::Operand(x);
    parts_step(p, f);
    match p {
        PathPattern::Concat(a, b) => {
            operands_are_parts(*a, x);
            operands_are_parts(*b, x);
            held_by_either(
                crate::typing::query_judgment::selected_in(*a),
                crate::typing::query_judgment::selected_in(*b),
                x,
            );
        },
        PathPattern::Union(a, b) => {
            operands_are_parts(*a, x);
            operands_are_parts(*b, x);
            held_by_either(
                crate::typing::query_judgment::selected_in(*a),
                crate::typing::query_judgment::selected_in(*b),
                x,
            );
        },
        PathPattern::Join(a, b) => {
            operands_are_parts(*a, x);
            operands_are_parts(*b, x);
            held_by_either(
                crate::typing::query_judgment::selected_in(*a),
                crate::typing::query_judgment::selected_in(*b),
                x,
            );
        },
        PathPattern::Filter(a, _) => operands_are_parts(*a, x),
        PathPattern::Repeat { pattern, .. } => operands_are_parts(*pattern, x),
        PathPattern::Questioned(a) => operands_are_parts(*a, x),
        PathPattern::Selected { pattern, .. } => {
            operands_are_parts(*pattern, x);
            held_by_either(
                seq![p],
                crate::typing::query_judgment::selected_in(*pattern),
                x,
            );
            assert(seq![p].contains(x) <==> p == x) by {
                assert(seq![p][0] == p);
            }
        },
        PathPattern::Named { pattern, .. } => operands_are_parts(*pattern, x),
        _ => {},
    }
}

/// One expression is a part of another, or the other itself. Subqueries and
/// aggregates have no parts. Where a variable is given, what a list comprehension
/// binds under that name is no part of it.
pub open spec fn is_term(q: Expr, e: Expr, free: Option<Seq<char>>) -> bool
    decreases e,
{
    q == e || match e {
        Expr::Binop { left, right, .. } => is_term(q, *left, free) || is_term(q, *right, free),
        Expr::Unop { operand, .. } => is_term(q, *operand, free),
        Expr::IsNull { operand, .. } => is_term(q, *operand, free),
        Expr::FieldAccess { base, .. } => is_term(q, *base, free),
        Expr::Coalesce(args) => exists|i: int|
            0 <= i < args@.len() && is_term(q, #[trigger] args@[i], free),
        Expr::Call { args, .. } => exists|i: int|
            0 <= i < args@.len() && is_term(q, #[trigger] args@[i], free),
        Expr::Case { branches, else_expr } => (exists|i: int|
            0 <= i < branches@.len() && (is_term(q, (#[trigger] branches@[i]).0, free) || is_term(
                q,
                branches@[i].1,
                free,
            ))) || (match else_expr {
            Some(x) => is_term(q, *x, free),
            None => false,
        }),
        Expr::Record { fields } => exists|i: int|
            0 <= i < fields@.len() && is_term(q, (#[trigger] fields@[i]).1, free),
        Expr::ListComprehension { var, source, filter, body } => is_term(q, *source, free) || (free
            != Some(var@) && ((match filter {
            Some(x) => is_term(q, *x, free),
            None => false,
        }) || is_term(q, *body, free))),
        _ => false,
    }
}

/// An aggregate occurs in an expression exactly where a part is one.
pub proof fn aggregates_are_terms(e: Expr, q: Expr)
    ensures
        is_term(q, e, None) && q is Agg ==> e.has_agg(),
        e.has_agg() ==> exists|t: Expr| #[trigger] is_term(t, e, None) && t is Agg,
        is_term(q, e, None) && (q is Exists || q is NotExists || q is ValueSubquery)
            ==> e.has_subquery(),
        e.has_subquery() ==> exists|t: Expr| #[trigger]
            is_term(t, e, None) && (t is Exists || t is NotExists || t is ValueSubquery),
    decreases e,
{
    match e {
        Expr::Binop { left, right, .. } => {
            aggregates_are_terms(*left, q);
            aggregates_are_terms(*right, q);
            term_of(e, *left, None);
            term_of(e, *right, None);
        },
        Expr::Unop { operand, .. } => {
            aggregates_are_terms(*operand, q);
            term_of(e, *operand, None);
        },
        Expr::IsNull { operand, .. } => {
            aggregates_are_terms(*operand, q);
            term_of(e, *operand, None);
        },
        Expr::FieldAccess { base, .. } => {
            aggregates_are_terms(*base, q);
            term_of(e, *base, None);
        },
        Expr::Coalesce(args) => {
            assert forall|i: int| 0 <= i < args@.len() implies told(#[trigger] args@[i], q, e) by {
                aggregates_are_terms(args@[i], q);
                term_of(e, args@[i], None);
            }
        },
        Expr::Call { args, .. } => {
            assert forall|i: int| 0 <= i < args@.len() implies told(#[trigger] args@[i], q, e) by {
                aggregates_are_terms(args@[i], q);
                term_of(e, args@[i], None);
            }
        },
        Expr::Case { branches, else_expr } => {
            assert forall|i: int| 0 <= i < branches@.len() implies told(
                (#[trigger] branches@[i]).0,
                q,
                e,
            ) && told(branches@[i].1, q, e) by {
                aggregates_are_terms(branches@[i].0, q);
                aggregates_are_terms(branches@[i].1, q);
                term_of(e, branches@[i].0, None);
                term_of(e, branches@[i].1, None);
            }
            if let Some(x) = else_expr {
                aggregates_are_terms(*x, q);
                term_of(e, *x, None);
            }
        },
        Expr::Record { fields } => {
            assert forall|i: int| 0 <= i < fields@.len() implies told(
                (#[trigger] fields@[i]).1,
                q,
                e,
            ) by {
                aggregates_are_terms(fields@[i].1, q);
                term_of(e, fields@[i].1, None);
            }
        },
        Expr::ListComprehension { source, filter, body, .. } => {
            aggregates_are_terms(*source, q);
            term_of(e, *source, None);
            if let Some(x) = filter {
                aggregates_are_terms(*x, q);
                term_of(e, *x, None);
            }
            aggregates_are_terms(*body, q);
            term_of(e, *body, None);
        },
        _ => {
            assert(is_term(e, e, None));
        },
    }
}

/// What is said of a part, for the whole.
spec fn told(c: Expr, q: Expr, e: Expr) -> bool {
    &&& is_term(q, c, None) && q is Agg ==> c.has_agg()
    &&& is_term(q, c, None) && (q is Exists || q is NotExists || q is ValueSubquery)
        ==> c.has_subquery()
    &&& c.has_agg() ==> exists|t: Expr| #[trigger] is_term(t, e, None) && t is Agg
    &&& c.has_subquery() ==> exists|t: Expr| #[trigger]
        is_term(t, e, None) && (t is Exists || t is NotExists || t is ValueSubquery)
}

/// The parts of a part are parts.
proof fn term_of(e: Expr, c: Expr, free: Option<Seq<char>>)
    requires
        match e {
            Expr::Binop { left, right, .. } => c == *left || c == *right,
            Expr::Unop { operand, .. } => c == *operand,
            Expr::IsNull { operand, .. } => c == *operand,
            Expr::FieldAccess { base, .. } => c == *base,
            Expr::Coalesce(args) => exists|i: int| 0 <= i < args@.len() && #[trigger] args@[i] == c,
            Expr::Call { args, .. } => exists|i: int|
                0 <= i < args@.len() && #[trigger] args@[i] == c,
            Expr::Case { branches, else_expr } => (exists|i: int|
                0 <= i < branches@.len() && ((#[trigger] branches@[i]).0 == c || branches@[i].1
                    == c)) || (else_expr is Some && c == *else_expr->Some_0),
            Expr::Record { fields } => exists|i: int|
                0 <= i < fields@.len() && (#[trigger] fields@[i]).1 == c,
            Expr::ListComprehension { var, source, filter, body } => c == *source || (free != Some(
                var@,
            ) && (c == *body || (filter is Some && c == *filter->Some_0))),
            _ => false,
        },
    ensures
        forall|t: Expr| #[trigger] is_term(t, c, free) ==> is_term(t, e, free),
{
}

/// A variable or an attribute of it by that name.
pub open spec fn names(q: Expr, v: Seq<char>) -> bool {
    match q {
        Expr::Var(x) => x@ == v,
        Expr::AttrLookup { var, .. } => var@ == v,
        _ => false,
    }
}

proof fn vars_of_any(args: Seq<Expr>, v: Seq<char>)
    ensures
        Expr::vars_of(args).contains(v) <==> exists|i: int|
            0 <= i < args.len() && (#[trigger] args[i]).vars().contains(v),
    decreases args.len(),
{
    if args.len() > 0 {
        let u = args.drop_last();
        vars_of_any(u, v);
        if exists|i: int| 0 <= i < args.len() && (#[trigger] args[i]).vars().contains(v) {
            let i = choose|i: int| 0 <= i < args.len() && (#[trigger] args[i]).vars().contains(v);
            if i < u.len() {
                assert(u[i].vars().contains(v));
            }
        }
        if exists|i: int| 0 <= i < u.len() && (#[trigger] u[i]).vars().contains(v) {
            let i = choose|i: int| 0 <= i < u.len() && (#[trigger] u[i]).vars().contains(v);
            assert(args[i].vars().contains(v));
        }
        assert(args[args.len() - 1] == args.last());
    }
}

proof fn branch_vars_any(bs: Seq<(Expr, Expr)>, v: Seq<char>)
    ensures
        Expr::branch_vars(bs).contains(v) <==> exists|i: int|
            0 <= i < bs.len() && ((#[trigger] bs[i]).0.vars().contains(v) || bs[i].1.vars().contains(
                v,
            )),
    decreases bs.len(),
{
    if bs.len() > 0 {
        let u = bs.drop_last();
        branch_vars_any(u, v);
        if exists|i: int|
            0 <= i < bs.len() && ((#[trigger] bs[i]).0.vars().contains(v) || bs[i].1.vars().contains(
                v,
            )) {
            let i = choose|i: int|
                0 <= i < bs.len() && ((#[trigger] bs[i]).0.vars().contains(v)
                    || bs[i].1.vars().contains(v));
            if i < u.len() {
                assert(u[i] == bs[i]);
            }
        }
        if Expr::branch_vars(u).contains(v) {
            let i = choose|i: int|
                0 <= i < u.len() && ((#[trigger] u[i]).0.vars().contains(v)
                    || u[i].1.vars().contains(v));
            assert(bs[i] == u[i]);
        }
        assert(bs[bs.len() - 1] == bs.last());
    }
}

proof fn field_vars_any(fs: Seq<(String, Expr)>, v: Seq<char>)
    ensures
        Expr::field_vars(fs).contains(v) <==> exists|i: int|
            0 <= i < fs.len() && (#[trigger] fs[i]).1.vars().contains(v),
    decreases fs.len(),
{
    if fs.len() > 0 {
        let u = fs.drop_last();
        field_vars_any(u, v);
        if exists|i: int| 0 <= i < fs.len() && (#[trigger] fs[i]).1.vars().contains(v) {
            let i = choose|i: int| 0 <= i < fs.len() && (#[trigger] fs[i]).1.vars().contains(v);
            if i < u.len() {
                assert(u[i] == fs[i]);
            }
        }
        if Expr::field_vars(u).contains(v) {
            let i = choose|i: int| 0 <= i < u.len() && (#[trigger] u[i]).1.vars().contains(v);
            assert(fs[i] == u[i]);
        }
        assert(fs[fs.len() - 1] == fs.last());
    }
}

/// What is said of the variables of a part, for the whole.
spec fn named(c: Expr, q: Expr, e: Expr, v: Seq<char>) -> bool {
    &&& is_term(q, c, Some(v)) && names(q, v) ==> c.vars().contains(v)
    &&& c.vars().contains(v) ==> exists|t: Expr| #[trigger]
        is_term(t, e, Some(v)) && names(t, v)
}

/// An expression refers to a variable of the outer scope exactly where a part
/// names it that stands outside every list comprehension that binds the name.
pub proof fn variables_are_named_by_terms(e: Expr, q: Expr, v: Seq<char>)
    ensures
        is_term(q, e, Some(v)) && names(q, v) ==> e.vars().contains(v),
        e.vars().contains(v) ==> exists|t: Expr| #[trigger] is_term(t, e, Some(v)) && names(t, v),
    decreases e,
{
    let free = Some(v);
    match e {
        Expr::Binop { left, right, .. } => {
            variables_are_named_by_terms(*left, q, v);
            variables_are_named_by_terms(*right, q, v);
            term_of(e, *left, free);
            term_of(e, *right, free);
        },
        Expr::Unop { operand, .. } => {
            variables_are_named_by_terms(*operand, q, v);
            term_of(e, *operand, free);
        },
        Expr::IsNull { operand, .. } => {
            variables_are_named_by_terms(*operand, q, v);
            term_of(e, *operand, free);
        },
        Expr::FieldAccess { base, .. } => {
            variables_are_named_by_terms(*base, q, v);
            term_of(e, *base, free);
        },
        Expr::Coalesce(args) => {
            vars_of_any(args@, v);
            assert forall|i: int| 0 <= i < args@.len() implies named(
                #[trigger] args@[i],
                q,
                e,
                v,
            ) by {
                variables_are_named_by_terms(args@[i], q, v);
                term_of(e, args@[i], free);
            }
        },
        Expr::Call { args, .. } => {
            vars_of_any(args@, v);
            assert forall|i: int| 0 <= i < args@.len() implies named(
                #[trigger] args@[i],
                q,
                e,
                v,
            ) by {
                variables_are_named_by_terms(args@[i], q, v);
                term_of(e, args@[i], free);
            }
        },
        Expr::Case { branches, else_expr } => {
            branch_vars_any(branches@, v);
            assert forall|i: int| 0 <= i < branches@.len() implies named(
                (#[trigger] branches@[i]).0,
                q,
                e,
                v,
            ) && named(branches@[i].1, q, e, v) by {
                variables_are_named_by_terms(branches@[i].0, q, v);
                variables_are_named_by_terms(branches@[i].1, q, v);
                term_of(e, branches@[i].0, free);
                term_of(e, branches@[i].1, free);
            }
            if let Some(x) = else_expr {
                variables_are_named_by_terms(*x, q, v);
                term_of(e, *x, free);
            }
        },
        Expr::Record { fields } => {
            field_vars_any(fields@, v);
            assert forall|i: int| 0 <= i < fields@.len() implies named(
                (#[trigger] fields@[i]).1,
                q,
                e,
                v,
            ) by {
                variables_are_named_by_terms(fields@[i].1, q, v);
                term_of(e, fields@[i].1, free);
            }
        },
        Expr::ListComprehension { var, source, filter, body } => {
            variables_are_named_by_terms(*source, q, v);
            term_of(e, *source, free);
            if var@ != v {
                if let Some(x) = filter {
                    variables_are_named_by_terms(*x, q, v);
                    term_of(e, *x, free);
                }
                variables_are_named_by_terms(*body, q, v);
                term_of(e, *body, free);
            }
        },
        _ => {
            assert(is_term(e, e, free));
        },
    }
}

/// The pattern of a whole query has the pattern of every clause as a part, and
/// binds what these bind.
pub proof fn clauses_are_parts(ms: Seq<MatchStatement>, i: int, v: Seq<char>)
    requires
        0 <= i < ms.len(),
    ensures
        is_part(ms[i].own_pattern(), super::query::joined_patterns(ms)),
        super::query::joined_patterns(ms).vars().contains(v) <==> exists|j: int|
            0 <= j < ms.len() && (#[trigger] ms[j]).own_pattern().vars().contains(v),
    decreases ms.len(),
{
    let all = super::query::joined_patterns(ms);
    if ms.len() > 1 {
        let u = ms.drop_last();
        clauses_are_parts(u, if i < u.len() {
            i
        } else {
            0
        }, v);
        if i < u.len() {
            assert(u[i] == ms[i]);
        } else {
            assert(is_part(ms[i].own_pattern(), ms[i].own_pattern()));
        }
        if exists|j: int| 0 <= j < u.len() && (#[trigger] u[j]).own_pattern().vars().contains(v) {
            let j = choose|j: int|
                0 <= j < u.len() && (#[trigger] u[j]).own_pattern().vars().contains(v);
            assert(ms[j].own_pattern().vars().contains(v));
        }
        if exists|j: int| 0 <= j < ms.len() && (#[trigger] ms[j]).own_pattern().vars().contains(v) {
            let j = choose|j: int|
                0 <= j < ms.len() && (#[trigger] ms[j]).own_pattern().vars().contains(v);
            if j < u.len() {
                assert(u[j].own_pattern().vars().contains(v));
            }
        }
        assert(ms[ms.len() - 1] == ms.last());
    } else {
        assert(ms[0] == ms.last());
        if all.vars().contains(v) {
            assert(ms[0].own_pattern().vars().contains(v));
        }
    }
}

/// Neither has an aggregate or a subquery, and both refer to the same variables.
pub open spec fn plain_and_alike(e: Expr, f: Expr) -> bool {
    &&& !e.has_agg()
    &&& !f.has_agg()
    &&& !e.has_subquery()
    &&& !f.has_subquery()
    &&& e.vars() == f.vars()
}

proof fn vars_alike(a: Seq<Expr>, b: Seq<Expr>)
    requires
        a.len() == b.len(),
        forall|i: int| 0 <= i < a.len() ==> plain_and_alike(#[trigger] a[i], b[i]),
    ensures
        Expr::vars_of(a) == Expr::vars_of(b),
    decreases a.len(),
{
    if a.len() > 0 {
        assert forall|i: int| 0 <= i < a.drop_last().len() implies plain_and_alike(
            #[trigger] a.drop_last()[i],
            b.drop_last()[i],
        ) by {
            assert(plain_and_alike(a[i], b[i]));
        }
        vars_alike(a.drop_last(), b.drop_last());
        assert(plain_and_alike(a[a.len() - 1], b[a.len() - 1]));
    }
}

proof fn branches_alike(a: Seq<(Expr, Expr)>, b: Seq<(Expr, Expr)>)
    requires
        a.len() == b.len(),
        forall|i: int|
            0 <= i < a.len() ==> plain_and_alike((#[trigger] a[i]).0, b[i].0) && plain_and_alike(
                a[i].1,
                b[i].1,
            ),
    ensures
        Expr::branch_vars(a) == Expr::branch_vars(b),
    decreases a.len(),
{
    if a.len() > 0 {
        assert forall|i: int| 0 <= i < a.drop_last().len() implies plain_and_alike(
            (#[trigger] a.drop_last()[i]).0,
            b.drop_last()[i].0,
        ) && plain_and_alike(a.drop_last()[i].1, b.drop_last()[i].1) by {
            assert(plain_and_alike(a[i].0, b[i].0));
        }
        branches_alike(a.drop_last(), b.drop_last());
        assert(plain_and_alike(a[a.len() - 1].0, b[a.len() - 1].0));
    }
}

proof fn fields_alike(a: Seq<(String, Expr)>, b: Seq<(String, Expr)>)
    requires
        a.len() == b.len(),
        forall|i: int| 0 <= i < a.len() ==> plain_and_alike((#[trigger] a[i]).1, b[i].1),
    ensures
        Expr::field_vars(a) == Expr::field_vars(b),
    decreases a.len(),
{
    if a.len() > 0 {
        assert forall|i: int| 0 <= i < a.drop_last().len() implies plain_and_alike(
            (#[trigger] a.drop_last()[i]).1,
            b.drop_last()[i].1,
        ) by {
            assert(plain_and_alike(a[i].1, b[i].1));
        }
        fields_alike(a.drop_last(), b.drop_last());
        assert(plain_and_alike(a[a.len() - 1].1, b[a.len() - 1].1));
    }
}

/// Expressions are taken for equal only where neither has an aggregate or a
/// subquery and both refer to the same variables of the outer scope.
pub proof fn equal_expressions_are_alike(e: Expr, f: Expr)
    requires
        e.plain_equal(f),
    ensures
        plain_and_alike(e, f),
    decreases e,
{
    match (e, f) {
        (Expr::FieldAccess { base: b1, .. }, Expr::FieldAccess { base: b2, .. }) => {
            equal_expressions_are_alike(*b1, *b2);
        },
        (Expr::Binop { left: l1, right: r1, .. }, Expr::Binop { left: l2, right: r2, .. }) => {
            equal_expressions_are_alike(*l1, *l2);
            equal_expressions_are_alike(*r1, *r2);
        },
        (Expr::Unop { operand: e1, .. }, Expr::Unop { operand: e2, .. }) => {
            equal_expressions_are_alike(*e1, *e2);
        },
        (Expr::IsNull { operand: e1, .. }, Expr::IsNull { operand: e2, .. }) => {
            equal_expressions_are_alike(*e1, *e2);
        },
        (Expr::Coalesce(a), Expr::Coalesce(b)) => {
            assert forall|i: int| 0 <= i < a@.len() implies plain_and_alike(
                #[trigger] a@[i],
                b@[i],
            ) by {
                assert(a@[i].plain_equal(b@[i]));
                equal_expressions_are_alike(a@[i], b@[i]);
            }
            assert forall|i: int| 0 <= i < b@.len() implies !(#[trigger] b@[i]).has_agg()
                && !b@[i].has_subquery() by {
                assert(plain_and_alike(a@[i], b@[i]));
            }
            vars_alike(a@, b@);
        },
        (Expr::Call { args: a, .. }, Expr::Call { args: b, .. }) => {
            assert forall|i: int| 0 <= i < a@.len() implies plain_and_alike(
                #[trigger] a@[i],
                b@[i],
            ) by {
                assert(a@[i].plain_equal(b@[i]));
                equal_expressions_are_alike(a@[i], b@[i]);
            }
            assert forall|i: int| 0 <= i < b@.len() implies !(#[trigger] b@[i]).has_agg()
                && !b@[i].has_subquery() by {
                assert(plain_and_alike(a@[i], b@[i]));
            }
            vars_alike(a@, b@);
        },
        (Expr::Record { fields: a }, Expr::Record { fields: b }) => {
            assert forall|i: int| 0 <= i < a@.len() implies plain_and_alike(
                (#[trigger] a@[i]).1,
                b@[i].1,
            ) by {
                assert(a@[i].1.plain_equal(b@[i].1));
                equal_expressions_are_alike(a@[i].1, b@[i].1);
            }
            assert forall|i: int| 0 <= i < b@.len() implies !(#[trigger] b@[i]).1.has_agg()
                && !b@[i].1.has_subquery() by {
                assert(plain_and_alike(a@[i].1, b@[i].1));
            }
            fields_alike(a@, b@);
        },
        (
            Expr::Case { branches: a, else_expr: e1 },
            Expr::Case { branches: b, else_expr: e2 },
        ) => {
            assert forall|i: int| 0 <= i < a@.len() implies plain_and_alike(
                (#[trigger] a@[i]).0,
                b@[i].0,
            ) && plain_and_alike(a@[i].1, b@[i].1) by {
                assert(a@[i].0.plain_equal(b@[i].0));
                equal_expressions_are_alike(a@[i].0, b@[i].0);
                equal_expressions_are_alike(a@[i].1, b@[i].1);
            }
            assert forall|i: int| 0 <= i < b@.len() implies !(#[trigger] b@[i]).0.has_agg()
                && !b@[i].0.has_subquery() && !b@[i].1.has_agg() && !b@[i].1.has_subquery() by {
                assert(plain_and_alike(a@[i].0, b@[i].0));
            }
            branches_alike(a@, b@);
            if e1 is Some {
                equal_expressions_are_alike(*e1->Some_0, *e2->Some_0);
            }
        },
        (
            Expr::ListComprehension { source: s1, filter: f1, body: b1, .. },
            Expr::ListComprehension { source: s2, filter: f2, body: b2, .. },
        ) => {
            equal_expressions_are_alike(*s1, *s2);
            if f1 is Some {
                equal_expressions_are_alike(*f1->Some_0, *f2->Some_0);
            }
            equal_expressions_are_alike(*b1, *b2);
        },
        _ => {},
    }
}

} // verus!
