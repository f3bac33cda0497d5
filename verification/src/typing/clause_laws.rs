//! What is said of operands that are searched by themselves, and of the items of
//! a grouped result.

use vstd::prelude::*;

use super::judgment::Notes;
use crate::syntax::descriptor::Descriptor;
use crate::syntax::expr::Expr;
use crate::syntax::path_pattern::PathPattern;
use crate::syntax::path_prefix::{PathPrefix, PathSearch};
use crate::syntax::query::ReturnItem;

verus! {

/// The variables declared by a pattern are those of its nodes and edges.
pub proof fn declared_variables_are_bound(p: PathPattern, v: Seq<char>)
    ensures
        super::query_judgment::declared(p).contains(v) <==> p.vars().contains(v),
    decreases p,
{
    match p {
        PathPattern::Node(d) => one_declared(d, v),
        PathPattern::EdgeRight(d) => one_declared(d, v),
        PathPattern::EdgeLeft(d) => one_declared(d, v),
        PathPattern::EdgeUndirected(d) => one_declared(d, v),
        PathPattern::EdgeAnyDirection(d) => one_declared(d, v),
        PathPattern::Concat(a, b) => {
            declared_variables_are_bound(*a, v);
            declared_variables_are_bound(*b, v);
            either_holds(super::query_judgment::declared(*a), super::query_judgment::declared(*b), v);
        },
        PathPattern::Union(a, b) => {
            declared_variables_are_bound(*a, v);
            declared_variables_are_bound(*b, v);
            either_holds(super::query_judgment::declared(*a), super::query_judgment::declared(*b), v);
        },
        PathPattern::Join(a, b) => {
            declared_variables_are_bound(*a, v);
            declared_variables_are_bound(*b, v);
            either_holds(super::query_judgment::declared(*a), super::query_judgment::declared(*b), v);
        },
        PathPattern::Filter(a, _) => declared_variables_are_bound(*a, v),
        PathPattern::Questioned(a) => declared_variables_are_bound(*a, v),
        PathPattern::Repeat { pattern, .. } => declared_variables_are_bound(*pattern, v),
        PathPattern::Selected { pattern, .. } => declared_variables_are_bound(*pattern, v),
        PathPattern::Named { pattern, .. } => declared_variables_are_bound(*pattern, v),
    }
}

proof fn one_declared(d: Option<Descriptor>, v: Seq<char>)
    ensures
        super::query_judgment::one_name(super::judgment::bound_name(d)).contains(v)
            <==> crate::syntax::path_pattern::bound(d).contains(v),
{
    let s = super::query_judgment::one_name(super::judgment::bound_name(d));
    if s.len() > 0 {
        assert(s[0] == super::judgment::bound_name(d)->Some_0);
    }
}

proof fn either_holds(s: Seq<Seq<char>>, t: Seq<Seq<char>>, x: Seq<char>)
    ensures
        (s + t).contains(x) <==> s.contains(x) || t.contains(x),
{
    if s.contains(x) {
        let k = choose|k: int| 0 <= k < s.len() && s[k] == x;
        assert((s + t)[k] == x);
    }
    if t.contains(x) {
        let k = choose|k: int| 0 <= k < t.len() && t[k] == x;
        assert((s + t)[s.len() + k] == x);
    }
}

/// A pattern that begins with one node and ends with another may share the
/// variables of these two, whatever is between them.
pub proof fn outermost_nodes_may_be_shared(
    first: Descriptor,
    middle: PathPattern,
    last: Descriptor,
    v: Seq<char>,
)
    requires
        first.var is Some,
        last.var is Some,
    ensures
        super::query_judgment::is_boundary(
            PathPattern::Concat(
                Box::new(PathPattern::Node(Some(first))),
                Box::new(
                    PathPattern::Concat(
                        Box::new(middle),
                        Box::new(PathPattern::Node(Some(last))),
                    ),
                ),
            ),
            v,
        ) <==> v == first.var->Some_0@ || v == last.var->Some_0@,
{
    reveal_with_fuel(super::query_judgment::top_nodes, 3);
    let end = PathPattern::Node(Some(last));
    let rest = PathPattern::Concat(Box::new(middle), Box::new(end));
    let begin = PathPattern::Node(Some(first));
    let all = super::query_judgment::top_nodes(
        PathPattern::Concat(Box::new(begin), Box::new(rest)),
    );
    assert(super::query_judgment::top_nodes(begin) == seq![first.var->Some_0@]);
    assert(super::query_judgment::top_nodes(end) == seq![last.var->Some_0@]);
    assert(all == seq![first.var->Some_0@] + (super::query_judgment::top_nodes(middle)
        + seq![last.var->Some_0@]));
}

proof fn occurrences_of_both(s: Seq<Seq<char>>, t: Seq<Seq<char>>, v: Seq<char>)
    ensures
        super::query_judgment::occurrences(s + t, v) == super::query_judgment::occurrences(s, v)
            + super::query_judgment::occurrences(t, v),
    decreases t.len(),
{
    if t.len() == 0 {
        assert(s + t =~= s);
    } else {
        occurrences_of_both(s, t.drop_last(), v);
        assert((s + t).drop_last() =~= s + t.drop_last());
    }
}

proof fn occurs_where_held(s: Seq<Seq<char>>, v: Seq<char>)
    ensures
        super::query_judgment::occurrences(s, v) > 0 <==> s.contains(v),
    decreases s.len(),
{
    if s.len() > 0 {
        let u = s.drop_last();
        occurs_where_held(u, v);
        if u.contains(v) {
            let k = choose|k: int| 0 <= k < u.len() && u[k] == v;
            assert(s[k] == v);
        }
        if s.contains(v) && s.last() != v {
            let k = choose|k: int| 0 <= k < s.len() && s[k] == v;
            assert(u[k] == v);
        }
        assert(s[s.len() - 1] == s.last());
    }
}

/// A finite set of names has its names in order.
proof fn names_in_order(names: Set<Seq<char>>)
    requires
        names.finite(),
    ensures
        crate::fields::sorted_names(names).len() == 0 <==> names =~= Set::<Seq<char>>::empty(),
{
    let m = Map::<Seq<char>, int>::new(|k: Seq<char>| names.contains(k), |k: Seq<char>| 0int);
    assert(m.dom() =~= names);
    crate::fields::sorted_keys_facts(m);
    let s = crate::fields::sorted_keys(m);
    assert(crate::fields::ascending(s) && s.to_set() == names);
    let t = crate::fields::sorted_names(names);
    assert(crate::fields::ascending(t) && t.to_set() == names);
    if t.len() > 0 {
        assert(t.to_set().contains(t[0]));
    }
    if exists|x: Seq<char>| names.contains(x) {
        let x = choose|x: Seq<char>| names.contains(x);
        assert(t.contains(x));
    }
}

/// The inside of a pattern holds a variable that other parts of the query declare
/// too.
pub open spec fn shares_interior(p: PathPattern, others: Seq<Seq<char>>, v: Seq<char>) -> bool {
    p.vars().contains(v) && !super::query_judgment::is_boundary(p, v) && others.contains(v)
}

/// An operand that keeps some paths and not all of them is refused where a
/// variable from its inside, one that is not of its first or last node, is also
/// declared by the rest of the query. Any other is not objected to.
pub proof fn interiors_are_not_shared(
    prefix: PathPrefix,
    p: PathPattern,
    before: Seq<Seq<char>>,
    after: Seq<Seq<char>>,
    n: Notes,
)
    ensures
        ({
            let operand = PathPattern::Selected { prefix, pattern: Box::new(p) };
            let all = before + super::query_judgment::declared(p) + after;
            let m = super::query_judgment::isolation_note(operand, all, n);
            let shared = exists|v: Seq<char>| #[trigger] shares_interior(p, before + after, v);
            &&& prefix.search != PathSearch::All && shared ==> super::query_laws::failed_once(n, m)
            &&& prefix.search == PathSearch::All || !shared ==> m == n
        }),
{
    let inside = super::query_judgment::declared(p);
    let all = before + inside + after;
    let set = super::query_judgment::shared_inside(p, all);
    assert forall|v: Seq<char>| #[trigger] set.contains(v) <==> shares_interior(
        p,
        before + after,
        v,
    ) by {
        declared_variables_are_bound(p, v);
        occurrences_of_both(before + inside, after, v);
        occurrences_of_both(before, inside, v);
        occurs_where_held(before, v);
        occurs_where_held(after, v);
        either_holds(before, after, v);
    }
    assert(set.subset_of(inside.to_set()));
    vstd::seq_lib::seq_to_set_is_finite(inside);
    vstd::set_lib::lemma_set_subset_finite(inside.to_set(), set);
    names_in_order(set);
    let operand = PathPattern::Selected { prefix, pattern: Box::new(p) };
    let m = super::query_judgment::isolation_note(operand, all, n);
    if exists|v: Seq<char>| #[trigger] shares_interior(p, before + after, v) {
        let v = choose|v: Seq<char>| #[trigger] shares_interior(p, before + after, v);
        assert(set.contains(v));
        assert(crate::fields::sorted_names(set).len() > 0);
        if prefix.search != PathSearch::All {
            assert(m.errors.drop_last() =~= n.errors);
        }
    } else {
        assert(set =~= Set::<Seq<char>>::empty());
    }
}

/// An item of a grouped result is an aggregate, or grouping decides it.
pub open spec fn item_fits(item: ReturnItem, keys: Seq<Expr>) -> bool {
    match item {
        ReturnItem::Expr { expr, .. } => super::query_judgment::determined(expr, keys),
        ReturnItem::Aggregate { .. } => true,
    }
}

/// The number of items that do not fit.
pub open spec fn misfits(items: Seq<ReturnItem>, keys: Seq<Expr>) -> nat
    decreases items.len(),
{
    if items.len() == 0 {
        0
    } else {
        misfits(items.drop_last(), keys) + if item_fits(items.last(), keys) {
            0nat
        } else {
            1nat
        }
    }
}

/// Of a grouped result one error is said for each item that grouping does not
/// decide, and nothing else.
pub proof fn grouped_items_are_decided(
    items: Seq<ReturnItem>,
    keys: Seq<Expr>,
    shown: spec_fn(u64) -> Seq<char>,
    n: Notes,
)
    ensures
        super::query_judgment::grouping_notes(items, keys, shown, n).warnings == n.warnings,
        super::query_judgment::grouping_notes(items, keys, shown, n).errors.len() == n.errors.len()
            + misfits(items, keys),
        n.errors.is_prefix_of(
            super::query_judgment::grouping_notes(items, keys, shown, n).errors,
        ),
    decreases items.len(),
{
    if items.len() > 0 {
        grouped_items_are_decided(items.drop_last(), keys, shown, n);
    }
}

} // verus!
