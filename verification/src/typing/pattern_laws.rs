//! What is found of a pattern, held to the paths that have its shape and to the
//! variables that it binds.

use vstd::prelude::*;

use super::descriptor_type::DescriptorTypeView;
use super::element_laws::{NodeThing, Thing};
use super::judgment::{Notes, Scope};
use super::path_type::{EdgeDir, PathTypeView};
use super::type_environment::Env;
use super::variable_type::{SchemaView, VariableTypeView};
use crate::syntax::descriptor::Descriptor;
use crate::syntax::path_pattern::PathPattern;

verus! {

/// The nodes of a path, one after the other, have a shape.
pub open spec fn path_of(ns: Seq<NodeThing>, p: PathTypeView) -> bool
    decreases p,
{
    match p {
        PathTypeView::Node(d) => ns.len() == 1 && super::element_laws::described_by(ns[0], d),
        PathTypeView::Edge(q, d) => ns.len() >= 2 && path_of(ns.drop_last(), *q)
            && super::element_laws::described_by(ns.last(), d),
        PathTypeView::Union(a, b) => path_of(ns, *a) || path_of(ns, *b),
        PathTypeView::Zero => false,
    }
}

/// A path has one of two shapes exactly where it has their union.
pub proof fn union_holds_either_path(ns: Seq<NodeThing>, a: PathTypeView, b: PathTypeView)
    ensures
        path_of(ns, a.union(b)) <==> path_of(ns, a) || path_of(ns, b),
{
}

/// A path has at least as many edges as its shape, and one without edges only a
/// shape that says so.
pub proof fn shapes_count_edges(ns: Seq<NodeThing>, p: PathTypeView)
    requires
        path_of(ns, p),
    ensures
        ns.len() >= p.len() + 1,
        ns.len() == 1 ==> p.is_empty(),
    decreases p,
{
    match p {
        PathTypeView::Edge(q, _) => shapes_count_edges(ns.drop_last(), *q),
        PathTypeView::Union(a, b) => {
            if path_of(ns, *a) {
                shapes_count_edges(ns, *a);
            } else {
                shapes_count_edges(ns, *b);
            }
        },
        _ => {},
    }
}

/// An edge that is crossed forwards leads from its left node to its right one,
/// backwards the other way round, and either way where that is left open. An
/// undirected edge can always be crossed either way.
pub proof fn edges_are_crossed(
    desc: DescriptorTypeView,
    left: DescriptorTypeView,
    right: DescriptorTypeView,
    a: NodeThing,
    b: NodeThing,
)
    ensures
        ({
            let directed = VariableTypeView::EdgeDirectional {
                desc,
                left: Box::new(VariableTypeView::Node(left)),
                right: Box::new(VariableTypeView::Node(right)),
            };
            let undirected = VariableTypeView::EdgeNonDirectional {
                desc,
                left: Box::new(VariableTypeView::Node(left)),
                right: Box::new(VariableTypeView::Node(right)),
            };
            let forwards = super::element_laws::described_by(a, left)
                && super::element_laws::described_by(b, right);
            let backwards = super::element_laws::described_by(b, left)
                && super::element_laws::described_by(a, right);
            &&& path_of(seq![a, b], PathTypeView::from_variable(directed, EdgeDir::Right))
                <==> forwards
            &&& path_of(seq![a, b], PathTypeView::from_variable(directed, EdgeDir::Left))
                <==> backwards
            &&& path_of(seq![a, b], PathTypeView::from_variable(directed, EdgeDir::Any))
                <==> forwards || backwards
            &&& forall|dir: EdgeDir|
                #![trigger PathTypeView::from_variable(undirected, dir)]
                path_of(seq![a, b], PathTypeView::from_variable(undirected, dir)) <==> forwards
                    || backwards
        }),
{
    reveal_with_fuel(path_of, 3);
    assert(seq![a, b].drop_last() =~= seq![a]);
    assert(seq![a, b].last() == b);
}

proof fn crossed_back(t: VariableTypeView, a: NodeThing, b: NodeThing)
    ensures
        path_of(seq![a, b], PathTypeView::from_variable(t, EdgeDir::Right)) <==> path_of(
            seq![b, a],
            PathTypeView::from_variable(t, EdgeDir::Left),
        ),
        path_of(seq![a, b], PathTypeView::from_variable(t, EdgeDir::Any)) <==> path_of(
            seq![b, a],
            PathTypeView::from_variable(t, EdgeDir::Any),
        ),
        path_of(seq![a, b], PathTypeView::from_variable(t, EdgeDir::Any)) <==> path_of(
            seq![a, b],
            PathTypeView::from_variable(t, EdgeDir::Right),
        ) || path_of(seq![a, b], PathTypeView::from_variable(t, EdgeDir::Left)),
    decreases t,
{
    reveal_with_fuel(path_of, 3);
    assert(seq![a, b].drop_last() =~= seq![a]);
    assert(seq![b, a].drop_last() =~= seq![b]);
    match t {
        VariableTypeView::Union(x, y) => {
            crossed_back(*x, a, b);
            crossed_back(*y, a, b);
            crossed_back(*x, b, a);
            crossed_back(*y, b, a);
        },
        _ => {},
    }
}

/// A pattern for an edge to the right and one for the same edge to the left bind
/// and say the same, and a path has the shape of one exactly where the path
/// backwards has the shape of the other.
pub proof fn left_is_right_backwards(
    s: Scope,
    d: Option<Descriptor>,
    n: Notes,
    a: NodeThing,
    b: NodeThing,
)
    ensures
        ({
            let (r, _) = super::judgment::judge_pattern(s, PathPattern::EdgeRight(d), n);
            let (l, _) = super::judgment::judge_pattern(s, PathPattern::EdgeLeft(d), n);
            r.env == l.env && (path_of(seq![a, b], r.path) <==> path_of(seq![b, a], l.path))
        }),
{
    let t = super::judgment::edge_refined(s.schema, EdgeDir::Right, super::judgment::asked(d));
    crossed_back(t, a, b);
}

/// Either of two patterns: a path has its shape exactly where it has the shape of
/// one of them.
pub proof fn alternatives_hold_either(
    s: Scope,
    p: PathPattern,
    q: PathPattern,
    n: Notes,
    ns: Seq<NodeThing>,
)
    ensures
        ({
            let (r1, n1) = super::judgment::judge_pattern(s, p, n);
            let (r2, n2) = super::judgment::judge_pattern(s, q, n1);
            let (r, m) = super::judgment::judge_pattern(
                s,
                PathPattern::Union(Box::new(p), Box::new(q)),
                n,
            );
            &&& path_of(ns, r.path) <==> path_of(ns, r1.path) || path_of(ns, r2.path)
            &&& m == n2
            &&& forall|k: Seq<char>| #[trigger]
                r.env.contains_key(k) <==> r1.env.contains_key(k) || r2.env.contains_key(k)
            &&& forall|k: Seq<char>, x: Thing|
                r.env.contains_key(k) ==> (#[trigger] super::element_laws::is_of(x, r.env[k]) <==> (
                r1.env.contains_key(k) && super::element_laws::is_of(x, r1.env[k])) || (
                r2.env.contains_key(k) && super::element_laws::is_of(x, r2.env[k])) || (x is Null
                    && !(r1.env.contains_key(k) && r2.env.contains_key(k))))
        }),
{
    let (r1, n1) = super::judgment::judge_pattern(s, p, n);
    let (r2, n2) = super::judgment::judge_pattern(s, q, n1);
    let (r, m) = super::judgment::judge_pattern(
        s,
        PathPattern::Union(Box::new(p), Box::new(q)),
        n,
    );
    union_holds_either_path(ns, r1.path, r2.path);
    assert forall|k: Seq<char>, x: Thing| r.env.contains_key(k) implies (
    #[trigger] super::element_laws::is_of(x, r.env[k]) <==> (r1.env.contains_key(k)
        && super::element_laws::is_of(x, r1.env[k])) || (r2.env.contains_key(k)
        && super::element_laws::is_of(x, r2.env[k])) || (x is Null && !(r1.env.contains_key(k)
        && r2.env.contains_key(k)))) by {
        if r1.env.contains_key(k) && r2.env.contains_key(k) {
            super::element_laws::join_holds_either(x, r1.env[k], r2.env[k]);
        } else if r1.env.contains_key(k) {
            super::element_laws::join_holds_either(x, r1.env[k], VariableTypeView::Null);
        } else {
            super::element_laws::join_holds_either(x, VariableTypeView::Null, r2.env[k]);
        }
    }
}

/// The label constraints of a shape are plain.
pub open spec fn plain_path(p: PathTypeView) -> bool
    decreases p,
{
    match p {
        PathTypeView::Node(d) => super::element_laws::is_plain(d.label),
        PathTypeView::Edge(q, d) => plain_path(*q) && super::element_laws::is_plain(d.label),
        PathTypeView::Union(a, b) => plain_path(*a) && plain_path(*b),
        PathTypeView::Zero => true,
    }
}

/// The label constraints of the nodes of a schema are plain.
pub open spec fn plain_nodes(schema: SchemaView) -> bool {
    forall|i: int|
        0 <= i < schema.nodes.len() ==> super::element_laws::plain_type(#[trigger] schema.nodes[i])
}

proof fn leaves_are_of(n: NodeThing, t: VariableTypeView, i: int)
    requires
        0 <= i < t.node_leaves().len(),
        super::element_laws::described_by(n, t.node_leaves()[i]),
    ensures
        super::element_laws::is_of(Thing::Node(n), t),
    decreases t,
{
    match t {
        VariableTypeView::Union(a, b) => {
            if i < a.node_leaves().len() {
                leaves_are_of(n, *a, i);
            } else {
                leaves_are_of(n, *b, i - a.node_leaves().len());
            }
        },
        _ => {},
    }
}

/// Where two nodes become one, it is described by both.
proof fn junctions_hold_both(
    schema: SchemaView,
    d1: DescriptorTypeView,
    d2: DescriptorTypeView,
    n: NodeThing,
    i: int,
)
    requires
        plain_nodes(schema),
        super::element_laws::is_plain(d1.label),
        super::element_laws::is_plain(d2.label),
        0 <= i < schema.junction(d1, d2).len(),
        super::element_laws::described_by(n, schema.junction(d1, d2)[i]),
    ensures
        super::element_laws::described_by(n, d1),
        super::element_laws::described_by(n, d2),
{
    let d = d1.meet(d2);
    super::element_laws::label_meet_holds_of_both(n.labels, d1.label, d2.label);
    super::element_laws::record_meet_holds_of_both(n.props, d1.props, d2.props);
    leaves_are_of(n, schema.refine(VariableTypeView::Node(d)), i);
    super::element_laws::nodes_are_refined(schema, d, Thing::Node(n));
}

proof fn some_of_all(ns: Seq<NodeThing>, ps: Seq<PathTypeView>) -> (i: int)
    requires
        path_of(ns, PathTypeView::union_all(ps)),
    ensures
        0 <= i < ps.len(),
        path_of(ns, ps[i]),
    decreases ps.len(),
{
    if ps.len() == 0 {
        0
    } else {
        union_holds_either_path(ns, PathTypeView::union_all(ps.drop_last()), ps.last());
        if path_of(ns, ps.last()) {
            ps.len() - 1
        } else {
            some_of_all(ns, ps.drop_last())
        }
    }
}

/// The place where a path of two shapes one after the other falls into a path of
/// the first and a path of the second, which share the node there.
proof fn split_of(schema: SchemaView, p: PathTypeView, q: PathTypeView, ns: Seq<NodeThing>) -> (k:
    int)
    requires
        plain_nodes(schema),
        plain_path(p),
        plain_path(q),
        path_of(ns, PathTypeView::meet(schema, p, q)),
    ensures
        0 <= k < ns.len(),
        path_of(ns.take(k + 1), p),
        path_of(ns.skip(k), q),
    decreases q, p,
{
    match (p, q) {
        (PathTypeView::Zero, _) => 0,
        (_, PathTypeView::Zero) => 0,
        (PathTypeView::Node(d1), PathTypeView::Node(d2)) => {
            let i = some_of_all(ns, super::path_type::node_paths(schema.junction(d1, d2)));
            junctions_hold_both(schema, d1, d2, ns[0], i);
            assert(ns.take(1) =~= ns);
            assert(ns.skip(0) =~= ns);
            0
        },
        (PathTypeView::Edge(p1, d1), PathTypeView::Node(d2)) => {
            let i = some_of_all(ns, super::path_type::edge_paths(*p1, schema.junction(d1, d2)));
            junctions_hold_both(schema, d1, d2, ns.last(), i);
            let k = ns.len() - 1;
            assert(ns.take(k + 1) =~= ns);
            assert(ns.skip(k) =~= seq![ns.last()]);
            k
        },
        (_, PathTypeView::Edge(q1, d)) => {
            let k = split_of(schema, p, *q1, ns.drop_last());
            assert(ns.drop_last().take(k + 1) =~= ns.take(k + 1));
            assert(ns.drop_last().skip(k) =~= ns.skip(k).drop_last());
            assert(ns.skip(k).last() == ns.last());
            k
        },
        (_, PathTypeView::Union(u1, u2)) => {
            let m1 = PathTypeView::meet(schema, p, *u1);
            let m2 = PathTypeView::meet(schema, p, *u2);
            union_holds_either_path(ns, m1, m2);
            if path_of(ns, m1) {
                split_of(schema, p, *u1, ns)
            } else {
                split_of(schema, p, *u2, ns)
            }
        },
        (PathTypeView::Union(u1, u2), _) => {
            let m1 = PathTypeView::meet(schema, *u1, q);
            let m2 = PathTypeView::meet(schema, *u2, q);
            union_holds_either_path(ns, m1, m2);
            if path_of(ns, m1) {
                split_of(schema, *u1, q, ns)
            } else {
                split_of(schema, *u2, q, ns)
            }
        },
    }
}

/// Two patterns one after the other: a path of their shape falls into a path of
/// the first and a path of the second, and the first ends at the node where the
/// second begins.
pub proof fn concatenation_splits(
    s: Scope,
    p: PathPattern,
    q: PathPattern,
    n: Notes,
    ns: Seq<NodeThing>,
)
    requires
        plain_nodes(s.schema),
        ({
            let (r1, n1) = super::judgment::judge_pattern(s, p, n);
            let (r2, n2) = super::judgment::judge_pattern(s, q, n1);
            plain_path(r1.path) && plain_path(r2.path)
        }),
        path_of(
            ns,
            super::judgment::judge_pattern(
                s,
                PathPattern::Concat(Box::new(p), Box::new(q)),
                n,
            ).0.path,
        ),
    ensures
        ({
            let (r1, n1) = super::judgment::judge_pattern(s, p, n);
            let (r2, n2) = super::judgment::judge_pattern(s, q, n1);
            exists|k: int|
                0 <= k < ns.len() && #[trigger] path_of(ns.take(k + 1), r1.path) && path_of(
                    ns.skip(k),
                    r2.path,
                )
        }),
{
    let (r1, n1) = super::judgment::judge_pattern(s, p, n);
    let (r2, n2) = super::judgment::judge_pattern(s, q, n1);
    let k = split_of(s.schema, r1.path, r2.path, ns);
    assert(path_of(ns.take(k + 1), r1.path));
}

/// Joined patterns have no match where one of them has none, and have the shape of
/// the first otherwise.
pub proof fn joins_need_both(s: Scope, p: PathPattern, q: PathPattern, n: Notes)
    ensures
        ({
            let (r1, n1) = super::judgment::judge_pattern(s, p, n);
            let (r2, n2) = super::judgment::judge_pattern(s, q, n1);
            let r = super::judgment::judge_pattern(
                s,
                PathPattern::Join(Box::new(p), Box::new(q)),
                n,
            ).0;
            &&& r.path.is_unsatisfiable() <==> r1.path.is_unsatisfiable()
                || r2.path.is_unsatisfiable()
            &&& !r.path.is_unsatisfiable() ==> r.path == r1.path
        }),
{
}

/// A path that repeats a shape has at least as many edges as the repetitions need.
pub proof fn repetitions_count(
    schema: SchemaView,
    p: PathTypeView,
    times: nat,
    ns: Seq<NodeThing>,
)
    requires
        plain_nodes(schema),
        plain_path(p),
        path_of(ns, PathTypeView::pow(schema, p, times)),
        plain_path(PathTypeView::pow(schema, p, times)),
        forall|k: nat| k < times ==> plain_path(#[trigger] PathTypeView::pow(schema, p, k)),
    ensures
        ns.len() >= times * p.len() + 1,
    decreases times,
{
    if times == 0 {
        shapes_count_edges(ns, PathTypeView::star_node());
        assert(0 * p.len() == 0) by (nonlinear_arith);
    } else if times == 1 {
        shapes_count_edges(ns, p);
        assert(1 * p.len() == p.len()) by (nonlinear_arith);
    } else {
        let less = (times - 1) as nat;
        let rest = PathTypeView::pow(schema, p, less);
        assert(plain_path(rest));
        let k = split_of(schema, p, rest, ns);
        shapes_count_edges(ns.take(k + 1), p);
        repetitions_count(schema, p, less, ns.skip(k));
        assert(times * p.len() == less * p.len() + p.len()) by (nonlinear_arith)
            requires
                times == less + 1,
        ;
    }
}

/// The names of the paths in a pattern.
pub open spec fn path_names(p: PathPattern) -> Set<Seq<char>>
    decreases p,
{
    match p {
        PathPattern::Named { var, pattern } => path_names(*pattern).insert(var@),
        PathPattern::Concat(a, b) => path_names(*a).union(path_names(*b)),
        PathPattern::Union(a, b) => path_names(*a).union(path_names(*b)),
        PathPattern::Join(a, b) => path_names(*a).union(path_names(*b)),
        PathPattern::Filter(q, _) => path_names(*q),
        PathPattern::Repeat { pattern, .. } => path_names(*pattern),
        PathPattern::Questioned(q) => path_names(*q),
        PathPattern::Selected { pattern, .. } => path_names(*pattern),
        _ => Set::empty(),
    }
}

proof fn collapses_are_no_errors(
    merged: Env,
    left: Env,
    right: Env,
    keys: Seq<Seq<char>>,
    n: Notes,
)
    ensures
        super::judgment::collapse_notes(merged, left, right, keys, n).errors == n.errors,
    decreases keys.len(),
{
    if keys.len() > 0 {
        collapses_are_no_errors(merged, left, right, keys.drop_last(), n);
    }
}

proof fn met_names(schema: SchemaView, a: Env, b: Env, n: Notes)
    ensures
        ({
            let (e, m) = super::judgment::met_bindings(schema, a, b, n);
            &&& m.errors.len() >= n.errors.len()
            &&& m.errors.len() == n.errors.len() ==> e.dom() == a.dom().union(b.dom())
        }),
{
    match super::type_environment::env_meet_result(schema, a, b) {
        Ok(e) => {
            collapses_are_no_errors(e, a, b, crate::fields::sorted_keys(e), n);
            assert(e.dom() =~= a.dom().union(b.dom()));
        },
        Err(msg) => {
            collapses_are_no_errors(
                a,
                a,
                b,
                crate::fields::sorted_keys(a),
                n.error("Concatenation of contexts failed: "@ + msg),
            );
        },
    }
}

/// A pattern without an error binds its variables, and the names of its paths, and
/// nothing else.
pub proof fn patterns_bind_their_variables(s: Scope, p: PathPattern, n: Notes)
    requires
        super::judgment::judge_pattern(s, p, n).1.errors.len() == n.errors.len(),
    ensures
        super::judgment::judge_pattern(s, p, n).0.env.dom() == p.vars().union(path_names(p)),
    decreases p,
{
    let (r, m) = super::judgment::judge_pattern(s, p, n);
    match p {
        PathPattern::Concat(p1, p2) => {
            let (r1, n1) = super::judgment::judge_pattern(s, *p1, n);
            let (r2, n2) = super::judgment::judge_pattern(s, *p2, n1);
            super::note_laws::pattern_appends(s, *p1, n);
            super::note_laws::pattern_appends(s, *p2, n1);
            met_names(s.schema, r1.env, r2.env, n2);
            patterns_bind_their_variables(s, *p1, n);
            patterns_bind_their_variables(s, *p2, n1);
            assert(r.env.dom() =~= p.vars().union(path_names(p)));
        },
        PathPattern::Join(p1, p2) => {
            let (r1, n1) = super::judgment::judge_pattern(s, *p1, n);
            let (r2, n2) = super::judgment::judge_pattern(s, *p2, n1);
            super::note_laws::pattern_appends(s, *p1, n);
            super::note_laws::pattern_appends(s, *p2, n1);
            met_names(s.schema, r1.env, r2.env, n2);
            patterns_bind_their_variables(s, *p1, n);
            patterns_bind_their_variables(s, *p2, n1);
            assert(r.env.dom() =~= p.vars().union(path_names(p)));
        },
        PathPattern::Union(p1, p2) => {
            let (r1, n1) = super::judgment::judge_pattern(s, *p1, n);
            super::note_laws::pattern_appends(s, *p1, n);
            super::note_laws::pattern_appends(s, *p2, n1);
            patterns_bind_their_variables(s, *p1, n);
            patterns_bind_their_variables(s, *p2, n1);
            assert(r.env.dom() =~= p.vars().union(path_names(p)));
        },
        PathPattern::Filter(inner, e) => {
            let (r1, n1) = super::judgment::judge_pattern(s, *inner, n);
            super::note_laws::pattern_appends(s, *inner, n);
            super::note_laws::expr_appends(s, e, s.filter_env(r1.env), n1);
            patterns_bind_their_variables(s, *inner, n);
        },
        PathPattern::Selected { pattern, .. } => {
            patterns_bind_their_variables(s, *pattern, n);
        },
        PathPattern::Named { var, pattern } => {
            patterns_bind_their_variables(s, *pattern, n);
            assert(r.env.dom() =~= p.vars().union(path_names(p)));
        },
        PathPattern::Repeat { pattern, .. } => {
            super::note_laws::pattern_appends(s, *pattern, n);
            patterns_bind_their_variables(s, *pattern, n);
            assert(r.env.dom() =~= p.vars().union(path_names(p)));
        },
        PathPattern::Questioned(inner) => {
            patterns_bind_their_variables(s, *inner, n);
            assert(r.env.dom() =~= p.vars().union(path_names(p)));
        },
        _ => {
            assert(r.env.dom() =~= p.vars().union(path_names(p)));
        },
    }
}

/// Inside a repetition every variable stands for a group, of what it stands for
/// without. The name of a path stands for a path.
pub proof fn repetitions_bind_groups(
    s: Scope,
    p: PathPattern,
    lb: usize,
    ub: Option<usize>,
    n: Notes,
    k: Seq<char>,
)
    ensures
        ({
            let (r1, n1) = super::judgment::judge_pattern(s, p, n);
            let r = super::judgment::judge_pattern(
                s,
                PathPattern::Repeat { pattern: Box::new(p), lb, ub },
                n,
            ).0;
            let q = super::judgment::judge_pattern(s, PathPattern::Questioned(Box::new(p)), n).0;
            &&& r1.env.contains_key(k) ==> r.env.contains_key(k) && r.env[k]
                == VariableTypeView::Group(Box::new(r1.env[k])) && q.env.contains_key(k) && q.env[k]
                == r.env[k]
            &&& r.env.contains_key(k) || q.env.contains_key(k) ==> r1.env.contains_key(k)
        }),
{
}

} // verus!
