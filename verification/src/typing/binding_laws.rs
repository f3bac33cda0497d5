//! What the variables of composed patterns stand for.

use vstd::prelude::*;

use super::descriptor_type::DescriptorTypeView;
use super::element_laws::Thing;
use super::judgment::{Notes, Scope};
use super::type_environment::Env;
use super::variable_type::{SchemaView, VariableTypeView};
use crate::syntax::descriptor::Descriptor;
use crate::syntax::path_pattern::PathPattern;
use crate::syntax::path_prefix::PathPrefix;

verus! {

/// Every label constraint of the schema is plain.
pub open spec fn plain_schema(schema: SchemaView) -> bool {
    &&& forall|i: int|
        0 <= i < schema.nodes.len() ==> super::element_laws::plain_type(#[trigger] schema.nodes[i])
    &&& forall|i: int|
        0 <= i < schema.edges.len() ==> super::element_laws::plain_type(#[trigger] schema.edges[i])
}

/// Two patterns one after the other, or joined, bind what either binds. A variable
/// of one of them stands for what it stands for there; a variable of both stands
/// only for elements that it can stand for in both.
pub proof fn shared_variables_need_both(
    s: Scope,
    p: PathPattern,
    q: PathPattern,
    n: Notes,
    k: Seq<char>,
    x: Thing,
)
    requires
        ({
            let (r1, n1) = super::judgment::judge_pattern(s, p, n);
            let (r2, n2) = super::judgment::judge_pattern(s, q, n1);
            super::type_environment::env_meet_result(s.schema, r1.env, r2.env) is Ok
        }),
    ensures
        ({
            let (r1, n1) = super::judgment::judge_pattern(s, p, n);
            let (r2, n2) = super::judgment::judge_pattern(s, q, n1);
            let (a, b) = (r1.env, r2.env);
            let e = super::judgment::judge_pattern(
                s,
                PathPattern::Concat(Box::new(p), Box::new(q)),
                n,
            ).0.env;
            let f = super::judgment::judge_pattern(
                s,
                PathPattern::Join(Box::new(p), Box::new(q)),
                n,
            ).0.env;
            &&& f == e
            &&& e.contains_key(k) <==> a.contains_key(k) || b.contains_key(k)
            &&& a.contains_key(k) && !b.contains_key(k) ==> e[k] == a[k]
            &&& !a.contains_key(k) && b.contains_key(k) ==> e[k] == b[k]
            &&& a.contains_key(k) && b.contains_key(k) && plain_schema(s.schema)
                && super::element_laws::plain_type(a[k]) && super::element_laws::plain_type(b[k])
                && super::element_laws::plain_type(a[k].meet(b[k])) && (x is Edge ==> x->directed)
                && super::element_laws::is_of(x, e[k]) ==> super::element_laws::is_of(x, a[k])
                && super::element_laws::is_of(x, b[k])
        }),
{
    let (r1, n1) = super::judgment::judge_pattern(s, p, n);
    let (r2, n2) = super::judgment::judge_pattern(s, q, n1);
    let (a, b) = (r1.env, r2.env);
    let e = super::judgment::judge_pattern(
        s,
        PathPattern::Concat(Box::new(p), Box::new(q)),
        n,
    ).0.env;
    if a.contains_key(k) && b.contains_key(k) && plain_schema(s.schema)
        && super::element_laws::plain_type(a[k]) && super::element_laws::plain_type(b[k])
        && super::element_laws::plain_type(a[k].meet(b[k])) && (x is Edge ==> x->directed)
        && super::element_laws::is_of(x, e[k]) {
        super::element_laws::refinement_only_narrows(s.schema, a[k].meet(b[k]), x);
        super::element_laws::meet_holds_both(x, a[k], b[k]);
    }
}

/// A variable of two alternatives stands for what it stands for in either; one that
/// only one of them binds can be null besides.
pub proof fn alternatives_bind_either(
    s: Scope,
    p: PathPattern,
    q: PathPattern,
    n: Notes,
    k: Seq<char>,
    x: Thing,
)
    ensures
        ({
            let (r1, n1) = super::judgment::judge_pattern(s, p, n);
            let (r2, n2) = super::judgment::judge_pattern(s, q, n1);
            let (a, b) = (r1.env, r2.env);
            let e = super::judgment::judge_pattern(
                s,
                PathPattern::Union(Box::new(p), Box::new(q)),
                n,
            ).0.env;
            let in_a = a.contains_key(k) && super::element_laws::is_of(x, a[k]);
            let in_b = b.contains_key(k) && super::element_laws::is_of(x, b[k]);
            &&& e.contains_key(k) <==> a.contains_key(k) || b.contains_key(k)
            &&& a.contains_key(k) && b.contains_key(k) ==> (super::element_laws::is_of(x, e[k])
                <==> in_a || in_b)
            &&& a.contains_key(k) != b.contains_key(k) ==> (super::element_laws::is_of(x, e[k])
                <==> in_a || in_b || x is Null)
        }),
{
    let (r1, n1) = super::judgment::judge_pattern(s, p, n);
    let (r2, n2) = super::judgment::judge_pattern(s, q, n1);
    let (a, b) = (r1.env, r2.env);
    if a.contains_key(k) && b.contains_key(k) {
        super::element_laws::join_holds_either(x, a[k], b[k]);
    } else if a.contains_key(k) {
        super::element_laws::join_holds_either(x, a[k], VariableTypeView::Null);
    } else if b.contains_key(k) {
        super::element_laws::join_holds_either(x, VariableTypeView::Null, b[k]);
    }
}

proof fn conflict_found(a: Env, b: Env, keys: Seq<Seq<char>>)
    ensures
        super::type_environment::first_conflict(a, b, keys) is Some <==> exists|i: int|
            0 <= i < keys.len() && super::type_environment::env_conflict(a, b, #[trigger] keys[i]),
    decreases keys.len(),
{
    if keys.len() > 0 {
        let u = keys.drop_last();
        conflict_found(a, b, u);
        if exists|i: int|
            0 <= i < u.len() && super::type_environment::env_conflict(a, b, #[trigger] u[i]) {
            let i = choose|i: int|
                0 <= i < u.len() && super::type_environment::env_conflict(a, b, #[trigger] u[i]);
            assert(super::type_environment::env_conflict(a, b, keys[i]));
        }
        if exists|i: int|
            0 <= i < keys.len() && super::type_environment::env_conflict(a, b, #[trigger] keys[i]) {
            let i = choose|i: int|
                0 <= i < keys.len() && super::type_environment::env_conflict(
                    a,
                    b,
                    #[trigger] keys[i],
                );
            if i < u.len() {
                assert(super::type_environment::env_conflict(a, b, u[i]));
            }
        }
        assert(keys[keys.len() - 1] == keys.last());
    }
}

/// Bindings are refused exactly where a variable of both sides has nothing in
/// common, though it could stand for something on either side.
pub proof fn bindings_are_refused_where_they_conflict(schema: SchemaView, a: Env, b: Env)
    requires
        b.dom().finite(),
    ensures
        super::type_environment::env_meet_result(schema, a, b) is Err <==> exists|k: Seq<char>|
            #![trigger a[k]]
            #![trigger b[k]]
            a.contains_key(k) && b.contains_key(k) && a[k].meet(b[k]) is Zero && !a[k].is_empty()
                && !b[k].is_empty(),
{
    let keys = crate::fields::sorted_keys(b);
    crate::fields::sorted_keys_facts(b);
    conflict_found(a, b, keys);
    if exists|k: Seq<char>|
        #![trigger a[k]]
        #![trigger b[k]]
        a.contains_key(k) && b.contains_key(k) && a[k].meet(b[k]) is Zero && !a[k].is_empty()
            && !b[k].is_empty() {
        let k = choose|k: Seq<char>|
            #![trigger a[k]]
            #![trigger b[k]]
            a.contains_key(k) && b.contains_key(k) && a[k].meet(b[k]) is Zero && !a[k].is_empty()
                && !b[k].is_empty();
        assert(keys.to_set().contains(k));
        let i = choose|i: int| 0 <= i < keys.len() && keys[i] == k;
        assert(super::type_environment::env_conflict(a, b, keys[i]));
    }
    if super::type_environment::first_conflict(a, b, keys) is Some {
        let i = choose|i: int|
            0 <= i < keys.len() && super::type_environment::env_conflict(a, b, #[trigger] keys[i]);
        let k = keys[i];
        assert(a[k].meet(b[k]) is Zero);
    }
}

/// A named path binds its name to a path and leaves the other variables as they
/// are, and a prefix changes nothing.
pub proof fn names_bind_paths(
    s: Scope,
    var: String,
    prefix: PathPrefix,
    p: PathPattern,
    n: Notes,
    k: Seq<char>,
)
    ensures
        super::judgment::judge_pattern(
            s,
            PathPattern::Selected { prefix, pattern: Box::new(p) },
            n,
        ) == super::judgment::judge_pattern(s, p, n),
        ({
            let (r1, n1) = super::judgment::judge_pattern(s, p, n);
            let (r, m) = super::judgment::judge_pattern(
                s,
                PathPattern::Named { var, pattern: Box::new(p) },
                n,
            );
            &&& m == n1
            &&& r.path == r1.path
            &&& r.env.contains_key(var@) && r.env[var@] is Path
            &&& k != var@ ==> (r.env.contains_key(k) <==> r1.env.contains_key(k))
            &&& k != var@ && r1.env.contains_key(k) ==> r.env[k] == r1.env[k]
        }),
{
}

/// A node is what an entry of the schema that matches a descriptor admits.
pub open spec fn node_asked_for(schema: SchemaView, d: DescriptorTypeView, x: Thing) -> bool {
    &&& x is Node
    &&& super::element_laws::described_by(x->Node_0, d)
    &&& exists|i: int|
        0 <= i < schema.nodes.len() && (#[trigger] schema.nodes[i]).subtype(
            VariableTypeView::Node(d),
        ) && super::element_laws::is_of(x, schema.nodes[i])
}

/// A directed edge is what an entry of the schema that matches a descriptor admits.
pub open spec fn edge_asked_for(schema: SchemaView, d: DescriptorTypeView, x: Thing) -> bool {
    &&& x is Edge
    &&& super::element_laws::described_by(x->own, d)
    &&& exists|i: int|
        0 <= i < schema.edges.len() && (#[trigger] schema.edges[i]).subtype(
            VariableTypeView::edge_directional(d),
        ) && super::element_laws::is_of(x, schema.edges[i])
}

/// A pattern for a node binds its variable to the nodes that its descriptor asks
/// for and that the schema knows. A pattern for an edge to the right, to the left
/// or in any direction binds its variable to such directed edges, one for an
/// undirected edge to none of them.
pub proof fn elements_are_bound_as_asked(s: Scope, d: Descriptor, v: String, n: Notes, x: Thing)
    requires
        d.var == Some(v),
        plain_schema(s.schema),
        super::element_laws::is_plain(d.dtype@.label),
        x is Node || (x is Edge && x->directed),
    ensures
        ({
            let node = super::judgment::judge_pattern(s, PathPattern::Node(Some(d)), n).0.env;
            let right = super::judgment::judge_pattern(s, PathPattern::EdgeRight(Some(d)), n).0.env;
            let left = super::judgment::judge_pattern(s, PathPattern::EdgeLeft(Some(d)), n).0.env;
            let none = super::judgment::judge_pattern(
                s,
                PathPattern::EdgeUndirected(Some(d)),
                n,
            ).0.env;
            let any = super::judgment::judge_pattern(
                s,
                PathPattern::EdgeAnyDirection(Some(d)),
                n,
            ).0.env;
            &&& node.dom() =~= set![v@]
            &&& right.dom() =~= set![v@]
            &&& left == right
            &&& none.dom() =~= set![v@]
            &&& any.dom() =~= set![v@]
            &&& x is Node ==> (super::element_laws::is_of(x, node[v@]) <==> node_asked_for(
                s.schema,
                d.dtype@,
                x,
            ))
            &&& x is Edge ==> (super::element_laws::is_of(x, right[v@]) <==> edge_asked_for(
                s.schema,
                d.dtype@,
                x,
            ))
            &&& x is Edge ==> (super::element_laws::is_of(x, any[v@]) <==> edge_asked_for(
                s.schema,
                d.dtype@,
                x,
            ))
            &&& x is Edge ==> !super::element_laws::is_of(x, none[v@])
        }),
{
    let dt = d.dtype@;
    assert(super::judgment::bound_name(Some(d)) == Some(v@));
    if x is Node {
        super::element_laws::nodes_are_refined(s.schema, dt, x);
    } else {
        super::element_laws::edges_are_refined(s.schema, dt, x);
        let t = VariableTypeView::edge_non_directional(dt);
        let directed = s.schema.refine(VariableTypeView::edge_directional(dt));
        let undirected = s.schema.refine(t);
        super::element_laws::join_holds_either(x, directed, undirected);
        reveal_with_fuel(super::element_laws::plain_type, 2);
        if super::element_laws::is_of(x, undirected) {
            super::element_laws::refinement_only_narrows(s.schema, t, x);
        }
    }
}

} // verus!
