//! What the types of a pattern say of the elements of a graph. Labels, records,
//! descriptors and variable types are held to the elements that have them.

use vstd::prelude::*;

use super::descriptor_type::DescriptorTypeView;
use super::label_type::LabelTypeView;
use super::property_type::PropertyTypeView;
use super::simple_type::SimpleTypeView;
use super::variable_type::{SchemaView, VariableTypeView};
use crate::model::value::ValueView;

verus! {

/// Labels satisfy a constraint.
pub open spec fn satisfies(labels: Set<Seq<char>>, l: LabelTypeView) -> bool
    decreases l,
{
    match l {
        LabelTypeView::Label(x) => labels.contains(x),
        LabelTypeView::Star => true,
        LabelTypeView::Top => true,
        LabelTypeView::Empty => false,
        LabelTypeView::And(a, b) => satisfies(labels, *a) && satisfies(labels, *b),
        LabelTypeView::Or(a, b) => satisfies(labels, *a) || satisfies(labels, *b),
        LabelTypeView::Neg(a) => !satisfies(labels, *a),
    }
}

/// Neither negation nor a wildcard occurs in the constraint.
pub open spec fn is_positive(l: LabelTypeView) -> bool
    decreases l,
{
    match l {
        LabelTypeView::Star => false,
        LabelTypeView::Neg(_) => false,
        LabelTypeView::And(a, b) => is_positive(*a) && is_positive(*b),
        LabelTypeView::Or(a, b) => is_positive(*a) && is_positive(*b),
        _ => true,
    }
}

/// A constraint that another is entailed by holds of all labels that it holds of.
pub proof fn entailment_is_sound(labels: Set<Seq<char>>, a: LabelTypeView, b: LabelTypeView)
    requires
        is_positive(a),
        is_positive(b),
        a.subtype(b),
        satisfies(labels, a),
    ensures
        satisfies(labels, b),
    decreases a, b,
{
    match (a, b) {
        (_, LabelTypeView::And(x, y)) => {
            if !(b is Top) && !(a is Empty) {
                entailment_is_sound(labels, a, *x);
                entailment_is_sound(labels, a, *y);
            }
        },
        (LabelTypeView::And(x, y), _) => {
            if !(b is Top) {
                if x.subtype(b) {
                    entailment_is_sound(labels, *x, b);
                } else {
                    entailment_is_sound(labels, *y, b);
                }
            }
        },
        (_, LabelTypeView::Or(x, y)) => {
            if !(a is Empty) {
                if a.subtype(*x) {
                    entailment_is_sound(labels, a, *x);
                } else {
                    entailment_is_sound(labels, a, *y);
                }
            }
        },
        _ => {},
    }
}

/// Of an element with one label every constraint is decided: the label entails
/// exactly the constraints that the element satisfies, with negations and all.
pub proof fn one_label_decides(x: Seq<char>, b: LabelTypeView)
    ensures
        LabelTypeView::Label(x).subtype(b) <==> satisfies(Set::empty().insert(x), b),
    decreases b,
{
    match b {
        LabelTypeView::And(p, q) => {
            one_label_decides(x, *p);
            one_label_decides(x, *q);
        },
        LabelTypeView::Or(p, q) => {
            one_label_decides(x, *p);
            one_label_decides(x, *q);
        },
        LabelTypeView::Neg(p) => {
            one_label_decides(x, *p);
        },
        _ => {},
    }
}

/// A constraint that is a wildcard, or one without negations and wildcards.
pub open spec fn is_plain(l: LabelTypeView) -> bool {
    l is Star || is_positive(l)
}

/// What two constraints have in common holds of the labels that both hold of.
pub proof fn label_meet_holds_of_both(
    labels: Set<Seq<char>>,
    a: LabelTypeView,
    b: LabelTypeView,
)
    requires
        is_plain(a),
        is_plain(b),
    ensures
        satisfies(labels, a.meet(b)) <==> satisfies(labels, a) && satisfies(labels, b),
        is_plain(a.meet(b)),
{
    if is_positive(a) && is_positive(b) {
        if a.subtype(b) && satisfies(labels, a) {
            entailment_is_sound(labels, a, b);
        }
        if b.subtype(a) && satisfies(labels, b) {
            entailment_is_sound(labels, b, a);
        }
    }
}

/// Each attribute is there, with a value of its type.
pub open spec fn has_typed(
    props: Map<Seq<char>, ValueView>,
    m: Map<Seq<char>, SimpleTypeView>,
) -> bool {
    forall|k: Seq<char>|
        #![trigger m.contains_key(k)]
        m.contains_key(k) ==> (props.contains_key(k) && super::value_laws::belongs(
            props[k],
            m[k],
        ))
}

/// Properties fit a record type: an open one where they have at least its
/// attributes, a closed one where they have no others.
pub open spec fn fits(props: Map<Seq<char>, ValueView>, t: PropertyTypeView) -> bool {
    match t {
        PropertyTypeView::Closed(m) => props.dom() == m.dom() && has_typed(props, m),
        PropertyTypeView::Open(m) => has_typed(props, m),
        PropertyTypeView::Zero => false,
    }
}

proof fn merged_fits(
    props: Map<Seq<char>, ValueView>,
    a: Map<Seq<char>, SimpleTypeView>,
    b: Map<Seq<char>, SimpleTypeView>,
)
    ensures
        fits(props, PropertyTypeView::Open(super::simple_type::merged(a, b))) <==> fits(
            props,
            PropertyTypeView::Open(a),
        ) && fits(props, PropertyTypeView::Open(b)),
{
    let m = super::simple_type::merged(a, b);
    assert forall|k: Seq<char>| #[trigger] m.contains_key(k) implies (
    super::value_laws::belongs(props[k], m[k]) <==> (a.contains_key(k)
        ==> super::value_laws::belongs(props[k], a[k])) && (b.contains_key(k)
        ==> super::value_laws::belongs(props[k], b[k]))) by {
        if a.contains_key(k) && b.contains_key(k) {
            super::value_laws::meet_holds_shared(props[k], a[k], b[k]);
        }
    }
    if fits(props, PropertyTypeView::Open(m)) {
        assert forall|k: Seq<char>| #[trigger] a.contains_key(k) implies props.contains_key(k)
            && super::value_laws::belongs(props[k], a[k]) by {
            assert(m.contains_key(k));
        }
        assert forall|k: Seq<char>| #[trigger] b.contains_key(k) implies props.contains_key(k)
            && super::value_laws::belongs(props[k], b[k]) by {
            assert(m.contains_key(k));
        }
    }
}

proof fn closed_is_open_and_full(
    props: Map<Seq<char>, ValueView>,
    m: Map<Seq<char>, SimpleTypeView>,
)
    ensures
        fits(props, PropertyTypeView::Closed(m)) <==> props.dom() == m.dom() && fits(
            props,
            PropertyTypeView::Open(m),
        ),
{
}

/// Properties fit what two record types have in common exactly where they fit
/// both.
pub proof fn record_meet_holds_of_both(
    props: Map<Seq<char>, ValueView>,
    a: PropertyTypeView,
    b: PropertyTypeView,
)
    ensures
        fits(props, a.meet(b)) <==> fits(props, a) && fits(props, b),
{
    match (a, b) {
        (PropertyTypeView::Open(x), PropertyTypeView::Open(y)) => merged_fits(props, x, y),
        (PropertyTypeView::Closed(x), PropertyTypeView::Closed(y)) => {
            let m = super::simple_type::merged(x, y);
            merged_fits(props, x, y);
            closed_is_open_and_full(props, x);
            closed_is_open_and_full(props, y);
            closed_is_open_and_full(props, m);
            if x.dom() == y.dom() {
                assert(m.dom() =~= x.dom());
            }
        },
        (PropertyTypeView::Open(x), PropertyTypeView::Closed(y)) => {
            let m = super::simple_type::merged(x, y);
            merged_fits(props, x, y);
            closed_is_open_and_full(props, y);
            closed_is_open_and_full(props, m);
            if x.dom().subset_of(y.dom()) {
                assert(m.dom() =~= y.dom());
            } else if fits(props, a) && fits(props, b) {
                assert forall|k: Seq<char>| x.dom().contains(k) implies y.dom().contains(k) by {
                    assert(x.contains_key(k));
                    assert(props.dom().contains(k));
                }
            }
        },
        (PropertyTypeView::Closed(x), PropertyTypeView::Open(y)) => {
            let m = super::simple_type::merged(y, x);
            merged_fits(props, y, x);
            closed_is_open_and_full(props, x);
            closed_is_open_and_full(props, m);
            if y.dom().subset_of(x.dom()) {
                assert(m.dom() =~= x.dom());
            } else if fits(props, a) && fits(props, b) {
                assert forall|k: Seq<char>| y.dom().contains(k) implies x.dom().contains(k) by {
                    assert(y.contains_key(k));
                    assert(props.dom().contains(k));
                }
            }
        },
        _ => {},
    }
}

/// A property of an element belongs to the type of the attribute, and an element
/// of a closed record has no attribute but those of the record.
pub proof fn attributes_have_their_type(
    props: Map<Seq<char>, ValueView>,
    t: PropertyTypeView,
    attr: Seq<char>,
)
    requires
        fits(props, t),
        props.contains_key(attr),
    ensures
        super::value_laws::belongs(props[attr], t.get(attr)),
        t is Closed ==> t->Closed_0.contains_key(attr),
{
    if t is Closed {
        assert(t->Closed_0.dom().contains(attr));
    }
}

/// A node as types see it.
pub ghost struct NodeThing {
    pub labels: Set<Seq<char>>,
    pub props: Map<Seq<char>, ValueView>,
}

/// An element of a graph, or what else a variable can stand for.
pub ghost enum Thing {
    Node(NodeThing),
    Edge { own: NodeThing, src: NodeThing, tgt: NodeThing, directed: bool },
    Null,
    Path,
}

/// A node, or an edge for itself, has what a descriptor asks for.
pub open spec fn described_by(n: NodeThing, d: DescriptorTypeView) -> bool {
    satisfies(n.labels, d.label) && fits(n.props, d.props)
}

/// A node is of a type.
pub open spec fn node_of(n: NodeThing, t: VariableTypeView) -> bool {
    t is Node && described_by(n, t->Node_0)
}

/// An element is of a type. A directed edge leaves its left node and enters its
/// right one; an undirected edge can be seen from either end.
pub open spec fn is_of(x: Thing, t: VariableTypeView) -> bool
    decreases t,
{
    match t {
        VariableTypeView::Node(d) => x is Node && described_by(x->Node_0, d),
        VariableTypeView::EdgeDirectional { desc, left, right } => x is Edge && x->directed
            && described_by(x->own, desc) && node_of(x->src, *left) && node_of(x->tgt, *right),
        VariableTypeView::EdgeNonDirectional { desc, left, right } => x is Edge && !x->directed
            && described_by(x->own, desc) && ((node_of(x->src, *left) && node_of(x->tgt, *right))
            || (node_of(x->tgt, *left) && node_of(x->src, *right))),
        VariableTypeView::Union(a, b) => is_of(x, *a) || is_of(x, *b),
        VariableTypeView::Group(_) => false,
        VariableTypeView::Null => x is Null,
        VariableTypeView::Path => x is Path,
        VariableTypeView::Zero => false,
    }
}

/// Every label constraint in the type is plain.
pub open spec fn plain_type(t: VariableTypeView) -> bool
    decreases t,
{
    match t {
        VariableTypeView::Node(d) => is_plain(d.label),
        VariableTypeView::EdgeDirectional { desc, left, right } => is_plain(desc.label)
            && plain_type(*left) && plain_type(*right),
        VariableTypeView::EdgeNonDirectional { desc, left, right } => is_plain(desc.label)
            && plain_type(*left) && plain_type(*right),
        VariableTypeView::Union(a, b) => plain_type(*a) && plain_type(*b),
        VariableTypeView::Group(a) => plain_type(*a),
        _ => true,
    }
}

proof fn descriptor_meet_holds_of_both(n: NodeThing, a: DescriptorTypeView, b: DescriptorTypeView)
    requires
        is_plain(a.label),
        is_plain(b.label),
    ensures
        described_by(n, a.meet(b)) <==> described_by(n, a) && described_by(n, b),
{
    label_meet_holds_of_both(n.labels, a.label, b.label);
    record_meet_holds_of_both(n.props, a.props, b.props);
}

/// An element is of the join of two types exactly where it is of one of them.
pub proof fn join_holds_either(x: Thing, a: VariableTypeView, b: VariableTypeView)
    ensures
        is_of(x, a.join(b)) <==> is_of(x, a) || is_of(x, b),
{
}

/// A node or a directed edge is of what two types have in common exactly where it
/// is of both.
pub proof fn meet_holds_both(x: Thing, a: VariableTypeView, b: VariableTypeView)
    requires
        plain_type(a),
        plain_type(b),
        x is Edge ==> x->directed,
    ensures
        is_of(x, a.meet(b)) <==> is_of(x, a) && is_of(x, b),
    decreases a.size() + b.size(),
{
    reveal_with_fuel(plain_type, 2);
    match (a, b) {
        (VariableTypeView::Group(p), VariableTypeView::Group(q)) => {},
        (VariableTypeView::Node(p), VariableTypeView::Node(q)) => {
            if x is Node {
                descriptor_meet_holds_of_both(x->Node_0, p, q);
            }
        },
        (
            VariableTypeView::EdgeDirectional { desc: d1, left: l1, right: r1 },
            VariableTypeView::EdgeDirectional { desc: d2, left: l2, right: r2 },
        ) => {
            if x is Edge && *l1 is Node && *l2 is Node && *r1 is Node && *r2 is Node {
                descriptor_meet_holds_of_both(x->own, d1, d2);
                descriptor_meet_holds_of_both(x->src, (*l1)->Node_0, (*l2)->Node_0);
                descriptor_meet_holds_of_both(x->tgt, (*r1)->Node_0, (*r2)->Node_0);
            }
        },
        (
            VariableTypeView::EdgeNonDirectional { .. },
            VariableTypeView::EdgeNonDirectional { .. },
        ) => {
            reveal_with_fuel(is_of, 2);
        },
        (VariableTypeView::Union(p, q), _) => {
            meet_holds_both(x, *p, b);
            meet_holds_both(x, *q, b);
            join_holds_either(x, p.meet(b), q.meet(b));
        },
        (_, VariableTypeView::Union(p, q)) => {
            meet_holds_both(x, *p, a);
            meet_holds_both(x, *q, a);
            join_holds_either(x, p.meet(a), q.meet(a));
        },
        _ => {},
    }
}

/// An element is of what two types of undirected edges have in common exactly
/// where it is of both, whichever way round it is seen.
pub proof fn undirected_meet_keeps(
    x: Thing,
    d1: DescriptorTypeView,
    l1: DescriptorTypeView,
    r1: DescriptorTypeView,
    d2: DescriptorTypeView,
    l2: DescriptorTypeView,
    r2: DescriptorTypeView,
)
    requires
        is_plain(d1.label) && is_plain(l1.label) && is_plain(r1.label),
        is_plain(d2.label) && is_plain(l2.label) && is_plain(r2.label),
    ensures
        ({
            let a = VariableTypeView::EdgeNonDirectional {
                desc: d1,
                left: Box::new(VariableTypeView::Node(l1)),
                right: Box::new(VariableTypeView::Node(r1)),
            };
            let b = VariableTypeView::EdgeNonDirectional {
                desc: d2,
                left: Box::new(VariableTypeView::Node(l2)),
                right: Box::new(VariableTypeView::Node(r2)),
            };
            is_of(x, a.meet(b)) <==> is_of(x, a) && is_of(x, b)
        }),
{
    reveal_with_fuel(is_of, 2);
    if x is Edge {
        descriptor_meet_holds_of_both(x->own, d1, d2);
        descriptor_meet_holds_of_both(x->src, l1, l2);
        descriptor_meet_holds_of_both(x->src, l1, r2);
        descriptor_meet_holds_of_both(x->src, r1, l2);
        descriptor_meet_holds_of_both(x->src, r1, r2);
        descriptor_meet_holds_of_both(x->tgt, l1, l2);
        descriptor_meet_holds_of_both(x->tgt, l1, r2);
        descriptor_meet_holds_of_both(x->tgt, r1, l2);
        descriptor_meet_holds_of_both(x->tgt, r1, r2);
    }
}

proof fn joined_all(x: Thing, ts: Seq<VariableTypeView>)
    ensures
        is_of(x, VariableTypeView::join_all(ts)) <==> exists|i: int|
            0 <= i < ts.len() && is_of(x, #[trigger] ts[i]),
    decreases ts.len(),
{
    if ts.len() > 0 {
        let init = ts.drop_last();
        joined_all(x, init);
        join_holds_either(x, VariableTypeView::join_all(init), ts.last());
        if exists|i: int| 0 <= i < init.len() && is_of(x, #[trigger] init[i]) {
            let i = choose|i: int| 0 <= i < init.len() && is_of(x, #[trigger] init[i]);
            assert(is_of(x, ts[i]));
        }
        if is_of(x, ts.last()) {
            assert(is_of(x, ts[ts.len() - 1]));
        }
        if exists|i: int| 0 <= i < ts.len() && is_of(x, #[trigger] ts[i]) {
            let i = choose|i: int| 0 <= i < ts.len() && is_of(x, #[trigger] ts[i]);
            if i < init.len() {
                assert(is_of(x, init[i]));
            }
        }
    }
}

proof fn matching_holds(x: Thing, entries: Seq<VariableTypeView>, t: VariableTypeView)
    requires
        plain_type(t),
        forall|i: int| 0 <= i < entries.len() ==> plain_type(#[trigger] entries[i]),
        x is Edge ==> x->directed,
    ensures
        is_of(x, VariableTypeView::join_all(super::variable_type::matching(entries, t)))
            <==> is_of(x, t) && exists|i: int|
            0 <= i < entries.len() && (#[trigger] entries[i]).subtype(t) && is_of(x, entries[i]),
    decreases entries.len(),
{
    if entries.len() > 0 {
        let init = entries.drop_last();
        let last = entries[entries.len() - 1];
        assert forall|i: int| 0 <= i < init.len() implies plain_type(#[trigger] init[i]) by {
            assert(plain_type(entries[i]));
        }
        matching_holds(x, init, t);
        let rest = super::variable_type::matching(init, t);
        let all = super::variable_type::matching(entries, t);
        if last.subtype(t) {
            assert(all.drop_last() =~= rest);
            meet_holds_both(x, last, t);
            join_holds_either(x, VariableTypeView::join_all(rest), last.meet(t));
        }
        if exists|i: int|
            0 <= i < init.len() && (#[trigger] init[i]).subtype(t) && is_of(x, init[i]) {
            let i = choose|i: int|
                0 <= i < init.len() && (#[trigger] init[i]).subtype(t) && is_of(x, init[i]);
            assert(entries[i].subtype(t) && is_of(x, entries[i]));
        }
        if exists|i: int|
            0 <= i < entries.len() && (#[trigger] entries[i]).subtype(t) && is_of(x, entries[i]) {
            let i = choose|i: int|
                0 <= i < entries.len() && (#[trigger] entries[i]).subtype(t) && is_of(
                    x,
                    entries[i],
                );
            if i < init.len() {
                assert(init[i].subtype(t) && is_of(x, init[i]));
            }
        }
    }
}

/// What a node pattern stands for under a schema: the nodes that it asks for and
/// that are of an entry of the schema which matches it.
pub proof fn nodes_are_refined(schema: SchemaView, d: DescriptorTypeView, x: Thing)
    requires
        is_plain(d.label),
        forall|i: int| 0 <= i < schema.nodes.len() ==> plain_type(#[trigger] schema.nodes[i]),
        x is Node,
    ensures
        is_of(x, schema.refine(VariableTypeView::Node(d))) <==> described_by(x->Node_0, d)
            && exists|i: int|
            0 <= i < schema.nodes.len() && (#[trigger] schema.nodes[i]).subtype(
                VariableTypeView::Node(d),
            ) && is_of(x, schema.nodes[i]),
{
    matching_holds(x, schema.nodes, VariableTypeView::Node(d));
}

/// What a pattern for a directed edge stands for under a schema: the directed
/// edges that it asks for and that are of an entry of the schema which matches it.
pub proof fn edges_are_refined(schema: SchemaView, d: DescriptorTypeView, x: Thing)
    requires
        is_plain(d.label),
        forall|i: int| 0 <= i < schema.edges.len() ==> plain_type(#[trigger] schema.edges[i]),
        x is Edge,
        x->directed,
    ensures
        is_of(x, schema.refine(VariableTypeView::edge_directional(d))) <==> described_by(
            x->own,
            d,
        ) && exists|i: int|
            0 <= i < schema.edges.len() && (#[trigger] schema.edges[i]).subtype(
                VariableTypeView::edge_directional(d),
            ) && is_of(x, schema.edges[i]),
{
    let t = VariableTypeView::edge_directional(d);
    reveal_with_fuel(plain_type, 2);
    matching_holds(x, schema.edges, t);
    assert(is_of(x, t) <==> described_by(x->own, d)) by {
        assert(fits(x->src.props, PropertyTypeView::Open(Map::empty())));
        assert(fits(x->tgt.props, PropertyTypeView::Open(Map::empty())));
        reveal_with_fuel(satisfies, 2);
    }
}

/// The types of the attribute of an element cover its property.
pub proof fn element_attributes_have_their_type(x: Thing, t: VariableTypeView, attr: Seq<char>)
    requires
        is_of(x, t),
        x is Node || x is Edge,
        x is Node ==> x->Node_0.props.contains_key(attr),
        x is Edge ==> x->own.props.contains_key(attr),
    ensures
        x is Node ==> super::value_laws::belongs(x->Node_0.props[attr], t.attribute(attr)),
        x is Edge ==> super::value_laws::belongs(x->own.props[attr], t.attribute(attr)),
    decreases t,
{
    let v = if x is Node {
        x->Node_0.props[attr]
    } else {
        x->own.props[attr]
    };
    match t {
        VariableTypeView::Node(d) => {
            attributes_have_their_type(x->Node_0.props, d.props, attr);
        },
        VariableTypeView::EdgeDirectional { desc, .. } => {
            attributes_have_their_type(x->own.props, desc.props, attr);
        },
        VariableTypeView::EdgeNonDirectional { desc, .. } => {
            attributes_have_their_type(x->own.props, desc.props, attr);
        },
        VariableTypeView::Union(a, b) => {
            super::value_laws::union_holds_both(v, a.attribute(attr), b.attribute(attr));
            if is_of(x, *a) {
                element_attributes_have_their_type(x, *a, attr);
            } else {
                element_attributes_have_their_type(x, *b, attr);
            }
        },
        _ => {},
    }
}

/// What a type stands for under a schema is of the type.
pub proof fn refinement_only_narrows(schema: SchemaView, t: VariableTypeView, x: Thing)
    requires
        plain_type(t),
        forall|i: int| 0 <= i < schema.nodes.len() ==> plain_type(#[trigger] schema.nodes[i]),
        forall|i: int| 0 <= i < schema.edges.len() ==> plain_type(#[trigger] schema.edges[i]),
        x is Edge ==> x->directed,
        is_of(x, schema.refine(t)),
    ensures
        is_of(x, t),
    decreases t,
{
    match t {
        VariableTypeView::Node(_) => matching_holds(x, schema.nodes, t),
        VariableTypeView::EdgeDirectional { .. } => matching_holds(x, schema.edges, t),
        VariableTypeView::EdgeNonDirectional { .. } => matching_holds(x, schema.edges, t),
        VariableTypeView::Union(a, b) => {
            join_holds_either(x, schema.refine(*a), schema.refine(*b));
            if is_of(x, schema.refine(*a)) {
                refinement_only_narrows(schema, *a, x);
            } else {
                refinement_only_narrows(schema, *b, x);
            }
        },
        _ => {},
    }
}

} // verus!
