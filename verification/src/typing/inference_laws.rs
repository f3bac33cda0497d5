//! What an inferred schema says of the graph it was inferred from, and what
//! validation says of the elements of a graph.

use vstd::prelude::*;

use super::descriptor_type::DescriptorTypeView;
use super::element_laws::{NodeThing, Thing};
use super::inference::ItemView;
use super::label_type::LabelTypeView;
use super::property_type::PropertyTypeView;
use super::simple_type::SimpleTypeView;
use super::variable_type::{SchemaView, VariableTypeView};
use crate::model::graph_access::{EdgeView, GraphModel, NodeView};
use crate::model::value::{Id, ValueView};

verus! {

/// A node of a graph as types see it.
pub open spec fn node_thing(n: NodeView) -> NodeThing {
    NodeThing { labels: n.labels.required().to_set(), props: n.props }
}

/// No property is null, in whole or in part.
pub open spec fn no_nulls(props: Map<Seq<char>, ValueView>) -> bool {
    forall|k: Seq<char>| #[trigger]
        props.contains_key(k) ==> super::value_laws::without_null(props[k])
}

proof fn conjunction_satisfied(labels: Seq<Seq<char>>, own: Set<Seq<char>>)
    ensures
        super::element_laws::satisfies(own, super::inference::label_conjunction(labels))
            <==> forall|i: int| 0 <= i < labels.len() ==> own.contains(#[trigger] labels[i]),
    decreases labels.len(),
{
    if labels.len() == 1 {
        assert(labels[0] == labels.first());
    } else if labels.len() > 1 {
        let rest = labels.drop_first();
        conjunction_satisfied(rest, own);
        let all = super::inference::label_conjunction(labels);
        assert(super::element_laws::satisfies(own, all) <==> own.contains(labels[0])
            && super::element_laws::satisfies(own, super::inference::label_conjunction(rest))) by {
            reveal_with_fuel(super::element_laws::satisfies, 2);
        }
        if forall|i: int| 0 <= i < labels.len() ==> own.contains(#[trigger] labels[i]) {
            assert forall|i: int| 0 <= i < rest.len() implies own.contains(#[trigger] rest[i]) by {
                assert(own.contains(labels[i + 1]));
            }
        }
        if own.contains(labels[0]) && forall|i: int|
            0 <= i < rest.len() ==> own.contains(#[trigger] rest[i]) {
            assert forall|i: int| 0 <= i < labels.len() implies own.contains(
                #[trigger] labels[i],
            ) by {
                if i > 0 {
                    assert(own.contains(rest[i - 1]));
                }
            }
        }
    }
}

/// The labels of an element in order are its labels.
proof fn listed_labels(labels: LabelTypeView, x: Seq<char>)
    ensures
        super::inference::label_list(labels).contains(x) <==> labels.required().contains(x),
{
    broadcast use vstd::seq_lib::group_to_multiset_ensures;

    let s = labels.required();
    crate::order::sorted_in_order(s);
    let t = super::inference::label_list(labels);
    assert(t.to_multiset().count(x) == s.to_multiset().count(x));
    assert(t.contains(x) <==> t.to_multiset().count(x) > 0);
    assert(s.contains(x) <==> s.to_multiset().count(x) > 0);
}

/// Every listed node is of a type of the inferred schema, and that type demands
/// all its labels.
pub proof fn inferred_types_hold_their_nodes(m: GraphModel, i: int) -> (j: int)
    requires
        0 <= i < m.node_ids.len(),
        no_nulls(m.nodes[m.node_ids[i]].props),
    ensures
        0 <= j < super::inference::inferred_schema(m).nodes.len(),
        super::element_laws::is_of(
            Thing::Node(node_thing(m.nodes[m.node_ids[i]])),
            super::inference::inferred_schema(m).nodes[j],
        ),
        forall|own: Set<Seq<char>>|
            super::element_laws::satisfies(
                own,
                super::inference::inferred_schema(m).nodes[j]->Node_0.label,
            ) ==> m.nodes[m.node_ids[i]].labels.required().to_set().subset_of(own),
{
    let items = super::inference::node_items(m);
    let schema = super::inference::inferred_schema(m);
    let n = m.nodes[m.node_ids[i]];
    let j = super::validate::keys_enumerated(items, i);
    let key = items[i].key;
    let labels = super::inference::label_list(n.labels);
    assert(key[0] == labels);
    let own = n.labels.required().to_set();
    assert forall|q: int| 0 <= q < labels.len() implies own.contains(#[trigger] labels[q]) by {
        assert(labels.contains(labels[q]));
        listed_labels(n.labels, labels[q]);
    }
    conjunction_satisfied(labels, own);
    group_fits_member(items, i, n.props);
    assert(schema.nodes[j] == VariableTypeView::Node(
        super::inference::group_descriptor(items, key),
    ));
    assert forall|other: Set<Seq<char>>|
        super::element_laws::satisfies(other, schema.nodes[j]->Node_0.label) implies own.subset_of(
        other,
    ) by {
        conjunction_satisfied(labels, other);
        assert forall|x: Seq<char>| own.contains(x) implies other.contains(x) by {
            listed_labels(n.labels, x);
            let q = choose|q: int| 0 <= q < labels.len() && labels[q] == x;
            assert(other.contains(labels[q]));
        }
    }
    j
}

/// The record of a group fits the properties of each of its elements.
proof fn group_fits_member(items: Seq<ItemView>, i: int, props: Map<Seq<char>, ValueView>)
    requires
        0 <= i < items.len(),
        items[i].props == super::inference::prop_types(props),
        no_nulls(props),
    ensures
        super::element_laws::fits(
            props,
            super::inference::group_props(super::inference::group_members(items, items[i].key)),
        ),
{
    let members = super::inference::group_members(items, items[i].key);
    super::validate::member_of_group(items, i);
    let q = choose|q: int| 0 <= q < members.len() && members[q] == items[i].props;
    let common = super::inference::common_props(members);
    assert forall|k: Seq<char>| #[trigger] common.contains_key(k) implies props.contains_key(k)
        && super::value_laws::belongs(props[k], common[k]) by {
        assert(members[q].contains_key(k) && members[q][k] == members[0][k]);
        super::value_laws::stored_values_have_their_type(props[k]);
    }
    if super::inference::uniform(members) {
        assert(members[q] == members[0]);
        assert forall|k: Seq<char>| props.dom().contains(k) <==> common.dom().contains(k) by {
            if props.contains_key(k) {
                assert(members[q].contains_key(k));
                assert forall|p: int| 0 <= p < members.len() implies (
                #[trigger] members[p]).contains_key(k) && members[p][k] == members[0][k] by {
                    assert(members[p] == members[0]);
                }
            }
        }
        assert(props.dom() =~= common.dom());
    }
}

/// Every node type of the inferred schema has a listed node to show for it: one
/// whose labels are those of the type.
pub proof fn inferred_types_are_witnessed(m: GraphModel, j: int) -> (i: int)
    requires
        0 <= j < super::inference::inferred_schema(m).nodes.len(),
    ensures
        0 <= i < m.node_ids.len(),
        super::inference::inferred_schema(m).nodes[j] is Node,
        super::inference::inferred_schema(m).nodes[j]->Node_0.label
            == super::inference::label_conjunction(
            super::inference::label_list(m.nodes[m.node_ids[i]].labels),
        ),
{
    let items = super::inference::node_items(m);
    let keys = super::inference::group_keys(items);
    let all = Seq::new(items.len(), |i: int| items[i].key);
    crate::order::orders_total();
    crate::order::enumeration_of(crate::order::key_order(), all);
    assert(keys.to_set().contains(keys[j]));
    assert(all.to_set().contains(keys[j]));
    let i = choose|i: int| 0 <= i < all.len() && all[i] == keys[j];
    assert(items[i].key[0] == super::inference::label_list(m.nodes[m.node_ids[i]].labels));
    i
}

/// A property of an inferred node type is one that every node with the labels of
/// the type has, with a value of the type.
pub proof fn inferred_properties_are_common(m: GraphModel, i: int, k: Seq<char>)
    requires
        0 <= i < m.node_ids.len(),
        no_nulls(m.nodes[m.node_ids[i]].props),
        super::inference::common_props(
            super::inference::group_members(
                super::inference::node_items(m),
                super::inference::node_key(m.nodes[m.node_ids[i]]),
            ),
        ).contains_key(k),
    ensures
        m.nodes[m.node_ids[i]].props.contains_key(k),
        super::value_laws::belongs(
            m.nodes[m.node_ids[i]].props[k],
            super::inference::common_props(
                super::inference::group_members(
                    super::inference::node_items(m),
                    super::inference::node_key(m.nodes[m.node_ids[i]]),
                ),
            )[k],
        ),
{
    let items = super::inference::node_items(m);
    let props = m.nodes[m.node_ids[i]].props;
    let members = super::inference::group_members(items, items[i].key);
    super::validate::member_of_group(items, i);
    let q = choose|q: int| 0 <= q < members.len() && members[q] == items[i].props;
    assert(members[q].contains_key(k) && members[q][k] == members[0][k]);
    super::value_laws::stored_values_have_their_type(props[k]);
}

/// A type of scalars.
pub open spec fn is_scalar_type(t: SimpleTypeView) -> bool {
    t is Z || t is F || t is B || t is S
}

/// A closed record type that declares scalars admits the properties of an element,
/// scalars all, exactly where they are its attributes and each value belongs to its
/// type.
pub proof fn closed_records_are_checked(
    props: Map<Seq<char>, ValueView>,
    declared: Map<Seq<char>, SimpleTypeView>,
)
    requires
        forall|k: Seq<char>| #[trigger]
            props.contains_key(k) ==> super::value_laws::is_scalar(props[k]),
        forall|k: Seq<char>| #[trigger] declared.contains_key(k) ==> is_scalar_type(declared[k]),
    ensures
        ({
            let t = PropertyTypeView::Closed(super::inference::prop_types(props));
            let d = PropertyTypeView::Closed(declared);
            t.subtype(d) && d.subtype(t) <==> super::element_laws::fits(props, d)
        }),
{
    let own = super::inference::prop_types(props);
    let t = PropertyTypeView::Closed(own);
    let d = PropertyTypeView::Closed(declared);
    assert(own.dom() =~= props.dom());
    if own.dom() == declared.dom() {
        assert forall|k: Seq<char>| #[trigger] declared.contains_key(k) implies own.contains_key(k)
            && (own[k].subtype(declared[k]) <==> super::value_laws::belongs(props[k], declared[k]))
            && (declared[k].subtype(own[k]) <==> super::value_laws::belongs(
            props[k],
            declared[k],
        )) by {
            assert(own.dom().contains(k));
            assert(props.contains_key(k));
        }
        if super::element_laws::fits(props, d) {
            assert forall|k: Seq<char>| #[trigger] own.contains_key(k) && declared.contains_key(
                k,
            ) implies own[k].subtype(declared[k]) by {
            }
            assert forall|k: Seq<char>| #[trigger] declared.contains_key(k) && own.contains_key(
                k,
            ) implies declared[k].subtype(own[k]) by {
            }
        }
        if t.subtype(d) {
            assert forall|k: Seq<char>| #[trigger] declared.contains_key(k) implies
                props.contains_key(k) && super::value_laws::belongs(props[k], declared[k]) by {
                assert(own.contains_key(k));
            }
        }
    }
}

/// Validation admits a node under an entry of labels and a closed record of
/// scalars exactly where the labels are the same and the properties fit.
pub proof fn nodes_are_validated(
    n: NodeView,
    labels: LabelTypeView,
    declared: Map<Seq<char>, SimpleTypeView>,
)
    requires
        n.labels.required().len() > 0,
        labels.is_conjunction(),
        forall|k: Seq<char>| #[trigger]
            n.props.contains_key(k) ==> super::value_laws::is_scalar(n.props[k]),
        forall|k: Seq<char>| #[trigger] declared.contains_key(k) ==> is_scalar_type(declared[k]),
    ensures
        super::validate::consistent(
            super::validate::node_instance(n),
            VariableTypeView::Node(
                DescriptorTypeView { label: labels, props: PropertyTypeView::Closed(declared) },
            ),
        ) <==> n.labels.required().to_set() == labels.required().to_set()
            && super::element_laws::fits(n.props, PropertyTypeView::Closed(declared)),
{
    let list = super::inference::label_list(n.labels);
    let own = super::inference::label_conjunction(list);
    assert(list.len() > 0) by {
        listed_labels(n.labels, n.labels.required()[0]);
    }
    closed_records_are_checked(n.props, declared);
    from_list_is_conjunction(list);
    LabelTypeView::from_list_required(list);
    super::label_type::conjunction_entails(own, labels);
    super::label_type::conjunction_entails(labels, own);
    assert forall|x: Seq<char>| #[trigger] own.required().contains(x)
        <==> n.labels.required().contains(x) by {
        listed_labels(n.labels, x);
    }
    let a = n.labels.required().to_set();
    let b = labels.required().to_set();
    if super::label_type::demands_all(own, labels) && super::label_type::demands_all(labels, own) {
        assert forall|x: Seq<char>| a.contains(x) <==> b.contains(x) by {
            assert(own.required().contains(x) <==> n.labels.required().contains(x));
            if own.required().contains(x) {
                assert(labels.required().contains(x));
            }
            if labels.required().contains(x) {
                assert(own.required().contains(x));
            }
        }
        assert(a =~= b);
    }
    if a == b {
        assert forall|x: Seq<char>| #[trigger] labels.required().contains(x) implies
            own.required().contains(x) by {
            assert(b.contains(x));
            assert(a.contains(x));
        }
        assert forall|x: Seq<char>| #[trigger] own.required().contains(x) implies
            labels.required().contains(x) by {
            assert(a.contains(x));
            assert(b.contains(x));
        }
    }
}

proof fn from_list_is_conjunction(labels: Seq<Seq<char>>)
    requires
        labels.len() > 0,
    ensures
        LabelTypeView::from_list(labels).is_conjunction(),
    decreases labels.len(),
{
    assert(LabelTypeView::Label(labels[0]).is_conjunction());
    if labels.len() > 1 {
        from_list_is_conjunction(labels.drop_first());
    }
}

/// A listed node is reported exactly where no entry of the schema admits it.
pub proof fn violations_are_the_nodes_not_admitted(
    m: GraphModel,
    schema: SchemaView,
    ids: Seq<Id>,
    id: Id,
)
    ensures
        (exists|v: int|
            0 <= v < super::validate::node_violations(m, schema, ids).len()
                && #[trigger] super::validate::node_violations(m, schema, ids)[v].id == id)
            <==> ids.contains(id) && !exists|e: int|
            0 <= e < schema.nodes.len() && super::validate::consistent(
                super::validate::node_instance(m.nodes[id]),
                #[trigger] schema.nodes[e],
            ),
    decreases ids.len(),
{
    let all = super::validate::node_violations(m, schema, ids);
    if ids.len() > 0 {
        let init = ids.drop_last();
        let last = ids[ids.len() - 1];
        let rest = super::validate::node_violations(m, schema, init);
        violations_are_the_nodes_not_admitted(m, schema, init, id);
        assert(ids =~= init.push(last));
        assert(ids.contains(id) <==> init.contains(id) || id == last) by {
            if init.contains(id) {
                let i = choose|i: int| 0 <= i < init.len() && init[i] == id;
                assert(ids[i] == id);
            }
            if ids.contains(id) {
                let i = choose|i: int| 0 <= i < ids.len() && ids[i] == id;
                if i < init.len() {
                    assert(init[i] == id);
                }
            }
            assert(ids[ids.len() - 1] == last);
        }
        assert(all.len() >= rest.len());
        assert forall|v: int| 0 <= v < rest.len() implies #[trigger] all[v] == rest[v] by {}
        if exists|v: int| 0 <= v < rest.len() && #[trigger] rest[v].id == id {
            let v = choose|v: int| 0 <= v < rest.len() && #[trigger] rest[v].id == id;
            assert(all[v].id == id);
        }
        if all.len() > rest.len() {
            assert(all[rest.len() as int].id == last);
        }
        if exists|v: int| 0 <= v < all.len() && #[trigger] all[v].id == id {
            let v = choose|v: int| 0 <= v < all.len() && #[trigger] all[v].id == id;
            if v < rest.len() {
                assert(rest[v].id == id);
            }
        }
    }
}

/// An edge of a graph as types see it.
pub open spec fn edge_thing(m: GraphModel, e: EdgeView) -> Thing {
    Thing::Edge {
        own: NodeThing { labels: e.labels.required().to_set(), props: e.props },
        src: node_thing(m.nodes[e.src]),
        tgt: node_thing(m.nodes[e.tgt]),
        directed: e.directed,
    }
}

/// A listed node is of the type that an edge at it has for that end.
proof fn ends_are_of_their_type(m: GraphModel, id: Id)
    requires
        m.node_ids.contains(id),
        no_nulls(m.nodes[id].props),
    ensures
        super::element_laws::node_of(
            node_thing(m.nodes[id]),
            super::inference::endpoint_type(
                super::inference::node_items(m),
                super::inference::label_list(m.nodes[id].labels),
            ),
        ),
{
    let items = super::inference::node_items(m);
    let i = choose|i: int| 0 <= i < m.node_ids.len() && m.node_ids[i] == id;
    let n = m.nodes[id];
    let labels = super::inference::label_list(n.labels);
    let keys = Seq::new(items.len(), |i: int| items[i].key);
    assert(keys[i] == seq![labels]);
    assert(super::inference::item_keys(items).contains(seq![labels]));
    assert(seq![labels][0] == labels);
    let own = n.labels.required().to_set();
    assert forall|q: int| 0 <= q < labels.len() implies own.contains(#[trigger] labels[q]) by {
        assert(labels.contains(labels[q]));
        listed_labels(n.labels, labels[q]);
    }
    conjunction_satisfied(labels, own);
    group_fits_member(items, i, n.props);
}

/// Every listed edge between listed nodes is of a type of the inferred schema:
/// one with its direction, that it leaves on the left and enters on the right.
pub proof fn inferred_types_hold_their_edges(m: GraphModel, i: int) -> (j: int)
    requires
        0 <= i < m.edge_ids().len(),
        m.node_ids.contains(m.edges[m.edge_ids()[i]].src),
        m.node_ids.contains(m.edges[m.edge_ids()[i]].tgt),
        no_nulls(m.edges[m.edge_ids()[i]].props),
        no_nulls(m.nodes[m.edges[m.edge_ids()[i]].src].props),
        no_nulls(m.nodes[m.edges[m.edge_ids()[i]].tgt].props),
    ensures
        0 <= j < super::inference::inferred_schema(m).edges.len(),
        super::element_laws::is_of(
            edge_thing(m, m.edges[m.edge_ids()[i]]),
            super::inference::inferred_schema(m).edges[j],
        ),
{
    let items = super::inference::edge_items(m);
    let schema = super::inference::inferred_schema(m);
    let e = m.edges[m.edge_ids()[i]];
    let j = super::validate::keys_enumerated(items, i);
    let key = items[i].key;
    let labels = super::inference::label_list(e.labels);
    assert(key[0] == labels);
    assert(key[1] == super::inference::label_list(m.nodes[e.src].labels));
    assert(key[2] == super::inference::label_list(m.nodes[e.tgt].labels));
    assert(key[3] == super::inference::direction_list(e.directed));
    let own = e.labels.required().to_set();
    assert forall|q: int| 0 <= q < labels.len() implies own.contains(#[trigger] labels[q]) by {
        assert(labels.contains(labels[q]));
        listed_labels(e.labels, labels[q]);
    }
    conjunction_satisfied(labels, own);
    group_fits_member(items, i, e.props);
    ends_are_of_their_type(m, e.src);
    ends_are_of_their_type(m, e.tgt);
    assert(schema.edges[j] == super::inference::edge_group_type(
        super::inference::node_items(m),
        items,
        key,
    ));
    j
}

/// A conjunction of labels and a closed record of scalars.
pub open spec fn is_exact(d: DescriptorTypeView) -> bool {
    &&& d.label.is_conjunction()
    &&& d.props is Closed
    &&& forall|k: Seq<char>| #[trigger]
        d.props->Closed_0.contains_key(k) ==> is_scalar_type(d.props->Closed_0[k])
}

/// An element has labels, and its properties are scalars.
pub open spec fn is_simple(labels: LabelTypeView, props: Map<Seq<char>, ValueView>) -> bool {
    &&& labels.required().len() > 0
    &&& forall|k: Seq<char>| #[trigger]
        props.contains_key(k) ==> super::value_laws::is_scalar(props[k])
}

/// An element has exactly the labels that a descriptor demands, and properties
/// that fit it.
pub open spec fn meets_exactly(
    labels: LabelTypeView,
    props: Map<Seq<char>, ValueView>,
    d: DescriptorTypeView,
) -> bool {
    labels.required().to_set() == d.label.required().to_set() && super::element_laws::fits(
        props,
        d.props,
    )
}

proof fn descriptors_are_validated(
    labels: LabelTypeView,
    props: Map<Seq<char>, ValueView>,
    d: DescriptorTypeView,
)
    requires
        is_simple(labels, props),
        is_exact(d),
    ensures
        ({
            let own = super::validate::instance_descriptor(labels, props);
            own.subtype(d) && d.subtype(own) <==> meets_exactly(labels, props, d)
        }),
{
    let n = NodeView { name: Seq::empty(), labels, props };
    nodes_are_validated(n, d.label, d.props->Closed_0);
    assert(d == DescriptorTypeView {
        label: d.label,
        props: PropertyTypeView::Closed(d.props->Closed_0),
    });
}

/// Validation admits an edge under a directed entry exactly where the edge is
/// directed and it, the node it leaves and the node it enters meet the entry, its
/// left and its right.
pub proof fn edges_are_validated(
    m: GraphModel,
    e: EdgeView,
    d: DescriptorTypeView,
    left: DescriptorTypeView,
    right: DescriptorTypeView,
)
    requires
        is_simple(e.labels, e.props),
        is_simple(m.nodes[e.src].labels, m.nodes[e.src].props),
        is_simple(m.nodes[e.tgt].labels, m.nodes[e.tgt].props),
        is_exact(d),
        is_exact(left),
        is_exact(right),
    ensures
        ({
            let l = Box::new(VariableTypeView::Node(left));
            let r = Box::new(VariableTypeView::Node(right));
            let own = meets_exactly(e.labels, e.props, d);
            let (s, t) = (m.nodes[e.src], m.nodes[e.tgt]);
            let straight = meets_exactly(s.labels, s.props, left) && meets_exactly(
                t.labels,
                t.props,
                right,
            );
            let crossed = meets_exactly(s.labels, s.props, right) && meets_exactly(
                t.labels,
                t.props,
                left,
            );
            &&& super::validate::consistent(
                super::validate::edge_instance(m, e),
                VariableTypeView::EdgeDirectional { desc: d, left: l, right: r },
            ) <==> e.directed && own && straight
            &&& super::validate::consistent(
                super::validate::edge_instance(m, e),
                VariableTypeView::EdgeNonDirectional { desc: d, left: l, right: r },
            ) <== !e.directed && own && (straight || crossed)
            &&& super::validate::consistent(
                super::validate::edge_instance(m, e),
                VariableTypeView::EdgeNonDirectional { desc: d, left: l, right: r },
            ) ==> !e.directed && own
        }),
{
    let (s, t) = (m.nodes[e.src], m.nodes[e.tgt]);
    descriptors_are_validated(e.labels, e.props, d);
    descriptors_are_validated(s.labels, s.props, left);
    descriptors_are_validated(t.labels, t.props, right);
    descriptors_are_validated(s.labels, s.props, right);
    descriptors_are_validated(t.labels, t.props, left);
}

/// A listed edge is reported exactly where no entry of the schema admits it.
pub proof fn violations_are_the_edges_not_admitted(
    m: GraphModel,
    schema: SchemaView,
    ids: Seq<Id>,
    id: Id,
)
    ensures
        (exists|v: int|
            0 <= v < super::validate::edge_violations(m, schema, ids).len()
                && #[trigger] super::validate::edge_violations(m, schema, ids)[v].id == id)
            <==> ids.contains(id) && !exists|e: int|
            0 <= e < schema.edges.len() && super::validate::consistent(
                super::validate::edge_instance(m, m.edges[id]),
                #[trigger] schema.edges[e],
            ),
    decreases ids.len(),
{
    let all = super::validate::edge_violations(m, schema, ids);
    if ids.len() > 0 {
        let init = ids.drop_last();
        let last = ids[ids.len() - 1];
        let rest = super::validate::edge_violations(m, schema, init);
        violations_are_the_edges_not_admitted(m, schema, init, id);
        assert(ids =~= init.push(last));
        assert(ids.contains(id) <==> init.contains(id) || id == last) by {
            if init.contains(id) {
                let i = choose|i: int| 0 <= i < init.len() && init[i] == id;
                assert(ids[i] == id);
            }
            if ids.contains(id) {
                let i = choose|i: int| 0 <= i < ids.len() && ids[i] == id;
                if i < init.len() {
                    assert(init[i] == id);
                }
            }
            assert(ids[ids.len() - 1] == last);
        }
        assert(all.len() >= rest.len());
        assert forall|v: int| 0 <= v < rest.len() implies #[trigger] all[v] == rest[v] by {}
        if exists|v: int| 0 <= v < rest.len() && #[trigger] rest[v].id == id {
            let v = choose|v: int| 0 <= v < rest.len() && #[trigger] rest[v].id == id;
            assert(all[v].id == id);
        }
        if all.len() > rest.len() {
            assert(all[rest.len() as int].id == last);
        }
        if exists|v: int| 0 <= v < all.len() && #[trigger] all[v].id == id {
            let v = choose|v: int| 0 <= v < all.len() && #[trigger] all[v].id == id;
            if v < rest.len() {
                assert(rest[v].id == id);
            }
        }
    }
}

} // verus!
