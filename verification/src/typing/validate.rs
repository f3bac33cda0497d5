//! Checks of a graph's data against a schema. An element is admitted where
//! some entry of the schema and the element's own type are subtypes of each
//! other: an element with labels or properties beyond those of an entry does
//! not fit it.

use vstd::prelude::*;

use super::descriptor_type::{DescriptorType, DescriptorTypeView};
use super::inference::{labels_to_label_type, props_to_simple, sorted_label_strings};
use super::label_type::{LabelType, LabelTypeView};
use super::property_type::{PropertyType, PropertyTypeView};
use super::simple_type::{SimpleType, SimpleTypeView};
use super::variable_type::{Schema, SchemaView, VariableType, VariableTypeView};
use crate::fields::FieldMap;
use crate::model::graph_access::{all_edges, EdgeView, GraphAccess, GraphModel, NodeView};
use crate::model::value::{Id, Props, ValueView};
use crate::text::{copy_text, join_texts};

verus! {

/// How many violations of each kind are kept.
pub const MAX_SAMPLES: usize = 16;

/// What kind of element is meant.
#[derive(Debug, Clone, Copy, PartialEq, Eq, Structural)]
pub enum ElementKind {
    Node,
    Edge,
}

/// An element that no entry of the schema admits.
#[derive(Debug)]
pub struct Violation {
    pub kind: ElementKind,
    /// The element.
    pub id: u32,
    /// Its labels in ascending order.
    pub labels: Vec<String>,
    /// The types of its properties.
    pub props: FieldMap<SimpleType>,
}

/// What a check of a graph found.
#[derive(Debug)]
pub struct ValidationReport {
    pub nodes_checked: u32,
    pub edges_checked: u32,
    pub node_violations: u32,
    pub edge_violations: u32,
    /// The first violations of each kind.
    pub samples: Vec<Violation>,
}

/// The value of a `Violation`.
pub ghost struct ViolationView {
    pub kind: ElementKind,
    pub id: Id,
    pub labels: Seq<Seq<char>>,
    pub props: Map<Seq<char>, SimpleTypeView>,
}

impl Violation {
    /// The value.
    pub open spec fn view(&self) -> ViolationView {
        ViolationView {
            kind: self.kind,
            id: self.id,
            labels: crate::text::texts(self.labels@),
            props: super::simple_type::fields_view(self.props),
        }
    }
}

/// The values of several violations.
pub open spec fn violation_views(v: Seq<Violation>) -> Seq<ViolationView> {
    Seq::new(v.len(), |i: int| v[i]@)
}

/// The descriptor of an element with exactly these labels and properties.
pub open spec fn instance_descriptor(
    labels: LabelTypeView,
    props: Map<Seq<char>, ValueView>,
) -> DescriptorTypeView {
    DescriptorTypeView {
        label: super::inference::label_conjunction(super::inference::label_list(labels)),
        props: PropertyTypeView::Closed(super::inference::prop_types(props)),
    }
}

/// The type of a node.
pub open spec fn node_instance(n: NodeView) -> VariableTypeView {
    VariableTypeView::Node(instance_descriptor(n.labels, n.props))
}

/// The type of an edge between its end points.
pub open spec fn edge_instance(m: GraphModel, e: EdgeView) -> VariableTypeView {
    let desc = instance_descriptor(e.labels, e.props);
    let left = Box::new(node_instance(m.nodes[e.src]));
    let right = Box::new(node_instance(m.nodes[e.tgt]));
    if e.directed {
        VariableTypeView::EdgeDirectional { desc, left, right }
    } else {
        VariableTypeView::EdgeNonDirectional { desc, left, right }
    }
}

/// The type and the entry are subtypes of each other.
pub open spec fn consistent(t: VariableTypeView, entry: VariableTypeView) -> bool {
    t.subtype(entry) && entry.subtype(t)
}

/// Some entry admits the type.
pub open spec fn admitted(t: VariableTypeView, entries: Seq<VariableTypeView>) -> bool {
    exists|i: int| 0 <= i < entries.len() && consistent(t, #[trigger] entries[i])
}

/// The nodes among `ids` that no entry admits.
pub open spec fn node_violations(m: GraphModel, schema: SchemaView, ids: Seq<Id>) -> Seq<
    ViolationView,
>
    decreases ids.len(),
{
    if ids.len() == 0 {
        Seq::empty()
    } else {
        let rest = node_violations(m, schema, ids.drop_last());
        let n = m.nodes[ids.last()];
        if admitted(node_instance(n), schema.nodes) {
            rest
        } else {
            rest.push(
                ViolationView {
                    kind: ElementKind::Node,
                    id: ids.last(),
                    labels: super::inference::label_list(n.labels),
                    props: super::inference::prop_types(n.props),
                },
            )
        }
    }
}

/// The edges among `ids` that no entry admits.
pub open spec fn edge_violations(m: GraphModel, schema: SchemaView, ids: Seq<Id>) -> Seq<
    ViolationView,
>
    decreases ids.len(),
{
    if ids.len() == 0 {
        Seq::empty()
    } else {
        let rest = edge_violations(m, schema, ids.drop_last());
        let e = m.edges[ids.last()];
        if admitted(edge_instance(m, e), schema.edges) {
            rest
        } else {
            rest.push(
                ViolationView {
                    kind: ElementKind::Edge,
                    id: ids.last(),
                    labels: super::inference::label_list(e.labels),
                    props: super::inference::prop_types(e.props),
                },
            )
        }
    }
}

/// The first of the violations.
pub open spec fn capped(v: Seq<ViolationView>) -> Seq<ViolationView> {
    if v.len() <= MAX_SAMPLES {
        v
    } else {
        v.take(MAX_SAMPLES as int)
    }
}

impl ValidationReport {
    /// Whether every element is admitted.
    pub fn ok(&self) -> (r: bool)
        ensures
            r == (self.node_violations == 0 && self.edge_violations == 0),
    {
        self.node_violations == 0 && self.edge_violations == 0
    }

    /// How many elements are not admitted.
    pub fn total_violations(&self) -> (r: u32)
        requires
            self.node_violations + self.edge_violations <= u32::MAX,
        ensures
            r == self.node_violations + self.edge_violations,
    {
        self.node_violations + self.edge_violations
    }
}

/// The descriptor of an element with exactly these labels and properties.
fn element_descriptor(labels: &LabelType, props: &Props) -> (r: DescriptorType)
    ensures
        r@ == instance_descriptor(labels@, crate::model::value::props_view(*props)),
{
    DescriptorType::new(
        labels_to_label_type(&sorted_label_strings(labels)),
        PropertyType::Closed(props_to_simple(props)),
    )
}

/// Whether some entry admits the type.
fn instance_admitted(instance: &VariableType, entries: &Vec<VariableType>) -> (r: bool)
    ensures
        r == admitted(instance@, super::variable_type::type_views(entries@)),
{
    let ghost all = super::variable_type::type_views(entries@);
    let mut i: usize = 0;
    while i < entries.len()
        invariant
            i <= entries.len(),
            all == super::variable_type::type_views(entries@),
            forall|j: int| 0 <= j < i ==> !consistent(instance@, #[trigger] all[j]),
        decreases entries.len() - i,
    {
        assert(all[i as int] == entries@[i as int]@);
        if VariableType::is_subtype(instance, &entries[i]) && VariableType::is_subtype(
            &entries[i],
            instance,
        ) {
            assert(consistent(instance@, all[i as int]));
            return true;
        }
        i = i + 1;
    }
    false
}

/// The type of a node.
fn node_instance_type<G: GraphAccess>(g: &G, id: Id) -> (r: VariableType)
    requires
        g.sound(),
        g.model().nodes.contains_key(id),
    ensures
        r@ == node_instance(g.model().nodes[id]),
{
    VariableType::Node(element_descriptor(&g.node_labels(id), &g.node_props(id)))
}

/// The type of an edge between its end points.
fn edge_instance_type<G: GraphAccess>(g: &G, id: Id) -> (r: VariableType)
    requires
        g.sound(),
        g.model().edge_known(id),
    ensures
        r@ == edge_instance(g.model(), g.model().edges[id]),
{
    let desc = element_descriptor(&g.edge_labels(id), &g.edge_props(id));
    let left = node_instance_type(g, g.src(id));
    let right = node_instance_type(g, g.tgt(id));
    if g.is_directed(id) {
        VariableType::EdgeDirectional { desc, left: Box::new(left), right: Box::new(right) }
    } else {
        VariableType::EdgeNonDirectional { desc, left: Box::new(left), right: Box::new(right) }
    }
}

/// Checks every node and edge of a graph.
pub fn validate_against_data<G: GraphAccess>(g: &G, schema: &Schema) -> (r: ValidationReport)
    requires
        g.sound(),
        g.model().node_ids.len() <= u32::MAX,
        g.model().edge_ids().len() <= u32::MAX,
    ensures
        r.nodes_checked == g.model().node_ids.len(),
        r.edges_checked == g.model().edge_ids().len(),
        ({
            let nv = node_violations(g.model(), schema@, g.model().node_ids);
            let ev = edge_violations(g.model(), schema@, g.model().edge_ids());
            &&& r.node_violations == nv.len()
            &&& r.edge_violations == ev.len()
            &&& violation_views(r.samples@) == capped(nv) + capped(ev)
        }),
{
    proof {
        g.sound_model();
    }
    let ghost m = g.model();
    let mut samples: Vec<Violation> = Vec::new();
    let mut rejected_nodes: u32 = 0;
    let ids = g.nodes();
    let mut i: usize = 0;
    assert(violation_views(samples@) =~= capped(node_violations(m, schema@, ids@.take(0))));
    while i < ids.len()
        invariant
            i <= ids.len() <= u32::MAX,
            g.sound(),
            m == g.model(),
            m.well_formed(),
            ids@ == m.node_ids,
            rejected_nodes == node_violations(m, schema@, ids@.take(i as int)).len(),
            rejected_nodes <= i,
            violation_views(samples@) == capped(
                node_violations(m, schema@, ids@.take(i as int)),
            ),
        decreases ids.len() - i,
    {
        let id = ids[i];
        assert(m.nodes.contains_key(m.node_ids[i as int]));
        assert(ids@.take(i + 1).drop_last() =~= ids@.take(i as int));
        let ghost before = node_violations(m, schema@, ids@.take(i as int));
        let ghost after = node_violations(m, schema@, ids@.take(i + 1));
        let instance = node_instance_type(g, id);
        if !instance_admitted(&instance, schema.nodes()) {
            let ghost old_samples = violation_views(samples@);
            if rejected_nodes < MAX_SAMPLES as u32 {
                let v = Violation {
                    kind: ElementKind::Node,
                    id,
                    labels: sorted_label_strings(&g.node_labels(id)),
                    props: props_to_simple(&g.node_props(id)),
                };
                assert(v@ == after.last());
                samples.push(v);
                assert(violation_views(samples@) =~= old_samples.push(v@));
            } else {
                assert(capped(after) =~= capped(before));
            }
            rejected_nodes = rejected_nodes + 1;
        }
        i = i + 1;
    }
    assert(ids@.take(i as int) =~= ids@);
    let ghost nv = node_violations(m, schema@, m.node_ids);
    let nodes_checked: u32 = ids.len() as u32;
    let mut rejected_edges: u32 = 0;
    let ids = all_edges(g);
    let mut i: usize = 0;
    assert(violation_views(samples@) =~= capped(nv) + capped(
        edge_violations(m, schema@, ids@.take(0)),
    ));
    while i < ids.len()
        invariant
            i <= ids.len() <= u32::MAX,
            g.sound(),
            m == g.model(),
            m.well_formed(),
            ids@ == m.edge_ids(),
            rejected_edges == edge_violations(m, schema@, ids@.take(i as int)).len(),
            rejected_edges <= i,
            violation_views(samples@) == capped(nv) + capped(
                edge_violations(m, schema@, ids@.take(i as int)),
            ),
        decreases ids.len() - i,
    {
        let id = ids[i];
        assert(m.edge_known(m.edge_ids()[i as int]));
        assert(ids@.take(i + 1).drop_last() =~= ids@.take(i as int));
        let ghost before = edge_violations(m, schema@, ids@.take(i as int));
        let ghost after = edge_violations(m, schema@, ids@.take(i + 1));
        let instance = edge_instance_type(g, id);
        if !instance_admitted(&instance, schema.edges()) {
            let ghost old_samples = violation_views(samples@);
            if rejected_edges < MAX_SAMPLES as u32 {
                let v = Violation {
                    kind: ElementKind::Edge,
                    id,
                    labels: sorted_label_strings(&g.edge_labels(id)),
                    props: props_to_simple(&g.edge_props(id)),
                };
                assert(v@ == after.last());
                samples.push(v);
                assert(violation_views(samples@) =~= old_samples.push(v@));
                assert(capped(nv) + capped(after) =~= (capped(nv) + capped(before)).push(v@));
            } else {
                assert(capped(after) =~= capped(before));
            }
            rejected_edges = rejected_edges + 1;
        }
        i = i + 1;
    }
    assert(ids@.take(i as int) =~= ids@);
    ValidationReport {
        nodes_checked,
        edges_checked: ids.len() as u32,
        node_violations: rejected_nodes,
        edge_violations: rejected_edges,
        samples,
    }
}

/// What is said of an element that does not fit the active graph type.
pub open spec fn violation_text(kind: ElementKind, labels: LabelTypeView) -> Seq<char> {
    let word = if kind == ElementKind::Node {
        "node"@
    } else {
        "edge"@
    };
    "G2000 graph type violation: inserted "@ + word + " with labels {"@ + crate::text::joined(
        super::inference::label_list(labels),
        ","@,
    ) + "} does not match any "@ + word + " type in the active GRAPH TYPE"@
}

/// What is said of an element that does not fit the active graph type.
fn describe_violation(kind: ElementKind, labels: &LabelType) -> (r: String)
    ensures
        r@ == violation_text(kind, labels@),
{
    let word = match kind {
        ElementKind::Node => "node",
        ElementKind::Edge => "edge",
    };
    let mut s = copy_text("G2000 graph type violation: inserted ");
    s.append(word);
    s.append(" with labels {");
    s.append(join_texts(&sorted_label_strings(labels), ",").as_str());
    s.append("} does not match any ");
    s.append(word);
    s.append(" type in the active GRAPH TYPE");
    s
}

/// Checks a node that was just inserted.
pub fn validate_node_against_schema(labels: &LabelType, props: &Props, schema: &Schema) -> (r:
    Result<(), String>)
    ensures
        ({
            let t = VariableTypeView::Node(
                instance_descriptor(labels@, crate::model::value::props_view(*props)),
            );
            match r {
                Ok(_) => admitted(t, schema@.nodes),
                Err(e) => !admitted(t, schema@.nodes) && e@ == violation_text(
                    ElementKind::Node,
                    labels@,
                ),
            }
        }),
{
    let instance = VariableType::Node(element_descriptor(labels, props));
    if instance_admitted(&instance, schema.nodes()) {
        Ok(())
    } else {
        Err(describe_violation(ElementKind::Node, labels))
    }
}

/// Checks an edge that was just inserted, with the end points it has in the
/// graph.
pub fn validate_edge_against_schema<G: GraphAccess>(g: &G, eid: u32, schema: &Schema) -> (r: Result<
    (),
    String,
>)
    requires
        g.sound(),
        g.model().edge_known(eid),
    ensures
        ({
            let e = g.model().edges[eid];
            let t = edge_instance(g.model(), e);
            match r {
                Ok(_) => admitted(t, schema@.edges),
                Err(text) => !admitted(t, schema@.edges) && text@ == violation_text(
                    ElementKind::Edge,
                    e.labels,
                ),
            }
        }),
{
    let instance = edge_instance_type(g, eid);
    if instance_admitted(&instance, schema.edges()) {
        Ok(())
    } else {
        Err(describe_violation(ElementKind::Edge, &g.edge_labels(eid)))
    }
}

/// A subtype of one alternative is a subtype of the union.
proof fn subtype_of_left(x: SimpleTypeView, a: SimpleTypeView, b: SimpleTypeView)
    requires
        x.subtype(a),
    ensures
        x.subtype(SimpleTypeView::Union(Box::new(a), Box::new(b))),
    decreases x,
{
    match x {
        SimpleTypeView::Union(c, d) => {
            if c.subtype(a) {
                subtype_of_left(*c, a, b);
            } else if d.subtype(a) {
                subtype_of_left(*d, a, b);
            }
        },
        _ => {},
    }
}

/// Every property type is a subtype of itself.
pub proof fn simple_subtype_reflexive(t: SimpleTypeView)
    ensures
        t.subtype(t),
    decreases t,
{
    match t {
        SimpleTypeView::Union(a, b) => {
            simple_subtype_reflexive(*a);
            subtype_of_left(*a, *a, *b);
        },
        SimpleTypeView::List(a) => {
            simple_subtype_reflexive(*a);
        },
        SimpleTypeView::Group(a) => {
            simple_subtype_reflexive(*a);
        },
        SimpleTypeView::Record(m) => {
            assert forall|k: Seq<char>| #[trigger] m.contains_key(k) implies m[k].subtype(m[k]) by {
                simple_subtype_reflexive(m[k]);
            }
        },
        _ => {},
    }
}

/// A conjunction of labels entails each of them.
proof fn conjunction_entails_label(labels: Seq<Seq<char>>, i: int)
    requires
        0 <= i < labels.len(),
    ensures
        LabelTypeView::from_list(labels).subtype(LabelTypeView::Label(labels[i])),
    decreases labels.len(),
{
    assert(LabelTypeView::Label(labels[i]).subtype(LabelTypeView::Label(labels[i])));
    if labels.len() > 1 && i > 0 {
        conjunction_entails_label(labels.drop_first(), i - 1);
        assert(labels.drop_first()[i - 1] == labels[i]);
    }
}

/// A conjunction of labels entails the conjunction of its last ones.
proof fn conjunction_entails_rest(labels: Seq<Seq<char>>, i: int)
    requires
        0 <= i < labels.len(),
    ensures
        LabelTypeView::from_list(labels).subtype(LabelTypeView::from_list(labels.skip(i))),
    decreases labels.len() - i,
{
    conjunction_entails_label(labels, i);
    let rest = labels.skip(i);
    assert(rest[0] == labels[i]);
    if rest.len() > 1 {
        conjunction_entails_rest(labels, i + 1);
        assert(rest.drop_first() =~= labels.skip(i + 1));
    }
}

/// The constraint that demands some labels entails itself.
proof fn conjunction_reflexive(labels: Seq<Seq<char>>)
    ensures
        super::inference::label_conjunction(labels).subtype(
            super::inference::label_conjunction(labels),
        ),
{
    if labels.len() > 0 {
        conjunction_entails_rest(labels, 0);
        assert(labels.skip(0) =~= labels);
    }
}

/// The members of a group are the elements with its key.
pub proof fn member_of_group(items: Seq<super::inference::ItemView>, i: int)
    requires
        0 <= i < items.len(),
    ensures
        super::inference::group_members(items, items[i].key).contains(items[i].props),
    decreases items.len(),
{
    let key = items[i].key;
    let all = super::inference::group_members(items, key);
    let rest = super::inference::group_members(items.drop_last(), key);
    if i == items.len() - 1 {
        assert(all == rest.push(items[i].props));
        assert(all[rest.len() as int] == items[i].props);
    } else {
        member_of_group(items.drop_last(), i);
        assert(items.drop_last()[i] == items[i]);
        let j = choose|j: int| 0 <= j < rest.len() && rest[j] == items[i].props;
        assert(all[j] == rest[j]);
    }
}

/// A group's descriptor and that of each of its elements are subtypes of each
/// other.
proof fn group_admits_member(items: Seq<super::inference::ItemView>, i: int)
    requires
        0 <= i < items.len(),
    ensures
        ({
            let g = super::inference::group_descriptor(items, items[i].key);
            let d = DescriptorTypeView {
                label: super::inference::label_conjunction(items[i].key[0]),
                props: PropertyTypeView::Closed(items[i].props),
            };
            g.subtype(d) && d.subtype(g)
        }),
{
    let key = items[i].key;
    let p = items[i].props;
    let members = super::inference::group_members(items, key);
    member_of_group(items, i);
    conjunction_reflexive(key[0]);
    let j = choose|j: int| 0 <= j < members.len() && members[j] == p;
    let c = super::inference::common_props(members);
    assert forall|k: Seq<char>| c.contains_key(k) implies p.contains_key(k) && c[k] == p[k] by {
        assert(members[j].contains_key(k));
        assert(members[0].contains_key(k));
    }
    assert forall|k: Seq<char>| #[trigger] c.contains_key(k) && p.contains_key(k) implies c[k].subtype(
        p[k],
    ) by {
        simple_subtype_reflexive(p[k]);
    }
    assert forall|k: Seq<char>| #[trigger] p.contains_key(k) && c.contains_key(k) implies p[k].subtype(
        c[k],
    ) by {
        simple_subtype_reflexive(p[k]);
    }
    assert(c.dom().subset_of(p.dom()));
    if super::inference::uniform(members) {
        assert(members[j] == members[0]);
        assert forall|k: Seq<char>| p.contains_key(k) implies c.contains_key(k) by {
            assert forall|a: int| 0 <= a < members.len() implies (
            #[trigger] members[a]).contains_key(k) && members[a][k] == members[0][k] by {
                assert(members[a] == members[0]);
            }
        }
        assert(c.dom() =~= p.dom());
    }
}

/// A node is listed, or no listed node has exactly its labels.
pub open spec fn end_covered(m: GraphModel, id: Id) -> bool {
    m.node_ids.contains(id) || !super::inference::item_keys(
        super::inference::node_items(m),
    ).contains(super::inference::node_key(m.nodes[id]))
}

/// The node type that stands at the end of an edge group and the type of a
/// node with these labels are subtypes of each other.
proof fn endpoint_admits(m: GraphModel, id: Id)
    ensures
        ({
            let t = super::inference::endpoint_type(
                super::inference::node_items(m),
                super::inference::label_list(m.nodes[id].labels),
            )->Node_0;
            let d = node_instance(m.nodes[id])->Node_0;
            end_covered(m, id) ==> t.subtype(d) && d.subtype(t)
        }),
{
    let items = super::inference::node_items(m);
    let n = m.nodes[id];
    let labels = super::inference::label_list(n.labels);
    if m.node_ids.contains(id) {
        let i = choose|i: int| 0 <= i < m.node_ids.len() && m.node_ids[i] == id;
        assert(items[i].key == seq![labels]);
        let all = Seq::new(items.len(), |i: int| items[i].key);
        assert(all[i] == items[i].key);
        assert(super::inference::item_keys(items).contains(seq![labels]));
        group_admits_member(items, i);
        assert(items[i].key[0] == labels);
    } else if end_covered(m, id) {
        conjunction_reflexive(labels);
    }
}

/// The keys of the groups are the keys that occur.
pub proof fn keys_enumerated(items: Seq<super::inference::ItemView>, i: int) -> (j: int)
    requires
        0 <= i < items.len(),
    ensures
        0 <= j < super::inference::group_keys(items).len(),
        super::inference::group_keys(items)[j] == items[i].key,
{
    let keys = super::inference::group_keys(items);
    let all = Seq::new(items.len(), |i: int| items[i].key);
    crate::order::orders_total();
    crate::order::enumeration_of(crate::order::key_order(), all);
    assert(all[i] == items[i].key);
    assert(super::inference::item_keys(items).contains(items[i].key));
    assert(keys.to_set().contains(items[i].key));
    choose|j: int| 0 <= j < keys.len() && keys[j] == items[i].key
}

/// A graph whose edges join listed nodes fits the schema that is inferred from
/// it: neither a node nor an edge is a violation. An end that is not listed
/// does no harm where no listed node has its labels.
pub proof fn inferred_schema_admits(m: GraphModel)
    requires
        m.well_formed(),
        forall|i: int|
            0 <= i < m.edge_ids().len() ==> end_covered(m, m.edges[#[trigger] m.edge_ids()[i]].src)
                && end_covered(m, m.edges[m.edge_ids()[i]].tgt),
    ensures
        node_violations(m, super::inference::inferred_schema(m), m.node_ids).len() == 0,
        edge_violations(m, super::inference::inferred_schema(m), m.edge_ids()).len() == 0,
{
    no_node_violation(m, m.node_ids.len() as int);
    assert(m.node_ids.take(m.node_ids.len() as int) =~= m.node_ids);
    no_edge_violation(m, m.edge_ids().len() as int);
    assert(m.edge_ids().take(m.edge_ids().len() as int) =~= m.edge_ids());
}

proof fn no_node_violation(m: GraphModel, n: int)
    requires
        m.well_formed(),
        0 <= n <= m.node_ids.len(),
    ensures
        node_violations(m, super::inference::inferred_schema(m), m.node_ids.take(n)).len() == 0,
    decreases n,
{
    if n > 0 {
        no_node_violation(m, n - 1);
        assert(m.node_ids.take(n).drop_last() =~= m.node_ids.take(n - 1));
        let i = n - 1;
        let items = super::inference::node_items(m);
        let schema = super::inference::inferred_schema(m);
        let node = m.nodes[m.node_ids[i]];
        let j = keys_enumerated(items, i);
        group_admits_member(items, i);
        assert(items[i].key[0] == super::inference::label_list(node.labels));
        assert(consistent(node_instance(node), schema.nodes[j]));
        assert(admitted(node_instance(node), schema.nodes));
    }
}

proof fn no_edge_violation(m: GraphModel, n: int)
    requires
        m.well_formed(),
        0 <= n <= m.edge_ids().len(),
        forall|i: int|
            0 <= i < m.edge_ids().len() ==> end_covered(m, m.edges[#[trigger] m.edge_ids()[i]].src)
                && end_covered(m, m.edges[m.edge_ids()[i]].tgt),
    ensures
        edge_violations(m, super::inference::inferred_schema(m), m.edge_ids().take(n)).len() == 0,
    decreases n,
{
    if n > 0 {
        no_edge_violation(m, n - 1);
        assert(m.edge_ids().take(n).drop_last() =~= m.edge_ids().take(n - 1));
        let i = n - 1;
        let items = super::inference::edge_items(m);
        let schema = super::inference::inferred_schema(m);
        let id = m.edge_ids()[i];
        let e = m.edges[id];
        let j = keys_enumerated(items, i);
        group_admits_member(items, i);
        let key = items[i].key;
        assert(key[0] == super::inference::label_list(e.labels));
        assert(key[1] == super::inference::label_list(m.nodes[e.src].labels));
        assert(key[2] == super::inference::label_list(m.nodes[e.tgt].labels));
        assert(key[3] == super::inference::direction_list(e.directed));
        endpoint_admits(m, e.src);
        endpoint_admits(m, e.tgt);
        assert(consistent(edge_instance(m, e), schema.edges[j]));
        assert(admitted(edge_instance(m, e), schema.edges));
    }
}

} // verus!
