//! Inference of a schema from a graph. Nodes are grouped by their sorted
//! labels, edges by their sorted labels, those of their end points and whether
//! they have a direction. A group's properties are those that every element of
//! it has with one type. Where the elements do not all have the same
//! properties the group's record is open.

use vstd::prelude::*;

use super::descriptor_type::{DescriptorType, DescriptorTypeView};
use super::label_type::{LabelType, LabelTypeView};
use super::property_type::{same_fields, PropertyType, PropertyTypeView};
use super::simple_type::{SimpleType, SimpleTypeView};
use super::variable_type::{Schema, SchemaView, VariableType, VariableTypeView};
use crate::fields::FieldMap;
use crate::model::graph::MemoryGraphStore;
use crate::model::graph_access::{all_edges, EdgeView, GraphAccess, GraphModel, NodeView};
use crate::model::value::{Props, Value, ValueView};
use crate::order::{add_key, copy_list, same_key, sort_texts};

verus! {

/// The type of a stored value. A list's elements have the union of their
/// types, and an empty list has elements of any type.
pub open spec fn stored_type(v: ValueView) -> SimpleTypeView
    decreases v,
{
    match v {
        ValueView::Null => SimpleTypeView::Zero,
        ValueView::Int(_) => SimpleTypeView::Z,
        ValueView::Float(_) => SimpleTypeView::F,
        ValueView::Bool(_) => SimpleTypeView::B,
        ValueView::Str(_) => SimpleTypeView::S,
        ValueView::List(items) => SimpleTypeView::List(Box::new(stored_union(items))),
        ValueView::Record(m) => SimpleTypeView::Record(
            Map::new(
                |k: Seq<char>| m.contains_key(k),
                |k: Seq<char>|
                    if m.dom().finite() && m.contains_key(k) {
                        stored_type(m[k])
                    } else {
                        arbitrary()
                    },
            ),
        ),
        ValueView::Node(_) => SimpleTypeView::Star,
        ValueView::Edge(_) => SimpleTypeView::Star,
        ValueView::Path(_) => SimpleTypeView::Star,
    }
}

/// The union of the types of the values.
pub open spec fn stored_union(items: Seq<ValueView>) -> SimpleTypeView
    decreases items,
{
    if items.len() == 0 {
        SimpleTypeView::Star
    } else if items.len() == 1 {
        stored_type(items[0])
    } else {
        stored_union(items.drop_last()).union(stored_type(items[items.len() - 1]))
    }
}

/// The type of each property.
pub open spec fn prop_types(m: Map<Seq<char>, ValueView>) -> Map<Seq<char>, SimpleTypeView> {
    Map::new(|k: Seq<char>| m.contains_key(k), |k: Seq<char>| stored_type(m[k]))
}

/// The type of a stored value.
pub fn value_to_simple_type(v: &Value) -> (r: SimpleType)
    ensures
        r@ == stored_type(v@),
    decreases v,
{
    match v {
        Value::Null => SimpleType::Zero,
        Value::Int(_) => SimpleType::Z,
        Value::Float(_) => SimpleType::F,
        Value::Bool(_) => SimpleType::B,
        Value::Str(_) => SimpleType::S,
        Value::List(items) => {
            let ghost all = v@->List_0;
            let mut elem = SimpleType::Star;
            let mut i: usize = 0;
            assert(elem@ == stored_union(all.take(0)));
            while i < items.len()
                invariant
                    i <= items.len(),
                    *v == Value::List(*items),
                    all == v@->List_0,
                    elem@ == stored_union(all.take(i as int)),
                decreases items.len() - i,
            {
                assert(decreases_to!(v => v->List_0));
                let t = value_to_simple_type(&items[i]);
                proof {
                    assert(all[i as int] == items@[i as int]@);
                    assert(all.take(i + 1).drop_last() =~= all.take(i as int));
                    assert(all.take(i + 1)[i as int] == all[i as int]);
                }
                if i == 0 {
                    elem = t;
                } else {
                    elem = SimpleType::union(&elem, &t);
                }
                i = i + 1;
            }
            assert(all.take(i as int) =~= all);
            SimpleType::List(Box::new(elem))
        },
        Value::Record(fields) => {
            let types = props_to_simple(fields);
            let r = SimpleType::Record(types);
            proof {
                let m = v@->Record_0;
                assert(m =~= crate::model::value::props_view(*fields));
                assert(m.dom() =~= fields@.dom());
                assert(r@->Record_0 =~= stored_type(v@)->Record_0) by {
                    assert(r@->Record_0 =~= super::simple_type::fields_view(types));
                }
            }
            r
        },
        Value::Node(_) => SimpleType::Star,
        Value::Edge(_) => SimpleType::Star,
        Value::Path(_) => SimpleType::Star,
    }
}

/// The type of each property.
pub fn props_to_simple(m: &Props) -> (r: FieldMap<SimpleType>)
    ensures
        super::simple_type::fields_view(r) == prop_types(crate::model::value::props_view(*m)),
        m@.dom().finite(),
    decreases m,
{
    let n = m.len();
    let mut out: FieldMap<SimpleType> = FieldMap::new();
    assert(m.keys().take(0).to_set() =~= Set::<Seq<char>>::empty());
    let mut i: usize = 0;
    while i < n
        invariant
            i <= n,
            n == m.keys().len(),
            m.keys().no_duplicates(),
            m.keys().to_set() == m@.dom(),
            out@.dom() == m.keys().take(i as int).to_set(),
            forall|j: int|
                0 <= j < i ==> out@[#[trigger] m.keys()[j]]@ == stored_type(m@[m.keys()[j]]@),
        decreases n - i,
    {
        proof {
            m.values_decrease();
            crate::fields::prefix_set_step(m.keys(), i as int);
        }
        let v = m.value_at(i);
        let t = value_to_simple_type(v);
        out.insert(m.key_at(i).clone(), t);
        i = i + 1;
    }
    proof {
        assert(m.keys().take(n as int) =~= m.keys());
        assert forall|k: Seq<char>| m@.contains_key(k) implies out@[k]@ == stored_type(m@[k]@) by {
            assert(m.keys().to_set().contains(k));
        }
        assert(super::simple_type::fields_view(out) =~= prop_types(
            crate::model::value::props_view(*m),
        ));
    }
    out
}

/// An element as grouping sees it: what it is grouped by, and the types of its
/// properties.
pub ghost struct ItemView {
    pub key: Seq<Seq<Seq<char>>>,
    pub props: Map<Seq<char>, SimpleTypeView>,
}

/// The labels of an element in ascending order.
pub open spec fn label_list(labels: LabelTypeView) -> Seq<Seq<char>> {
    crate::order::sorted(labels.required())
}

/// What a node is grouped by.
pub open spec fn node_key(n: NodeView) -> Seq<Seq<Seq<char>>> {
    seq![label_list(n.labels)]
}

/// A direction as part of a key: undirected comes first.
pub open spec fn direction_list(directed: bool) -> Seq<Seq<char>> {
    if directed {
        seq![Seq::empty()]
    } else {
        Seq::empty()
    }
}

/// What an edge is grouped by.
pub open spec fn edge_key(m: GraphModel, e: EdgeView) -> Seq<Seq<Seq<char>>> {
    seq![
        label_list(e.labels),
        label_list(m.nodes[e.src].labels),
        label_list(m.nodes[e.tgt].labels),
        direction_list(e.directed),
    ]
}

/// The nodes of a graph as grouping sees them.
pub open spec fn node_items(m: GraphModel) -> Seq<ItemView> {
    Seq::new(
        m.node_ids.len(),
        |i: int|
            ItemView {
                key: node_key(m.nodes[m.node_ids[i]]),
                props: prop_types(m.nodes[m.node_ids[i]].props),
            },
    )
}

/// The edges of a graph as grouping sees them.
pub open spec fn edge_items(m: GraphModel) -> Seq<ItemView> {
    Seq::new(
        m.edge_ids().len(),
        |i: int|
            ItemView {
                key: edge_key(m, m.edges[m.edge_ids()[i]]),
                props: prop_types(m.edges[m.edge_ids()[i]].props),
            },
    )
}

/// The keys that occur.
pub open spec fn item_keys(items: Seq<ItemView>) -> Set<Seq<Seq<Seq<char>>>> {
    Seq::new(items.len(), |i: int| items[i].key).to_set()
}

/// The keys that occur, in ascending order.
pub open spec fn group_keys(items: Seq<ItemView>) -> Seq<Seq<Seq<Seq<char>>>> {
    crate::order::enumeration(crate::order::key_order(), item_keys(items))
}

/// The property types of the elements with a key.
pub open spec fn group_members(items: Seq<ItemView>, key: Seq<Seq<Seq<char>>>) -> Seq<
    Map<Seq<char>, SimpleTypeView>,
>
    decreases items.len(),
{
    if items.len() == 0 {
        Seq::empty()
    } else {
        let rest = group_members(items.drop_last(), key);
        if items.last().key == key {
            rest.push(items.last().props)
        } else {
            rest
        }
    }
}

/// The properties that every element has with one type.
pub open spec fn common_props(members: Seq<Map<Seq<char>, SimpleTypeView>>) -> Map<
    Seq<char>,
    SimpleTypeView,
> {
    Map::new(
        |k: Seq<char>|
            members.len() > 0 && forall|i: int|
                0 <= i < members.len() ==> (#[trigger] members[i]).contains_key(k)
                    && members[i][k] == members[0][k],
        |k: Seq<char>| members[0][k],
    )
}

/// All elements have the same properties.
pub open spec fn uniform(members: Seq<Map<Seq<char>, SimpleTypeView>>) -> bool {
    forall|i: int| 0 <= i < members.len() ==> #[trigger] members[i] == members[0]
}

/// The record type of a group.
pub open spec fn group_props(members: Seq<Map<Seq<char>, SimpleTypeView>>) -> PropertyTypeView {
    if uniform(members) {
        PropertyTypeView::Closed(common_props(members))
    } else {
        PropertyTypeView::Open(common_props(members))
    }
}

/// The constraint that demands the labels.
pub open spec fn label_conjunction(labels: Seq<Seq<char>>) -> LabelTypeView {
    if labels.len() == 0 {
        LabelTypeView::Star
    } else {
        LabelTypeView::from_list(labels)
    }
}

/// The descriptor of the group under a key, whose own labels come first in it.
pub open spec fn group_descriptor(items: Seq<ItemView>, key: Seq<Seq<Seq<char>>>) -> DescriptorTypeView {
    DescriptorTypeView {
        label: label_conjunction(key[0]),
        props: group_props(group_members(items, key)),
    }
}

/// The end point of an edge: the node type with exactly these labels, or, for
/// labels of no listed node, one that says nothing of properties.
pub open spec fn endpoint_type(nodes: Seq<ItemView>, labels: Seq<Seq<char>>) -> VariableTypeView {
    if item_keys(nodes).contains(seq![labels]) {
        VariableTypeView::Node(group_descriptor(nodes, seq![labels]))
    } else {
        VariableTypeView::Node(
            DescriptorTypeView {
                label: label_conjunction(labels),
                props: PropertyTypeView::Open(Map::empty()),
            },
        )
    }
}

/// The type of the edges under a key.
pub open spec fn edge_group_type(
    nodes: Seq<ItemView>,
    edges: Seq<ItemView>,
    key: Seq<Seq<Seq<char>>>,
) -> VariableTypeView {
    let desc = group_descriptor(edges, key);
    let left = Box::new(endpoint_type(nodes, key[1]));
    let right = Box::new(endpoint_type(nodes, key[2]));
    if key[3].len() > 0 {
        VariableTypeView::EdgeDirectional { desc, left, right }
    } else {
        VariableTypeView::EdgeNonDirectional { desc, left, right }
    }
}

/// The schema of a graph: one type per group, in the order of the keys.
pub open spec fn inferred_schema(m: GraphModel) -> SchemaView {
    let nodes = node_items(m);
    let edges = edge_items(m);
    let nk = group_keys(nodes);
    let ek = group_keys(edges);
    SchemaView {
        nodes: Seq::new(nk.len(), |i: int| VariableTypeView::Node(group_descriptor(nodes, nk[i]))),
        edges: Seq::new(ek.len(), |i: int| edge_group_type(nodes, edges, ek[i])),
    }
}

/// An element as grouping sees it.
struct Item {
    key: Vec<Vec<String>>,
    props: FieldMap<SimpleType>,
}

impl Item {
    spec fn view(&self) -> ItemView {
        ItemView {
            key: crate::order::key_view(self.key@),
            props: super::simple_type::fields_view(self.props),
        }
    }
}

spec fn item_views(items: Seq<Item>) -> Seq<ItemView> {
    Seq::new(items.len(), |i: int| items[i]@)
}

/// The labels of an element in ascending order.
pub fn sorted_label_strings(labels: &LabelType) -> (r: Vec<String>)
    ensures
        crate::text::texts(r@) == label_list(labels@),
{
    sort_texts(MemoryGraphStore::label_strings(labels))
}

fn collect_nodes<G: GraphAccess>(g: &G) -> (r: Vec<Item>)
    requires
        g.sound(),
    ensures
        item_views(r@) == node_items(g.model()),
{
    proof {
        g.sound_model();
    }
    let ids = g.nodes();
    let mut out: Vec<Item> = Vec::new();
    let mut i: usize = 0;
    while i < ids.len()
        invariant
            i <= ids.len(),
            g.sound(),
            g.model().well_formed(),
            ids@ == g.model().node_ids,
            out@.len() == i,
            forall|j: int| 0 <= j < i ==> (#[trigger] out@[j])@ == node_items(g.model())[j],
        decreases ids.len() - i,
    {
        let id = ids[i];
        assert(g.model().nodes.contains_key(g.model().node_ids[i as int]));
        let labels = sorted_label_strings(&g.node_labels(id));
        let props = props_to_simple(&g.node_props(id));
        let mut key: Vec<Vec<String>> = Vec::new();
        key.push(labels);
        let item = Item { key, props };
        assert(item@.key =~= node_key(g.model().nodes[id]));
        out.push(item);
        i = i + 1;
    }
    assert(item_views(out@) =~= node_items(g.model()));
    out
}

fn collect_edges<G: GraphAccess>(g: &G) -> (r: Vec<Item>)
    requires
        g.sound(),
    ensures
        item_views(r@) == edge_items(g.model()),
{
    proof {
        g.sound_model();
    }
    let ids = all_edges(g);
    let mut out: Vec<Item> = Vec::new();
    let mut i: usize = 0;
    while i < ids.len()
        invariant
            i <= ids.len(),
            g.sound(),
            g.model().well_formed(),
            ids@ == g.model().edge_ids(),
            out@.len() == i,
            forall|j: int| 0 <= j < i ==> (#[trigger] out@[j])@ == edge_items(g.model())[j],
        decreases ids.len() - i,
    {
        let id = ids[i];
        assert(g.model().edge_known(g.model().edge_ids()[i as int]));
        let mut key: Vec<Vec<String>> = Vec::new();
        key.push(sorted_label_strings(&g.edge_labels(id)));
        key.push(sorted_label_strings(&g.node_labels(g.src(id))));
        key.push(sorted_label_strings(&g.node_labels(g.tgt(id))));
        let mut direction: Vec<String> = Vec::new();
        if g.is_directed(id) {
            direction.push(String::new());
        }
        assert(crate::text::texts(direction@) =~= direction_list(g.model().edges[id].directed));
        key.push(direction);
        let props = props_to_simple(&g.edge_props(id));
        let item = Item { key, props };
        assert(item@.key =~= edge_key(g.model(), g.model().edges[id]));
        out.push(item);
        i = i + 1;
    }
    assert(item_views(out@) =~= edge_items(g.model()));
    out
}

fn collect_keys(items: &Vec<Item>) -> (r: Vec<Vec<Vec<String>>>)
    ensures
        crate::order::key_views(r@) == group_keys(item_views(items@)),
        crate::order::key_views(r@).to_set() == item_keys(item_views(items@)),
{
    let ghost views = item_views(items@);
    let ghost all = Seq::new(views.len(), |i: int| views[i].key);
    let mut out: Vec<Vec<Vec<String>>> = Vec::new();
    let mut i: usize = 0;
    assert(crate::order::key_views(out@) =~= Seq::empty());
    assert(crate::order::key_views(out@).to_set() =~= all.take(0).to_set());
    while i < items.len()
        invariant
            i <= items.len(),
            views == item_views(items@),
            all == Seq::new(views.len(), |i: int| views[i].key),
            crate::order::rising(crate::order::key_order(), crate::order::key_views(out@)),
            crate::order::key_views(out@).to_set() == all.take(i as int).to_set(),
        decreases items.len() - i,
    {
        add_key(&mut out, &items[i].key);
        proof {
            assert(all[i as int] == items@[i as int]@.key);
            assert(all.take(i + 1) =~= all.take(i as int).push(all[i as int]));
            assert(all.take(i + 1).to_set() =~= all.take(i as int).to_set().insert(
                all[i as int],
            )) by {
                broadcast use vstd::seq_lib::group_seq_properties;

            }
        }
        i = i + 1;
    }
    proof {
        assert(all.take(i as int) =~= all);
        crate::order::orders_total();
        let kv = crate::order::key_views(out@);
        crate::order::rising_is_unique(crate::order::key_order(), kv, group_keys(views));
    }
    out
}

/// What both maps say alike.
fn keep_common(a: &FieldMap<SimpleType>, b: &FieldMap<SimpleType>) -> (r: FieldMap<SimpleType>)
    ensures
        ({
            let fa = super::simple_type::fields_view(*a);
            let fb = super::simple_type::fields_view(*b);
            super::simple_type::fields_view(r) == Map::new(
                |k: Seq<char>| fa.contains_key(k) && fb.contains_key(k) && fa[k] == fb[k],
                |k: Seq<char>| fa[k],
            )
        }),
{
    let ghost fa = super::simple_type::fields_view(*a);
    let ghost fb = super::simple_type::fields_view(*b);
    let n = a.len();
    let mut out: FieldMap<SimpleType> = FieldMap::new();
    assert(a.keys().take(0).to_set() =~= Set::<Seq<char>>::empty());
    let mut i: usize = 0;
    while i < n
        invariant
            i <= n,
            n == a.keys().len(),
            fa == super::simple_type::fields_view(*a),
            fb == super::simple_type::fields_view(*b),
            a.keys().no_duplicates(),
            a.keys().to_set() == a@.dom(),
            forall|k: Seq<char>| #[trigger]
                out@.contains_key(k) <==> a.keys().take(i as int).to_set().contains(k)
                    && fb.contains_key(k) && fa[k] == fb[k],
            forall|k: Seq<char>| #[trigger] out@.contains_key(k) ==> out@[k]@ == fa[k],
        decreases n - i,
    {
        proof {
            crate::fields::prefix_set_step(a.keys(), i as int);
        }
        let ghost key = a.keys()[i as int];
        let t = a.value_at(i);
        assert(fa[key] == t@);
        match b.get(a.key_at(i).as_str()) {
            Some(u) => {
                assert(fb.contains_key(key) && fb[key] == u@);
                if t.same(u) {
                    out.insert(a.key_at(i).clone(), t.clone());
                }
            },
            None => {
                assert(!fb.contains_key(key));
            },
        }
        i = i + 1;
    }
    proof {
        assert(a.keys().take(n as int) =~= a.keys());
        assert(super::simple_type::fields_view(out) =~= Map::new(
            |k: Seq<char>| fa.contains_key(k) && fb.contains_key(k) && fa[k] == fb[k],
            |k: Seq<char>| fa[k],
        ));
    }
    out
}

/// The record type of the elements with a key.
fn group_record(items: &Vec<Item>, key: &Vec<Vec<String>>) -> (r: PropertyType)
    ensures
        r@ == group_props(group_members(item_views(items@), crate::order::key_view(key@))),
{
    let ghost views = item_views(items@);
    let ghost kv = crate::order::key_view(key@);
    let mut common: FieldMap<SimpleType> = FieldMap::new();
    let mut seen = false;
    let mut open = false;
    let mut i: usize = 0;
    assert(super::simple_type::fields_view(common) =~= common_props(
        group_members(views.take(0), kv),
    ));
    while i < items.len()
        invariant
            i <= items.len(),
            views == item_views(items@),
            kv == crate::order::key_view(key@),
            seen == (group_members(views.take(i as int), kv).len() > 0),
            open == !uniform(group_members(views.take(i as int), kv)),
            super::simple_type::fields_view(common) == common_props(
                group_members(views.take(i as int), kv),
            ),
        decreases items.len() - i,
    {
        let ghost before = group_members(views.take(i as int), kv);
        let ghost after = group_members(views.take(i + 1), kv);
        proof {
            assert(views.take(i + 1).drop_last() =~= views.take(i as int));
            assert(views.take(i + 1).last() == items@[i as int]@);
        }
        if same_key(&items[i].key, key) {
            let ghost old_common = super::simple_type::fields_view(common);
            let ghost p = super::simple_type::fields_view(items@[i as int].props);
            assert(after == before.push(p));
            if !seen {
                common = super::property_type::clone_fields(&items[i].props);
                seen = true;
                assert(common_props(after) =~= p);
            } else {
                if !same_fields(&common, &items[i].props) {
                    open = true;
                }
                common = keep_common(&common, &items[i].props);
                proof {
                    members_step(before, p);
                }
            }
        }
        i = i + 1;
    }
    assert(views.take(i as int) =~= views);
    if open {
        PropertyType::Open(common)
    } else {
        PropertyType::Closed(common)
    }
}

/// One more element of a group.
proof fn members_step(before: Seq<Map<Seq<char>, SimpleTypeView>>, p: Map<Seq<char>, SimpleTypeView>)
    requires
        before.len() > 0,
    ensures
        ({
            let c = common_props(before);
            let after = before.push(p);
            &&& common_props(after) == Map::new(
                |k: Seq<char>| c.contains_key(k) && p.contains_key(k) && c[k] == p[k],
                |k: Seq<char>| c[k],
            )
            &&& uniform(after) == (uniform(before) && c == p)
        }),
{
    let c = common_props(before);
    let after = before.push(p);
    assert(after[0] == before[0]);
    assert(after[before.len() as int] == p);
    let kept = Map::new(
        |k: Seq<char>| c.contains_key(k) && p.contains_key(k) && c[k] == p[k],
        |k: Seq<char>| c[k],
    );
    assert forall|k: Seq<char>| common_props(after).contains_key(k) == kept.contains_key(k) by {
        if common_props(after).contains_key(k) {
            assert forall|i: int| 0 <= i < before.len() implies (
            #[trigger] before[i]).contains_key(k) && before[i][k] == before[0][k] by {
                assert(after[i] == before[i]);
            }
            assert(c.contains_key(k));
            assert(after[before.len() as int].contains_key(k));
        }
        if kept.contains_key(k) {
            assert forall|i: int| 0 <= i < after.len() implies (#[trigger] after[i]).contains_key(k)
                && after[i][k] == after[0][k] by {
                if i < before.len() {
                    assert(after[i] == before[i]);
                }
            }
        }
    }
    assert(common_props(after) =~= kept);
    if uniform(before) {
        assert(c =~= before[0]) by {
            assert forall|k: Seq<char>| c.contains_key(k) == before[0].contains_key(k) by {
                if before[0].contains_key(k) {
                    assert forall|i: int| 0 <= i < before.len() implies (
                    #[trigger] before[i]).contains_key(k) && before[i][k] == before[0][k] by {
                    }
                }
            }
        }
    }
    if uniform(after) {
        assert forall|i: int| 0 <= i < before.len() implies #[trigger] before[i] == before[0] by {
            assert(after[i] == before[i]);
        }
    }
    if uniform(before) && c == p {
        assert forall|i: int| 0 <= i < after.len() implies #[trigger] after[i] == after[0] by {
            if i < before.len() {
                assert(after[i] == before[i]);
            }
        }
    }
}

/// The constraint that demands the labels.
pub fn labels_to_label_type(labels: &Vec<String>) -> (r: LabelType)
    ensures
        r@ == label_conjunction(crate::text::texts(labels@)),
{
    if labels.len() == 0 {
        LabelType::Star
    } else {
        LabelType::from_list(labels.as_slice())
    }
}

fn describe_group(items: &Vec<Item>, key: &Vec<Vec<String>>) -> (r: DescriptorType)
    requires
        key@.len() > 0,
    ensures
        r@ == group_descriptor(item_views(items@), crate::order::key_view(key@)),
{
    let label = labels_to_label_type(&key[0]);
    let props = group_record(items, key);
    assert(crate::order::key_view(key@)[0] == crate::text::texts(key@[0]@));
    DescriptorType::new(label, props)
}

fn endpoint_node(nodes: &Vec<Item>, keys: &Vec<Vec<Vec<String>>>, labels: &Vec<String>) -> (r:
    VariableType)
    requires
        crate::order::key_views(keys@).to_set() == item_keys(item_views(nodes@)),
    ensures
        r@ == endpoint_type(item_views(nodes@), crate::text::texts(labels@)),
{
    let mut key: Vec<Vec<String>> = Vec::new();
    key.push(copy_list(labels));
    let ghost kv = crate::order::key_view(key@);
    assert(kv =~= seq![crate::text::texts(labels@)]);
    let mut i: usize = 0;
    let ghost all = crate::order::key_views(keys@);
    while i < keys.len()
        invariant
            i <= keys.len(),
            all == crate::order::key_views(keys@),
            kv == crate::order::key_view(key@),
            kv == seq![crate::text::texts(labels@)],
            key@.len() == 1,
            all.to_set() == item_keys(item_views(nodes@)),
            forall|j: int| 0 <= j < i ==> #[trigger] all[j] != kv,
        decreases keys.len() - i,
    {
        assert(all[i as int] == crate::order::key_view(keys@[i as int]@));
        if same_key(&keys[i], &key) {
            assert(all.to_set().contains(kv));
            return VariableType::Node(describe_group(nodes, &key));
        }
        i = i + 1;
    }
    assert(!all.to_set().contains(kv));
    VariableType::Node(
        DescriptorType::new(labels_to_label_type(labels), PropertyType::open_empty()),
    )
}

/// The schema of a graph.
pub fn infer_simple_schema<G: GraphAccess>(g: &G) -> (r: Schema)
    requires
        g.sound(),
    ensures
        r@ == inferred_schema(g.model()),
{
    let node_list = collect_nodes(g);
    let edge_list = collect_edges(g);
    let ghost nv = node_items(g.model());
    let ghost ev = edge_items(g.model());
    let node_keys = collect_keys(&node_list);
    let edge_keys = collect_keys(&edge_list);
    let ghost schema = inferred_schema(g.model());
    let mut nodes: Vec<VariableType> = Vec::new();
    let mut i: usize = 0;
    while i < node_keys.len()
        invariant
            i <= node_keys.len(),
            nv == item_views(node_list@),
            nv == node_items(g.model()),
            schema == inferred_schema(g.model()),
            crate::order::key_views(node_keys@) == group_keys(nv),
            crate::order::key_views(node_keys@).to_set() == item_keys(nv),
            nodes@.len() == i,
            forall|j: int| 0 <= j < i ==> (#[trigger] nodes@[j])@ == schema.nodes[j],
        decreases node_keys.len() - i,
    {
        proof {
            assert(crate::order::key_views(node_keys@)[i as int] == crate::order::key_view(
                node_keys@[i as int]@,
            ));
            node_key_shape(g.model(), crate::order::key_view(node_keys@[i as int]@));
        }
        nodes.push(VariableType::Node(describe_group(&node_list, &node_keys[i])));
        i = i + 1;
    }
    assert(super::variable_type::type_views(nodes@) =~= schema.nodes);
    let mut edges: Vec<VariableType> = Vec::new();
    let mut i: usize = 0;
    while i < edge_keys.len()
        invariant
            i <= edge_keys.len(),
            nv == item_views(node_list@),
            nv == node_items(g.model()),
            ev == item_views(edge_list@),
            ev == edge_items(g.model()),
            schema == inferred_schema(g.model()),
            crate::order::key_views(node_keys@).to_set() == item_keys(nv),
            crate::order::key_views(edge_keys@) == group_keys(ev),
            crate::order::key_views(edge_keys@).to_set() == item_keys(ev),
            edges@.len() == i,
            forall|j: int| 0 <= j < i ==> (#[trigger] edges@[j])@ == schema.edges[j],
        decreases edge_keys.len() - i,
    {
        let key = &edge_keys[i];
        let ghost kv = crate::order::key_view(key@);
        proof {
            assert(crate::order::key_views(edge_keys@)[i as int] == kv);
            edge_key_shape(g.model(), kv);
            assert(kv[1] == crate::text::texts(key@[1]@));
            assert(kv[2] == crate::text::texts(key@[2]@));
            assert(kv[3] == crate::text::texts(key@[3]@));
        }
        let desc = describe_group(&edge_list, key);
        let left = endpoint_node(&node_list, &node_keys, &key[1]);
        let right = endpoint_node(&node_list, &node_keys, &key[2]);
        let t = if key[3].len() > 0 {
            VariableType::EdgeDirectional { desc, left: Box::new(left), right: Box::new(right) }
        } else {
            VariableType::EdgeNonDirectional { desc, left: Box::new(left), right: Box::new(right) }
        };
        assert(t@ == edge_group_type(nv, ev, kv));
        edges.push(t);
        i = i + 1;
    }
    assert(super::variable_type::type_views(edges@) =~= schema.edges);
    Schema::from_parts(nodes, edges)
}

proof fn node_key_shape(m: GraphModel, key: Seq<Seq<Seq<char>>>)
    requires
        item_keys(node_items(m)).contains(key),
    ensures
        key.len() == 1,
{
    let items = node_items(m);
    let all = Seq::new(items.len(), |i: int| items[i].key);
    let i = choose|i: int| 0 <= i < all.len() && all[i] == key;
    assert(all[i] == items[i].key);
}

proof fn edge_key_shape(m: GraphModel, key: Seq<Seq<Seq<char>>>)
    requires
        item_keys(edge_items(m)).contains(key),
    ensures
        key.len() == 4,
{
    let items = edge_items(m);
    let all = Seq::new(items.len(), |i: int| items[i].key);
    let i = choose|i: int| 0 <= i < all.len() && all[i] == key;
    assert(all[i] == items[i].key);
}

/// The lists of labels at the ends of a graph's edges.
pub open spec fn is_endpoint_list(m: GraphModel, labels: Seq<Seq<char>>) -> bool {
    exists|i: int|
        0 <= i < m.edge_ids().len() && ends_with_list(
            m,
            m.edges[#[trigger] m.edge_ids()[i]],
            labels,
        )
}

/// One end of the edge has exactly these labels.
pub open spec fn ends_with_list(m: GraphModel, e: EdgeView, labels: Seq<Seq<char>>) -> bool {
    label_list(m.nodes[e.src].labels) == labels || label_list(m.nodes[e.tgt].labels) == labels
}

/// The label lists that occur at the ends of edges, each once, in ascending
/// order.
pub fn endpoint_label_combos<G: GraphAccess>(g: &G) -> (r: Vec<Vec<String>>)
    requires
        g.sound(),
    ensures
        crate::order::rising(crate::order::list_order(), crate::order::key_view(r@)),
        forall|labels: Seq<Seq<char>>| #[trigger]
            crate::order::key_view(r@).contains(labels) <==> is_endpoint_list(g.model(), labels),
{
    proof {
        g.sound_model();
    }
    let ghost m = g.model();
    let ids = all_edges(g);
    let mut keys: Vec<Vec<Vec<String>>> = Vec::new();
    let mut i: usize = 0;
    assert(crate::order::key_views(keys@) =~= Seq::empty());
    while i < ids.len()
        invariant
            i <= ids.len(),
            g.sound(),
            m == g.model(),
            m.well_formed(),
            ids@ == m.edge_ids(),
            crate::order::rising(crate::order::key_order(), crate::order::key_views(keys@)),
            forall|k: Seq<Seq<Seq<char>>>| #[trigger]
                crate::order::key_views(keys@).to_set().contains(k) <==> k.len() == 1 && exists|
                    j: int,
                |
                    0 <= j < i && ends_with_list(m, m.edges[#[trigger] m.edge_ids()[j]], k[0]),
        decreases ids.len() - i,
    {
        let id = ids[i];
        assert(m.edge_known(m.edge_ids()[i as int]));
        let ghost before = crate::order::key_views(keys@).to_set();
        let mut s: Vec<Vec<String>> = Vec::new();
        s.push(sorted_label_strings(&g.node_labels(g.src(id))));
        let mut t: Vec<Vec<String>> = Vec::new();
        t.push(sorted_label_strings(&g.node_labels(g.tgt(id))));
        let ghost sv = crate::order::key_view(s@);
        let ghost tv = crate::order::key_view(t@);
        assert(sv =~= seq![label_list(m.nodes[m.edges[id].src].labels)]);
        assert(tv =~= seq![label_list(m.nodes[m.edges[id].tgt].labels)]);
        add_key(&mut keys, &s);
        add_key(&mut keys, &t);
        proof {
            let after = crate::order::key_views(keys@).to_set();
            assert(after == before.insert(sv).insert(tv));
            assert forall|k: Seq<Seq<Seq<char>>>| #[trigger] after.contains(k) <==> k.len() == 1
                && exists|j: int|
                0 <= j < i + 1 && ends_with_list(m, m.edges[#[trigger] m.edge_ids()[j]], k[0]) by {
                if k.len() == 1 {
                    assert(k =~= seq![k[0]]);
                    if ends_with_list(m, m.edges[m.edge_ids()[i as int]], k[0]) {
                        assert(k == sv || k == tv);
                    }
                }
                if k == sv || k == tv {
                    assert(ends_with_list(m, m.edges[m.edge_ids()[i as int]], k[0]));
                }
            }
        }
        i = i + 1;
    }
    let ghost kv = crate::order::key_views(keys@);
    let mut out: Vec<Vec<String>> = Vec::new();
    let mut p: usize = 0;
    while p < keys.len()
        invariant
            p <= keys.len(),
            kv == crate::order::key_views(keys@),
            crate::order::rising(crate::order::key_order(), kv),
            forall|k: Seq<Seq<Seq<char>>>| #[trigger]
                kv.to_set().contains(k) <==> k.len() == 1 && exists|j: int|
                    0 <= j < m.edge_ids().len() && ends_with_list(
                        m,
                        m.edges[#[trigger] m.edge_ids()[j]],
                        k[0],
                    ),
            out@.len() == p,
            forall|j: int|
                0 <= j < p ==> crate::text::texts((#[trigger] out@[j])@) == kv[j][0]
                    && kv[j].len() == 1,
        decreases keys.len() - p,
    {
        assert(kv[p as int] == crate::order::key_view(keys@[p as int]@));
        assert(kv.to_set().contains(kv[p as int]));
        assert(kv[p as int][0] == crate::text::texts(keys@[p as int]@[0]@));
        assert(kv[p as int].len() == 1);
        let list = copy_list(&keys[p][0]);
        assert(crate::text::texts(list@) == kv[p as int][0]);
        let ghost before = out@;
        out.push(list);
        assert forall|j: int| 0 <= j < p + 1 implies crate::text::texts((#[trigger] out@[j])@)
            == kv[j][0] && kv[j].len() == 1 by {
            if j < p {
                assert(out@[j] == before[j]);
            }
        }
        p = p + 1;
    }
    proof {
        let lists = crate::order::key_view(out@);
        crate::order::orders_total();
        assert forall|a: int, b: int| 0 <= a < b < lists.len() implies crate::order::list_order()(
            #[trigger] lists[a],
            #[trigger] lists[b],
        ) by {
            assert(lists[a] == crate::text::texts(out@[a]@));
            assert(lists[b] == crate::text::texts(out@[b]@));
            assert(crate::order::key_order()(kv[a], kv[b]));
            assert(kv[a].drop_first() =~= Seq::empty());
            assert(kv[b].drop_first() =~= Seq::empty());
            assert(!crate::order::lex_lt(
                crate::order::list_order(),
                kv[a].drop_first(),
                kv[b].drop_first(),
            ));
        }
        assert forall|labels: Seq<Seq<char>>| #[trigger]
            lists.contains(labels) <==> is_endpoint_list(m, labels) by {
            if lists.contains(labels) {
                let a = choose|a: int| 0 <= a < lists.len() && lists[a] == labels;
                assert(lists[a] == crate::text::texts(out@[a]@));
                assert(kv.to_set().contains(kv[a]));
            }
            if is_endpoint_list(m, labels) {
                let k = seq![labels];
                assert(kv.to_set().contains(k));
                let a = choose|a: int| 0 <= a < kv.len() && kv[a] == k;
                assert(lists[a] == crate::text::texts(out@[a]@));
            }
        }
    }
    out
}

} // verus!
