//! Graphs as documents: a document that holds a graph, and the graph that a
//! document holds.
//!
//! A document has a list of nodes and a list of edges. A node has an `id`, a
//! list of `labels` and `props`; an edge has in addition its two `endpoints`,
//! by their names, and its `directionality`, which is `->` or `~~`.

use vstd::prelude::*;

use super::graph_store::{EdgeRecord, GraphStore, ImportError, NodeRecord};
use crate::fields::FieldMap;
use crate::model::graph::MemoryGraphStore;
use crate::model::graph_access::{all_edges, EdgeView, GraphAccess, GraphModel, NodeView};
use crate::model::value::{Id, Props, Value, ValueView};
use crate::text::{copy_text, same_text};

verus! {

/// A document. A number is an integer, or is held by its IEEE 754 bits.
pub enum Json {
    Null,
    Bool(bool),
    Int(i64),
    Float(u64),
    Text(String),
    Array(Vec<Json>),
    Object(FieldMap<Json>),
}

/// What a document holds.
pub enum JsonView {
    Null,
    Bool(bool),
    Int(i64),
    Float(u64),
    Text(Seq<char>),
    Array(Seq<JsonView>),
    Object(Map<Seq<char>, JsonView>),
}

/// What each item holds.
pub open spec fn json_views(v: Seq<Json>) -> Seq<JsonView> {
    Seq::new(v.len(), |i: int| v[i]@)
}

/// What each member holds.
pub open spec fn member_views(m: FieldMap<Json>) -> Map<Seq<char>, JsonView> {
    Map::new(|k: Seq<char>| m@.contains_key(k), |k: Seq<char>| m@[k]@)
}

impl Json {
    /// What the document holds.
    pub open spec fn view(&self) -> JsonView
        decreases self,
    {
        match self {
            Json::Null => JsonView::Null,
            Json::Bool(b) => JsonView::Bool(*b),
            Json::Int(n) => JsonView::Int(*n),
            Json::Float(bits) => JsonView::Float(*bits),
            Json::Text(s) => JsonView::Text(s@),
            Json::Array(v) => JsonView::Array(
                Seq::new(
                    v@.len(),
                    |i: int|
                        if 0 <= i < v@.len() {
                            v@[i].view()
                        } else {
                            arbitrary()
                        },
                ),
            ),
            Json::Object(m) => {
                proof {
                    m.values_decrease();
                }
                JsonView::Object(
                    Map::new(
                        |k: Seq<char>| m@.contains_key(k),
                        |k: Seq<char>|
                            if m@.contains_key(k) {
                                m@[k].view()
                            } else {
                                arbitrary()
                            },
                    ),
                )
            },
        }
    }

    /// Containers hold what their items hold.
    pub(crate) proof fn container_views(self)
        ensures
            self matches Json::Array(v) ==> self@ == JsonView::Array(json_views(v@)),
            self matches Json::Object(m) ==> self@ == JsonView::Object(member_views(m)),
    {
        match self {
            Json::Array(v) => {
                assert(self@->Array_0 =~= json_views(v@));
            },
            Json::Object(m) => {
                assert(self@->Object_0 =~= member_views(m));
            },
            _ => {},
        }
    }

    /// The text, of a text.
    pub fn as_str(&self) -> (r: Option<&String>)
        ensures
            match r {
                Some(s) => self@ == JsonView::Text(s@),
                None => !(self@ is Text),
            },
    {
        match self {
            Json::Text(s) => Some(s),
            _ => None,
        }
    }

    /// The items, of a list.
    pub fn as_array(&self) -> (r: Option<&Vec<Json>>)
        ensures
            match r {
                Some(v) => self@ == JsonView::Array(json_views(v@)),
                None => !(self@ is Array),
            },
    {
        proof {
            self.container_views();
        }
        match self {
            Json::Array(v) => Some(v),
            _ => None,
        }
    }

    /// The member of an object under a key.
    pub fn get(&self, key: &str) -> (r: Option<&Json>)
        ensures
            match r {
                Some(v) => v@ == member(self@, key@),
                None => member(self@, key@) == JsonView::Null,
            },
    {
        proof {
            self.container_views();
        }
        match self {
            Json::Object(m) => m.get(key),
            _ => None,
        }
    }
}

/// The member of an object under a key, or null.
pub open spec fn member(j: JsonView, key: Seq<char>) -> JsonView {
    match j {
        JsonView::Object(m) => if m.contains_key(key) {
            m[key]
        } else {
            JsonView::Null
        },
        _ => JsonView::Null,
    }
}

/// Bits of a floating-point number that is neither infinite nor a NaN.
pub open spec fn is_finite(bits: u64) -> bool {
    bits % 0x8000_0000_0000_0000 < 0x7ff0_0000_0000_0000
}

/// The document of a value. What a document cannot hold is null.
pub open spec fn value_json(v: ValueView) -> JsonView
    decreases v,
{
    match v {
        ValueView::Null => JsonView::Null,
        ValueView::Int(n) => JsonView::Int(n),
        ValueView::Float(bits) => if is_finite(bits) {
            JsonView::Float(bits)
        } else {
            JsonView::Null
        },
        ValueView::Bool(b) => JsonView::Bool(b),
        ValueView::Str(s) => JsonView::Text(s),
        ValueView::List(items) => JsonView::Array(
            Seq::new(
                items.len(),
                |i: int|
                    if 0 <= i < items.len() {
                        value_json(items[i])
                    } else {
                        arbitrary()
                    },
            ),
        ),
        ValueView::Record(m) => JsonView::Object(
            Map::new(
                |k: Seq<char>| m.contains_key(k),
                |k: Seq<char>|
                    if m.contains_key(k) {
                        value_json(m[k])
                    } else {
                        arbitrary()
                    },
            ),
        ),
        ValueView::Node(_) | ValueView::Edge(_) | ValueView::Path(_) => JsonView::Null,
    }
}

/// The document of properties.
pub open spec fn props_json(props: Map<Seq<char>, ValueView>) -> JsonView {
    JsonView::Object(
        Map::new(|k: Seq<char>| props.contains_key(k), |k: Seq<char>| value_json(props[k])),
    )
}

/// The document of a list of texts.
pub open spec fn texts_json(texts: Seq<Seq<char>>) -> JsonView {
    JsonView::Array(Seq::new(texts.len(), |i: int| JsonView::Text(texts[i])))
}

/// The members that nodes and edges have in common.
pub open spec fn element_json(
    name: Seq<char>,
    labels: Seq<Seq<char>>,
    props: Map<Seq<char>, ValueView>,
) -> Map<Seq<char>, JsonView> {
    Map::empty().insert("id"@, JsonView::Text(name)).insert("labels"@, texts_json(labels)).insert(
        "props"@,
        props_json(props),
    )
}

/// The document of a node.
pub open spec fn node_json(n: NodeView) -> JsonView {
    JsonView::Object(element_json(n.name, n.labels.required(), n.props))
}

/// How a document says whether an edge has a direction.
pub open spec fn direction_text(directed: bool) -> Seq<char> {
    if directed {
        "->"@
    } else {
        "~~"@
    }
}

/// The document of an edge between nodes of the given names.
pub open spec fn edge_json(e: EdgeView, src: Seq<char>, tgt: Seq<char>) -> JsonView {
    JsonView::Object(
        element_json(e.name, e.labels.required(), e.props).insert(
            "endpoints"@,
            texts_json(seq![src, tgt]),
        ).insert("directionality"@, JsonView::Text(direction_text(e.directed))),
    )
}

/// The documents of the listed nodes.
pub open spec fn nodes_json(m: GraphModel) -> Seq<JsonView> {
    Seq::new(m.node_ids.len(), |i: int| node_json(m.nodes[m.node_ids[i]]))
}

/// The document of an edge of a graph.
pub open spec fn graph_edge_json(m: GraphModel, id: Id) -> JsonView {
    edge_json(m.edges[id], m.nodes[m.edges[id].src].name, m.nodes[m.edges[id].tgt].name)
}

/// The documents of the listed edges, directed ones first.
pub open spec fn edges_json(m: GraphModel) -> Seq<JsonView> {
    Seq::new(m.edge_ids().len(), |i: int| graph_edge_json(m, m.edge_ids()[i]))
}

/// The document of a graph.
pub open spec fn graph_json(m: GraphModel) -> JsonView {
    JsonView::Object(
        Map::empty().insert("nodes"@, JsonView::Array(nodes_json(m))).insert(
            "edges"@,
            JsonView::Array(edges_json(m)),
        ),
    )
}

/// An object with one more member.
fn put_member(m: &mut FieldMap<Json>, key: &str, value: Json)
    ensures
        member_views(*final(m)) == member_views(*old(m)).insert(key@, value@),
{
    m.insert(copy_text(key), value);
    assert(member_views(*m) =~= member_views(*old(m)).insert(key@, value@));
}

fn no_members() -> (r: FieldMap<Json>)
    ensures
        member_views(r) == Map::<Seq<char>, JsonView>::empty(),
{
    let r: FieldMap<Json> = FieldMap::new();
    assert(member_views(r) =~= Map::empty());
    r
}

fn object(m: FieldMap<Json>) -> (r: Json)
    ensures
        r@ == JsonView::Object(member_views(m)),
{
    let r = Json::Object(m);
    proof {
        r.container_views();
    }
    r
}

fn array(v: Vec<Json>) -> (r: Json)
    ensures
        r@ == JsonView::Array(json_views(v@)),
{
    let r = Json::Array(v);
    proof {
        r.container_views();
    }
    r
}

/// The document of a value.
pub fn value_to_json(v: &Value) -> (r: Json)
    ensures
        r@ == value_json(v@),
    decreases v,
{
    match v {
        Value::Null => Json::Null,
        Value::Int(n) => Json::Int(*n),
        Value::Float(bits) => if *bits % 0x8000_0000_0000_0000 < 0x7ff0_0000_0000_0000 {
            Json::Float(*bits)
        } else {
            Json::Null
        },
        Value::Bool(b) => Json::Bool(*b),
        Value::Str(s) => Json::Text(s.clone()),
        Value::List(items) => {
            let mut out: Vec<Json> = Vec::new();
            let mut i: usize = 0;
            while i < items.len()
                invariant
                    i <= items.len(),
                    *v == Value::List(*items),
                    out@.len() == i,
                    forall|j: int| 0 <= j < i ==> (#[trigger] out@[j])@ == value_json(items@[j]@),
                decreases items.len() - i,
            {
                assert(decreases_to!(v => v->List_0));
                out.push(value_to_json(&items[i]));
                i = i + 1;
            }
            let r = array(out);
            assert(r@->Array_0 =~= value_json(v@)->Array_0);
            r
        },
        Value::Record(m) => {
            let r = props_to_json(m);
            proof {
                assert(v@->Record_0 =~= crate::model::value::props_view(*m));
                assert(r@->Object_0 =~= value_json(v@)->Object_0);
            }
            r
        },
        Value::Node(_) => Json::Null,
        Value::Edge(_) => Json::Null,
        Value::Path(_) => Json::Null,
    }
}

/// The document of properties.
pub fn props_to_json(props: &Props) -> (r: Json)
    ensures
        r@ == props_json(crate::model::value::props_view(*props)),
    decreases props,
{
    let n = props.len();
    let ghost pv = crate::model::value::props_view(*props);
    let mut out = no_members();
    assert(props.keys().take(0).to_set() =~= Set::<Seq<char>>::empty());
    let mut i: usize = 0;
    while i < n
        invariant
            i <= n,
            n == props.keys().len(),
            props.keys().no_duplicates(),
            props.keys().to_set() == props@.dom(),
            pv == crate::model::value::props_view(*props),
            member_views(out).dom() == props.keys().take(i as int).to_set(),
            forall|k: Seq<char>| #[trigger]
                member_views(out).contains_key(k) ==> member_views(out)[k] == value_json(pv[k]),
        decreases n - i,
    {
        proof {
            props.values_decrease();
            crate::fields::prefix_set_step(props.keys(), i as int);
            assert(props@.contains_key(props.keys()[i as int]));
        }
        let v = props.value_at(i);
        let key = props.key_at(i);
        let c = value_to_json(v);
        put_member(&mut out, key.as_str(), c);
        i = i + 1;
        assert(member_views(out).dom() =~= props.keys().take(i as int).to_set());
    }
    let r = object(out);
    proof {
        assert(props.keys().take(n as int) =~= props.keys());
        assert(r@->Object_0 =~= props_json(pv)->Object_0);
    }
    r
}

/// The document of a list of texts.
fn texts_to_json(texts: &Vec<String>) -> (r: Json)
    ensures
        r@ == texts_json(crate::text::texts(texts@)),
{
    let mut out: Vec<Json> = Vec::new();
    let mut i: usize = 0;
    while i < texts.len()
        invariant
            i <= texts.len(),
            out@.len() == i,
            forall|j: int| 0 <= j < i ==> (#[trigger] out@[j])@ == JsonView::Text(texts@[j]@),
        decreases texts.len() - i,
    {
        out.push(Json::Text(texts[i].clone()));
        i = i + 1;
    }
    let r = array(out);
    assert(r@->Array_0 =~= texts_json(crate::text::texts(texts@))->Array_0);
    r
}

/// The members that nodes and edges have in common.
fn element_to_json(name: String, labels: &Vec<String>, props: &Props) -> (r: FieldMap<Json>)
    ensures
        member_views(r) == element_json(
            name@,
            crate::text::texts(labels@),
            crate::model::value::props_view(*props),
        ),
{
    let mut m = no_members();
    put_member(&mut m, "id", Json::Text(name));
    put_member(&mut m, "labels", texts_to_json(labels));
    put_member(&mut m, "props", props_to_json(props));
    m
}

fn node_to_json<G: GraphAccess>(g: &G, id: Id) -> (r: Json)
    requires
        g.sound(),
        g.model().nodes.contains_key(id),
    ensures
        r@ == node_json(g.model().nodes[id]),
{
    let labels = MemoryGraphStore::label_strings(&g.node_labels(id));
    object(element_to_json(g.node_name(id), &labels, &g.node_props(id)))
}

fn edge_to_json<G: GraphAccess>(g: &G, id: Id) -> (r: Json)
    requires
        g.sound(),
        g.model().edge_known(id),
    ensures
        r@ == graph_edge_json(g.model(), id),
{
    let labels = MemoryGraphStore::label_strings(&g.edge_labels(id));
    let mut m = element_to_json(g.edge_name(id), &labels, &g.edge_props(id));
    let mut ends: Vec<String> = Vec::new();
    ends.push(g.node_name(g.src(id)));
    ends.push(g.node_name(g.tgt(id)));
    proof {
        let e = g.model().edges[id];
        assert(crate::text::texts(ends@) =~= seq![
            g.model().nodes[e.src].name,
            g.model().nodes[e.tgt].name,
        ]);
    }
    put_member(&mut m, "endpoints", texts_to_json(&ends));
    let direction = if g.is_directed(id) {
        copy_text("->")
    } else {
        copy_text("~~")
    };
    put_member(&mut m, "directionality", Json::Text(direction));
    object(m)
}

/// The document of a graph.
pub fn dump_to_json_value<G: GraphAccess>(g: &G) -> (r: Json)
    requires
        g.sound(),
    ensures
        r@ == graph_json(g.model()),
{
    proof {
        g.sound_model();
    }
    let ghost m = g.model();
    let ids = g.nodes();
    let mut nodes: Vec<Json> = Vec::new();
    let mut i: usize = 0;
    while i < ids.len()
        invariant
            i <= ids.len(),
            g.sound(),
            m == g.model(),
            m.well_formed(),
            ids@ == m.node_ids,
            nodes@.len() == i,
            forall|j: int| 0 <= j < i ==> (#[trigger] nodes@[j])@ == nodes_json(m)[j],
        decreases ids.len() - i,
    {
        assert(m.nodes.contains_key(m.node_ids[i as int]));
        nodes.push(node_to_json(g, ids[i]));
        i = i + 1;
    }
    let eids = all_edges(g);
    let mut edges: Vec<Json> = Vec::new();
    let mut k: usize = 0;
    while k < eids.len()
        invariant
            k <= eids.len(),
            g.sound(),
            m == g.model(),
            m.well_formed(),
            eids@ == m.edge_ids(),
            edges@.len() == k,
            forall|j: int| 0 <= j < k ==> (#[trigger] edges@[j])@ == edges_json(m)[j],
        decreases eids.len() - k,
    {
        assert(m.edge_known(m.edge_ids()[k as int]));
        edges.push(edge_to_json(g, eids[k]));
        k = k + 1;
    }
    proof {
        assert(json_views(nodes@) =~= nodes_json(m));
        assert(json_views(edges@) =~= edges_json(m));
    }
    let mut top = no_members();
    put_member(&mut top, "nodes", array(nodes));
    put_member(&mut top, "edges", array(edges));
    object(top)
}

/// A node as a document gives it.
#[verifier::ext_equal]
pub ghost struct NodeEntry {
    pub id: Seq<char>,
    pub labels: Seq<Seq<char>>,
    pub props: Map<Seq<char>, ValueView>,
}

/// An edge as a document gives it.
#[verifier::ext_equal]
pub ghost struct EdgeEntry {
    pub id: Seq<char>,
    pub labels: Seq<Seq<char>>,
    pub props: Map<Seq<char>, ValueView>,
    pub src: Seq<char>,
    pub tgt: Seq<char>,
    pub directed: bool,
}

/// The texts of a list of texts.
pub open spec fn text_list(j: JsonView) -> Option<Seq<Seq<char>>> {
    match j {
        JsonView::Array(v) => if forall|i: int| 0 <= i < v.len() ==> (#[trigger] v[i]) is Text {
            Some(Seq::new(v.len(), |i: int| v[i]->Text_0))
        } else {
            None
        },
        _ => None,
    }
}

/// A property is taken over: a text, a truth value or an integer.
pub open spec fn taken(j: JsonView) -> bool {
    j is Text || j is Bool || j is Int
}

/// The property that is taken over.
pub open spec fn taken_value(j: JsonView) -> ValueView {
    match j {
        JsonView::Text(s) => ValueView::Str(s),
        JsonView::Bool(b) => ValueView::Bool(b),
        JsonView::Int(n) => ValueView::Int(n),
        _ => ValueView::Null,
    }
}

/// The properties of a document. Null, lists and objects are left out; a number
/// that is no integer makes the properties unreadable.
pub open spec fn read_props(j: JsonView) -> Option<Map<Seq<char>, ValueView>> {
    match j {
        JsonView::Object(m) => if exists|k: Seq<char>| #[trigger] m.contains_key(k) && m[k] is Float {
            None
        } else {
            Some(
                Map::new(
                    |k: Seq<char>| m.contains_key(k) && taken(m[k]),
                    |k: Seq<char>| taken_value(m[k]),
                ),
            )
        },
        _ => Some(Map::empty()),
    }
}

/// The node that a document gives.
pub open spec fn node_entry(j: JsonView) -> Option<NodeEntry> {
    let labels = text_list(member(j, "labels"@));
    let props = read_props(member(j, "props"@));
    if member(j, "id"@) is Text && labels is Some && props is Some {
        Some(
            NodeEntry { id: member(j, "id"@)->Text_0, labels: labels->Some_0, props: props->Some_0 },
        )
    } else {
        None
    }
}

/// The two ends that a document gives.
pub open spec fn ends(j: JsonView) -> Option<(Seq<char>, Seq<char>)> {
    match j {
        JsonView::Array(v) => if v.len() >= 2 && v[0] is Text && v[1] is Text {
            Some((v[0]->Text_0, v[1]->Text_0))
        } else {
            None
        },
        _ => None,
    }
}

/// The edge that a document gives.
pub open spec fn edge_entry(j: JsonView) -> Option<EdgeEntry> {
    let common = node_entry(j);
    let between = ends(member(j, "endpoints"@));
    let direction = member(j, "directionality"@);
    if common is Some && between is Some && direction is Text {
        Some(
            EdgeEntry {
                id: common->Some_0.id,
                labels: common->Some_0.labels,
                props: common->Some_0.props,
                src: between->Some_0.0,
                tgt: between->Some_0.1,
                directed: direction->Text_0 == "->"@,
            },
        )
    } else {
        None
    }
}

/// What a record says.
pub open spec fn entry_of_node(n: NodeRecord) -> NodeEntry {
    NodeEntry {
        id: n.id@,
        labels: crate::text::texts(n.labels@),
        props: crate::model::value::props_view(n.props),
    }
}

/// What a record says.
pub open spec fn entry_of_edge(e: EdgeRecord) -> EdgeEntry {
    EdgeEntry {
        id: e.id@,
        labels: crate::text::texts(e.labels@),
        props: crate::model::value::props_view(e.props),
        src: e.src@,
        tgt: e.tgt@,
        directed: e.directed,
    }
}

/// Records that say what the documents of nodes say.
pub open spec fn nodes_read(v: Seq<NodeRecord>, docs: Seq<JsonView>) -> bool {
    &&& v.len() == docs.len()
    &&& forall|i: int|
        0 <= i < v.len() ==> node_entry(docs[i]) == Some(entry_of_node(#[trigger] v[i]))
}

/// Records that say what the documents of edges say.
pub open spec fn edges_read(v: Seq<EdgeRecord>, docs: Seq<JsonView>) -> bool {
    &&& v.len() == docs.len()
    &&& forall|i: int|
        0 <= i < v.len() ==> edge_entry(docs[i]) == Some(entry_of_edge(#[trigger] v[i]))
}

/// Why a document holds no graph.
pub enum ShapeError {
    /// There is no list of nodes.
    MissingNodes,
    /// There is no list of edges.
    MissingEdges,
    /// The node at this place is not one.
    BadNode(usize),
    /// The edge at this place is not one.
    BadEdge(usize),
}

impl ShapeError {
    /// What is told of the error.
    pub fn message(&self) -> (r: String)
        ensures
            r@ == (match *self {
                ShapeError::MissingNodes => "missing nodes"@,
                ShapeError::MissingEdges => "missing edges"@,
                ShapeError::BadNode(_) => "malformed node"@,
                ShapeError::BadEdge(_) => "malformed edge"@,
            }),
    {
        match self {
            ShapeError::MissingNodes => copy_text("missing nodes"),
            ShapeError::MissingEdges => copy_text("missing edges"),
            ShapeError::BadNode(_) => copy_text("malformed node"),
            ShapeError::BadEdge(_) => copy_text("malformed edge"),
        }
    }
}

fn text_at(j: &Json, key: &str) -> (r: Option<String>)
    ensures
        match r {
            Some(s) => member(j@, key@) == JsonView::Text(s@),
            None => !(member(j@, key@) is Text),
        },
{
    match j.get(key) {
        Some(v) => match v.as_str() {
            Some(s) => Some(s.clone()),
            None => None,
        },
        None => None,
    }
}

fn texts_at(j: &Json, key: &str) -> (r: Option<Vec<String>>)
    ensures
        match r {
            Some(v) => text_list(member(j@, key@)) == Some(crate::text::texts(v@)),
            None => text_list(member(j@, key@)) is None,
        },
{
    let items = match j.get(key) {
        Some(v) => match v.as_array() {
            Some(items) => items,
            None => {
                return None;
            },
        },
        None => {
            return None;
        },
    };
    let ghost docs = json_views(items@);
    let mut out: Vec<String> = Vec::new();
    let mut i: usize = 0;
    while i < items.len()
        invariant
            i <= items.len(),
            docs == json_views(items@),
            member(j@, key@) == JsonView::Array(docs),
            out@.len() == i,
            forall|k: int| 0 <= k < i ==> #[trigger] docs[k] == JsonView::Text(out@[k]@),
        decreases items.len() - i,
    {
        assert(docs[i as int] == items@[i as int]@);
        match items[i].as_str() {
            Some(s) => {
                out.push(s.clone());
            },
            None => {
                assert(!(docs[i as int] is Text));
                return None;
            },
        }
        i = i + 1;
    }
    assert(text_list(member(j@, key@))->Some_0 =~= crate::text::texts(out@));
    Some(out)
}

fn props_at(j: &Json, key: &str) -> (r: Option<Props>)
    ensures
        match r {
            Some(p) => read_props(member(j@, key@)) == Some(crate::model::value::props_view(p)),
            None => read_props(member(j@, key@)) is None,
        },
{
    let mut out: Props = FieldMap::new();
    let m = match j.get(key) {
        Some(v) => {
            proof {
                v.container_views();
            }
            match v {
                Json::Object(m) => m,
                _ => {
                    assert(crate::model::value::props_view(out) =~= Map::empty());
                    return Some(out);
                },
            }
        },
        None => {
            assert(crate::model::value::props_view(out) =~= Map::empty());
            return Some(out);
        },
    };
    let ghost mv = member_views(*m);
    let n = m.len();
    assert(m.keys().take(0).to_set() =~= Set::<Seq<char>>::empty());
    let mut i: usize = 0;
    while i < n
        invariant
            i <= n,
            n == m.keys().len(),
            m.keys().no_duplicates(),
            m.keys().to_set() == m@.dom(),
            mv == member_views(*m),
            member(j@, key@) == JsonView::Object(mv),
            forall|k: Seq<char>| #[trigger]
                m.keys().take(i as int).to_set().contains(k) ==> !(mv[k] is Float),
            forall|k: Seq<char>| #[trigger]
                out@.contains_key(k) <==> m.keys().take(i as int).to_set().contains(k) && taken(
                    mv[k],
                ),
            forall|k: Seq<char>| #[trigger]
                out@.contains_key(k) ==> out@[k]@ == taken_value(mv[k]),
        decreases n - i,
    {
        let ghost key_i = m.keys()[i as int];
        proof {
            crate::fields::prefix_set_step(m.keys(), i as int);
            assert(m.keys().to_set().contains(key_i));
            assert(mv.contains_key(key_i));
        }
        let k = m.key_at(i);
        let v = m.value_at(i);
        assert(v@ == mv[key_i]);
        match v {
            Json::Text(s) => {
                out.insert(k.clone(), Value::Str(s.clone()));
            },
            Json::Bool(b) => {
                out.insert(k.clone(), Value::Bool(*b));
            },
            Json::Int(x) => {
                out.insert(k.clone(), Value::Int(*x));
            },
            Json::Float(_) => {
                return None;
            },
            _ => {},
        }
        i = i + 1;
    }
    proof {
        assert(m.keys().take(n as int) =~= m.keys());
        assert forall|k: Seq<char>| #[trigger] mv.contains_key(k) implies !(mv[k] is Float) by {
            assert(m.keys().take(i as int).to_set().contains(k));
        }
        assert(crate::model::value::props_view(out) =~= read_props(member(j@, key@))->Some_0);
    }
    Some(out)
}

fn read_node(j: &Json) -> (r: Option<NodeRecord>)
    ensures
        match r {
            Some(n) => node_entry(j@) == Some(entry_of_node(n)),
            None => node_entry(j@) is None,
        },
{
    let id = match text_at(j, "id") {
        Some(x) => x,
        None => {
            return None;
        },
    };
    let labels = match texts_at(j, "labels") {
        Some(x) => x,
        None => {
            return None;
        },
    };
    let props = match props_at(j, "props") {
        Some(x) => x,
        None => {
            return None;
        },
    };
    Some(NodeRecord { id, labels, props })
}

fn ends_at(j: &Json, key: &str) -> (r: Option<(String, String)>)
    ensures
        match r {
            Some(p) => ends(member(j@, key@)) == Some((p.0@, p.1@)),
            None => ends(member(j@, key@)) is None,
        },
{
    let items = match j.get(key) {
        Some(v) => match v.as_array() {
            Some(items) => items,
            None => {
                return None;
            },
        },
        None => {
            return None;
        },
    };
    let ghost docs = json_views(items@);
    if items.len() < 2 {
        return None;
    }
    proof {
        assert(docs[0] == items@[0]@);
        assert(docs[1] == items@[1]@);
    }
    match items[0].as_str() {
        Some(a) => match items[1].as_str() {
            Some(b) => Some((a.clone(), b.clone())),
            None => None,
        },
        None => None,
    }
}

fn read_edge(j: &Json) -> (r: Option<EdgeRecord>)
    ensures
        match r {
            Some(e) => edge_entry(j@) == Some(entry_of_edge(e)),
            None => edge_entry(j@) is None,
        },
{
    let common = match read_node(j) {
        Some(x) => x,
        None => {
            return None;
        },
    };
    let (src, tgt) = match ends_at(j, "endpoints") {
        Some(x) => x,
        None => {
            return None;
        },
    };
    let direction = match text_at(j, "directionality") {
        Some(x) => x,
        None => {
            return None;
        },
    };
    let directed = same_text(direction.as_str(), "->");
    Some(
        EdgeRecord {
            id: common.id,
            labels: common.labels,
            props: common.props,
            src,
            tgt,
            directed,
        },
    )
}

/// The documents of a list under a key.
pub open spec fn docs_at(j: JsonView, key: Seq<char>) -> Option<Seq<JsonView>> {
    match member(j, key) {
        JsonView::Array(v) => Some(v),
        _ => None,
    }
}

/// The nodes and the edges that a document holds. The first that is not one is
/// named.
pub fn read_json_value(json: &Json) -> (r: Result<(Vec<NodeRecord>, Vec<EdgeRecord>), ShapeError>)
    ensures
        ({
            let n = docs_at(json@, "nodes"@);
            let e = docs_at(json@, "edges"@);
            match r {
                Ok(p) => n is Some && e is Some && nodes_read(p.0@, n->Some_0) && edges_read(
                    p.1@,
                    e->Some_0,
                ),
                Err(ShapeError::MissingNodes) => n is None,
                Err(ShapeError::BadNode(i)) => n is Some && bad_node(n->Some_0, i as int),
                Err(ShapeError::MissingEdges) => n is Some && e is None && all_nodes(n->Some_0),
                Err(ShapeError::BadEdge(i)) => n is Some && e is Some && all_nodes(n->Some_0)
                    && bad_edge(e->Some_0, i as int),
            }
        }),
{
    let nodes = match json.get("nodes") {
        Some(v) => match v.as_array() {
            Some(items) => items,
            None => {
                return Err(ShapeError::MissingNodes);
            },
        },
        None => {
            return Err(ShapeError::MissingNodes);
        },
    };
    let ghost ndocs = json_views(nodes@);
    let mut out: Vec<NodeRecord> = Vec::new();
    let mut i: usize = 0;
    while i < nodes.len()
        invariant
            i <= nodes.len(),
            ndocs == json_views(nodes@),
            docs_at(json@, "nodes"@) == Some(ndocs),
            nodes_read(out@, ndocs.take(i as int)),
        decreases nodes.len() - i,
    {
        assert(ndocs[i as int] == nodes@[i as int]@);
        match read_node(&nodes[i]) {
            Some(n) => {
                out.push(n);
                assert(ndocs.take(i + 1) =~= ndocs.take(i as int).push(ndocs[i as int]));
            },
            None => {
                proof {
                    assert forall|j: int| 0 <= j < i implies node_entry(#[trigger] ndocs[j]) is Some by {
                        assert(node_entry(ndocs.take(i as int)[j]) == Some(entry_of_node(out@[j])));
                    }
                }
                return Err(ShapeError::BadNode(i));
            },
        }
        i = i + 1;
    }
    proof {
        assert(ndocs.take(i as int) =~= ndocs);
        assert forall|j: int| 0 <= j < ndocs.len() implies node_entry(#[trigger] ndocs[j]) is Some by {
            assert(node_entry(ndocs[j]) == Some(entry_of_node(out@[j])));
        }
    }
    let edges = match json.get("edges") {
        Some(v) => match v.as_array() {
            Some(items) => items,
            None => {
                return Err(ShapeError::MissingEdges);
            },
        },
        None => {
            return Err(ShapeError::MissingEdges);
        },
    };
    let ghost edocs = json_views(edges@);
    let mut list: Vec<EdgeRecord> = Vec::new();
    let mut k: usize = 0;
    while k < edges.len()
        invariant
            k <= edges.len(),
            edocs == json_views(edges@),
            docs_at(json@, "nodes"@) == Some(ndocs),
            all_nodes(ndocs),
            docs_at(json@, "edges"@) == Some(edocs),
            edges_read(list@, edocs.take(k as int)),
        decreases edges.len() - k,
    {
        assert(edocs[k as int] == edges@[k as int]@);
        match read_edge(&edges[k]) {
            Some(e) => {
                list.push(e);
                assert(edocs.take(k + 1) =~= edocs.take(k as int).push(edocs[k as int]));
            },
            None => {
                proof {
                    assert forall|j: int| 0 <= j < k implies edge_entry(#[trigger] edocs[j]) is Some by {
                        assert(edge_entry(edocs.take(k as int)[j]) == Some(entry_of_edge(list@[j])));
                    }
                }
                return Err(ShapeError::BadEdge(k));
            },
        }
        k = k + 1;
    }
    assert(edocs.take(k as int) =~= edocs);
    Ok((out, list))
}

/// Every document is that of a node.
pub open spec fn all_nodes(docs: Seq<JsonView>) -> bool {
    forall|i: int| 0 <= i < docs.len() ==> node_entry(#[trigger] docs[i]) is Some
}

/// Every document is that of an edge.
pub open spec fn all_edges_read(docs: Seq<JsonView>) -> bool {
    forall|i: int| 0 <= i < docs.len() ==> edge_entry(#[trigger] docs[i]) is Some
}

/// The first document that is not that of a node.
pub open spec fn bad_node(docs: Seq<JsonView>, i: int) -> bool {
    &&& 0 <= i < docs.len()
    &&& node_entry(docs[i]) is None
    &&& forall|j: int| 0 <= j < i ==> node_entry(#[trigger] docs[j]) is Some
}

/// The first document that is not that of an edge.
pub open spec fn bad_edge(docs: Seq<JsonView>, i: int) -> bool {
    &&& 0 <= i < docs.len()
    &&& edge_entry(docs[i]) is None
    &&& forall|j: int| 0 <= j < i ==> edge_entry(#[trigger] docs[j]) is Some
}

/// The nodes of documents.
pub open spec fn imported_nodes(docs: Seq<JsonView>) -> Seq<NodeView> {
    Seq::new(
        docs.len(),
        |i: int|
            {
                let n = node_entry(docs[i])->Some_0;
                NodeView {
                    name: n.id,
                    labels: crate::typing::inference::label_conjunction(n.labels),
                    props: n.props,
                }
            },
    )
}

/// The names of nodes.
pub open spec fn node_names(nodes: Seq<NodeView>) -> Seq<Seq<char>> {
    Seq::new(nodes.len(), |i: int| nodes[i].name)
}

/// The edges of documents, between nodes of the given names.
pub open spec fn imported_edges(docs: Seq<JsonView>, names: Seq<Seq<char>>) -> Seq<EdgeView> {
    Seq::new(
        docs.len(),
        |i: int|
            {
                let e = edge_entry(docs[i])->Some_0;
                EdgeView {
                    name: e.id,
                    labels: crate::typing::inference::label_conjunction(e.labels),
                    props: e.props,
                    src: super::string_table::last_index(names, e.src) as Id,
                    tgt: super::string_table::last_index(names, e.tgt) as Id,
                    directed: e.directed,
                }
            },
    )
}

/// Both ends of the edge of a document are known.
pub open spec fn doc_ends_named(doc: JsonView, names: Seq<Seq<char>>) -> bool {
    let e = edge_entry(doc)->Some_0;
    names.contains(e.src) && names.contains(e.tgt)
}

/// All that a document lists are nodes and edges.
pub open spec fn well_shaped(j: JsonView) -> bool {
    docs_at(j, "nodes"@) matches Some(n) ==> all_nodes(n) && (docs_at(j, "edges"@) matches Some(e)
        ==> all_edges_read(e))
}

/// The first that a document lists and that is no node or no edge.
pub open spec fn first_malformed(j: JsonView, e: ShapeError) -> bool {
    match e {
        ShapeError::BadNode(i) => docs_at(j, "nodes"@) matches Some(n) && bad_node(n, i as int),
        ShapeError::BadEdge(i) => docs_at(j, "nodes"@) matches Some(n) && all_nodes(n) && (docs_at(
            j,
            "edges"@,
        ) matches Some(d) && bad_edge(d, i as int)),
        _ => false,
    }
}

/// A document whose nodes and edges have been read lists nothing else.
pub proof fn records_are_shaped(j: JsonView, nodes: Seq<NodeRecord>, edges: Seq<EdgeRecord>)
    requires
        docs_at(j, "nodes"@) is Some,
        docs_at(j, "edges"@) is Some,
        nodes_read(nodes, docs_at(j, "nodes"@)->Some_0),
        edges_read(edges, docs_at(j, "edges"@)->Some_0),
    ensures
        well_shaped(j),
{
    let n = docs_at(j, "nodes"@)->Some_0;
    let e = docs_at(j, "edges"@)->Some_0;
    assert forall|i: int| 0 <= i < n.len() implies node_entry(#[trigger] n[i]) is Some by {
        assert(node_entry(n[i]) == Some(entry_of_node(nodes[i])));
    }
    assert forall|i: int| 0 <= i < e.len() implies edge_entry(#[trigger] e[i]) is Some by {
        assert(edge_entry(e[i]) == Some(entry_of_edge(edges[i])));
    }
}

/// Why a document is not stored as a graph.
pub enum JsonError {
    MissingNodes,
    MissingEdges,
    Import(ImportError),
}

/// The names of the ends of the edges of a document.
pub open spec fn doc_ends(e: Seq<JsonView>) -> Seq<(Seq<char>, Seq<char>)> {
    Seq::new(e.len(), |i: int| (edge_entry(e[i])->Some_0.src, edge_entry(e[i])->Some_0.tgt))
}

/// What comes of storing the graph of a document.
pub open spec fn import_outcome(doc: JsonView, r: Result<GraphStore, JsonError>) -> bool {
    match (docs_at(doc, "nodes"@), docs_at(doc, "edges"@)) {
        (None, _) => r matches Err(JsonError::MissingNodes),
        (Some(_), None) => r matches Err(JsonError::MissingEdges),
        (Some(n), Some(e)) => match r {
            Ok(s) => document_outcome(n, e, Ok(s)),
            Err(JsonError::Import(x)) => document_outcome(n, e, Err(x)),
            Err(_) => false,
        },
    }
}

/// What comes of storing the nodes and edges of a document.
pub open spec fn document_outcome(
    n: Seq<JsonView>,
    e: Seq<JsonView>,
    r: Result<GraphStore, ImportError>,
) -> bool {
    let names = node_names(imported_nodes(n));
    super::graph_store::stored_outcome(
        imported_nodes(n),
        imported_edges(e, names),
        doc_ends(e),
        names,
        r,
    )
}

proof fn records_say_docs(
    nodes: Seq<NodeRecord>,
    edges: Seq<EdgeRecord>,
    n: Seq<JsonView>,
    e: Seq<JsonView>,
)
    requires
        nodes_read(nodes, n),
        edges_read(edges, e),
    ensures
        super::graph_store::record_nodes(nodes) == imported_nodes(n),
        super::graph_store::record_names(nodes) == node_names(imported_nodes(n)),
        super::graph_store::record_edges(edges, node_names(imported_nodes(n))) == imported_edges(
            e,
            node_names(imported_nodes(n)),
        ),
        super::graph_store::record_ends(edges) == doc_ends(e),
{
    assert forall|i: int| 0 <= i < e.len() implies #[trigger] super::graph_store::record_ends(
        edges,
    )[i] == doc_ends(e)[i] by {
        assert(edge_entry(e[i]) == Some(entry_of_edge(edges[i])));
    }
    assert(super::graph_store::record_ends(edges) =~= doc_ends(e));
    assert forall|i: int| 0 <= i < n.len() implies nodes[i]@ == #[trigger] imported_nodes(n)[i] by {
        assert(node_entry(n[i]) == Some(entry_of_node(nodes[i])));
    }
    assert(super::graph_store::record_nodes(nodes) =~= imported_nodes(n));
    let names = node_names(imported_nodes(n));
    assert forall|i: int| 0 <= i < n.len() implies nodes[i].id@ == #[trigger] names[i] by {
        assert(nodes[i]@ == imported_nodes(n)[i]);
    }
    assert(super::graph_store::record_names(nodes) =~= names);
    assert forall|i: int| 0 <= i < e.len() implies edges[i].edge(names) == #[trigger] imported_edges(
        e,
        names,
    )[i] by {
        assert(edge_entry(e[i]) == Some(entry_of_edge(edges[i])));
    }
    assert(super::graph_store::record_edges(edges, names) =~= imported_edges(e, names));
}

impl GraphStore {
    /// Makes a file of the graph that a document holds. The first edge with an
    /// end that is not known is an error.
    pub fn from_json_value(json: &Json) -> (r: Result<GraphStore, JsonError>)
        requires
            well_shaped(json@),
        ensures
            import_outcome(json@, r),
    {
        let (nodes, edges) = match read_json_value(json) {
            Ok(p) => p,
            Err(ShapeError::MissingNodes) => {
                return Err(JsonError::MissingNodes);
            },
            Err(_) => {
                return Err(JsonError::MissingEdges);
            },
        };
        let ghost n = docs_at(json@, "nodes"@)->Some_0;
        let ghost e = docs_at(json@, "edges"@)->Some_0;
        proof {
            records_say_docs(nodes@, edges@, n, e);
        }
        match GraphStore::from_records(&nodes, &edges) {
            Ok(s) => Ok(s),
            Err(x) => Err(JsonError::Import(x)),
        }
    }
}

/// Properties that can be read back: none is a finite floating-point number.
pub open spec fn readable(props: Map<Seq<char>, ValueView>) -> bool {
    forall|k: Seq<char>| #[trigger]
        props.contains_key(k) ==> !(props[k] matches ValueView::Float(bits) && is_finite(bits))
}

/// The properties that come back: texts, truth values and integers.
pub open spec fn kept_props(props: Map<Seq<char>, ValueView>) -> Map<Seq<char>, ValueView> {
    Map::new(
        |k: Seq<char>|
            props.contains_key(k) && (props[k] is Str || props[k] is Bool || props[k] is Int),
        |k: Seq<char>| props[k],
    )
}

/// The keys of documents are different from each other.
proof fn keys_differ()
    ensures
        "id"@ != "labels"@,
        "id"@ != "props"@,
        "labels"@ != "props"@,
        "endpoints"@ != "id"@,
        "endpoints"@ != "labels"@,
        "endpoints"@ != "props"@,
        "directionality"@ != "id"@,
        "directionality"@ != "labels"@,
        "directionality"@ != "props"@,
        "directionality"@ != "endpoints"@,
        "nodes"@ != "edges"@,
        "->"@ != "~~"@,
{
    reveal_strlit("id");
    reveal_strlit("labels");
    reveal_strlit("props");
    reveal_strlit("endpoints");
    reveal_strlit("directionality");
    reveal_strlit("nodes");
    reveal_strlit("edges");
    reveal_strlit("->");
    reveal_strlit("~~");
    assert("id"@.len() == 2 && "labels"@.len() == 6 && "props"@.len() == 5);
    assert("endpoints"@.len() == 9 && "directionality"@.len() == 14);
    assert("nodes"@[0] != "edges"@[0]);
    assert("->"@[0] != "~~"@[0]);
}

proof fn props_read_back(props: Map<Seq<char>, ValueView>)
    requires
        readable(props),
    ensures
        read_props(props_json(props)) == Some(kept_props(props)),
{
    let m = props_json(props)->Object_0;
    assert forall|k: Seq<char>| #[trigger] m.contains_key(k) implies !(m[k] is Float) by {
        assert(props.contains_key(k));
    }
    assert(read_props(props_json(props))->Some_0 =~= kept_props(props));
}

proof fn element_read_back(
    j: JsonView,
    name: Seq<char>,
    labels: Seq<Seq<char>>,
    props: Map<Seq<char>, ValueView>,
)
    requires
        readable(props),
        j is Object,
        member(j, "id"@) == JsonView::Text(name),
        member(j, "labels"@) == texts_json(labels),
        member(j, "props"@) == props_json(props),
    ensures
        node_entry(j) == Some(NodeEntry { id: name, labels, props: kept_props(props) }),
{
    props_read_back(props);
    assert(text_list(texts_json(labels))->Some_0 =~= labels);
}

/// The document of a node is read as the node, with those of its properties
/// that come back.
pub proof fn node_reads_back(n: NodeView)
    requires
        readable(n.props),
    ensures
        node_entry(node_json(n)) == Some(
            NodeEntry { id: n.name, labels: n.labels.required(), props: kept_props(n.props) },
        ),
{
    keys_differ();
    element_read_back(node_json(n), n.name, n.labels.required(), n.props);
}

/// The document of an edge is read as the edge, with those of its properties
/// that come back.
pub proof fn edge_reads_back(e: EdgeView, src: Seq<char>, tgt: Seq<char>)
    requires
        readable(e.props),
    ensures
        edge_entry(edge_json(e, src, tgt)) == Some(
            EdgeEntry {
                id: e.name,
                labels: e.labels.required(),
                props: kept_props(e.props),
                src,
                tgt,
                directed: e.directed,
            },
        ),
{
    keys_differ();
    let j = edge_json(e, src, tgt);
    element_read_back(j, e.name, e.labels.required(), e.props);
    let list = texts_json(seq![src, tgt])->Array_0;
    assert(list[0] == JsonView::Text(src));
    assert(list[1] == JsonView::Text(tgt));
}

/// A graph whose properties can be read back, and whose listed edges join
/// listed nodes.
pub open spec fn exportable(m: GraphModel) -> bool {
    &&& m.well_formed()
    &&& forall|i: int|
        0 <= i < m.node_ids.len() ==> readable(m.nodes[#[trigger] m.node_ids[i]].props)
    &&& forall|i: int|
        0 <= i < m.edge_ids().len() ==> readable(m.edges[#[trigger] m.edge_ids()[i]].props)
            && m.node_ids.contains(m.edges[m.edge_ids()[i]].src) && m.node_ids.contains(
            m.edges[m.edge_ids()[i]].tgt,
        )
}

/// A node comes back: with its name, its labels and the properties that are
/// kept.
pub open spec fn same_node(was: NodeView, is: NodeView) -> bool {
    &&& is.name == was.name
    &&& is.labels == crate::typing::inference::label_conjunction(was.labels.required())
    &&& is.props == kept_props(was.props)
}

/// An edge comes back: with its name, its labels, its direction, the properties
/// that are kept, and between nodes of the same names.
pub open spec fn same_edge(m: GraphModel, was: EdgeView, nodes: Seq<NodeView>, is: EdgeView) -> bool {
    &&& is.name == was.name
    &&& is.labels == crate::typing::inference::label_conjunction(was.labels.required())
    &&& is.props == kept_props(was.props)
    &&& is.directed == was.directed
    &&& is.src < nodes.len()
    &&& is.tgt < nodes.len()
    &&& nodes[is.src as int].name == m.nodes[was.src].name
    &&& nodes[is.tgt as int].name == m.nodes[was.tgt].name
}

/// The document of a graph holds the graph: its nodes and its edges come back
/// in their order, and every edge has known ends.
pub proof fn graph_reads_back(m: GraphModel)
    requires
        exportable(m),
        m.node_ids.len() <= u32::MAX,
    ensures
        well_shaped(graph_json(m)),
        ({
            let n = docs_at(graph_json(m), "nodes"@);
            let e = docs_at(graph_json(m), "edges"@);
            let nodes = imported_nodes(n->Some_0);
            let edges = imported_edges(e->Some_0, node_names(nodes));
            &&& n is Some
            &&& e is Some
            &&& nodes.len() == m.node_ids.len()
            &&& edges.len() == m.edge_ids().len()
            &&& forall|i: int|
                0 <= i < nodes.len() ==> same_node(m.nodes[m.node_ids[i]], #[trigger] nodes[i])
            &&& forall|i: int|
                0 <= i < edges.len() ==> same_edge(
                    m,
                    m.edges[m.edge_ids()[i]],
                    nodes,
                    #[trigger] edges[i],
                )
            &&& forall|i: int|
                0 <= i < edges.len() ==> doc_ends_named(
                    #[trigger] e->Some_0[i],
                    node_names(nodes),
                )
        }),
{
    keys_differ();
    let n = nodes_json(m);
    let e = edges_json(m);
    assert(docs_at(graph_json(m), "nodes"@) == Some(n));
    assert(docs_at(graph_json(m), "edges"@) == Some(e));
    let nodes = imported_nodes(n);
    let names = node_names(nodes);
    let edges = imported_edges(e, names);
    assert forall|i: int| 0 <= i < n.len() implies node_entry(#[trigger] n[i]) is Some by {
        node_reads_back(m.nodes[m.node_ids[i]]);
    }
    assert forall|i: int| 0 <= i < n.len() implies same_node(
        m.nodes[m.node_ids[i]],
        #[trigger] nodes[i],
    ) by {
        node_reads_back(m.nodes[m.node_ids[i]]);
    }
    assert forall|i: int| 0 <= i < e.len() implies edge_entry(#[trigger] e[i]) is Some
        && same_edge(m, m.edges[m.edge_ids()[i]], nodes, edges[i]) && doc_ends_named(
        e[i],
        names,
    ) by {
        let id = m.edge_ids()[i];
        let x = m.edges[id];
        let src = m.nodes[x.src].name;
        let tgt = m.nodes[x.tgt].name;
        edge_reads_back(x, src, tgt);
        let a = choose|a: int| 0 <= a < m.node_ids.len() && m.node_ids[a] == x.src;
        let b = choose|b: int| 0 <= b < m.node_ids.len() && m.node_ids[b] == x.tgt;
        assert(same_node(m.nodes[m.node_ids[a]], nodes[a]));
        assert(same_node(m.nodes[m.node_ids[b]], nodes[b]));
        assert(names[a] == src);
        assert(names[b] == tgt);
        assert(names.contains(src) && names.contains(tgt));
        super::string_table::last_index_found(names, src);
        super::string_table::last_index_found(names, tgt);
        let p = super::string_table::last_index(names, src);
        let q = super::string_table::last_index(names, tgt);
        assert(names[p] == nodes[p].name);
        assert(names[q] == nodes[q].name);
    }
    assert forall|i: int| 0 <= i < edges.len() implies same_edge(
        m,
        m.edges[m.edge_ids()[i]],
        nodes,
        #[trigger] edges[i],
    ) by {
        assert(edge_entry(e[i]) is Some);
    }
}

} // verus!
