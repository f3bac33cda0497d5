//! Read access to a property graph.

use vstd::prelude::*;

use crate::model::value::{Id, PathValue, Props, ValueView};
use crate::typing::label_type::{LabelType, LabelTypeView};

verus! {

/// A node.
#[verifier::ext_equal]
pub ghost struct NodeView {
    pub name: Seq<char>,
    pub labels: LabelTypeView,
    pub props: Map<Seq<char>, ValueView>,
}

/// An edge with its end points.
#[verifier::ext_equal]
pub ghost struct EdgeView {
    pub name: Seq<char>,
    pub labels: LabelTypeView,
    pub props: Map<Seq<char>, ValueView>,
    pub src: Id,
    pub tgt: Id,
    pub directed: bool,
}

/// A property graph: which elements it lists, and what is known of each id.
#[verifier::ext_equal]
pub ghost struct GraphModel {
    pub node_ids: Seq<Id>,
    pub nodes: Map<Id, NodeView>,
    pub directed: Seq<Id>,
    pub undirected: Seq<Id>,
    pub edges: Map<Id, EdgeView>,
}

impl GraphModel {
    /// Every listed id is known, and so are the end points of a listed edge.
    pub open spec fn well_formed(self) -> bool {
        &&& forall|i: int| 0 <= i < self.node_ids.len() ==> self.nodes.contains_key(
            #[trigger] self.node_ids[i],
        )
        &&& forall|i: int| 0 <= i < self.edge_ids().len() ==> self.edge_known(
            #[trigger] self.edge_ids()[i],
        )
    }

    /// An edge that is known with both its end points.
    pub open spec fn edge_known(self, id: Id) -> bool {
        &&& self.edges.contains_key(id)
        &&& self.nodes.contains_key(self.edges[id].src)
        &&& self.nodes.contains_key(self.edges[id].tgt)
    }

    /// The listed edges, directed ones first.
    pub open spec fn edge_ids(self) -> Seq<Id> {
        self.directed + self.undirected
    }
}

/// Why a node cannot be deleted: edges are still at it.
#[derive(Debug)]
pub struct G1001 {
    pub node: Id,
    pub remaining_edges: Vec<Id>,
}

/// Read access to a property graph.
pub trait GraphAccess {
    /// The graph that is read.
    spec fn model(&self) -> GraphModel;

    /// The store is in order.
    spec fn sound(&self) -> bool;

    /// A store in order holds a well-formed graph.
    proof fn sound_model(&self)
        requires
            self.sound(),
        ensures
            self.model().well_formed(),
    ;

    /// The nodes.
    fn nodes(&self) -> (r: Vec<Id>)
        requires
            self.sound(),
        ensures
            r@ == self.model().node_ids,
    ;

    /// The directed edges.
    fn edges_directed(&self) -> (r: Vec<Id>)
        requires
            self.sound(),
        ensures
            r@ == self.model().directed,
    ;

    /// The undirected edges.
    fn edges_undirected(&self) -> (r: Vec<Id>)
        requires
            self.sound(),
        ensures
            r@ == self.model().undirected,
    ;

    /// The name of a node.
    fn node_name(&self, id: Id) -> (r: String)
        requires
            self.sound(),
            self.model().nodes.contains_key(id),
        ensures
            r@ == self.model().nodes[id].name,
    ;

    /// The labels of a node.
    fn node_labels(&self, id: Id) -> (r: LabelType)
        requires
            self.sound(),
            self.model().nodes.contains_key(id),
        ensures
            r@ == self.model().nodes[id].labels,
    ;

    /// The properties of a node.
    fn node_props(&self, id: Id) -> (r: Props)
        requires
            self.sound(),
            self.model().nodes.contains_key(id),
        ensures
            crate::model::value::props_view(r) == self.model().nodes[id].props,
    ;

    /// The name of an edge.
    fn edge_name(&self, id: Id) -> (r: String)
        requires
            self.sound(),
            self.model().edges.contains_key(id),
        ensures
            r@ == self.model().edges[id].name,
    ;

    /// The labels of an edge.
    fn edge_labels(&self, id: Id) -> (r: LabelType)
        requires
            self.sound(),
            self.model().edges.contains_key(id),
        ensures
            r@ == self.model().edges[id].labels,
    ;

    /// The properties of an edge.
    fn edge_props(&self, id: Id) -> (r: Props)
        requires
            self.sound(),
            self.model().edges.contains_key(id),
        ensures
            crate::model::value::props_view(r) == self.model().edges[id].props,
    ;

    /// The source of an edge.
    fn src(&self, id: Id) -> (r: Id)
        requires
            self.sound(),
            self.model().edges.contains_key(id),
        ensures
            r == self.model().edges[id].src,
    ;

    /// The target of an edge.
    fn tgt(&self, id: Id) -> (r: Id)
        requires
            self.sound(),
            self.model().edges.contains_key(id),
        ensures
            r == self.model().edges[id].tgt,
    ;

    /// Whether an edge has a direction.
    fn is_directed(&self, id: Id) -> (r: bool)
        requires
            self.sound(),
            self.model().edges.contains_key(id),
        ensures
            r == self.model().edges[id].directed,
    ;
}

/// All listed edges of a graph, directed ones first.
pub fn all_edges<G: GraphAccess>(g: &G) -> (r: Vec<Id>)
    requires
        g.sound(),
    ensures
        r@ == g.model().edge_ids(),
{
    let mut ids = g.edges_directed();
    let mut rest = g.edges_undirected();
    ids.append(&mut rest);
    ids
}

/// An edge as a step of a path.
pub fn edge_path_value<G: GraphAccess>(g: &G, id: Id) -> (r: PathValue)
    requires
        g.sound(),
        g.model().edges.contains_key(id),
    ensures
        r == (if g.model().edges[id].directed {
            PathValue::EdgeDirectional(id)
        } else {
            PathValue::EdgeUndirectional(id)
        }),
{
    if g.is_directed(id) {
        PathValue::EdgeDirectional(id)
    } else {
        PathValue::EdgeUndirectional(id)
    }
}

} // verus!
