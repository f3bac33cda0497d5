//! What a graph keeps when its ids are closed up: every listed node, and every
//! listed edge between listed nodes, with all that is known of them.

use vstd::prelude::*;

use super::lazy::LazyGraphStore;
use crate::model::graph_access::{EdgeView, GraphAccess, GraphModel, NodeView};
use crate::model::value::Id;

verus! {

/// The listed edges that run between listed nodes, in their order.
pub open spec fn kept_ids(m: GraphModel, ids: Seq<Id>) -> Seq<Id> {
    ids.filter(
        |id: Id|
            m.node_ids.contains(m.edges[id].src) && m.node_ids.contains(m.edges[id].tgt),
    )
}

/// An edge stands for an edge of the graph: it has its name, labels, properties
/// and direction, and its ends are the places of the ends.
pub open spec fn stands_for(m: GraphModel, id: Id, nodes: Seq<NodeView>, e: EdgeView) -> bool {
    &&& e.name == m.edges[id].name
    &&& e.labels == m.edges[id].labels
    &&& e.props == m.edges[id].props
    &&& e.directed == m.edges[id].directed
    &&& e.src < nodes.len()
    &&& m.node_ids[e.src as int] == m.edges[id].src
    &&& nodes[e.src as int] == m.nodes[m.edges[id].src]
    &&& e.tgt < nodes.len()
    &&& m.node_ids[e.tgt as int] == m.edges[id].tgt
    &&& nodes[e.tgt as int] == m.nodes[m.edges[id].tgt]
}

/// Nodes and edges are those of the graph: the listed nodes in their order, and
/// for each kept edge one that stands for it.
pub open spec fn keeps_graph(m: GraphModel, nodes: Seq<NodeView>, edges: Seq<EdgeView>) -> bool {
    let kept = kept_ids(m, m.edge_ids());
    &&& nodes.len() == m.node_ids.len()
    &&& forall|i: int|
        0 <= i < nodes.len() ==> #[trigger] nodes[i] == m.nodes[m.node_ids[i]]
    &&& edges.len() == kept.len()
    &&& forall|k: int|
        0 <= k < edges.len() ==> stands_for(m, kept[k], nodes, #[trigger] edges[k])
}

/// Closing up the ids keeps the graph.
pub proof fn compaction_keeps_graph(m: GraphModel)
    requires
        m.node_ids.no_duplicates(),
        m.node_ids.len() <= u32::MAX,
    ensures
        keeps_graph(m, super::lazy_save::compact_nodes(m), super::lazy_save::compact_edges(m, m.edge_ids())),
{
    compacted_edges_stand(m, m.edge_ids());
}

proof fn compacted_edges_stand(m: GraphModel, ids: Seq<Id>)
    requires
        m.node_ids.no_duplicates(),
        m.node_ids.len() <= u32::MAX,
    ensures
        super::lazy_save::compact_edges(m, ids).len() == kept_ids(m, ids).len(),
        forall|k: int|
            0 <= k < kept_ids(m, ids).len() ==> stands_for(
                m,
                kept_ids(m, ids)[k],
                super::lazy_save::compact_nodes(m),
                #[trigger] super::lazy_save::compact_edges(m, ids)[k],
            ),
    decreases ids.len(),
{
    reveal(Seq::filter);
    if ids.len() > 0 {
        compacted_edges_stand(m, ids.drop_last());
        let rest = super::lazy_save::compact_edges(m, ids.drop_last());
        let kept = kept_ids(m, ids.drop_last());
        let id = ids.last();
        if m.node_ids.contains(m.edges[id].src) && m.node_ids.contains(m.edges[id].tgt) {
            assert(kept_ids(m, ids) == kept.push(id));
            assert(super::lazy_save::compact_edges(m, ids) == rest.push(super::lazy_save::moved_edge(m, id)));
            assert(stands_for(m, id, super::lazy_save::compact_nodes(m), super::lazy_save::moved_edge(m, id)));
        } else {
            assert(kept_ids(m, ids) == kept);
        }
        assert forall|k: int| 0 <= k < kept_ids(m, ids).len() implies stands_for(
            m,
            kept_ids(m, ids)[k],
            super::lazy_save::compact_nodes(m),
            #[trigger] super::lazy_save::compact_edges(m, ids)[k],
        ) by {
            if k < kept.len() {
                assert(stands_for(m, kept[k], super::lazy_save::compact_nodes(m), rest[k]));
            }
        }
    }
}

/// An edge is kept exactly where it is listed and both its ends are.
pub proof fn kept_where_ends_are(m: GraphModel, id: Id)
    ensures
        kept_ids(m, m.edge_ids()).contains(id) <==> (m.directed.contains(id)
            || m.undirected.contains(id)) && m.node_ids.contains(m.edges[id].src)
            && m.node_ids.contains(m.edges[id].tgt),
{
    let ids = m.edge_ids();
    filtered_members(m, ids, id);
    if ids.contains(id) {
        let i = choose|i: int| 0 <= i < ids.len() && ids[i] == id;
        if i < m.directed.len() {
            assert(m.directed[i] == id);
        } else {
            assert(m.undirected[i - m.directed.len()] == id);
        }
    }
    if m.directed.contains(id) {
        let i = choose|i: int| 0 <= i < m.directed.len() && m.directed[i] == id;
        assert(ids[i] == id);
    }
    if m.undirected.contains(id) {
        let i = choose|i: int| 0 <= i < m.undirected.len() && m.undirected[i] == id;
        assert(ids[i + m.directed.len()] == id);
    }
}

proof fn filtered_members(m: GraphModel, ids: Seq<Id>, id: Id)
    ensures
        kept_ids(m, ids).contains(id) <==> ids.contains(id) && m.node_ids.contains(
            m.edges[id].src,
        ) && m.node_ids.contains(m.edges[id].tgt),
    decreases ids.len(),
{
    reveal(Seq::filter);
    if ids.len() > 0 {
        let init = ids.drop_last();
        filtered_members(m, init, id);
        assert(ids =~= init.push(ids.last()));
        super::lazy_writes::pushed_id(init, ids.last(), id);
        super::lazy_writes::pushed_id(kept_ids(m, init), ids.last(), id);
    }
}

impl LazyGraphStore {
    /// An edge is listed as directed where it is directed, and as undirected where
    /// it is not.
    pub proof fn listed_by_direction(&self, id: Id)
        requires
            self.sound(),
        ensures
            self.model().directed.contains(id) ==> self.model().edges[id].directed,
            self.model().undirected.contains(id) ==> !self.model().edges[id].directed,
    {
        let dirs = self.directions();
        super::lazy::live_edges_members(dirs, self.overlay.deleted_edges@, true, id);
        super::lazy::live_edges_members(dirs, self.overlay.deleted_edges@, false, id);
        if id < dirs.len() {
            if id < self.base.edge_locs@.len() {
                assert(self.base.edge(id as int).directed == self.base.edge_directed@[id as int]);
            } else {
                assert(dirs[id as int] == self.overlay.new_edges@[id
                    - self.base.edge_locs@.len()].directed);
            }
        }
    }

    /// A graph without changes keeps its ids: the k-th edge that is kept is the
    /// k-th listed one, unchanged, directed edges first.
    pub proof fn unchanged_graph_is_kept(&self)
        requires
            self.sound(),
            self.overlay.is_clean(),
        ensures
            ({
                let m = self.model();
                let edges = super::lazy_save::compact_edges(m, m.edge_ids());
                &&& super::lazy_save::compact_nodes(m) == self.base.node_seq()
                &&& edges.len() == m.directed.len() + m.undirected.len()
                &&& edges.len() == self.base.edge_seq().len()
                &&& forall|k: int|
                    0 <= k < edges.len() ==> (#[trigger] edges[k]) == self.base.edge(
                        m.edge_ids()[k] as int,
                    )
                &&& forall|k: int|
                    0 <= k < edges.len() ==> ((#[trigger] edges[k]).directed <==> k
                        < m.directed.len())
            }),
    {
        let m = self.model();
        self.clean_model();
        self.sound_model();
        let n = self.base.node_locs@.len();
        assert(m.node_ids == crate::model::graph::ids_below(n));
        assert forall|i: int| 0 <= i < n implies #[trigger] m.node_ids[i] == i by {}
        assert(m.node_ids.no_duplicates());
        assert(super::lazy_save::compact_nodes(m) =~= self.base.node_seq());
        assert forall|k: int| 0 <= k < m.edge_ids().len() implies super::lazy_save::ends_listed(
            m,
            #[trigger] m.edge_ids()[k],
        ) by {
            let id = m.edge_ids()[k];
            assert(m.edge_known(id));
            assert(m.node_ids[m.edges[id].src as int] == m.edges[id].src);
            assert(m.node_ids[m.edges[id].tgt as int] == m.edges[id].tgt);
        }
        all_edges_stay(m, m.edge_ids());
        let edges = super::lazy_save::compact_edges(m, m.edge_ids());
        assert forall|k: int| 0 <= k < edges.len() implies (#[trigger] edges[k])
            == self.base.edge(m.edge_ids()[k] as int) && (edges[k].directed <==> k
            < m.directed.len()) by {
            let id = m.edge_ids()[k];
            assert(m.edge_known(id));
            assert(edges[k] == super::lazy_save::moved_edge(m, id));
            let e = m.edges[id];
            assert(m.node_ids[m.node_ids.index_of(e.src)] == e.src) by {
                assert(m.node_ids[e.src as int] == e.src);
            }
            assert(m.node_ids[m.node_ids.index_of(e.tgt)] == e.tgt) by {
                assert(m.node_ids[e.tgt as int] == e.tgt);
            }
            assert(edges[k] =~= e);
            self.listed_by_direction(id);
            if k < m.directed.len() {
                assert(m.directed[k] == id);
            } else {
                assert(m.undirected[k - m.directed.len()] == id);
            }
        }
        positions_split(self.base.edge_directed@);
    }
}

proof fn all_edges_stay(m: GraphModel, ids: Seq<Id>)
    requires
        forall|k: int| 0 <= k < ids.len() ==> super::lazy_save::ends_listed(m, #[trigger] ids[k]),
    ensures
        super::lazy_save::compact_edges(m, ids).len() == ids.len(),
        forall|k: int|
            0 <= k < ids.len() ==> #[trigger] super::lazy_save::compact_edges(m, ids)[k] == super::lazy_save::moved_edge(m, ids[k]),
    decreases ids.len(),
{
    if ids.len() > 0 {
        assert(super::lazy_save::ends_listed(m, ids[ids.len() - 1]));
        let init = ids.drop_last();
        assert forall|k: int| 0 <= k < init.len() implies super::lazy_save::ends_listed(m, #[trigger] init[k]) by {
            assert(super::lazy_save::ends_listed(m, ids[k]));
        }
        all_edges_stay(m, init);
        assert forall|k: int| 0 <= k < ids.len() implies #[trigger] super::lazy_save::compact_edges(m, ids)[k]
            == super::lazy_save::moved_edge(m, ids[k]) by {
            if k < init.len() {
                assert(super::lazy_save::compact_edges(m, init)[k] == super::lazy_save::moved_edge(m, init[k]));
            }
        }
    }
}

proof fn positions_split(flags: Seq<bool>)
    ensures
        crate::model::graph::positions_of(flags, true).len() + crate::model::graph::positions_of(
            flags,
            false,
        ).len() == flags.len(),
    decreases flags.len(),
{
    if flags.len() > 0 {
        positions_split(flags.drop_last());
    }
}

} // verus!
