//! Changes to a graph in a file, and saving it with them.

use vstd::prelude::*;

use super::adjacency::Side;
use super::lazy::LazyGraphStore;
use crate::model::graph_access::{EdgeView, GraphAccess, GraphModel, NodeView, G1001};
use crate::model::value::{Id, Props, Value};
use crate::typing::label_type::LabelType;

verus! {

proof fn live_ids_without(n: nat, deleted: Set<Id>, id: Id)
    requires
        n <= u32::MAX,
    ensures
        super::lazy::live_ids(n, deleted.insert(id)) == super::key_map::without(
            super::lazy::live_ids(n, deleted),
            id,
        ),
    decreases n,
{
    if n > 0 {
        live_ids_without((n - 1) as nat, deleted, id);
        let rest = super::lazy::live_ids((n - 1) as nat, deleted);
        assert(rest.push((n - 1) as Id).drop_last() =~= rest);
    }
}

proof fn live_edges_without(directions: Seq<bool>, deleted: Set<Id>, flag: bool, id: Id)
    requires
        directions.len() <= u32::MAX,
    ensures
        super::lazy::live_edges(directions, deleted.insert(id), flag) == super::key_map::without(
            super::lazy::live_edges(directions, deleted, flag),
            id,
        ),
    decreases directions.len(),
{
    if directions.len() > 0 {
        live_edges_without(directions.drop_last(), deleted, flag, id);
        let rest = super::lazy::live_edges(directions.drop_last(), deleted, flag);
        let x = (directions.len() - 1) as Id;
        assert(rest.push(x).drop_last() =~= rest);
    }
}

proof fn live_ids_all(n: nat)
    requires
        n <= u32::MAX,
    ensures
        super::lazy::live_ids(n, Set::empty()) == crate::model::graph::ids_below(n),
    decreases n,
{
    if n > 0 {
        live_ids_all((n - 1) as nat);
        assert(crate::model::graph::ids_below((n - 1) as nat).push((n - 1) as Id)
            =~= crate::model::graph::ids_below(n));
    } else {
        assert(crate::model::graph::ids_below(0) =~= Seq::empty());
    }
}

proof fn live_edges_all(directions: Seq<bool>, flag: bool)
    ensures
        super::lazy::live_edges(directions, Set::empty(), flag)
            == crate::model::graph::positions_of(directions, flag),
    decreases directions.len(),
{
    if directions.len() > 0 {
        live_edges_all(directions.drop_last(), flag);
    }
}

/// Live ids ascend.
pub proof fn live_ids_rise(n: nat, deleted: Set<Id>)
    requires
        n <= u32::MAX,
    ensures
        forall|i: int, j: int|
            0 <= i < j < super::lazy::live_ids(n, deleted).len() ==> (
            #[trigger] super::lazy::live_ids(n, deleted)[i]) < (
            #[trigger] super::lazy::live_ids(n, deleted)[j]),
        forall|i: int|
            0 <= i < super::lazy::live_ids(n, deleted).len() ==> (
            #[trigger] super::lazy::live_ids(n, deleted)[i]) < n,
        super::lazy::live_ids(n, deleted).len() <= n,
    decreases n,
{
    if n > 0 {
        live_ids_rise((n - 1) as nat, deleted);
        let rest = super::lazy::live_ids((n - 1) as nat, deleted);
        let all = super::lazy::live_ids(n, deleted);
        assert forall|i: int, j: int| 0 <= i < j < all.len() implies (#[trigger] all[i]) < (
        #[trigger] all[j]) by {
            assert(all[i] == rest[i]);
            if j < rest.len() {
                assert(all[j] == rest[j]);
            }
        }
        assert forall|i: int| 0 <= i < all.len() implies (#[trigger] all[i]) < n by {
            if i < rest.len() {
                assert(all[i] == rest[i]);
            }
        }
    }
}

pub proof fn live_edges_len(directions: Seq<bool>, deleted: Set<Id>)
    ensures
        super::lazy::live_edges(directions, deleted, true).len() + super::lazy::live_edges(
            directions,
            deleted,
            false,
        ).len() <= directions.len(),
    decreases directions.len(),
{
    if directions.len() > 0 {
        live_edges_len(directions.drop_last(), deleted);
    }
}

impl LazyGraphStore {
    /// The same elements with the same ends are there.
    proof fn shape_kept(&self, was: &LazyGraphStore)
        requires
            self.base == was.base,
            self.overlay.same_shape(&was.overlay),
        ensures
            self.directions() == was.directions(),
            self.model().node_ids == was.model().node_ids,
            self.model().directed == was.model().directed,
            self.model().undirected == was.model().undirected,
            self.model().nodes.dom() == was.model().nodes.dom(),
            self.model().edges.dom() == was.model().edges.dom(),
    {
        assert(self.directions() =~= was.directions()) by {
            assert forall|i: int| 0 <= i < self.directions().len() implies self.directions()[i]
                == was.directions()[i] by {
                let n = self.base.edge_directed@.len();
                if i >= n {
                    assert(super::overlay::same_ends(
                        self.overlay.new_edges@[i - n],
                        was.overlay.new_edges@[i - n],
                    ));
                }
            }
        }
        assert(self.model().nodes.dom() =~= was.model().nodes.dom());
        assert(self.model().edges.dom() =~= was.model().edges.dom());
    }

    /// Without changes the graph is that of the file.
    pub proof fn clean_model(&self)
        requires
            self.sound(),
            self.overlay.is_clean(),
        ensures
            self.model() == self.base.model(),
    {
        let n = self.base.node_locs@.len();
        live_ids_all(n);
        assert(self.directions() =~= self.base.edge_directed@);
        live_edges_all(self.base.edge_directed@, true);
        live_edges_all(self.base.edge_directed@, false);
        assert forall|id: Id| id < n implies #[trigger] self.node(id) == self.base.node(
            id as int,
        ) by {
            assert(self.node(id) =~= self.base.node(id as int));
        }
        assert forall|id: Id| id < self.base.edge_locs@.len() implies #[trigger] self.edge(id)
            == self.base.edge(id as int) by {
            assert(self.edge(id) =~= self.base.edge(id as int));
        }
        assert(self.model().nodes =~= self.base.model().nodes);
        assert(self.model().edges =~= self.base.model().edges);
    }

    /// Adds a node.
    pub fn insert_node(&mut self, labels: LabelType, props: Props) -> (id: Id)
        requires
            old(self).sound(),
            old(self).overlay.node_total() < u32::MAX,
        ensures
            final(self).sound(),
            final(self).same_file(old(self)),
            id == old(self).overlay.node_total(),
            final(self).model().nodes == old(self).model().nodes.insert(
                id,
                (NodeView {
                    name: super::overlay::auto_name("auto-n-"@, id),
                    labels: labels@,
                    props: crate::model::value::props_view(props),
                }),
            ),
            final(self).model().node_ids == (if old(self).overlay.deleted_nodes@.contains(id) {
                old(self).model().node_ids
            } else {
                old(self).model().node_ids.push(id)
            }),
            final(self).model().edges == old(self).model().edges,
            final(self).model().directed == old(self).model().directed,
            final(self).model().undirected == old(self).model().undirected,
    {
        let id = self.overlay.insert_node(labels, props);
        proof {
            let was = old(self);
            assert(self.directions() =~= was.directions());
            assert(self.model().nodes =~= was.model().nodes.insert(
                id,
                (NodeView {
                    name: super::overlay::auto_name("auto-n-"@, id),
                    labels: labels@,
                    props: crate::model::value::props_view(props),
                }),
            ));
            assert(self.model().edges =~= was.model().edges);
        }
        id
    }

    /// Adds an edge between nodes that are known.
    pub fn insert_edge(
        &mut self,
        src: Id,
        tgt: Id,
        directed: bool,
        labels: LabelType,
        props: Props,
    ) -> (id: Id)
        requires
            old(self).sound(),
            old(self).overlay.edge_total() < u32::MAX,
            src < old(self).overlay.node_total(),
            tgt < old(self).overlay.node_total(),
        ensures
            final(self).sound(),
            final(self).same_file(old(self)),
            id == old(self).overlay.edge_total(),
            final(self).model().edges == old(self).model().edges.insert(
                id,
                (EdgeView {
                    name: super::overlay::auto_name("auto-e-"@, id),
                    labels: labels@,
                    props: crate::model::value::props_view(props),
                    src,
                    tgt,
                    directed,
                }),
            ),
            final(self).model().directed == (if directed
                && !old(self).overlay.deleted_edges@.contains(id) {
                old(self).model().directed.push(id)
            } else {
                old(self).model().directed
            }),
            final(self).model().undirected == (if !directed
                && !old(self).overlay.deleted_edges@.contains(id) {
                old(self).model().undirected.push(id)
            } else {
                old(self).model().undirected
            }),
            final(self).model().nodes == old(self).model().nodes,
            final(self).model().node_ids == old(self).model().node_ids,
    {
        let id = self.overlay.insert_edge(src, tgt, directed, labels, props);
        proof {
            let was = old(self);
            assert(self.directions() =~= was.directions().push(directed));
            assert(self.directions().drop_last() =~= was.directions());
            assert(self.model().edges =~= was.model().edges.insert(
                id,
                (EdgeView {
                    name: super::overlay::auto_name("auto-e-"@, id),
                    labels: labels@,
                    props: crate::model::value::props_view(props),
                    src,
                    tgt,
                    directed,
                }),
            ));
            assert(self.model().nodes =~= was.model().nodes);
        }
        id
    }

    /// Deletes an edge.
    pub fn delete_edge(&mut self, id: Id)
        requires
            old(self).sound(),
        ensures
            final(self).sound(),
            final(self).same_file(old(self)),
            final(self).model().nodes == old(self).model().nodes,
            final(self).model().edges == old(self).model().edges,
            final(self).model().node_ids == old(self).model().node_ids,
            final(self).model().directed == super::key_map::without(
                old(self).model().directed,
                id,
            ),
            final(self).model().undirected == super::key_map::without(
                old(self).model().undirected,
                id,
            ),
            final(self).overlay.deleted_edges@ == old(self).overlay.deleted_edges@.insert(id),
            final(self).overlay.new_edges@ == old(self).overlay.new_edges@,
            final(self).overlay.base_edge_count == old(self).overlay.base_edge_count,
            final(self).overlay.deleted_nodes@ == old(self).overlay.deleted_nodes@,
            final(self).overlay.new_nodes@ == old(self).overlay.new_nodes@,
    {
        self.overlay.delete_edge(id);
        proof {
            let was = old(self);
            assert(self.directions() =~= was.directions());
            live_edges_without(was.directions(), was.overlay.deleted_edges@, true, id);
            live_edges_without(was.directions(), was.overlay.deleted_edges@, false, id);
            assert(self.model().edges =~= was.model().edges);
            assert(self.model().nodes =~= was.model().nodes);
        }
    }

    fn hide_node(&mut self, id: Id)
        requires
            old(self).sound(),
        ensures
            final(self).sound(),
            final(self).same_file(old(self)),
            final(self).model().nodes == old(self).model().nodes,
            final(self).model().edges == old(self).model().edges,
            final(self).model().directed == old(self).model().directed,
            final(self).model().undirected == old(self).model().undirected,
            final(self).model().node_ids == super::key_map::without(
                old(self).model().node_ids,
                id,
            ),
            final(self).overlay.deleted_edges@ == old(self).overlay.deleted_edges@,
            final(self).overlay.new_edges@ == old(self).overlay.new_edges@,
            final(self).overlay.base_edge_count == old(self).overlay.base_edge_count,
            final(self).overlay.new_nodes@ == old(self).overlay.new_nodes@,
    {
        self.overlay.delete_node(id);
        proof {
            let was = old(self);
            assert(self.directions() =~= was.directions());
            live_ids_without(
                was.overlay.node_total() as nat,
                was.overlay.deleted_nodes@,
                id,
            );
            assert(self.model().edges =~= was.model().edges);
            assert(self.model().nodes =~= was.model().nodes);
        }
    }

    /// The edges at a node: those from it, those to it, and those without a
    /// direction.
    pub open spec fn incident(&self, id: Id) -> Seq<Id> {
        self.edges_at(Side::Outgoing, id) + self.edges_at(Side::Incoming, id) + self.edges_at(
            Side::Undirected,
            id,
        )
    }

    fn incident_edges(&self, id: Id) -> (r: Vec<Id>)
        requires
            self.sound(),
        ensures
            r@ == self.incident(id),
    {
        let mut out = self.outgoing_edges(id);
        let mut more = self.incoming_edges(id);
        out.append(&mut more);
        let mut rest = self.undirected_edges_of(id);
        out.append(&mut rest);
        out
    }

    /// Deletes a node with every edge at it.
    pub fn detach_delete_node(&mut self, id: Id)
        requires
            old(self).sound(),
        ensures
            final(self).sound(),
            final(self).same_file(old(self)),
            final(self).model().nodes == old(self).model().nodes,
            final(self).model().edges == old(self).model().edges,
            final(self).model().node_ids == super::key_map::without(
                old(self).model().node_ids,
                id,
            ),
            final(self).overlay.deleted_edges@ == old(self).overlay.deleted_edges@.union(
                old(self).incident(id).to_set(),
            ),
            final(self).overlay.new_edges@ == old(self).overlay.new_edges@,
            final(self).overlay.base_edge_count == old(self).overlay.base_edge_count,
    {
        let edges = self.incident_edges(id);
        let ghost was = *self;
        let mut i: usize = 0;
        assert(was.overlay.deleted_edges@ =~= was.overlay.deleted_edges@.union(
            edges@.take(0).to_set(),
        ));
        while i < edges.len()
            invariant
                i <= edges.len(),
                self.sound(),
                self.same_file(&was),
                self.model().nodes == was.model().nodes,
                self.model().edges == was.model().edges,
                self.model().node_ids == was.model().node_ids,
                self.overlay.deleted_edges@ == was.overlay.deleted_edges@.union(
                    edges@.take(i as int).to_set(),
                ),
                self.overlay.new_edges@ == was.overlay.new_edges@,
                self.overlay.base_edge_count == was.overlay.base_edge_count,
            decreases edges.len() - i,
        {
            let ghost before = self.overlay.deleted_edges@;
            self.delete_edge(edges[i]);
            proof {
                let a = edges@.take(i as int);
                assert(edges@.take(i + 1) =~= a.push(edges@[i as int]));
                assert(a.push(edges@[i as int]).to_set() =~= a.to_set().insert(edges@[i as int])) by {
                    assert forall|x: Id| #[trigger]
                        a.push(edges@[i as int]).to_set().contains(x) <==> a.to_set().insert(
                            edges@[i as int],
                        ).contains(x) by {
                        pushed_id(a, edges@[i as int], x);
                    }
                }
                assert(self.overlay.deleted_edges@ =~= was.overlay.deleted_edges@.union(
                    edges@.take(i + 1).to_set(),
                ));
            }
            i = i + 1;
        }
        assert(edges@.take(i as int) =~= edges@);
        self.hide_node(id);
    }

    /// After a node is deleted with its edges, no edge that is there has it as
    /// an end.
    pub proof fn detached(was: &LazyGraphStore, now: &LazyGraphStore, id: Id, edge: Id)
        requires
            was.sound(),
            was.indexed(),
            now.sound(),
            now.same_file(was),
            now.model().edges == was.model().edges,
            now.overlay.new_edges@ == was.overlay.new_edges@,
            now.overlay.base_edge_count == was.overlay.base_edge_count,
            now.overlay.deleted_edges@ == was.overlay.deleted_edges@.union(
                was.incident(id).to_set(),
            ),
            now.model().edge_ids().contains(edge),
        ensures
            now.model().edges[edge].src != id,
            now.model().edges[edge].tgt != id,
    {
        let dirs = was.directions();
        assert(now.directions() =~= dirs);
        let m = now.model();
        let k = choose|k: int| 0 <= k < m.edge_ids().len() && m.edge_ids()[k] == edge;
        let flag = k < m.directed.len();
        if flag {
            assert(m.directed[k] == edge);
            assert(m.directed.contains(edge));
        } else {
            assert(m.undirected[k - m.directed.len()] == edge);
            assert(m.undirected.contains(edge));
        }
        super::lazy::live_edges_members(dirs, now.overlay.deleted_edges@, flag, edge);
        super::lazy::live_edges_members(dirs, was.overlay.deleted_edges@, flag, edge);
        let e = was.model().edges[edge];
        assert(e == was.edge(edge));
        was.edges_at_right(Side::Outgoing, id, edge);
        was.edges_at_right(Side::Incoming, id, edge);
        was.edges_at_right(Side::Undirected, id, edge);
        let (a, b, c) = (
            was.edges_at(Side::Outgoing, id),
            was.edges_at(Side::Incoming, id),
            was.edges_at(Side::Undirected, id),
        );
        joined_ids(a, b, edge);
        joined_ids(a + b, c, edge);
        assert(!was.incident(id).to_set().contains(edge));
        assert(!was.incident(id).contains(edge));
    }

    /// Deletes a node that no edge is at. With edges at it, it stays, and they
    /// are named.
    pub fn delete_node_no_detach(&mut self, id: Id) -> (r: Result<(), G1001>)
        requires
            old(self).sound(),
        ensures
            final(self).sound(),
            match r {
                Ok(_) => {
                    &&& old(self).incident(id).len() == 0
                    &&& final(self).same_file(old(self))
                    &&& final(self).model().nodes == old(self).model().nodes
                    &&& final(self).model().edges == old(self).model().edges
                    &&& final(self).model().directed == old(self).model().directed
                    &&& final(self).model().undirected == old(self).model().undirected
                    &&& final(self).model().node_ids == super::key_map::without(
                        old(self).model().node_ids,
                        id,
                    )
                },
                Err(g) => {
                    &&& old(self).incident(id).len() > 0
                    &&& g.node == id
                    &&& g.remaining_edges@ == old(self).incident(id)
                    &&& *final(self) == *old(self)
                },
            },
    {
        let remaining = self.incident_edges(id);
        if remaining.len() > 0 {
            return Err(G1001 { node: id, remaining_edges: remaining });
        }
        self.hide_node(id);
        Ok(())
    }

    /// Whether a node is there.
    pub fn is_node_alive(&self, id: Id) -> (r: bool)
        requires
            self.sound(),
        ensures
            r == self.model().node_ids.contains(id),
    {
        proof {
            super::lazy::live_ids_members(
                self.overlay.node_total() as nat,
                self.overlay.deleted_nodes@,
                id,
            );
        }
        if self.overlay.is_node_deleted(id) {
            return false;
        }
        id < self.overlay.base_node_count || self.overlay.get_new_node(id).is_some()
    }

    /// Whether an edge is there.
    pub fn is_edge_alive(&self, id: Id) -> (r: bool)
        requires
            self.sound(),
        ensures
            r == (self.model().directed.contains(id) || self.model().undirected.contains(id)),
    {
        proof {
            let dirs = self.directions();
            let deleted = self.overlay.deleted_edges@;
            super::lazy::live_edges_members(dirs, deleted, true, id);
            super::lazy::live_edges_members(dirs, deleted, false, id);
        }
        if self.overlay.is_edge_deleted(id) {
            return false;
        }
        id < self.overlay.base_edge_count || self.overlay.get_new_edge(id).is_some()
    }

    /// A rollback undoes any changes: whatever states follow each other on one
    /// file from a state without changes, to forget them gives that state's graph
    /// back.
    pub proof fn rollback_undoes(states: Seq<LazyGraphStore>, end: LazyGraphStore)
        requires
            states.len() > 0,
            states[0].sound(),
            states[0].overlay.is_clean(),
            forall|i: int|
                0 < i < states.len() ==> (#[trigger] states[i]).same_file(&states[i - 1]),
            end.sound(),
            end.same_file(&states.last()),
            end.overlay.is_clean(),
        ensures
            end.same_file(&states[0]),
            end.model() == states[0].model(),
        decreases states.len(),
    {
        if states.len() > 1 {
            assert(states[states.len() - 1].same_file(&states[states.len() - 2]));
            let rest = states.drop_last();
            assert forall|i: int| 0 < i < rest.len() implies (#[trigger] rest[i]).same_file(
                &rest[i - 1],
            ) by {
                assert(states[i].same_file(&states[i - 1]));
            }
            Self::rollback_undoes(rest, end);
        } else {
            states[0].clean_model();
            end.clean_model();
        }
    }

    /// Forgets every change: the graph is that of the file again.
    pub fn rollback_session(&mut self)
        requires
            old(self).sound(),
        ensures
            final(self).sound(),
            final(self).same_file(old(self)),
            final(self).overlay.is_clean(),
            final(self).model() == final(self).base.model(),
    {
        let n = self.overlay.base_node_count;
        let e = self.overlay.base_edge_count;
        self.overlay.clear(n, e);
        proof {
            self.clean_model();
        }
    }

    /// Binds a property of a node.
    pub fn set_node_prop(&mut self, id: Id, prop: &str, value: Value)
        requires
            old(self).sound(),
        ensures
            final(self).sound(),
            final(self).same_file(old(self)),
            final(self).model() == (GraphModel {
                nodes: if id < old(self).overlay.node_total() {
                    old(self).model().nodes.insert(
                        id,
                        (NodeView { props: old(self).model().nodes[id].props.insert(prop@, value@), ..old(self).model().nodes[id] }),
                    )
                } else {
                    old(self).model().nodes
                },
                ..old(self).model()
            }),
    {
        self.overlay.set_node_prop(id, prop, value);
        proof {
            let was = old(self);
            self.shape_kept(was);
            assert(self.model().edges =~= was.model().edges);
            if id < was.overlay.node_total() {
                assert(self.model().nodes =~= was.model().nodes.insert(
                    id,
                    (NodeView { props: was.model().nodes[id].props.insert(prop@, value@), ..was.model().nodes[id] }),
                ));
            } else {
                assert(self.model().nodes =~= was.model().nodes);
            }
        }
    }

    /// Gives a node other properties in place of those that it has.
    pub fn replace_node_props(&mut self, id: Id, props: Props)
        requires
            old(self).sound(),
        ensures
            final(self).sound(),
            final(self).same_file(old(self)),
            final(self).model() == (GraphModel {
                nodes: if id < old(self).overlay.node_total() {
                    old(self).model().nodes.insert(
                        id,
                        (NodeView { props: crate::model::value::props_view(props), ..old(self).model().nodes[id] }),
                    )
                } else {
                    old(self).model().nodes
                },
                ..old(self).model()
            }),
    {
        self.overlay.replace_node_props(id, props);
        proof {
            let was = old(self);
            self.shape_kept(was);
            assert(self.model().edges =~= was.model().edges);
            if id < was.overlay.node_total() {
                assert(self.model().nodes =~= was.model().nodes.insert(
                    id,
                    (NodeView { props: crate::model::value::props_view(props), ..was.model().nodes[id] }),
                ));
            } else {
                assert(self.model().nodes =~= was.model().nodes);
            }
        }
    }

    /// Takes a property from a node.
    pub fn remove_node_prop(&mut self, id: Id, prop: &str)
        requires
            old(self).sound(),
        ensures
            final(self).sound(),
            final(self).same_file(old(self)),
            final(self).model() == (GraphModel {
                nodes: if id < old(self).overlay.node_total() {
                    old(self).model().nodes.insert(
                        id,
                        (NodeView { props: old(self).model().nodes[id].props.remove(prop@), ..old(self).model().nodes[id] }),
                    )
                } else {
                    old(self).model().nodes
                },
                ..old(self).model()
            }),
    {
        self.overlay.remove_node_prop(id, prop);
        proof {
            let was = old(self);
            self.shape_kept(was);
            assert(self.model().edges =~= was.model().edges);
            if id < was.overlay.node_total() {
                assert(self.model().nodes =~= was.model().nodes.insert(
                    id,
                    (NodeView { props: was.model().nodes[id].props.remove(prop@), ..was.model().nodes[id] }),
                ));
            } else {
                assert(self.model().nodes =~= was.model().nodes);
            }
        }
    }

    /// Adds a label to a node. Everything else stays.
    pub fn add_node_label(&mut self, id: Id, label: &str)
        requires
            old(self).sound(),
        ensures
            final(self).sound(),
            final(self).same_file(old(self)),
            final(self).model().node_ids == old(self).model().node_ids,
            final(self).model().directed == old(self).model().directed,
            final(self).model().undirected == old(self).model().undirected,
            final(self).model().edges == old(self).model().edges,
            final(self).model().nodes.dom() == old(self).model().nodes.dom(),
            forall|x: Id|
                x != id && #[trigger] old(self).model().nodes.contains_key(x)
                    ==> final(self).model().nodes[x] == old(self).model().nodes[x],
            id < old(self).overlay.node_total() ==> final(self).model().nodes[id] == (NodeView {
                labels: super::overlay::relabelled(
                    old(self).overlay.mod_node_labels@,
                    id,
                    old(self).overlay.base_node_count,
                    old(self).base.node(id as int).labels,
                    old(self).model().nodes[id].labels,
                    label@,
                    true,
                ),
                ..old(self).model().nodes[id]
            }),
            forall|x: Seq<char>|
                id < old(self).overlay.node_total() ==> (
                #[trigger] final(self).model().nodes[id].labels.required().contains(x) <==> (
                x == label@ || old(self).model().nodes[id].labels.required().contains(x))),
    {
        self.overlay.add_node_label(id, label);
        proof {
            let was = old(self);
            self.shape_kept(was);
            assert(self.model().edges =~= was.model().edges);
            if id < was.overlay.node_total() {
                let old_labels = was.node(id).labels;
                assert(self.model().nodes[id] =~= (NodeView {
                    labels: self.model().nodes[id].labels,
                    ..was.model().nodes[id]
                }));
                assert forall|x: Seq<char>|
                    #[trigger] self.model().nodes[id].labels.required().contains(x) <==> (
                    x == label@ || was.model().nodes[id].labels.required().contains(x)) by {
                    if id < was.overlay.base_node_count {
                        let base = was.base.node(id as int).labels;
                        let m0 = was.overlay.mod_node_labels@;
                        let m1 = self.overlay.mod_node_labels@;
                        labels_after_members(m0, id, base, was.overlay.base_node_count, x);
                        labels_after_members(m1, id, base, was.overlay.base_node_count, x);
                    } else {
                        let have = old_labels.required();
                        super::overlay::joined_labels_members(have, seq![label@], x);
                        super::writer::conjunction_labels(
                            super::overlay::joined_labels(have, seq![label@]),
                        );
                        assert(seq![label@][0] == label@);
                    }
                }
            }
        }
    }

    /// Takes a label from a node. Everything else stays.
    pub fn remove_node_label(&mut self, id: Id, label: &str)
        requires
            old(self).sound(),
        ensures
            final(self).sound(),
            final(self).same_file(old(self)),
            final(self).model().node_ids == old(self).model().node_ids,
            final(self).model().directed == old(self).model().directed,
            final(self).model().undirected == old(self).model().undirected,
            final(self).model().edges == old(self).model().edges,
            final(self).model().nodes.dom() == old(self).model().nodes.dom(),
            forall|x: Id|
                x != id && #[trigger] old(self).model().nodes.contains_key(x)
                    ==> final(self).model().nodes[x] == old(self).model().nodes[x],
            id < old(self).overlay.node_total() ==> final(self).model().nodes[id] == (NodeView {
                labels: super::overlay::relabelled(
                    old(self).overlay.mod_node_labels@,
                    id,
                    old(self).overlay.base_node_count,
                    old(self).base.node(id as int).labels,
                    old(self).model().nodes[id].labels,
                    label@,
                    false,
                ),
                ..old(self).model().nodes[id]
            }),
            forall|x: Seq<char>|
                id < old(self).overlay.node_total() ==> (
                #[trigger] final(self).model().nodes[id].labels.required().contains(x) <==> (
                x != label@ && old(self).model().nodes[id].labels.required().contains(x))),
    {
        self.overlay.remove_node_label(id, label);
        proof {
            let was = old(self);
            self.shape_kept(was);
            assert(self.model().edges =~= was.model().edges);
            if id < was.overlay.node_total() {
                let old_labels = was.node(id).labels;
                assert(self.model().nodes[id] =~= (NodeView {
                    labels: self.model().nodes[id].labels,
                    ..was.model().nodes[id]
                }));
                assert forall|x: Seq<char>|
                    #[trigger] self.model().nodes[id].labels.required().contains(x) <==> (
                    x != label@ && was.model().nodes[id].labels.required().contains(x)) by {
                    if id < was.overlay.base_node_count {
                        let base = was.base.node(id as int).labels;
                        let m0 = was.overlay.mod_node_labels@;
                        let m1 = self.overlay.mod_node_labels@;
                        labels_after_members(m0, id, base, was.overlay.base_node_count, x);
                        labels_after_members(m1, id, base, was.overlay.base_node_count, x);
                    } else {
                        let have = old_labels.required();
                        super::overlay::kept_labels_members(have, set![label@], x);
                        super::writer::conjunction_labels(
                            super::overlay::kept_labels(have, set![label@]),
                        );
                        assert(seq![label@][0] == label@);
                    }
                }
            }
        }
    }

    /// Binds a property of an edge.
    pub fn set_edge_prop(&mut self, id: Id, prop: &str, value: Value)
        requires
            old(self).sound(),
        ensures
            final(self).sound(),
            final(self).same_file(old(self)),
            final(self).model() == (GraphModel {
                edges: if id < old(self).overlay.edge_total() {
                    old(self).model().edges.insert(
                        id,
                        (EdgeView { props: old(self).model().edges[id].props.insert(prop@, value@), ..old(self).model().edges[id] }),
                    )
                } else {
                    old(self).model().edges
                },
                ..old(self).model()
            }),
    {
        self.overlay.set_edge_prop(id, prop, value);
        proof {
            let was = old(self);
            self.shape_kept(was);
            assert(self.model().nodes =~= was.model().nodes);
            if id < was.overlay.edge_total() {
                assert(self.model().edges =~= was.model().edges.insert(
                    id,
                    (EdgeView { props: was.model().edges[id].props.insert(prop@, value@), ..was.model().edges[id] }),
                ));
            } else {
                assert(self.model().edges =~= was.model().edges);
            }
        }
    }

    /// Gives an edge other properties in place of those that it has.
    pub fn replace_edge_props(&mut self, id: Id, props: Props)
        requires
            old(self).sound(),
        ensures
            final(self).sound(),
            final(self).same_file(old(self)),
            final(self).model() == (GraphModel {
                edges: if id < old(self).overlay.edge_total() {
                    old(self).model().edges.insert(
                        id,
                        (EdgeView { props: crate::model::value::props_view(props), ..old(self).model().edges[id] }),
                    )
                } else {
                    old(self).model().edges
                },
                ..old(self).model()
            }),
    {
        self.overlay.replace_edge_props(id, props);
        proof {
            let was = old(self);
            self.shape_kept(was);
            assert(self.model().nodes =~= was.model().nodes);
            if id < was.overlay.edge_total() {
                assert(self.model().edges =~= was.model().edges.insert(
                    id,
                    (EdgeView { props: crate::model::value::props_view(props), ..was.model().edges[id] }),
                ));
            } else {
                assert(self.model().edges =~= was.model().edges);
            }
        }
    }

    /// Takes a property from an edge.
    pub fn remove_edge_prop(&mut self, id: Id, prop: &str)
        requires
            old(self).sound(),
        ensures
            final(self).sound(),
            final(self).same_file(old(self)),
            final(self).model() == (GraphModel {
                edges: if id < old(self).overlay.edge_total() {
                    old(self).model().edges.insert(
                        id,
                        (EdgeView { props: old(self).model().edges[id].props.remove(prop@), ..old(self).model().edges[id] }),
                    )
                } else {
                    old(self).model().edges
                },
                ..old(self).model()
            }),
    {
        self.overlay.remove_edge_prop(id, prop);
        proof {
            let was = old(self);
            self.shape_kept(was);
            assert(self.model().nodes =~= was.model().nodes);
            if id < was.overlay.edge_total() {
                assert(self.model().edges =~= was.model().edges.insert(
                    id,
                    (EdgeView { props: was.model().edges[id].props.remove(prop@), ..was.model().edges[id] }),
                ));
            } else {
                assert(self.model().edges =~= was.model().edges);
            }
        }
    }

    /// Adds a label to an edge. Everything else stays.
    pub fn add_edge_label(&mut self, id: Id, label: &str)
        requires
            old(self).sound(),
        ensures
            final(self).sound(),
            final(self).same_file(old(self)),
            final(self).model().node_ids == old(self).model().node_ids,
            final(self).model().directed == old(self).model().directed,
            final(self).model().undirected == old(self).model().undirected,
            final(self).model().nodes == old(self).model().nodes,
            final(self).model().edges.dom() == old(self).model().edges.dom(),
            forall|x: Id|
                x != id && #[trigger] old(self).model().edges.contains_key(x)
                    ==> final(self).model().edges[x] == old(self).model().edges[x],
            id < old(self).overlay.edge_total() ==> final(self).model().edges[id] == (EdgeView {
                labels: super::overlay::relabelled(
                    old(self).overlay.mod_edge_labels@,
                    id,
                    old(self).overlay.base_edge_count,
                    old(self).base.edge(id as int).labels,
                    old(self).model().edges[id].labels,
                    label@,
                    true,
                ),
                ..old(self).model().edges[id]
            }),
            forall|x: Seq<char>|
                id < old(self).overlay.edge_total() ==> (
                #[trigger] final(self).model().edges[id].labels.required().contains(x) <==> (
                x == label@ || old(self).model().edges[id].labels.required().contains(x))),
    {
        self.overlay.add_edge_label(id, label);
        proof {
            let was = old(self);
            self.shape_kept(was);
            assert(self.model().nodes =~= was.model().nodes);
            if id < was.overlay.edge_total() {
                let old_labels = was.edge(id).labels;
                assert(self.model().edges[id] =~= (EdgeView {
                    labels: self.model().edges[id].labels,
                    ..was.model().edges[id]
                }));
                assert forall|x: Seq<char>|
                    #[trigger] self.model().edges[id].labels.required().contains(x) <==> (
                    x == label@ || was.model().edges[id].labels.required().contains(x)) by {
                    if id < was.overlay.base_edge_count {
                        let base = was.base.edge(id as int).labels;
                        let m0 = was.overlay.mod_edge_labels@;
                        let m1 = self.overlay.mod_edge_labels@;
                        labels_after_members(m0, id, base, was.overlay.base_edge_count, x);
                        labels_after_members(m1, id, base, was.overlay.base_edge_count, x);
                    } else {
                        let have = old_labels.required();
                        super::overlay::joined_labels_members(have, seq![label@], x);
                        super::writer::conjunction_labels(
                            super::overlay::joined_labels(have, seq![label@]),
                        );
                        assert(seq![label@][0] == label@);
                    }
                }
            }
        }
    }

    /// Takes a label from an edge. Everything else stays.
    pub fn remove_edge_label(&mut self, id: Id, label: &str)
        requires
            old(self).sound(),
        ensures
            final(self).sound(),
            final(self).same_file(old(self)),
            final(self).model().node_ids == old(self).model().node_ids,
            final(self).model().directed == old(self).model().directed,
            final(self).model().undirected == old(self).model().undirected,
            final(self).model().nodes == old(self).model().nodes,
            final(self).model().edges.dom() == old(self).model().edges.dom(),
            forall|x: Id|
                x != id && #[trigger] old(self).model().edges.contains_key(x)
                    ==> final(self).model().edges[x] == old(self).model().edges[x],
            id < old(self).overlay.edge_total() ==> final(self).model().edges[id] == (EdgeView {
                labels: super::overlay::relabelled(
                    old(self).overlay.mod_edge_labels@,
                    id,
                    old(self).overlay.base_edge_count,
                    old(self).base.edge(id as int).labels,
                    old(self).model().edges[id].labels,
                    label@,
                    false,
                ),
                ..old(self).model().edges[id]
            }),
            forall|x: Seq<char>|
                id < old(self).overlay.edge_total() ==> (
                #[trigger] final(self).model().edges[id].labels.required().contains(x) <==> (
                x != label@ && old(self).model().edges[id].labels.required().contains(x))),
    {
        self.overlay.remove_edge_label(id, label);
        proof {
            let was = old(self);
            self.shape_kept(was);
            assert(self.model().nodes =~= was.model().nodes);
            if id < was.overlay.edge_total() {
                let old_labels = was.edge(id).labels;
                assert(self.model().edges[id] =~= (EdgeView {
                    labels: self.model().edges[id].labels,
                    ..was.model().edges[id]
                }));
                assert forall|x: Seq<char>|
                    #[trigger] self.model().edges[id].labels.required().contains(x) <==> (
                    x != label@ && was.model().edges[id].labels.required().contains(x)) by {
                    if id < was.overlay.base_edge_count {
                        let base = was.base.edge(id as int).labels;
                        let m0 = was.overlay.mod_edge_labels@;
                        let m1 = self.overlay.mod_edge_labels@;
                        labels_after_members(m0, id, base, was.overlay.base_edge_count, x);
                        labels_after_members(m1, id, base, was.overlay.base_edge_count, x);
                    } else {
                        let have = old_labels.required();
                        super::overlay::kept_labels_members(have, set![label@], x);
                        super::writer::conjunction_labels(
                            super::overlay::kept_labels(have, set![label@]),
                        );
                        assert(seq![label@][0] == label@);
                    }
                }
            }
        }
    }
}

proof fn labels_after_members(
    mods: Map<Id, super::overlay::LabelMods>,
    id: Id,
    base: crate::typing::label_type::LabelTypeView,
    count: u32,
    x: Seq<char>,
)
    requires
        super::overlay::label_mods_ok(mods, count),
    ensures
        super::overlay::labels_after(mods, id, base).required().contains(x) <==> (
        base.required().contains(x) || super::overlay::added_to(mods, id).contains(x))
            && !super::overlay::removed_from(mods, id).contains(x),
{
    if mods.contains_key(id) {
        let m = mods[id];
        super::overlay::changed_label_members(base.required(), m.added@, m.removed@, x);
        super::writer::conjunction_labels(
            super::overlay::changed_labels(base.required(), m.added@, m.removed@),
        );
    }
}

pub proof fn pushed_id(s: Seq<Id>, y: Id, x: Id)
    ensures
        s.push(y).contains(x) <==> s.contains(x) || x == y,
{
    if s.contains(x) {
        let i = choose|i: int| 0 <= i < s.len() && s[i] == x;
        assert(s.push(y)[i] == x);
    }
    assert(s.push(y)[s.len() as int] == y);
    if s.push(y).contains(x) && x != y {
        let i = choose|i: int| 0 <= i < s.push(y).len() && s.push(y)[i] == x;
        assert(s[i] == x);
    }
}

proof fn joined_ids(a: Seq<Id>, b: Seq<Id>, x: Id)
    ensures
        (a + b).contains(x) <==> a.contains(x) || b.contains(x),
{
    if a.contains(x) {
        let i = choose|i: int| 0 <= i < a.len() && a[i] == x;
        assert((a + b)[i] == x);
    }
    if b.contains(x) {
        let i = choose|i: int| 0 <= i < b.len() && b[i] == x;
        assert((a + b)[a.len() + i] == x);
    }
    if (a + b).contains(x) {
        let i = choose|i: int| 0 <= i < (a + b).len() && (a + b)[i] == x;
        if i < a.len() {
            assert(a[i] == x);
        } else {
            assert(b[i - a.len()] == x);
        }
    }
}

} // verus!
