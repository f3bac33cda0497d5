//! A property graph in memory.

use vstd::prelude::*;

use crate::model::graph_access::{EdgeView, GraphAccess, GraphModel, NodeView};
use crate::model::value::{clone_props, Id, Props};
use crate::text::copy_text;
use crate::typing::label_type::LabelType;

verus! {

/// A property graph held column by column: the id of an element is its
/// position.
pub struct MemoryGraphStore {
    pub node_names: Vec<String>,
    pub node_labels: Vec<LabelType>,
    pub node_props: Vec<Props>,
    pub edge_names: Vec<String>,
    pub edge_labels: Vec<LabelType>,
    pub edge_props: Vec<Props>,
    pub edge_src: Vec<Id>,
    pub edge_tgt: Vec<Id>,
    pub edge_directed: Vec<bool>,
}

/// The positions that carry a flag, in order.
pub open spec fn positions_of(flags: Seq<bool>, flag: bool) -> Seq<Id>
    decreases flags.len(),
{
    if flags.len() == 0 {
        Seq::empty()
    } else {
        let rest = positions_of(flags.drop_last(), flag);
        if flags.last() == flag {
            rest.push((flags.len() - 1) as Id)
        } else {
            rest
        }
    }
}

/// Every such position is one of the list.
pub proof fn positions_in_range(flags: Seq<bool>, flag: bool)
    requires
        flags.len() <= u32::MAX,
    ensures
        forall|i: int|
            0 <= i < positions_of(flags, flag).len() ==> (#[trigger] positions_of(flags, flag)[i])
                < flags.len() && flags[positions_of(flags, flag)[i] as int] == flag,
    decreases flags.len(),
{
    if flags.len() > 0 {
        positions_in_range(flags.drop_last(), flag);
        let rest = positions_of(flags.drop_last(), flag);
        assert forall|i: int| 0 <= i < positions_of(flags, flag).len() implies (
        #[trigger] positions_of(flags, flag)[i]) < flags.len() && flags[positions_of(
            flags,
            flag,
        )[i] as int] == flag by {
            if i < rest.len() {
                assert(rest[i] == positions_of(flags, flag)[i]);
                assert(flags.drop_last()[rest[i] as int] == flag);
            }
        }
    }
}

/// The positions that carry a flag.
pub fn list_positions(flags: &Vec<bool>, flag: bool) -> (r: Vec<Id>)
    requires
        flags@.len() <= u32::MAX,
    ensures
        r@ == positions_of(flags@, flag),
{
    let mut out: Vec<Id> = Vec::new();
    let mut i: usize = 0;
    while i < flags.len()
        invariant
            i <= flags.len(),
            flags@.len() <= u32::MAX,
            out@ == positions_of(flags@.take(i as int), flag),
        decreases flags.len() - i,
    {
        assert(flags@.take(i + 1).drop_last() =~= flags@.take(i as int));
        if flags[i] == flag {
            out.push(i as u32);
        }
        i = i + 1;
    }
    assert(flags@.take(i as int) =~= flags@);
    out
}

/// The ids below a count, in order.
pub open spec fn ids_below(n: nat) -> Seq<Id> {
    Seq::new(n, |i: int| i as Id)
}

/// The ids below a count.
pub fn list_ids(n: usize) -> (r: Vec<Id>)
    requires
        n <= u32::MAX,
    ensures
        r@ == ids_below(n as nat),
{
    let mut out: Vec<Id> = Vec::new();
    let mut i: usize = 0;
    while i < n
        invariant
            i <= n <= u32::MAX,
            out@ == ids_below(i as nat),
        decreases n - i,
    {
        out.push(i as u32);
        i = i + 1;
        assert(out@ =~= ids_below(i as nat));
    }
    out
}

impl MemoryGraphStore {
    /// The columns have one entry per element.
    pub open spec fn columns_ok(&self) -> bool {
        &&& self.node_labels@.len() == self.node_names@.len()
        &&& self.node_props@.len() == self.node_names@.len()
        &&& self.edge_labels@.len() == self.edge_names@.len()
        &&& self.edge_props@.len() == self.edge_names@.len()
        &&& self.edge_src@.len() == self.edge_names@.len()
        &&& self.edge_tgt@.len() == self.edge_names@.len()
        &&& self.edge_directed@.len() == self.edge_names@.len()
    }

    /// The columns have one entry per element, ids fit, and every edge joins
    /// nodes of the graph.
    pub open spec fn wf(&self) -> bool {
        &&& self.columns_ok()
        &&& self.node_names@.len() <= u32::MAX
        &&& self.edge_names@.len() <= u32::MAX
        &&& forall|i: int|
            0 <= i < self.edge_src@.len() ==> (#[trigger] self.edge_src@[i])
                < self.node_names@.len()
        &&& forall|i: int|
            0 <= i < self.edge_tgt@.len() ==> (#[trigger] self.edge_tgt@[i])
                < self.node_names@.len()
    }

    /// The node at a position.
    pub open spec fn node_at(&self, i: int) -> NodeView {
        NodeView {
            name: self.node_names@[i]@,
            labels: self.node_labels@[i]@,
            props: crate::model::value::props_view(self.node_props@[i]),
        }
    }

    /// The edge at a position.
    pub open spec fn edge_at(&self, i: int) -> EdgeView {
        EdgeView {
            name: self.edge_names@[i]@,
            labels: self.edge_labels@[i]@,
            props: crate::model::value::props_view(self.edge_props@[i]),
            src: self.edge_src@[i],
            tgt: self.edge_tgt@[i],
            directed: self.edge_directed@[i],
        }
    }

    /// The nodes in order.
    pub open spec fn node_seq(&self) -> Seq<NodeView> {
        Seq::new(self.node_names@.len(), |i: int| self.node_at(i))
    }

    /// The edges in order.
    pub open spec fn edge_seq(&self) -> Seq<EdgeView> {
        Seq::new(self.edge_names@.len(), |i: int| self.edge_at(i))
    }

    /// The graph without elements.
    pub fn new() -> (r: Self)
        ensures
            r.wf(),
            r.node_seq() == Seq::<NodeView>::empty(),
            r.edge_seq() == Seq::<EdgeView>::empty(),
    {
        let r = MemoryGraphStore {
            node_names: Vec::new(),
            node_labels: Vec::new(),
            node_props: Vec::new(),
            edge_names: Vec::new(),
            edge_labels: Vec::new(),
            edge_props: Vec::new(),
            edge_src: Vec::new(),
            edge_tgt: Vec::new(),
            edge_directed: Vec::new(),
        };
        assert(r.node_seq() =~= Seq::empty());
        assert(r.edge_seq() =~= Seq::empty());
        r
    }

    /// The graph of the given columns.
    pub fn from_raw(
        node_names: Vec<String>,
        node_labels: Vec<LabelType>,
        node_props: Vec<Props>,
        edge_names: Vec<String>,
        edge_labels: Vec<LabelType>,
        edge_props: Vec<Props>,
        edge_src: Vec<Id>,
        edge_tgt: Vec<Id>,
        edge_directed: Vec<bool>,
    ) -> (r: Self)
        ensures
            r == (MemoryGraphStore {
                node_names,
                node_labels,
                node_props,
                edge_names,
                edge_labels,
                edge_props,
                edge_src,
                edge_tgt,
                edge_directed,
            }),
    {
        MemoryGraphStore {
            node_names,
            node_labels,
            node_props,
            edge_names,
            edge_labels,
            edge_props,
            edge_src,
            edge_tgt,
            edge_directed,
        }
    }

    /// Adds a node under the next id.
    pub fn push_node(&mut self, name: String, labels: LabelType, props: Props) -> (id: Id)
        requires
            old(self).wf(),
            old(self).node_names@.len() < u32::MAX,
        ensures
            final(self).wf(),
            id == old(self).node_names@.len(),
            final(self).node_seq() == old(self).node_seq().push(
                (NodeView {
                    name: name@,
                    labels: labels@,
                    props: crate::model::value::props_view(props),
                }),
            ),
            final(self).edge_seq() == old(self).edge_seq(),
    {
        let id = self.node_names.len() as u32;
        self.node_names.push(name);
        self.node_labels.push(labels);
        self.node_props.push(props);
        proof {
            assert(self.node_seq() =~= old(self).node_seq().push(self.node_at(id as int)));
            assert(self.edge_seq() =~= old(self).edge_seq());
        }
        id
    }

    /// Adds an edge between two nodes under the next id.
    pub fn push_edge(
        &mut self,
        name: String,
        labels: LabelType,
        props: Props,
        src: Id,
        tgt: Id,
        directed: bool,
    ) -> (id: Id)
        requires
            old(self).wf(),
            old(self).edge_names@.len() < u32::MAX,
            src < old(self).node_names@.len(),
            tgt < old(self).node_names@.len(),
        ensures
            final(self).wf(),
            id == old(self).edge_names@.len(),
            final(self).node_seq() == old(self).node_seq(),
            final(self).edge_seq() == old(self).edge_seq().push(
                (EdgeView {
                    name: name@,
                    labels: labels@,
                    props: crate::model::value::props_view(props),
                    src,
                    tgt,
                    directed,
                }),
            ),
    {
        let id = self.edge_names.len() as u32;
        self.edge_names.push(name);
        self.edge_labels.push(labels);
        self.edge_props.push(props);
        self.edge_src.push(src);
        self.edge_tgt.push(tgt);
        self.edge_directed.push(directed);
        proof {
            assert(self.edge_seq() =~= old(self).edge_seq().push(self.edge_at(id as int)));
            assert(self.node_seq() =~= old(self).node_seq());
        }
        id
    }

    /// The labels that an element with these label constraints carries.
    pub fn label_strings(labels: &LabelType) -> (r: Vec<String>)
        ensures
            crate::text::texts(r@) == labels@.required(),
    {
        let required = labels.required_labels();
        let mut out: Vec<String> = Vec::new();
        let mut i: usize = 0;
        while i < required.len()
            invariant
                i <= required.len(),
                out@.len() == i,
                forall|j: int| 0 <= j < i ==> (#[trigger] out@[j])@ == required@[j]@,
            decreases required.len() - i,
        {
            out.push(copy_text(required[i]));
            i = i + 1;
        }
        assert(crate::text::texts(out@) =~= labels@.required());
        out
    }
}

impl GraphAccess for MemoryGraphStore {
    open spec fn model(&self) -> GraphModel {
        GraphModel {
            node_ids: ids_below(self.node_names@.len()),
            nodes: Map::new(
                |id: Id| id < self.node_names@.len(),
                |id: Id| self.node_at(id as int),
            ),
            directed: positions_of(self.edge_directed@, true),
            undirected: positions_of(self.edge_directed@, false),
            edges: Map::new(
                |id: Id| id < self.edge_names@.len(),
                |id: Id| self.edge_at(id as int),
            ),
        }
    }

    open spec fn sound(&self) -> bool {
        self.wf()
    }

    proof fn sound_model(&self)
    {
        positions_in_range(self.edge_directed@, true);
        positions_in_range(self.edge_directed@, false);
        let m = self.model();
        assert forall|i: int| 0 <= i < m.edge_ids().len() implies m.edge_known(
            #[trigger] m.edge_ids()[i],
        ) by {
            let id = m.edge_ids()[i];
            if i < m.directed.len() {
                assert(id == m.directed[i]);
            } else {
                assert(id == m.undirected[i - m.directed.len()]);
            }
            assert(self.edge_src@[id as int] < self.node_names@.len());
            assert(self.edge_tgt@[id as int] < self.node_names@.len());
        }
        assert forall|i: int| 0 <= i < m.node_ids.len() implies m.nodes.contains_key(
            #[trigger] m.node_ids[i],
        ) by {
            assert(m.node_ids[i] == i as Id);
        }
    }

    fn nodes(&self) -> (r: Vec<Id>) {
        list_ids(self.node_names.len())
    }

    fn edges_directed(&self) -> (r: Vec<Id>) {
        list_positions(&self.edge_directed, true)
    }

    fn edges_undirected(&self) -> (r: Vec<Id>) {
        list_positions(&self.edge_directed, false)
    }

    fn node_name(&self, id: Id) -> (r: String) {
        self.node_names[id as usize].clone()
    }

    fn node_labels(&self, id: Id) -> (r: LabelType) {
        self.node_labels[id as usize].clone()
    }

    fn node_props(&self, id: Id) -> (r: Props) {
        clone_props(&self.node_props[id as usize])
    }

    fn edge_name(&self, id: Id) -> (r: String) {
        self.edge_names[id as usize].clone()
    }

    fn edge_labels(&self, id: Id) -> (r: LabelType) {
        self.edge_labels[id as usize].clone()
    }

    fn edge_props(&self, id: Id) -> (r: Props) {
        clone_props(&self.edge_props[id as usize])
    }

    fn src(&self, id: Id) -> (r: Id) {
        self.edge_src[id as usize]
    }

    fn tgt(&self, id: Id) -> (r: Id) {
        self.edge_tgt[id as usize]
    }

    fn is_directed(&self, id: Id) -> (r: bool) {
        self.edge_directed[id as usize]
    }
}

} // verus!
