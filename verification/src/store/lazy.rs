//! A graph that is read from a file record by record, with changes held beside
//! it.

use vstd::prelude::*;

use super::adjacency::Side;
use super::io::save_graph;
use super::lazy_base::LazyBase;
use super::lazy_index::{
    build_label_map, check_lists, no_adjacency, read_adjacency_csr, read_adjacency_lists,
    read_label_map, Adjacency,
};
use super::overlay::{apply_label_mods, labels_from_strings, MutationOverlay};
use super::pager::{Pager, StoreError};
use super::secondary_index::{IndexKind, SecondaryIndex};
use crate::fields::FieldMap;
use crate::model::graph::MemoryGraphStore;
use crate::model::graph_access::{EdgeView, GraphAccess, GraphModel, NodeView};
use crate::model::value::{clone_props, Id, Props};
use crate::text::{copy_text, text_of_u64};
use crate::typing::label_type::LabelType;

verus! {

/// The ids below a count that are not deleted, in order.
pub open spec fn live_ids(n: nat, deleted: Set<Id>) -> Seq<Id>
    decreases n,
{
    if n == 0 {
        Seq::empty()
    } else {
        let rest = live_ids((n - 1) as nat, deleted);
        if deleted.contains((n - 1) as Id) {
            rest
        } else {
            rest.push((n - 1) as Id)
        }
    }
}

/// The edges with or without a direction that are not deleted, in order.
pub open spec fn live_edges(directions: Seq<bool>, deleted: Set<Id>, flag: bool) -> Seq<Id>
    decreases directions.len(),
{
    if directions.len() == 0 {
        Seq::empty()
    } else {
        let rest = live_edges(directions.drop_last(), deleted, flag);
        let id = (directions.len() - 1) as Id;
        if directions.last() == flag && !deleted.contains(id) {
            rest.push(id)
        } else {
            rest
        }
    }
}

/// An id is live exactly where it lies below the count and is not deleted.
pub proof fn live_ids_members(n: nat, deleted: Set<Id>, id: Id)
    requires
        n <= u32::MAX,
    ensures
        live_ids(n, deleted).contains(id) <==> id < n && !deleted.contains(id),
    decreases n,
{
    if n > 0 {
        live_ids_members((n - 1) as nat, deleted, id);
        let rest = live_ids((n - 1) as nat, deleted);
        pushed_id(rest, (n - 1) as Id, id);
    }
}

/// An edge is listed exactly where it is known, of the direction, and not
/// deleted.
pub proof fn live_edges_members(directions: Seq<bool>, deleted: Set<Id>, flag: bool, id: Id)
    requires
        directions.len() <= u32::MAX,
    ensures
        live_edges(directions, deleted, flag).contains(id) <==> id < directions.len()
            && directions[id as int] == flag && !deleted.contains(id),
    decreases directions.len(),
{
    if directions.len() > 0 {
        live_edges_members(directions.drop_last(), deleted, flag, id);
        let rest = live_edges(directions.drop_last(), deleted, flag);
        pushed_id(rest, (directions.len() - 1) as Id, id);
    }
}

proof fn pushed_id(s: Seq<Id>, y: Id, x: Id)
    ensures
        s.push(y).contains(x) <==> s.contains(x) || x == y,
{
    if s.contains(x) {
        let i = choose|i: int| 0 <= i < s.len() && s[i] == x;
        assert(s.push(y)[i] == x);
    }
    assert(s.push(y)[s.len() as int] == y);
    if s.push(y).contains(x) && x != y {
        let i = choose|i: int| 0 <= i < s.push(y).len() && s.push(y)[i] == x;
        assert(s[i] == x);
    }
}

/// A graph in a file with changes beside it.
pub struct LazyGraphStore {
    pub base: LazyBase,
    pub label_to_nodes: FieldMap<Vec<Id>>,
    pub label_to_edges: FieldMap<Vec<Id>>,
    pub adjacency: Adjacency,
    pub overlay: MutationOverlay,
    pub secondary: SecondaryIndex,
}

impl LazyGraphStore {
    /// The directions of all edges, those of the file first.
    pub open spec fn directions(&self) -> Seq<bool> {
        self.base.edge_directed@ + Seq::new(
            self.overlay.new_edges@.len(),
            |i: int| self.overlay.new_edges@[i].directed,
        )
    }

    /// A node as it is now.
    pub open spec fn node(&self, id: Id) -> NodeView {
        self.overlay.node(id, self.base.node(id as int))
    }

    /// An edge as it is now.
    pub open spec fn edge(&self, id: Id) -> EdgeView {
        self.overlay.edge(id, self.base.edge(id as int))
    }

    /// Labels and adjacency are what the records of the file say.
    pub open spec fn indexed(&self) -> bool {
        &&& super::lazy_index::label_map_ok(
            self.label_to_nodes@,
            super::writer::node_label_views(self.base.node_seq()),
        )
        &&& super::lazy_index::label_map_ok(
            self.label_to_edges@,
            super::writer::edge_label_views(self.base.edge_seq()),
        )
        &&& self.adjacency.right(self.base.edge_seq(), self.base.node_locs@.len())
    }

    /// What belongs to the file is the same.
    pub open spec fn same_file(&self, other: &LazyGraphStore) -> bool {
        &&& self.base == other.base
        &&& self.label_to_nodes == other.label_to_nodes
        &&& self.label_to_edges == other.label_to_edges
        &&& self.adjacency == other.adjacency
        &&& self.secondary == other.secondary
    }

    proof fn model_known(&self)
        requires
            self.sound(),
        ensures
            self.model().well_formed(),
    {
        let m = self.model();
        assert forall|i: int| 0 <= i < m.node_ids.len() implies m.nodes.contains_key(
            #[trigger] m.node_ids[i],
        ) by {
            assert(m.node_ids.contains(m.node_ids[i]));
            live_ids_members(
                self.overlay.node_total() as nat,
                self.overlay.deleted_nodes@,
                m.node_ids[i],
            );
        }
        assert forall|i: int| 0 <= i < m.edge_ids().len() implies m.edge_known(
            #[trigger] m.edge_ids()[i],
        ) by {
            let id = m.edge_ids()[i];
            let flag = i < m.directed.len();
            if flag {
                assert(id == m.directed[i]);
                assert(m.directed.contains(id));
            } else {
                assert(id == m.undirected[i - m.directed.len()]);
                assert(m.undirected.contains(id));
            }
            live_edges_members(self.directions(), self.overlay.deleted_edges@, flag, id);
            if id < self.base.edge_locs@.len() {
                assert(super::lazy_base::located_edge(
                    self.base.pager@,
                    self.base.edge_locs@[id as int],
                    self.base.strings@,
                ) is Some);
            } else {
                let e = self.overlay.new_edges@[id - self.base.edge_locs@.len()];
                assert(e.src < self.overlay.node_total());
            }
        }
    }

    /// How many nodes the file has.
    pub fn node_count(&self) -> (r: u32)
        requires
            self.sound(),
        ensures
            r == self.base.node_locs@.len(),
    {
        self.base.node_locs.len() as u32
    }

    /// How many edges the file has.
    pub fn edge_count(&self) -> (r: u32)
        requires
            self.sound(),
        ensures
            r == self.base.edge_locs@.len(),
    {
        self.base.edge_locs.len() as u32
    }
}

fn auto_text(head: &str, id: Id) -> (r: String)
    ensures
        r@ == super::overlay::auto_name(head@, id),
{
    let mut s = copy_text(head);
    s.append(text_of_u64(id as u64).as_str());
    s
}

impl GraphAccess for LazyGraphStore {
    open spec fn model(&self) -> GraphModel {
        GraphModel {
            node_ids: live_ids(self.overlay.node_total() as nat, self.overlay.deleted_nodes@),
            nodes: Map::new(|id: Id| id < self.overlay.node_total(), |id: Id| self.node(id)),
            directed: live_edges(self.directions(), self.overlay.deleted_edges@, true),
            undirected: live_edges(self.directions(), self.overlay.deleted_edges@, false),
            edges: Map::new(|id: Id| id < self.overlay.edge_total(), |id: Id| self.edge(id)),
        }
    }

    open spec fn sound(&self) -> bool {
        &&& self.base.wf()
        &&& self.overlay.wf()
        &&& self.overlay.ends_known()
        &&& self.overlay.base_node_count == self.base.node_locs@.len()
        &&& self.overlay.base_edge_count == self.base.edge_locs@.len()
        &&& self.adjacency.ok()
        &&& super::lazy_index::lists_below(
            self.label_to_edges@,
            self.base.edge_locs@.len() as int,
        )
        &&& self.secondary.wf()
    }

    proof fn sound_model(&self)
    {
        self.model_known();
    }

    fn nodes(&self) -> (r: Vec<Id>) {
        let n = self.overlay.next_node_id();
        let mut out: Vec<Id> = Vec::new();
        let mut i: u32 = 0;
        while i < n
            invariant
                i <= n,
                out@ == live_ids(i as nat, self.overlay.deleted_nodes@),
            decreases n - i,
        {
            if !self.overlay.is_node_deleted(i) {
                out.push(i);
            }
            i = i + 1;
        }
        out
    }

    fn edges_directed(&self) -> (r: Vec<Id>) {
        self.edges_flagged(true)
    }

    fn edges_undirected(&self) -> (r: Vec<Id>) {
        self.edges_flagged(false)
    }

    fn node_name(&self, id: Id) -> (r: String) {
        if id >= self.overlay.base_node_count {
            auto_text("auto-n-", id)
        } else {
            self.base.node_name(id)
        }
    }

    fn node_labels(&self, id: Id) -> (r: LabelType) {
        broadcast use vstd::std_specs::hash::group_hash_axioms;

        match self.overlay.get_new_node(id) {
            Some(n) => n.labels.clone(),
            None => {
                let labels = self.base.node_labels(id);
                match self.overlay.mod_node_labels.get(&id) {
                    Some(mods) => {
                        let list = MemoryGraphStore::label_strings(&labels);
                        labels_from_strings(&apply_label_mods(&list, mods))
                    },
                    None => labels,
                }
            },
        }
    }

    fn node_props(&self, id: Id) -> (r: Props) {
        broadcast use vstd::std_specs::hash::group_hash_axioms;

        match self.overlay.get_new_node(id) {
            Some(n) => clone_props(&n.props),
            None => {
                let props = self.base.node_props(id);
                match self.overlay.mod_node_props.get(&id) {
                    Some(mods) => mods.apply(props),
                    None => props,
                }
            },
        }
    }

    fn edge_name(&self, id: Id) -> (r: String) {
        if id >= self.overlay.base_edge_count {
            auto_text("auto-e-", id)
        } else {
            self.base.edge_name(id)
        }
    }

    fn edge_labels(&self, id: Id) -> (r: LabelType) {
        broadcast use vstd::std_specs::hash::group_hash_axioms;

        match self.overlay.get_new_edge(id) {
            Some(e) => e.labels.clone(),
            None => {
                let labels = self.base.edge_labels(id);
                match self.overlay.mod_edge_labels.get(&id) {
                    Some(mods) => {
                        let list = MemoryGraphStore::label_strings(&labels);
                        labels_from_strings(&apply_label_mods(&list, mods))
                    },
                    None => labels,
                }
            },
        }
    }

    fn edge_props(&self, id: Id) -> (r: Props) {
        broadcast use vstd::std_specs::hash::group_hash_axioms;

        match self.overlay.get_new_edge(id) {
            Some(e) => clone_props(&e.props),
            None => {
                let props = self.base.edge_props(id);
                match self.overlay.mod_edge_props.get(&id) {
                    Some(mods) => mods.apply(props),
                    None => props,
                }
            },
        }
    }

    fn src(&self, id: Id) -> (r: Id) {
        match self.overlay.get_new_edge(id) {
            Some(e) => e.src,
            None => self.base.src(id),
        }
    }

    fn tgt(&self, id: Id) -> (r: Id) {
        match self.overlay.get_new_edge(id) {
            Some(e) => e.tgt,
            None => self.base.tgt(id),
        }
    }

    fn is_directed(&self, id: Id) -> (r: bool) {
        match self.overlay.get_new_edge(id) {
            Some(e) => e.directed,
            None => self.base.is_directed(id),
        }
    }
}

impl LazyGraphStore {
    /// The edges that are not deleted and have a direction, or have none.
    fn edges_flagged(&self, flag: bool) -> (r: Vec<Id>)
        requires
            self.sound(),
        ensures
            r@ == live_edges(self.directions(), self.overlay.deleted_edges@, flag),
    {
        let ghost dirs = self.directions();
        let n = self.overlay.next_edge_id();
        let base = self.overlay.base_edge_count;
        let mut out: Vec<Id> = Vec::new();
        let mut i: u32 = 0;
        assert(dirs.take(0) =~= Seq::empty());
        while i < n
            invariant
                i <= n,
                self.sound(),
                base == self.overlay.base_edge_count,
                dirs == self.directions(),
                n == dirs.len(),
                out@ == live_edges(dirs.take(i as int), self.overlay.deleted_edges@, flag),
            decreases n - i,
        {
            assert(dirs.take(i + 1).drop_last() =~= dirs.take(i as int));
            let d = if i < base {
                self.base.edge_directed[i as usize]
            } else {
                self.overlay.new_edges[(i - base) as usize].directed
            };
            assert(d == dirs[i as int]);
            if d == flag && !self.overlay.is_edge_deleted(i) {
                out.push(i);
            }
            i = i + 1;
        }
        assert(dirs.take(n as int) =~= dirs);
        out
    }
}

/// The inferred indexes of a graph, and no others.
pub open spec fn only_inferred(idx: SecondaryIndex, m: GraphModel) -> bool {
    &&& super::secondary_index::auto_listed(
        super::secondary_index::spec_views(idx.specs@),
        0,
        m,
    )
    &&& forall|l: Seq<char>, p: Seq<char>|
        if super::secondary_index::auto_pair(m, l, p) {
            let items = super::secondary_index::auto_items(m, m.node_ids, l, p);
            &&& (#[trigger] idx.of_kind(IndexKind::Hash, l, p)) is Some
            &&& idx.of_kind(IndexKind::Hash, l, p)->Some_0.holds(items)
            &&& idx.of_kind(IndexKind::BTree, l, p) is Some
            &&& idx.of_kind(IndexKind::BTree, l, p)->Some_0.holds(items)
        } else {
            &&& idx.of_kind(IndexKind::Hash, l, p) is None
            &&& idx.of_kind(IndexKind::BTree, l, p) is None
        }
}

/// What a file says of labels and adjacency.
struct Indexes {
    nodes: FieldMap<Vec<Id>>,
    edges: FieldMap<Vec<Id>>,
    adjacency: Adjacency,
}

/// Labels and adjacency are what an indexed file says.
pub open spec fn indexes_read(
    pages: Seq<Seq<u8>>,
    header: super::pager::Header,
    strings: Seq<Seq<char>>,
    nodes: Map<Seq<char>, Vec<Id>>,
    edges: Map<Seq<char>, Vec<Id>>,
    adjacency: Adjacency,
    node_count: nat,
) -> bool {
    &&& super::lazy_index::index_map(pages, header.label_index_root, strings) == Ok::<
        _,
        StoreError,
    >(super::lazy_index::map_lists(nodes))
    &&& super::lazy_index::index_map(pages, header.edge_label_index_root, strings) == Ok::<
        _,
        StoreError,
    >(super::lazy_index::map_lists(edges))
    &&& if header.csr_adjacency_root != 0 {
        let roots = super::disk_index::u32_list(pages, header.csr_adjacency_root);
        &&& roots is Ok
        &&& super::disk_index::u32_lists(pages, roots->Ok_0) == Ok::<_, StoreError>(
            seq![
                adjacency.outgoing.offsets@,
                adjacency.outgoing.flat@,
                adjacency.incoming.offsets@,
                adjacency.incoming.flat@,
                adjacency.undirected.offsets@,
                adjacency.undirected.flat@,
            ],
        )
    } else if header.adjacency_root != 0 {
        let roots = super::disk_index::pair_list(pages, header.adjacency_root);
        &&& roots is Ok
        &&& super::lazy_index::gathered(pages, roots->Ok_0, 0) is Ok
        &&& super::lazy_index::gathered(pages, roots->Ok_0, 1) is Ok
        &&& super::lazy_index::gathered(pages, roots->Ok_0, 2) is Ok
        &&& adjacency.outgoing.holds(
            super::lazy_index::gathered(pages, roots->Ok_0, 0)->Ok_0,
            node_count,
        )
        &&& adjacency.incoming.holds(
            super::lazy_index::gathered(pages, roots->Ok_0, 1)->Ok_0,
            node_count,
        )
        &&& adjacency.undirected.holds(
            super::lazy_index::gathered(pages, roots->Ok_0, 2)->Ok_0,
            node_count,
        )
    } else {
        &&& adjacency.outgoing.holds(Seq::empty(), node_count)
        &&& adjacency.incoming.holds(Seq::empty(), node_count)
        &&& adjacency.undirected.holds(Seq::empty(), node_count)
    }
}

/// What a file says of labels and adjacency can be read: lists of edges name
/// edges, and edges stand at nodes.
pub open spec fn indexes_readable(
    pages: Seq<Seq<u8>>,
    header: super::pager::Header,
    strings: Seq<Seq<char>>,
    nodes: int,
    edges: int,
) -> bool {
    let listed = super::lazy_index::index_map(pages, header.edge_label_index_root, strings);
    &&& super::lazy_index::index_map(pages, header.label_index_root, strings) is Ok
    &&& listed is Ok
    &&& forall|l: Seq<char>, i: int|
        listed->Ok_0.contains_key(l) && 0 <= i < listed->Ok_0[l].len()
            ==> #[trigger] listed->Ok_0[l][i] < edges
    &&& if header.csr_adjacency_root != 0 {
        let roots = super::disk_index::u32_list(pages, header.csr_adjacency_root);
        &&& roots is Ok
        &&& super::disk_index::u32_lists(pages, roots->Ok_0) is Ok
        &&& super::lazy_index::csr_form(super::disk_index::u32_lists(pages, roots->Ok_0)->Ok_0)
    } else if header.adjacency_root != 0 {
        let roots = super::disk_index::pair_list(pages, header.adjacency_root);
        roots is Ok && super::lazy_index::lists_fit(pages, roots->Ok_0, nodes)
    } else {
        true
    }
}

/// A file that says where its records are can be read.
pub open spec fn indexed_readable(pages: Seq<Seq<u8>>, header: super::pager::Header) -> bool {
    let strings = super::io::file_strings(pages, header);
    &&& strings is Ok
    &&& super::lazy_base::places_readable(pages, header, strings->Ok_0)
    &&& indexes_readable(
        pages,
        header,
        strings->Ok_0,
        super::disk_index::pair_list(pages, header.node_locs_root)->Ok_0.len() as int,
        super::lazy_base::topo_of(pages, header)->Ok_0[0].len() as int,
    )
}

impl Indexes {
    spec fn right(&self, base: &LazyBase) -> bool {
        &&& super::lazy_index::label_map_ok(
            self.nodes@,
            super::writer::node_label_views(base.node_seq()),
        )
        &&& super::lazy_index::label_map_ok(
            self.edges@,
            super::writer::edge_label_views(base.edge_seq()),
        )
        &&& self.adjacency.right(base.edge_seq(), base.node_locs@.len())
    }

    spec fn ok(&self, base: &LazyBase) -> bool {
        self.adjacency.ok() && super::lazy_index::lists_below(
            self.edges@,
            base.edge_locs@.len() as int,
        )
    }
}

proof fn saved_indexes(base: &LazyBase, nodes: Seq<NodeView>, edges: Seq<EdgeView>, x: Indexes)
    requires
        base.wf(),
        base.node_seq() == nodes,
        base.edge_seq() == edges,
        super::io::saved(base.pager@, base.pager.header, base.strings@, nodes, edges),
    ensures
        super::lazy_index::index_map(
            base.pager@,
            base.pager.header.label_index_root,
            base.strings@,
        ) is Ok,
        super::lazy_index::index_map(
            base.pager@,
            base.pager.header.edge_label_index_root,
            base.strings@,
        ) is Ok,
        super::disk_index::u32_list(base.pager@, base.pager.header.csr_adjacency_root) is Ok,
        super::disk_index::u32_lists(
            base.pager@,
            super::disk_index::u32_list(base.pager@, base.pager.header.csr_adjacency_root)->Ok_0,
        ) is Ok,
        super::lazy_index::csr_form(
            super::disk_index::u32_lists(
                base.pager@,
                super::disk_index::u32_list(
                    base.pager@,
                    base.pager.header.csr_adjacency_root,
                )->Ok_0,
            )->Ok_0,
        ),
        super::lazy_index::index_map(
            base.pager@,
            base.pager.header.edge_label_index_root,
            base.strings@,
        )->Ok_0 == super::lazy_index::map_lists(x.edges@) ==> super::lazy_index::lists_below(
            x.edges@,
            base.edge_locs@.len() as int,
        ),
        indexes_read(
            base.pager@,
            base.pager.header,
            base.strings@,
            x.nodes@,
            x.edges@,
            x.adjacency,
            base.node_locs@.len(),
        ) ==> x.right(base),
{
    let pages = base.pager@;
    let h = base.pager.header;
    base.labels_known();
    let nl = super::writer::node_label_views(nodes);
    let el = super::writer::edge_label_views(edges);
    super::lazy_index::label_map_read(pages, h.label_index_root, base.strings@, nl, x.nodes@);
    super::lazy_index::label_map_read(pages, h.edge_label_index_root, base.strings@, el, x.edges@);
    super::lazy_index::saved_adjacency(
        pages,
        h.csr_adjacency_root,
        edges,
        nodes.len(),
        x.adjacency,
    );
    if super::lazy_index::index_map(pages, h.edge_label_index_root, base.strings@)->Ok_0
        == super::lazy_index::map_lists(x.edges@) {
        super::lazy_index::right_lists_below(x.edges@, el);
    }
}

/// Reads labels and adjacency of an indexed file.
fn read_indexes(base: &LazyBase) -> (r: Result<Indexes, StoreError>)
    requires
        base.wf(),
    ensures
        match r {
            Ok(x) => x.ok(base) && indexes_read(
                base.pager@,
                base.pager.header,
                base.strings@,
                x.nodes@,
                x.edges@,
                x.adjacency,
                base.node_locs@.len(),
            ),
            Err(_) => !indexes_readable(
                base.pager@,
                base.pager.header,
                base.strings@,
                base.node_locs@.len() as int,
                base.edge_locs@.len() as int,
            ) && !super::io::saved(
                base.pager@,
                base.pager.header,
                base.strings@,
                base.node_seq(),
                base.edge_seq(),
            ),
        },
        super::io::saved(
            base.pager@,
            base.pager.header,
            base.strings@,
            base.node_seq(),
            base.edge_seq(),
        ) ==> r is Ok && r->Ok_0.right(base),
{
    let ghost is_saved = super::io::saved(
        base.pager@,
        base.pager.header,
        base.strings@,
        base.node_seq(),
        base.edge_seq(),
    );
    let h = base.pager.header;
    let nodes = match read_label_map(&base.pager, h.label_index_root, &base.strings) {
        Ok(m) => m,
        Err(e) => {
            proof {
                if is_saved {
                    saved_indexes(base, base.node_seq(), base.edge_seq(), arbitrary());
                }
            }
            return Err(e);
        },
    };
    let edges = match read_label_map(&base.pager, h.edge_label_index_root, &base.strings) {
        Ok(m) => m,
        Err(e) => {
            proof {
                if is_saved {
                    saved_indexes(base, base.node_seq(), base.edge_seq(), arbitrary());
                }
            }
            return Err(e);
        },
    };
    if !check_lists(&edges, base.edge_locs.len()) {
        proof {
            let (l, i) = choose|l: Seq<char>, i: int|
                edges@.contains_key(l) && 0 <= i < edges@[l]@.len() && !(
                #[trigger] edges@[l]@[i] < base.edge_locs@.len());
            let listed = super::lazy_index::index_map(
                base.pager@,
                h.edge_label_index_root,
                base.strings@,
            );
            assert(listed->Ok_0 == super::lazy_index::map_lists(edges@));
            assert(listed->Ok_0.contains_key(l) && 0 <= i < listed->Ok_0[l].len());
            assert(listed->Ok_0[l][i] == edges@[l]@[i]);
            assert(!indexes_readable(
                base.pager@,
                h,
                base.strings@,
                base.node_locs@.len() as int,
                base.edge_locs@.len() as int,
            ));
            if is_saved {
                let x = (Indexes { nodes, edges, adjacency: arbitrary() });
                saved_indexes(base, base.node_seq(), base.edge_seq(), x);
            }
        }
        return Err(StoreError::Malformed);
    }
    let n = base.node_locs.len();
    let read = if h.csr_adjacency_root != 0 {
        read_adjacency_csr(&base.pager, h.csr_adjacency_root)
    } else if h.adjacency_root != 0 {
        read_adjacency_lists(&base.pager, h.adjacency_root, n)
    } else {
        Ok(no_adjacency(n))
    };
    match read {
        Ok(adjacency) => {
            let x = Indexes { nodes, edges, adjacency };
            proof {
                if is_saved {
                    saved_indexes(base, base.node_seq(), base.edge_seq(), x);
                }
            }
            Ok(x)
        },
        Err(e) => {
            proof {
                if is_saved {
                    saved_indexes(base, base.node_seq(), base.edge_seq(), arbitrary());
                }
            }
            Err(e)
        },
    }
}

/// Collects labels and adjacency from the records.
fn collect_indexes(base: &LazyBase) -> (r: Result<Indexes, StoreError>)
    requires
        base.wf(),
    ensures
        match r {
            Ok(x) => x.ok(base) && x.right(base),
            Err(e) => e == StoreError::TooManyEdges && super::adjacency::edge_pairs(
                base.edge_seq(),
                Side::Undirected,
            ).len() > u32::MAX,
        },
{
    let adjacency = match base.build_adjacency() {
        Ok(a) => a,
        Err(e) => {
            return Err(e);
        },
    };
    let node_labels = base.node_label_list();
    let edge_labels = base.edge_label_list();
    assert(super::lazy_index::type_views(node_labels@).len() == base.node_locs@.len());
    assert(super::lazy_index::type_views(edge_labels@).len() == base.edge_locs@.len());
    let nodes = build_label_map(&node_labels);
    let edges = build_label_map(&edge_labels);
    proof {
        adjacency.right_ok(base.edge_seq(), base.node_locs@.len());
        super::lazy_index::right_lists_below(
            edges@,
            super::writer::edge_label_views(base.edge_seq()),
        );
    }
    Ok(Indexes { nodes, edges, adjacency })
}

/// The indexes on properties of a graph, if they are wanted.
fn infer_indexes(base: &LazyBase, infer: bool) -> (r: SecondaryIndex)
    requires
        base.wf(),
    ensures
        r.wf(),
        infer ==> only_inferred(r, base.model()),
        !infer ==> r.specs@.len() == 0 && forall|k: IndexKind, l: Seq<char>, p: Seq<char>|
            (#[trigger] r.of_kind(k, l, p)) is None,
{
    let mut secondary = SecondaryIndex::new();
    assert(super::secondary_index::spec_views(secondary.specs@).len() == 0);
    if infer {
        let ghost none = secondary;
        secondary.auto_build(base);
        proof {
            assert forall|l: Seq<char>, p: Seq<char>|
                if super::secondary_index::auto_pair(base.model(), l, p) {
                    let items = super::secondary_index::auto_items(
                        base.model(),
                        base.model().node_ids,
                        l,
                        p,
                    );
                    &&& (#[trigger] secondary.of_kind(IndexKind::Hash, l, p)) is Some
                    &&& secondary.of_kind(IndexKind::Hash, l, p)->Some_0.holds(items)
                    &&& secondary.of_kind(IndexKind::BTree, l, p) is Some
                    &&& secondary.of_kind(IndexKind::BTree, l, p)->Some_0.holds(items)
                } else {
                    &&& secondary.of_kind(IndexKind::Hash, l, p) is None
                    &&& secondary.of_kind(IndexKind::BTree, l, p) is None
                } by {
                assert(secondary.inferred(&none, base.model(), l, p));
            }
        }
    }
    secondary
}

/// A file that was saved with these nodes and edges.
spec fn is_saved(
    pages: Seq<Seq<u8>>,
    header: super::pager::Header,
    nodes: Seq<NodeView>,
    edges: Seq<EdgeView>,
) -> bool {
    exists|st: Seq<Seq<char>>| #[trigger] super::io::saved(pages, header, st, nodes, edges)
}

/// What keeps a file from being opened that can be read but does not say where
/// its records are: more ends of undirected edges than can be counted, or no
/// room for the places of its records.
pub open spec fn upgrade_blocks(
    pages: Seq<Seq<u8>>,
    header: super::pager::Header,
    e: StoreError,
) -> bool {
    let (nodes, edges) = super::io::file_graph(pages, header)->Ok_0;
    ||| e == StoreError::Full && pages.len() + super::io::place_pages(
        super::io::table_pages(pages, header)->Ok_0.len(),
        nodes.len(),
        edges.len(),
    ) > u32::MAX
    ||| e == StoreError::TooManyEdges && super::adjacency::edge_pairs(
        edges,
        Side::Undirected,
    ).len() > u32::MAX
}

/// Loads the graph of a file with labels and adjacency.
fn load(pager: Pager) -> (r: Result<(LazyBase, Indexes), StoreError>)
    requires
        pager.wf(),
    ensures
        match r {
            Ok((b, x)) => {
                &&& b.wf()
                &&& x.ok(&b)
                &&& super::lazy_base::indexed_file(b.pager.header)
                &&& b.places_listed()
                &&& super::io::file_strings(b.pager@, b.pager.header) == Ok::<_, StoreError>(
                    b.strings@,
                )
                &&& if super::lazy_base::indexed_file(pager.header) {
                    &&& b.pager == pager
                    &&& indexes_read(
                        pager@,
                        pager.header,
                        b.strings@,
                        x.nodes@,
                        x.edges@,
                        x.adjacency,
                        b.node_locs@.len(),
                    )
                } else {
                    &&& super::lazy_base::readable(pager@, pager.header)
                    &&& super::io::file_graph(pager@, pager.header) == Ok::<_, StoreError>(
                        (b.node_seq(), b.edge_seq()),
                    )
                    &&& x.right(&b)
                }
            },
            Err(e) => {
                &&& forall|nodes: Seq<NodeView>, edges: Seq<EdgeView>|
                    !#[trigger] is_saved(pager@, pager.header, nodes, edges)
                &&& super::lazy_base::indexed_file(pager.header) ==> !indexed_readable(
                    pager@,
                    pager.header,
                )
                &&& !super::lazy_base::indexed_file(pager.header) ==> {
                    ||| !super::lazy_base::readable(pager@, pager.header)
                    ||| upgrade_blocks(pager@, pager.header, e)
                }
            },
        },
        forall|nodes: Seq<NodeView>, edges: Seq<EdgeView>| #[trigger]
            is_saved(pager@, pager.header, nodes, edges) ==> r is Ok && r->Ok_0.0.node_seq()
                == nodes && r->Ok_0.0.edge_seq() == edges && r->Ok_0.1.right(&r->Ok_0.0),
{
    let h = pager.header;
    if h.string_table_root != 0 && h.node_locs_root != 0 && h.edge_topo_root != 0 {
        load_indexed(pager)
    } else {
        load_plain(pager)
    }
}

fn load_indexed(pager: Pager) -> (r: Result<(LazyBase, Indexes), StoreError>)
    requires
        pager.wf(),
        super::lazy_base::indexed_file(pager.header),
    ensures
        match r {
            Ok((b, x)) => {
                &&& b.wf()
                &&& x.ok(&b)
                &&& b.places_listed()
                &&& super::io::file_strings(b.pager@, b.pager.header) == Ok::<_, StoreError>(
                    b.strings@,
                )
                &&& b.pager == pager
                &&& indexes_read(
                    pager@,
                    pager.header,
                    b.strings@,
                    x.nodes@,
                    x.edges@,
                    x.adjacency,
                    b.node_locs@.len(),
                )
            },
            Err(e) => {
                &&& !indexed_readable(pager@, pager.header)
                &&& forall|nodes: Seq<NodeView>, edges: Seq<EdgeView>|
                    !#[trigger] is_saved(pager@, pager.header, nodes, edges)
            },
        },
        forall|nodes: Seq<NodeView>, edges: Seq<EdgeView>| #[trigger]
            is_saved(pager@, pager.header, nodes, edges) ==> r is Ok && r->Ok_0.0.node_seq()
                == nodes && r->Ok_0.0.edge_seq() == edges && r->Ok_0.1.right(&r->Ok_0.0),
{
    let base = match LazyBase::open(pager) {
        Ok(b) => b,
        Err(e) => {
            return Err(e);
        },
    };
    let ghost now = super::io::saved(
        base.pager@,
        base.pager.header,
        base.strings@,
        base.node_seq(),
        base.edge_seq(),
    );
    proof {
        assert forall|nodes: Seq<NodeView>, edges: Seq<EdgeView>| #[trigger]
            is_saved(base.pager@, base.pager.header, nodes, edges) implies now && base.node_seq()
            == nodes && base.edge_seq() == edges by {
            let st = choose|st: Seq<Seq<char>>| #[trigger]
                super::io::saved(base.pager@, base.pager.header, st, nodes, edges);
            assert(base.strings@ == st);
        }
    }
    assert(super::lazy_base::topo_of(base.pager@, base.pager.header)->Ok_0[0].len()
        == base.edge_locs@.len());
    match read_indexes(&base) {
        Ok(x) => Ok((base, x)),
        Err(e) => Err(e),
    }
}

fn load_plain(pager: Pager) -> (r: Result<(LazyBase, Indexes), StoreError>)
    requires
        pager.wf(),
        !super::lazy_base::indexed_file(pager.header),
    ensures
        match r {
            Ok((b, x)) => {
                &&& b.wf()
                &&& x.ok(&b)
                &&& super::lazy_base::indexed_file(b.pager.header)
                &&& b.places_listed()
                &&& super::io::file_strings(b.pager@, b.pager.header) == Ok::<_, StoreError>(
                    b.strings@,
                )
                &&& super::lazy_base::readable(pager@, pager.header)
                &&& super::io::file_graph(pager@, pager.header) == Ok::<_, StoreError>(
                    (b.node_seq(), b.edge_seq()),
                )
                &&& x.right(&b)
            },
            Err(e) => {
                ||| !super::lazy_base::readable(pager@, pager.header)
                ||| upgrade_blocks(pager@, pager.header, e)
            },
        },
        forall|nodes: Seq<NodeView>, edges: Seq<EdgeView>|
            !#[trigger] is_saved(pager@, pager.header, nodes, edges),
{
    let mut base = match LazyBase::open(pager) {
        Ok(b) => b,
        Err(e) => {
            return Err(e);
        },
    };
    proof {
        assert forall|i: int| 0 <= i < base.edge_seq().len() implies (
        #[trigger] base.edge_seq()[i]).src < base.node_locs@.len() && base.edge_seq()[i].tgt
            < base.node_locs@.len() by {
            assert(base.edge(i) == base.edge_seq()[i]);
        }
    }
    let x = match collect_indexes(&base) {
        Ok(x) => x,
        Err(e) => {
            return Err(e);
        },
    };
    match base.upgrade_file() {
        Ok(_) => Ok((base, x)),
        Err(e) => Err(e),
    }
}

/// What comes of opening a file, with indexes on properties inferred or not.
pub open spec fn open_outcome(
    pager: Pager,
    infer: bool,
    r: Result<LazyGraphStore, StoreError>,
) -> bool {
    &&& match r {
        Ok(s) => {
            &&& s.sound()
            &&& s.overlay.is_clean()
            &&& super::lazy_base::indexed_file(s.base.pager.header)
            &&& s.base.places_listed()
            &&& super::io::file_strings(s.base.pager@, s.base.pager.header) == Ok::<
                _,
                StoreError,
            >(s.base.strings@)
            &&& if super::lazy_base::indexed_file(pager.header) {
                &&& s.base.pager == pager
                &&& indexes_read(
                    pager@,
                    pager.header,
                    s.base.strings@,
                    s.label_to_nodes@,
                    s.label_to_edges@,
                    s.adjacency,
                    s.base.node_locs@.len(),
                )
            } else {
                &&& super::lazy_base::readable(pager@, pager.header)
                &&& super::io::file_graph(pager@, pager.header) == Ok::<_, StoreError>(
                    (s.base.node_seq(), s.base.edge_seq()),
                )
                &&& s.indexed()
            }
            &&& infer ==> only_inferred(s.secondary, s.base.model())
            &&& !infer ==> s.secondary.specs@.len() == 0 && forall|
                k: IndexKind,
                l: Seq<char>,
                p: Seq<char>,
            |
                (#[trigger] s.secondary.of_kind(k, l, p)) is None
        },
        Err(e) => {
            &&& forall|st: Seq<Seq<char>>, nodes: Seq<NodeView>, edges: Seq<EdgeView>|
                !#[trigger] super::io::saved(pager@, pager.header, st, nodes, edges)
            &&& super::lazy_base::indexed_file(pager.header) ==> !indexed_readable(
                pager@,
                pager.header,
            )
            &&& !super::lazy_base::indexed_file(pager.header) ==> {
                ||| !super::lazy_base::readable(pager@, pager.header)
                ||| upgrade_blocks(pager@, pager.header, e)
            }
        },
    }
    &&& forall|st: Seq<Seq<char>>, nodes: Seq<NodeView>, edges: Seq<EdgeView>| #[trigger]
        super::io::saved(pager@, pager.header, st, nodes, edges) ==> r is Ok
            && r->Ok_0.base.node_seq() == nodes && r->Ok_0.base.edge_seq() == edges
            && r->Ok_0.indexed()
}

impl LazyGraphStore {
    /// Opens a file, and infers indexes on properties if they are wanted. A file
    /// that does not say where its records are is looked through, and then
    /// says so.
    pub fn open_with_indexes(pager: Pager, infer: bool) -> (r: Result<LazyGraphStore, StoreError>)
        requires
            pager.wf(),
        ensures
            open_outcome(pager, infer, r),
    {
        let ghost pages = pager@;
        let ghost header = pager.header;
        let loaded = load(pager);
        proof {
            assert forall|st: Seq<Seq<char>>, nodes: Seq<NodeView>, edges: Seq<EdgeView>| #[trigger]
                super::io::saved(pages, header, st, nodes, edges) implies is_saved(
                pages,
                header,
                nodes,
                edges,
            ) by {}
        }
        let (base, x) = match loaded {
            Ok(t) => t,
            Err(e) => {
                return Err(e);
            },
        };
        let secondary = infer_indexes(&base, infer);
        let overlay = MutationOverlay::new(base.node_locs.len() as u32, base.edge_locs.len() as u32);
        let Indexes { nodes, edges, adjacency } = x;
        Ok(
            LazyGraphStore {
                base,
                label_to_nodes: nodes,
                label_to_edges: edges,
                adjacency,
                overlay,
                secondary,
            },
        )
    }

    /// Opens a file, with indexes on properties inferred.
    pub fn open(pager: Pager) -> (r: Result<LazyGraphStore, StoreError>)
        requires
            pager.wf(),
        ensures
            open_outcome(pager, true, r),
    {
        LazyGraphStore::open_with_indexes(pager, true)
    }

    /// The indexes on properties that are inferred from the file.
    pub fn build_auto_indexes_bulk(&self) -> (r: SecondaryIndex)
        requires
            self.sound(),
        ensures
            r.wf(),
            only_inferred(r, self.base.model()),
    {
        infer_indexes(&self.base, true)
    }

    /// The indexes on properties.
    pub fn secondary_indexes(&self) -> (r: &SecondaryIndex)
        ensures
            *r == self.secondary,
    {
        &self.secondary
    }

    /// The indexes on properties, to be changed.
    pub fn secondary_indexes_mut(&mut self) -> (r: &mut SecondaryIndex)
        ensures
            *r == old(self).secondary,
            *final(self) == (LazyGraphStore { secondary: *final(r), ..*old(self) }),
    {
        &mut self.secondary
    }

    /// Opens a file, or a new one of a graph with nothing in it where there is
    /// none.
    pub fn open_or_create(pager: Option<Pager>) -> (r: Result<LazyGraphStore, StoreError>)
        requires
            pager is Some ==> pager->Some_0.wf(),
        ensures
            match pager {
                Some(p) => open_outcome(p, true, r),
                None => match r {
                    Ok(s) => {
                        &&& s.sound()
                        &&& s.overlay.is_clean()
                        &&& s.base.node_seq() == Seq::<NodeView>::empty()
                        &&& s.base.edge_seq() == Seq::<EdgeView>::empty()
                        &&& s.indexed()
                        &&& only_inferred(s.secondary, s.base.model())
                    },
                    Err(_) => false,
                },
            },
    {
        match pager {
            Some(p) => LazyGraphStore::open(p),
            None => {
                let empty = MemoryGraphStore::new();
                let mut p = Pager::create();
                proof {
                    assert(super::io::stored_nodes(empty.node_seq()) =~= Seq::empty());
                    assert(super::io::stored_edges(empty.edge_seq()) =~= Seq::empty());
                    assert(empty.node_seq() =~= Seq::empty());
                    assert(empty.edge_seq() =~= Seq::empty());
                }
                match save_graph(&empty, &mut p) {
                    Ok(_) => {
                        let ghost strings = choose|strings: Seq<Seq<char>>| #[trigger]
                            super::io::saved(
                                p@,
                                p.header,
                                strings,
                                Seq::<NodeView>::empty(),
                                Seq::<EdgeView>::empty(),
                            );
                        assert(super::io::saved(
                            p@,
                            p.header,
                            strings,
                            Seq::<NodeView>::empty(),
                            Seq::<EdgeView>::empty(),
                        ));
                        LazyGraphStore::open(p)
                    },
                    Err(e) => Err(e),
                }
            },
        }
    }
}

} // verus!
