//! A graph in a file that is held in memory as well, with elements by the names
//! that their makers gave them.

use vstd::prelude::*;

use super::adjacency::{build_csr, collect_pairs, Side};
use super::io::{load_graph, write_edges, write_nodes};
use super::lazy_index::{build_label_map, Adjacency};
use super::names::{copy_names, index_names, keep_flagged, named_step, NamedStep};
use super::pager::{Pager, StoreError};
use super::string_table::StringTable;
use super::writer::Writer;
use crate::fields::FieldMap;
use crate::model::graph::{list_positions, MemoryGraphStore};
use crate::model::graph_access::{EdgeView, NodeView};
use crate::model::value::{Id, Props};
use crate::typing::inference::labels_to_label_type;
use crate::typing::label_type::LabelType;

verus! {

/// A node to be put into a graph.
pub struct NodeRecord {
    pub id: String,
    pub labels: Vec<String>,
    pub props: Props,
}

/// An edge to be put into a graph, with the names of the nodes that it joins.
pub struct EdgeRecord {
    pub id: String,
    pub labels: Vec<String>,
    pub props: Props,
    pub src: String,
    pub tgt: String,
    pub directed: bool,
}

/// Why records are not a graph that can be stored.
pub enum ImportError {
    UnknownSource(String),
    UnknownTarget(String),
    TooManyElements,
    Store(StoreError),
}

impl NodeRecord {
    /// The node.
    pub open spec fn view(&self) -> NodeView {
        NodeView {
            name: self.id@,
            labels: crate::typing::inference::label_conjunction(crate::text::texts(self.labels@)),
            props: crate::model::value::props_view(self.props),
        }
    }
}

impl EdgeRecord {
    /// The edge in a graph whose nodes have the given names.
    pub open spec fn edge(&self, names: Seq<Seq<char>>) -> EdgeView {
        EdgeView {
            name: self.id@,
            labels: crate::typing::inference::label_conjunction(crate::text::texts(self.labels@)),
            props: crate::model::value::props_view(self.props),
            src: super::string_table::last_index(names, self.src@) as Id,
            tgt: super::string_table::last_index(names, self.tgt@) as Id,
            directed: self.directed,
        }
    }
}

/// The nodes of records.
pub open spec fn record_nodes(v: Seq<NodeRecord>) -> Seq<NodeView> {
    Seq::new(v.len(), |i: int| v[i]@)
}

/// The edges of records.
pub open spec fn record_edges(v: Seq<EdgeRecord>, names: Seq<Seq<char>>) -> Seq<EdgeView> {
    Seq::new(v.len(), |i: int| v[i].edge(names))
}

/// The names of records.
pub open spec fn record_names(v: Seq<NodeRecord>) -> Seq<Seq<char>> {
    Seq::new(v.len(), |i: int| v[i].id@)
}

/// The names of the ends of edges: where they come from and where they go.
pub open spec fn record_ends(v: Seq<EdgeRecord>) -> Seq<(Seq<char>, Seq<char>)> {
    Seq::new(v.len(), |i: int| (v[i].src@, v[i].tgt@))
}

/// An end that no node has the name of.
pub ghost enum EndFault {
    Source(Seq<char>),
    Target(Seq<char>),
}

/// The first end that no node has the name of.
pub open spec fn end_fault(ends: Seq<(Seq<char>, Seq<char>)>, names: Seq<Seq<char>>) -> Option<
    EndFault,
>
    decreases ends.len(),
{
    if ends.len() == 0 {
        None
    } else {
        match end_fault(ends.drop_last(), names) {
            Some(f) => Some(f),
            None => if !names.contains(ends.last().0) {
                Some(EndFault::Source(ends.last().0))
            } else if !names.contains(ends.last().1) {
                Some(EndFault::Target(ends.last().1))
            } else {
                None
            },
        }
    }
}

/// What is wrong with the first edges is wrong with all.
proof fn fault_stays(ends: Seq<(Seq<char>, Seq<char>)>, names: Seq<Seq<char>>, k: int)
    requires
        0 <= k <= ends.len(),
        end_fault(ends.take(k), names) is Some,
    ensures
        end_fault(ends, names) == end_fault(ends.take(k), names),
    decreases ends.len(),
{
    if k < ends.len() {
        assert(ends.drop_last().take(k) =~= ends.take(k));
        fault_stays(ends.drop_last(), names, k);
    } else {
        assert(ends.take(k) =~= ends);
    }
}

/// How many pages a file of records takes at most: the first one, one with
/// strings, and those of the records and their texts.
pub open spec fn record_pages(nodes: Seq<NodeView>, edges: Seq<EdgeView>) -> nat {
    2 + super::io::nodes_pages(nodes) + super::io::edges_pages(edges)
}

/// What comes of storing a graph whose edges name their ends. More elements
/// than can be numbered come first, then the first end that is no node, then
/// what keeps an element from being stored. The pages may run out only where
/// as many as the graph may take cannot be numbered.
pub open spec fn stored_outcome(
    nodes: Seq<NodeView>,
    edges: Seq<EdgeView>,
    ends: Seq<(Seq<char>, Seq<char>)>,
    names: Seq<Seq<char>>,
    r: Result<GraphStore, ImportError>,
) -> bool {
    if nodes.len() > u32::MAX || edges.len() > u32::MAX {
        r matches Err(ImportError::TooManyElements)
    } else {
        match end_fault(ends, names) {
            Some(EndFault::Source(s)) => r matches Err(ImportError::UnknownSource(x)) && x@ == s,
            Some(EndFault::Target(s)) => r matches Err(ImportError::UnknownTarget(x)) && x@ == s,
            None => match r {
                Ok(s) => {
                    &&& s.wf()
                    &&& s.pager.wf()
                    &&& s.graph.node_seq() == nodes
                    &&& s.graph.edge_seq() == edges
                    &&& s.pager.header.node_count == nodes.len()
                    &&& s.pager.header.edge_count == edges.len()
                    &&& s.pager.header.string_table_root == 1
                    &&& s.in_file()
                    &&& forall|e: StoreError| !#[trigger] super::io::graph_blocks(nodes, edges, e)
                },
                Err(ImportError::Store(e)) => (e == StoreError::Full && record_pages(nodes, edges)
                    > u32::MAX) || super::io::graph_blocks(nodes, edges, e),
                Err(_) => false,
            },
        }
    }
}

/// A graph that nothing blocks is stored wherever its pages can be numbered.
pub proof fn stores_unblocked(
    nodes: Seq<NodeView>,
    edges: Seq<EdgeView>,
    ends: Seq<(Seq<char>, Seq<char>)>,
    names: Seq<Seq<char>>,
    r: Result<GraphStore, ImportError>,
)
    requires
        stored_outcome(nodes, edges, ends, names, r),
        nodes.len() <= u32::MAX,
        edges.len() <= u32::MAX,
        end_fault(ends, names) is None,
        forall|e: StoreError| !#[trigger] super::io::graph_blocks(nodes, edges, e),
        record_pages(nodes, edges) <= u32::MAX,
    ensures
        r is Ok,
{
}

/// The graph of records. The first edge with an end that is not known is named.
pub fn assemble(nodes: &Vec<NodeRecord>, edges: &Vec<EdgeRecord>) -> (r: Result<
    MemoryGraphStore,
    ImportError,
>)
    ensures
        ({
            let names = record_names(nodes@);
            if nodes@.len() > u32::MAX || edges@.len() > u32::MAX {
                r matches Err(ImportError::TooManyElements)
            } else {
                match end_fault(record_ends(edges@), names) {
                    Some(EndFault::Source(s)) => r matches Err(ImportError::UnknownSource(x)) && x@
                        == s,
                    Some(EndFault::Target(s)) => r matches Err(ImportError::UnknownTarget(x)) && x@
                        == s,
                    None => r matches Ok(g) && g.wf() && g.node_seq() == record_nodes(nodes@)
                        && g.edge_seq() == record_edges(edges@, names),
                }
            }
        }),
{
    if nodes.len() > u32::MAX as usize || edges.len() > u32::MAX as usize {
        return Err(ImportError::TooManyElements);
    }
    let ghost names = record_names(nodes@);
    let mut g = MemoryGraphStore::new();
    let mut i: usize = 0;
    assert(g.node_seq() =~= record_nodes(nodes@).take(0));
    while i < nodes.len()
        invariant
            i <= nodes.len() <= u32::MAX,
            g.wf(),
            g.node_names@.len() == i,
            g.node_seq() == record_nodes(nodes@).take(i as int),
            g.edge_seq() == Seq::<EdgeView>::empty(),
        decreases nodes.len() - i,
    {
        let n = &nodes[i];
        let ghost before = g.node_seq();
        let _ = g.push_node(
            n.id.clone(),
            labels_to_label_type(&n.labels),
            crate::model::value::clone_props(&n.props),
        );
        assert(record_nodes(nodes@).take(i + 1) =~= record_nodes(nodes@).take(i as int).push(n@));
        i = i + 1;
    }
    proof {
        assert(record_nodes(nodes@).take(i as int) =~= record_nodes(nodes@));
        assert forall|j: int| 0 <= j < names.len() implies crate::text::texts(g.node_names@)[j]
            == names[j] by {
            assert(g.node_seq()[j] == record_nodes(nodes@)[j]);
            assert(g.node_seq()[j] == g.node_at(j));
        }
        assert(crate::text::texts(g.node_names@) =~= names);
    }
    let ids = index_names(&g.node_names);
    let ghost node_count = g.node_names@.len();
    let ghost ends = record_ends(edges@);
    let mut k: usize = 0;
    assert(g.edge_seq() =~= record_edges(edges@, names).take(0));
    while k < edges.len()
        invariant
            k <= edges.len() <= u32::MAX,
            g.wf(),
            names == record_names(nodes@),
            names.len() == node_count,
            g.node_names@.len() == node_count,
            g.edge_names@.len() == k,
            g.node_seq() == record_nodes(nodes@),
            g.edge_seq() == record_edges(edges@, names).take(k as int),
            super::names::names_ok(ids@, names),
            ends == record_ends(edges@),
            end_fault(ends.take(k as int), names) is None,
        decreases edges.len() - k,
    {
        let e = &edges[k];
        proof {
            assert(ends.take(k + 1).drop_last() =~= ends.take(k as int));
            assert(ends.take(k + 1).last() == (e.src@, e.tgt@));
        }
        let src = match ids.get(e.src.as_str()) {
            Some(x) => *x,
            None => {
                assert(edges@[k as int].src@ == e.src@);
                assert(!ids@.contains_key(e.src@));
                proof {
                    fault_stays(ends, names, k + 1);
                }
                return Err(ImportError::UnknownSource(e.src.clone()));
            },
        };
        assert(ids@.contains_key(e.src@));
        let tgt = match ids.get(e.tgt.as_str()) {
            Some(x) => *x,
            None => {
                assert(edges@[k as int].tgt@ == e.tgt@);
                assert(!ids@.contains_key(e.tgt@));
                proof {
                    fault_stays(ends, names, k + 1);
                }
                return Err(ImportError::UnknownTarget(e.tgt.clone()));
            },
        };
        assert(ids@.contains_key(e.tgt@));
        let ghost had = g.edge_seq();
        let _ = g.push_edge(
            e.id.clone(),
            labels_to_label_type(&e.labels),
            crate::model::value::clone_props(&e.props),
            src,
            tgt,
            e.directed,
        );
        proof {
            assert(record_edges(edges@, names).take(k + 1) =~= record_edges(edges@, names).take(
                k as int,
            ).push(e.edge(names)));
            assert(g.node_seq().len() == g.node_names@.len());
        }
        k = k + 1;
    }
    assert(record_edges(edges@, names).take(k as int) =~= record_edges(edges@, names));
    assert(ends.take(k as int) =~= ends);
    Ok(g)
}

/// Whether every edge joins nodes of the graph.
fn check_ends(graph: &MemoryGraphStore) -> (r: bool)
    requires
        graph.columns_ok(),
    ensures
        r == super::io::ends_known(graph.edge_seq(), graph.node_names@.len() as int),
{
    let n = graph.node_names.len();
    let ghost edges = graph.edge_seq();
    let mut i: usize = 0;
    while i < graph.edge_src.len()
        invariant
            i <= graph.edge_src.len(),
            graph.columns_ok(),
            n == graph.node_names@.len(),
            edges == graph.edge_seq(),
            forall|j: int|
                0 <= j < i ==> (#[trigger] edges[j]).src < n && edges[j].tgt < n,
        decreases graph.edge_src.len() - i,
    {
        assert(edges[i as int] == graph.edge_at(i as int));
        if graph.edge_src[i] as usize >= n || graph.edge_tgt[i] as usize >= n {
            return false;
        }
        i = i + 1;
    }
    true
}

/// What comes of opening a file.
pub open spec fn open_outcome(pager: Pager, r: Result<GraphStore, StoreError>) -> bool {
    let header = (super::pager::Header { string_table_root: 0, ..pager.header });
    let found = super::io::file_graph(pager@, header);
    match r {
        Ok(s) => {
            &&& s.wf()
            &&& s.pager == pager
            &&& found == Ok::<_, StoreError>((s.graph.node_seq(), s.graph.edge_seq()))
            &&& super::io::file_strings(pager@, header) == Ok::<_, StoreError>(
                s.strings@,
            )
        },
        Err(e) => match found {
            Err(f) => e == f,
            Ok((nodes, edges)) => (e == StoreError::Malformed && !(nodes.len()
                <= u32::MAX && edges.len() <= u32::MAX && super::io::ends_known(
                edges,
                nodes.len() as int,
            ))) || (e == StoreError::TooManyEdges && super::adjacency::edge_pairs(
                edges,
                Side::Undirected,
            ).len() > u32::MAX),
        },
    }
}

/// A store that was made of records is there again when its file is opened.
pub proof fn records_persist(s: GraphStore, r: Result<GraphStore, StoreError>)
    requires
        s.wf(),
        s.in_file(),
        open_outcome(s.pager, r),
    ensures
        r is Ok,
        r->Ok_0.graph.node_seq() == super::io::stored_nodes(s.graph.node_seq()),
        r->Ok_0.graph.edge_seq() == super::io::stored_edges(s.graph.edge_seq()),
        r->Ok_0.pager == s.pager,
        r->Ok_0.strings@ == s.strings@,
{
    let edges = super::io::stored_edges(s.graph.edge_seq());
    let n = s.graph.node_names@.len();
    assert forall|i: int| 0 <= i < edges.len() implies (#[trigger] edges[i]).src < n
        && edges[i].tgt < n by {
        assert(s.graph.edge_seq()[i] == s.graph.edge_at(i));
        assert(s.graph.edge_src@[i] < n);
        assert(s.graph.edge_tgt@[i] < n);
    }
    super::adjacency::pairs_same(edges, s.graph.edge_seq(), Side::Undirected);
    let pairs = super::adjacency::edge_pairs(edges, Side::Undirected);
    super::adjacency::pairs_range(edges, Side::Undirected, n as int);
    super::adjacency::flat_full(pairs, n);
    assert(s.adjacency.side(Side::Undirected).holds(pairs, n));
}

/// A graph that was saved is there again when its file is opened.
pub proof fn saved_opens(
    pager: Pager,
    r: Result<GraphStore, StoreError>,
    strings: Seq<Seq<char>>,
    nodes: Seq<NodeView>,
    edges: Seq<EdgeView>,
)
    requires
        super::io::saved(pager@, pager.header, strings, nodes, edges),
        open_outcome(pager, r),
    ensures
        r is Ok,
        r->Ok_0.graph.node_seq() == nodes,
        r->Ok_0.graph.edge_seq() == edges,
        r->Ok_0.strings@ == strings,
{
    let header = super::pager::Header { string_table_root: 0, ..pager.header };
    super::io::saved_by_scan(pager@, pager.header, strings, nodes, edges, header);
    let pairs = super::adjacency::edge_pairs(edges, Side::Undirected);
    super::adjacency::pairs_range(edges, Side::Undirected, nodes.len() as int);
    super::adjacency::flat_full(pairs, nodes.len());
    assert(super::adjacency::flat_upto(pairs, nodes.len()).len() <= u32::MAX);
}

/// A graph in a file and in memory.
pub struct GraphStore {
    pub pager: Pager,
    pub strings: StringTable,
    pub graph: MemoryGraphStore,
    pub node_id_map: FieldMap<Id>,
    pub edge_id_map: FieldMap<Id>,
    pub label_to_nodes: FieldMap<Vec<Id>>,
    pub label_to_edges: FieldMap<Vec<Id>>,
    pub adjacency: Adjacency,
}

impl GraphStore {
    /// The names of the nodes.
    pub open spec fn node_names(&self) -> Seq<Seq<char>> {
        crate::text::texts(self.graph.node_names@)
    }

    /// The names of the edges.
    pub open spec fn edge_names(&self) -> Seq<Seq<char>> {
        crate::text::texts(self.graph.edge_names@)
    }

    /// Everything beside the graph says what the graph says.
    pub open spec fn wf(&self) -> bool {
        &&& self.graph.wf()
        &&& super::names::names_ok(self.node_id_map@, self.node_names())
        &&& super::names::names_ok(self.edge_id_map@, self.edge_names())
        &&& super::lazy_index::label_map_ok(
            self.label_to_nodes@,
            super::writer::node_label_views(self.graph.node_seq()),
        )
        &&& super::lazy_index::label_map_ok(
            self.label_to_edges@,
            super::writer::edge_label_views(self.graph.edge_seq()),
        )
        &&& self.adjacency.right(self.graph.edge_seq(), self.graph.node_names@.len())
    }

    /// The store of a graph.
    fn index(pager: Pager, strings: StringTable, graph: MemoryGraphStore) -> (r: Result<
        GraphStore,
        StoreError,
    >)
        requires
            graph.wf(),
        ensures
            match r {
                Ok(s) => s.wf() && s.graph == graph && s.pager == pager && s.strings == strings
                    && super::adjacency::edge_pairs(graph.edge_seq(), Side::Undirected).len()
                    <= u32::MAX,
                Err(e) => e == StoreError::TooManyEdges && super::adjacency::edge_pairs(
                    graph.edge_seq(),
                    Side::Undirected,
                ).len() > u32::MAX,
            },
    {
        let ghost edges = graph.edge_seq();
        let n = graph.node_names.len();
        proof {
            assert forall|i: int| 0 <= i < edges.len() implies (#[trigger] edges[i]).src
                == graph.edge_src@[i] && edges[i].tgt == graph.edge_tgt@[i] && edges[i].directed
                == graph.edge_directed@[i] && graph.edge_src@[i] < n && graph.edge_tgt@[i] < n by {
                assert(edges[i] == graph.edge_at(i));
            }
            super::adjacency::pairs_range(edges, Side::Outgoing, n as int);
            super::adjacency::pairs_range(edges, Side::Incoming, n as int);
            super::adjacency::pairs_range(edges, Side::Undirected, n as int);
        }
        let src = &graph.edge_src;
        let tgt = &graph.edge_tgt;
        let dir = &graph.edge_directed;
        let out = collect_pairs(src, tgt, dir, Side::Outgoing, Ghost(edges));
        let inc = collect_pairs(src, tgt, dir, Side::Incoming, Ghost(edges));
        let und = collect_pairs(src, tgt, dir, Side::Undirected, Ghost(edges));
        if und.len() > u32::MAX as usize {
            return Err(StoreError::TooManyEdges);
        }
        let adjacency = Adjacency {
            outgoing: build_csr(n, &out),
            incoming: build_csr(n, &inc),
            undirected: build_csr(n, &und),
        };
        proof {
            assert forall|side: Side|
                (#[trigger] adjacency.side(side)).holds(
                    super::adjacency::edge_pairs(edges, side),
                    n as nat,
                ) by {
                match side {
                    Side::Outgoing => {},
                    Side::Incoming => {},
                    Side::Undirected => {},
                }
            }
        }
        let node_id_map = index_names(&graph.node_names);
        let edge_id_map = index_names(&graph.edge_names);
        let label_to_nodes = build_label_map(&graph.node_labels);
        let label_to_edges = build_label_map(&graph.edge_labels);
        proof {
            assert(super::lazy_index::type_views(graph.node_labels@)
                =~= super::writer::node_label_views(graph.node_seq()));
            assert(super::lazy_index::type_views(graph.edge_labels@)
                =~= super::writer::edge_label_views(graph.edge_seq()));
        }
        Ok(
            GraphStore {
                pager,
                strings,
                graph,
                node_id_map,
                edge_id_map,
                label_to_nodes,
                label_to_edges,
                adjacency,
            },
        )
    }

    /// Makes a file of records: their nodes, and then their edges.
    pub fn from_records(nodes: &Vec<NodeRecord>, edges: &Vec<EdgeRecord>) -> (r: Result<
        GraphStore,
        ImportError,
    >)
        ensures
            stored_outcome(
                record_nodes(nodes@),
                record_edges(edges@, record_names(nodes@)),
                record_ends(edges@),
                record_names(nodes@),
                r,
            ),
    {
        let graph = match assemble(nodes, edges) {
            Ok(g) => g,
            Err(e) => {
                return Err(e);
            },
        };
        let mut w = Writer::new();
        match write_nodes(&mut w, &graph) {
            Ok(_) => {},
            Err(e) => {
                return Err(ImportError::Store(e));
            },
        }
        match write_edges(&mut w, &graph) {
            Ok(_) => {},
            Err(e) => {
                return Err(ImportError::Store(e));
            },
        }
        let ghost sn = super::io::stored_nodes(graph.node_seq());
        let ghost se = super::io::stored_edges(graph.edge_seq());
        proof {
            w.strings.stored_facts(w.pager@);
            super::io::table_scanned(&w.strings, w.pager@);
            assert(graph.node_seq().len() == graph.node_names@.len());
            assert(graph.edge_seq().len() == graph.edge_names@.len());
        }
        let Writer { pager, strings, .. } = w;
        let mut pager = pager;
        pager.header.string_table_root = strings.pages[0];
        pager.header.node_count = nodes.len() as u32;
        pager.header.edge_count = edges.len() as u32;
        match GraphStore::index(pager, strings, graph) {
            Ok(s) => {
                proof {
                    super::io::unblocked(s.graph.node_seq(), s.graph.edge_seq());
                }
                Ok(s)
            },
            Err(e) => Err(ImportError::Store(e)),
        }
    }

    /// The file has the graph: who looks for strings and records on every page
    /// finds the elements as they come back from a file.
    pub open spec fn in_file(&self) -> bool {
        let header = (super::pager::Header { string_table_root: 0, ..self.pager.header });
        &&& super::io::file_strings(self.pager@, header) == Ok::<_, StoreError>(self.strings@)
        &&& super::io::file_graph(self.pager@, header) == Ok::<_, StoreError>(
            (
                super::io::stored_nodes(self.graph.node_seq()),
                super::io::stored_edges(self.graph.edge_seq()),
            ),
        )
    }

    /// Opens a file. Its strings are looked for on every page.
    pub fn open(pager: Pager) -> (r: Result<GraphStore, StoreError>)
        requires
            pager.wf(),
        ensures
            open_outcome(pager, r),
    {
        let h = pager.header;
        let mut pager = pager;
        pager.header.string_table_root = 0;
        let strings = match super::io::load_strings(&pager) {
            Ok(t) => t,
            Err(e) => {
                return Err(e);
            },
        };
        let graph = match load_graph(&pager) {
            Ok(g) => g,
            Err(e) => {
                return Err(e);
            },
        };
        pager.header = h;
        let ghost nodes = graph.node_seq();
        let ghost edges = graph.edge_seq();
        let n = graph.node_names.len();
        assert(nodes.len() == n && edges.len() == graph.edge_names@.len());
        if n > u32::MAX as usize || graph.edge_names.len() > u32::MAX as usize {
            return Err(StoreError::Malformed);
        }
        if !check_ends(&graph) {
            return Err(StoreError::Malformed);
        }
        proof {
            assert forall|j: int| 0 <= j < graph.edge_src@.len() implies (
            #[trigger] graph.edge_src@[j]) < n by {
                assert(edges[j] == graph.edge_at(j));
            }
            assert forall|j: int| 0 <= j < graph.edge_tgt@.len() implies (
            #[trigger] graph.edge_tgt@[j]) < n by {
                assert(edges[j] == graph.edge_at(j));
            }
        }
        GraphStore::index(pager, strings, graph)
    }

    /// The names of all nodes.
    pub fn all_node_user_ids(&self) -> (r: &Vec<String>)
        ensures
            crate::text::texts(r@) == self.node_names(),
    {
        &self.graph.node_names
    }

    /// The names of all directed edges.
    pub fn all_directed_edge_user_ids(&self) -> (r: Vec<String>)
        requires
            self.wf(),
        ensures
            crate::text::texts(r@) == super::names::names_of(
                self.edge_names(),
                crate::model::graph::positions_of(self.graph.edge_directed@, true),
            ),
    {
        let ids = list_positions(&self.graph.edge_directed, true);
        proof {
            crate::model::graph::positions_in_range(self.graph.edge_directed@, true);
        }
        copy_names(&self.graph.edge_names, ids.as_slice())
    }

    /// The names of all undirected edges.
    pub fn all_undirected_edge_user_ids(&self) -> (r: Vec<String>)
        requires
            self.wf(),
        ensures
            crate::text::texts(r@) == super::names::names_of(
                self.edge_names(),
                crate::model::graph::positions_of(self.graph.edge_directed@, false),
            ),
    {
        let ids = list_positions(&self.graph.edge_directed, false);
        proof {
            crate::model::graph::positions_in_range(self.graph.edge_directed@, false);
        }
        copy_names(&self.graph.edge_names, ids.as_slice())
    }

    /// The node of a name: the last one that has it.
    pub open spec fn node_named(&self, name: Seq<char>) -> Option<NodeView> {
        if self.node_names().contains(name) {
            Some(
                self.graph.node_at(
                    super::string_table::last_index(self.node_names(), name),
                ),
            )
        } else {
            None
        }
    }

    /// The edge of a name: the last one that has it.
    pub open spec fn edge_named(&self, name: Seq<char>) -> Option<EdgeView> {
        if self.edge_names().contains(name) {
            Some(
                self.graph.edge_at(
                    super::string_table::last_index(self.edge_names(), name),
                ),
            )
        } else {
            None
        }
    }

    /// The labels of the node of a name.
    pub fn node_labels_by_user_id(&self, user_id: &str) -> (r: Option<&LabelType>)
        requires
            self.wf(),
        ensures
            match r {
                Some(l) => self.node_named(user_id@) is Some && l@ == self.node_named(
                    user_id@,
                )->Some_0.labels,
                None => self.node_named(user_id@) is None,
            },
    {
        assert(self.node_id_map@.contains_key(user_id@) <==> self.node_names().contains(
            user_id@,
        ));
        match self.node_id_map.get(user_id) {
            Some(id) => Some(&self.graph.node_labels[*id as usize]),
            None => None,
        }
    }

    /// The labels of the edge of a name.
    pub fn edge_labels_by_user_id(&self, user_id: &str) -> (r: Option<&LabelType>)
        requires
            self.wf(),
        ensures
            match r {
                Some(l) => self.edge_named(user_id@) is Some && l@ == self.edge_named(
                    user_id@,
                )->Some_0.labels,
                None => self.edge_named(user_id@) is None,
            },
    {
        assert(self.edge_id_map@.contains_key(user_id@) <==> self.edge_names().contains(
            user_id@,
        ));
        match self.edge_id_map.get(user_id) {
            Some(id) => Some(&self.graph.edge_labels[*id as usize]),
            None => None,
        }
    }

    /// The labels of the element of a name, a node before an edge.
    pub fn labels_by_user_id(&self, user_id: &str) -> (r: Option<&LabelType>)
        requires
            self.wf(),
        ensures
            match r {
                Some(l) => match self.node_named(user_id@) {
                    Some(n) => l@ == n.labels,
                    None => self.edge_named(user_id@) is Some && l@ == self.edge_named(
                        user_id@,
                    )->Some_0.labels,
                },
                None => self.node_named(user_id@) is None && self.edge_named(user_id@) is None,
            },
    {
        match self.node_labels_by_user_id(user_id) {
            Some(l) => Some(l),
            None => self.edge_labels_by_user_id(user_id),
        }
    }

    /// The properties of the element of a name, a node before an edge.
    pub fn props_by_user_id(&self, user_id: &str) -> (r: Option<&Props>)
        requires
            self.wf(),
        ensures
            match r {
                Some(p) => match self.node_named(user_id@) {
                    Some(n) => crate::model::value::props_view(*p) == n.props,
                    None => self.edge_named(user_id@) is Some && crate::model::value::props_view(*p)
                        == self.edge_named(user_id@)->Some_0.props,
                },
                None => self.node_named(user_id@) is None && self.edge_named(user_id@) is None,
            },
    {
        assert(self.node_id_map@.contains_key(user_id@) <==> self.node_names().contains(
            user_id@,
        ));
        assert(self.edge_id_map@.contains_key(user_id@) <==> self.edge_names().contains(
            user_id@,
        ));
        match self.node_id_map.get(user_id) {
            Some(id) => Some(&self.graph.node_props[*id as usize]),
            None => match self.edge_id_map.get(user_id) {
                Some(id) => Some(&self.graph.edge_props[*id as usize]),
                None => None,
            },
        }
    }

    /// The names of the ends of the edge of a name.
    pub fn edge_endpoints_user_ids(&self, edge_user_id: &str) -> (r: Option<(&String, &String)>)
        requires
            self.wf(),
        ensures
            match r {
                Some((a, b)) => self.edge_named(edge_user_id@) is Some && a@ == self.node_names()[
                self.edge_named(edge_user_id@)->Some_0.src as int] && b@ == self.node_names()[
                self.edge_named(edge_user_id@)->Some_0.tgt as int],
                None => self.edge_named(edge_user_id@) is None,
            },
    {
        assert(self.edge_id_map@.contains_key(edge_user_id@) <==> self.edge_names().contains(
            edge_user_id@,
        ));
        match self.edge_id_map.get(edge_user_id) {
            Some(id) => {
                let i = *id as usize;
                assert(self.graph.edge_src@[i as int] < self.graph.node_names@.len());
                assert(self.graph.edge_tgt@[i as int] < self.graph.node_names@.len());
                Some(
                    (
                        &self.graph.node_names[self.graph.edge_src[i] as usize],
                        &self.graph.node_names[self.graph.edge_tgt[i] as usize],
                    ),
                )
            },
            None => None,
        }
    }

    /// The name of the source of the edge of a name.
    pub fn edge_src_user_id(&self, edge_user_id: &str) -> (r: Option<&String>)
        requires
            self.wf(),
        ensures
            match r {
                Some(s) => self.edge_named(edge_user_id@) is Some && s@ == self.node_names()[
                self.edge_named(edge_user_id@)->Some_0.src as int],
                None => self.edge_named(edge_user_id@) is None,
            },
    {
        match self.edge_endpoints_user_ids(edge_user_id) {
            Some((a, _)) => Some(a),
            None => None,
        }
    }

    /// The name of the target of the edge of a name.
    pub fn edge_tgt_user_id(&self, edge_user_id: &str) -> (r: Option<&String>)
        requires
            self.wf(),
        ensures
            match r {
                Some(s) => self.edge_named(edge_user_id@) is Some && s@ == self.node_names()[
                self.edge_named(edge_user_id@)->Some_0.tgt as int],
                None => self.edge_named(edge_user_id@) is None,
            },
    {
        match self.edge_endpoints_user_ids(edge_user_id) {
            Some((_, b)) => Some(b),
            None => None,
        }
    }

    /// Whether the edge of a name has a direction; not, where there is none.
    pub fn is_edge_directed(&self, edge_user_id: &str) -> (r: bool)
        requires
            self.wf(),
        ensures
            r == (self.edge_named(edge_user_id@) is Some && self.edge_named(
                edge_user_id@,
            )->Some_0.directed),
    {
        assert(self.edge_id_map@.contains_key(edge_user_id@) <==> self.edge_names().contains(
            edge_user_id@,
        ));
        match self.edge_id_map.get(edge_user_id) {
            Some(id) => self.graph.edge_directed[*id as usize],
            None => false,
        }
    }

    /// An edge as a step of a path. A name that no edge has is a step without a
    /// direction.
    pub fn edge_path_value(&self, edge_user_id: &str) -> (r: NamedStep)
        requires
            self.wf(),
        ensures
            ({
                let e = self.edge_named(edge_user_id@);
                let directed = e is Some && e->Some_0.directed;
                match r {
                    NamedStep::EdgeDirectional(n) => directed && n@ == edge_user_id@,
                    NamedStep::EdgeUndirectional(n) => !directed && n@ == edge_user_id@,
                }
            }),
    {
        named_step(edge_user_id, self.is_edge_directed(edge_user_id))
    }

    /// The names of the nodes that carry a label. Nothing where none does.
    pub fn nodes_with_label(&self, label: &str) -> (r: Option<Vec<String>>)
        requires
            self.wf(),
        ensures
            ({
                let ids = super::labels::labelled(
                    super::writer::node_label_views(self.graph.node_seq()),
                    label@,
                );
                match r {
                    Some(names) => ids.len() > 0 && crate::text::texts(names@)
                        == super::names::names_of(self.node_names(), ids),
                    None => ids.len() == 0,
                }
            }),
    {
        let ghost views = super::writer::node_label_views(self.graph.node_seq());
        assert(super::lazy_index::list_of(self.label_to_nodes@, label@) == super::labels::labelled(
            views,
            label@,
        ));
        match self.label_to_nodes.get(label) {
            Some(ids) => {
                proof {
                    super::lazy_index::right_lists_below(self.label_to_nodes@, views);
                    assert forall|i: int| 0 <= i < ids@.len() implies #[trigger] ids@[i]
                        < self.graph.node_names@.len() by {
                        assert(self.label_to_nodes@[label@]@[i] < views.len());
                    }
                }
                Some(copy_names(&self.graph.node_names, ids.as_slice()))
            },
            None => None,
        }
    }

    fn edges_with_label(&self, label: &str, flag: bool) -> (r: Option<Vec<String>>)
        requires
            self.wf(),
        ensures
            ({
                let ids = super::labels::labelled(
                    super::writer::edge_label_views(self.graph.edge_seq()),
                    label@,
                );
                match r {
                    Some(names) => ids.len() > 0 && crate::text::texts(names@)
                        == super::names::names_of(
                        self.edge_names(),
                        super::names::flagged_ids(ids, self.graph.edge_directed@, flag),
                    ),
                    None => ids.len() == 0,
                }
            }),
    {
        let ghost views = super::writer::edge_label_views(self.graph.edge_seq());
        assert(super::lazy_index::list_of(self.label_to_edges@, label@) == super::labels::labelled(
            views,
            label@,
        ));
        match self.label_to_edges.get(label) {
            Some(ids) => {
                proof {
                    super::lazy_index::right_lists_below(self.label_to_edges@, views);
                    assert forall|i: int| 0 <= i < ids@.len() implies #[trigger] ids@[i]
                        < self.graph.edge_directed@.len() by {
                        assert(self.label_to_edges@[label@]@[i] < views.len());
                    }
                }
                let kept = keep_flagged(ids, &self.graph.edge_directed, flag);
                Some(copy_names(&self.graph.edge_names, kept.as_slice()))
            },
            None => None,
        }
    }

    /// The names of the directed edges that carry a label. Nothing where no edge
    /// carries it.
    pub fn directed_edges_with_label(&self, label: &str) -> (r: Option<Vec<String>>)
        requires
            self.wf(),
        ensures
            ({
                let ids = super::labels::labelled(
                    super::writer::edge_label_views(self.graph.edge_seq()),
                    label@,
                );
                match r {
                    Some(names) => ids.len() > 0 && crate::text::texts(names@)
                        == super::names::names_of(
                        self.edge_names(),
                        super::names::flagged_ids(ids, self.graph.edge_directed@, true),
                    ),
                    None => ids.len() == 0,
                }
            }),
    {
        self.edges_with_label(label, true)
    }

    /// The names of the undirected edges that carry a label.
    pub fn undirected_edges_with_label(&self, label: &str) -> (r: Option<Vec<String>>)
        requires
            self.wf(),
        ensures
            ({
                let ids = super::labels::labelled(
                    super::writer::edge_label_views(self.graph.edge_seq()),
                    label@,
                );
                match r {
                    Some(names) => ids.len() > 0 && crate::text::texts(names@)
                        == super::names::names_of(
                        self.edge_names(),
                        super::names::flagged_ids(ids, self.graph.edge_directed@, false),
                    ),
                    None => ids.len() == 0,
                }
            }),
    {
        self.edges_with_label(label, false)
    }

    /// The edges of a side at the node of a name, none where there is no such
    /// node.
    pub open spec fn edges_at(&self, side: Side, name: Seq<char>) -> Seq<Id> {
        if self.node_names().contains(name) {
            super::adjacency::at_node(
                super::adjacency::edge_pairs(self.graph.edge_seq(), side),
                super::string_table::last_index(self.node_names(), name),
            )
        } else {
            Seq::empty()
        }
    }

    fn names_at(&self, side: Side, name: &str) -> (r: Vec<String>)
        requires
            self.wf(),
        ensures
            crate::text::texts(r@) == super::names::names_of(
                self.edge_names(),
                self.edges_at(side, name@),
            ),
    {
        assert(self.node_id_map@.contains_key(name@) <==> self.node_names().contains(name@));
        match self.node_id_map.get(name) {
            Some(id) => {
                let ghost edges = self.graph.edge_seq();
                let ghost pairs = super::adjacency::edge_pairs(edges, side);
                proof {
                    self.adjacency.right_ok(edges, self.graph.node_names@.len());
                    self.adjacency.side(side).slices(pairs, self.graph.node_names@.len());
                    assert(self.adjacency.at(side, *id) == super::adjacency::at_node(
                        pairs,
                        *id as int,
                    ));
                }
                let ids = self.adjacency.list_at(side, *id);
                proof {
                    assert forall|i: int| 0 <= i < ids@.len() implies #[trigger] ids@[i]
                        < self.graph.edge_names@.len() by {
                        assert(super::adjacency::at_node(pairs, *id as int).contains(ids@[i]));
                        super::adjacency::edges_at_node(edges, side, *id as int, ids@[i]);
                    }
                }
                copy_names(&self.graph.edge_names, ids)
            },
            None => {
                let none: Vec<String> = Vec::new();
                assert(crate::text::texts(none@) =~= super::names::names_of(
                    self.edge_names(),
                    self.edges_at(side, name@),
                ));
                none
            },
        }
    }

    /// The names of the directed edges from a node.
    pub fn outgoing_edges(&self, node_id: &str) -> (r: Vec<String>)
        requires
            self.wf(),
        ensures
            crate::text::texts(r@) == super::names::names_of(
                self.edge_names(),
                self.edges_at(Side::Outgoing, node_id@),
            ),
    {
        self.names_at(Side::Outgoing, node_id)
    }

    /// The names of the directed edges to a node.
    pub fn incoming_edges(&self, node_id: &str) -> (r: Vec<String>)
        requires
            self.wf(),
        ensures
            crate::text::texts(r@) == super::names::names_of(
                self.edge_names(),
                self.edges_at(Side::Incoming, node_id@),
            ),
    {
        self.names_at(Side::Incoming, node_id)
    }

    /// The names of the undirected edges at a node.
    pub fn undirected_edges_of(&self, node_id: &str) -> (r: Vec<String>)
        requires
            self.wf(),
        ensures
            crate::text::texts(r@) == super::names::names_of(
                self.edge_names(),
                self.edges_at(Side::Undirected, node_id@),
            ),
    {
        self.names_at(Side::Undirected, node_id)
    }
}

} // verus!
