//! Whole graphs in a file: saving one, and loading it back.

use vstd::prelude::*;

use super::adjacency::{build_csr, collect_pairs, collect_triples, AdjCsr, Side};
use super::cells::collect_cells;
use super::disk_index::{
    read_u32_chain, write_adjacency_index, write_label_index, write_pair_list, write_u32_list,
    write_u32_lists,
};
use super::labels::label_entries;
use super::pager::{Header, PageType, Pager, StoreError};
use super::record::{read_edge, read_node, DecodedNode, EdgeRecordView, RecordView};
use super::string_table::StringTable;
use super::values::{decode_props, resolve_strings};
use super::writer::Writer;
use crate::model::graph::MemoryGraphStore;
use crate::model::graph_access::{EdgeView, NodeView};
use crate::model::value::Props;
use crate::text::copy_text;
use crate::typing::inference::labels_to_label_type;
use crate::typing::label_type::{LabelType, LabelTypeView};

verus! {

/// The node that a record stands for.
pub open spec fn record_node(r: RecordView, strings: Seq<Seq<char>>) -> Option<NodeView> {
    match (
        super::values::resolve_ids(r.label_str_ids, strings),
        super::values::resolve_fields(r.props, strings),
    ) {
        (Some(labels), Some(props)) => if r.user_id_str_id < strings.len() {
            Some(
                NodeView {
                    name: strings[r.user_id_str_id as int],
                    labels: crate::typing::inference::label_conjunction(labels),
                    props,
                },
            )
        } else {
            None
        },
        _ => None,
    }
}

/// The edge that a record stands for.
pub open spec fn record_edge(r: EdgeRecordView, strings: Seq<Seq<char>>) -> Option<EdgeView> {
    match record_node(r.node, strings) {
        Some(n) => Some(
            EdgeView {
                name: n.name,
                labels: n.labels,
                props: n.props,
                src: r.src_internal_id,
                tgt: r.tgt_internal_id,
                directed: r.directed,
            },
        ),
        None => None,
    }
}

/// The node in a cell.
pub open spec fn node_of(cell: Seq<u8>, strings: Seq<Seq<char>>) -> Option<NodeView> {
    match super::record::parse_node(cell) {
        Some((r, _)) => record_node(r, strings),
        None => None,
    }
}

/// The edge in a cell.
pub open spec fn edge_of(cell: Seq<u8>, strings: Seq<Seq<char>>) -> Option<EdgeView> {
    match super::record::parse_edge(cell) {
        Some(r) => record_edge(r, strings),
        None => None,
    }
}

/// The nodes in cells.
pub open spec fn nodes_of(cells: Seq<Seq<u8>>, strings: Seq<Seq<char>>) -> Option<Seq<NodeView>>
    decreases cells.len(),
{
    if cells.len() == 0 {
        Some(Seq::empty())
    } else {
        match (nodes_of(cells.drop_last(), strings), node_of(cells.last(), strings)) {
            (Some(rest), Some(n)) => Some(rest.push(n)),
            _ => None,
        }
    }
}

/// The edges in cells.
pub open spec fn edges_of(cells: Seq<Seq<u8>>, strings: Seq<Seq<char>>) -> Option<Seq<EdgeView>>
    decreases cells.len(),
{
    if cells.len() == 0 {
        Some(Seq::empty())
    } else {
        match (edges_of(cells.drop_last(), strings), edge_of(cells.last(), strings)) {
            (Some(rest), Some(e)) => Some(rest.push(e)),
            _ => None,
        }
    }
}

/// The numbers of the pages of a type.
pub open spec fn pages_of_type(pages: Seq<Seq<u8>>, t: PageType, n: nat) -> Seq<u32>
    decreases n,
{
    if n <= 1 {
        Seq::empty()
    } else {
        let rest = pages_of_type(pages, t, (n - 1) as nat);
        if super::pager::has_type(pages[n - 1], t) {
            rest.push((n - 1) as u32)
        } else {
            rest
        }
    }
}

/// The pages of the string table: as listed, or, in a file without a list, all
/// pages of strings.
pub open spec fn table_pages(pages: Seq<Seq<u8>>, header: Header) -> Result<Seq<u32>, StoreError> {
    if header.string_table_root != 0 {
        super::disk_index::u32_list(pages, header.string_table_root)
    } else {
        Ok(pages_of_type(pages, PageType::StringTable, pages.len()))
    }
}

/// The strings of a file.
pub open spec fn file_strings(pages: Seq<Seq<u8>>, header: Header) -> Result<
    Seq<Seq<char>>,
    StoreError,
> {
    match table_pages(pages, header) {
        Err(e) => Err(e),
        Ok(nums) => super::string_table::read_table(pages, nums),
    }
}

/// The nodes and edges of a file.
pub open spec fn file_graph(pages: Seq<Seq<u8>>, header: Header) -> Result<
    (Seq<NodeView>, Seq<EdgeView>),
    StoreError,
> {
    match file_strings(pages, header) {
        Err(e) => Err(e),
        Ok(strings) => match (
            super::cells::all_cells(pages, PageType::NodeData),
            super::cells::all_cells(pages, PageType::EdgeData),
        ) {
            (Some(nc), Some(ec)) => match (nodes_of(nc, strings), edges_of(ec, strings)) {
                (Some(nodes), Some(edges)) => Ok((nodes, edges)),
                _ => Err(StoreError::Malformed),
            },
            _ => Err(StoreError::Malformed),
        },
    }
}

/// A node as it comes back from a file: its labels as a plain conjunction, and
/// nulls left out.
pub open spec fn stored_node(n: NodeView) -> NodeView {
    NodeView {
        name: n.name,
        labels: crate::typing::inference::label_conjunction(n.labels.required()),
        props: super::values::kept_props(n.props, true),
    }
}

/// An edge as it comes back from a file.
pub open spec fn stored_edge(e: EdgeView) -> EdgeView {
    EdgeView {
        name: e.name,
        labels: crate::typing::inference::label_conjunction(e.labels.required()),
        props: super::values::kept_props(e.props, true),
        src: e.src,
        tgt: e.tgt,
        directed: e.directed,
    }
}

/// Nodes as they come back.
pub open spec fn stored_nodes(s: Seq<NodeView>) -> Seq<NodeView> {
    Seq::new(s.len(), |i: int| stored_node(s[i]))
}

/// Edges as they come back.
pub open spec fn stored_edges(s: Seq<EdgeView>) -> Seq<EdgeView> {
    Seq::new(s.len(), |i: int| stored_edge(s[i]))
}

/// The pages of a type.
pub fn collect_pages_by_type(pager: &Pager, t: PageType) -> (r: Vec<u32>)
    requires
        pager.wf(),
    ensures
        r@ == pages_of_type(pager@, t, pager@.len()),
{
    let mut out: Vec<u32> = Vec::new();
    let mut n: usize = 1;
    while n < pager.pages.len()
        invariant
            1 <= n <= pager.pages.len(),
            pager.wf(),
            out@ == pages_of_type(pager@, t, n as nat),
        decreases pager.pages.len() - n,
    {
        assert(pager@[n as int] == pager.pages@[n as int]@);
        assert(pager@[n as int].len() == super::pager::PAGE_SIZE);
        if pager.pages[n][0] == t.code() {
            out.push(n as u32);
        }
        n = n + 1;
    }
    out
}

/// The strings of a file.
pub fn load_strings(pager: &Pager) -> (r: Result<StringTable, StoreError>)
    requires
        pager.wf(),
    ensures
        match r {
            Ok(t) => file_strings(pager@, pager.header) == Ok::<_, StoreError>(t@)
                && table_pages(pager@, pager.header) == Ok::<_, StoreError>(t.pages@),
            Err(e) => file_strings(pager@, pager.header) == Err::<Seq<Seq<char>>, _>(e),
        },
{
    let root = pager.header.string_table_root;
    let nums = if root != 0 {
        match read_u32_chain(pager, root) {
            Ok(v) => v,
            Err(e) => {
                return Err(e);
            },
        }
    } else {
        collect_pages_by_type(pager, PageType::StringTable)
    };
    StringTable::load(&nums, pager)
}

/// What a record says of an element.
pub struct Element {
    pub name: String,
    pub labels: LabelType,
    pub props: Props,
}

impl Element {
    /// The value, as a node.
    pub open spec fn view(&self) -> NodeView {
        NodeView {
            name: self.name@,
            labels: self.labels@,
            props: crate::model::value::props_view(self.props),
        }
    }
}

/// What a record says of an element.
pub fn element_of(r: &DecodedNode, strings: &StringTable) -> (e: Option<Element>)
    ensures
        match e {
            Some(x) => record_node(r@, strings@) == Some(x@),
            None => record_node(r@, strings@) is None,
        },
{
    let name = match strings.resolve(r.user_id_str_id) {
        Some(s) => copy_text(s),
        None => {
            return None;
        },
    };
    let labels = match resolve_strings(&r.label_str_ids, strings) {
        Some(v) => v,
        None => {
            return None;
        },
    };
    match decode_props(&r.props, strings) {
        Some(props) => Some(Element { name, labels: labels_to_label_type(&labels), props }),
        None => None,
    }
}

proof fn nodes_missing(cells: Seq<Seq<u8>>, strings: Seq<Seq<char>>, i: int)
    requires
        0 <= i < cells.len(),
        nodes_of(cells.take(i + 1), strings) is None,
    ensures
        nodes_of(cells, strings) is None,
    decreases cells.len() - i,
{
    if i + 1 == cells.len() {
        assert(cells.take(i + 1) =~= cells);
    } else {
        assert(cells.take(i + 2).drop_last() =~= cells.take(i + 1));
        nodes_missing(cells, strings, i + 1);
    }
}

proof fn edges_missing(cells: Seq<Seq<u8>>, strings: Seq<Seq<char>>, i: int)
    requires
        0 <= i < cells.len(),
        edges_of(cells.take(i + 1), strings) is None,
    ensures
        edges_of(cells, strings) is None,
    decreases cells.len() - i,
{
    if i + 1 == cells.len() {
        assert(cells.take(i + 1) =~= cells);
    } else {
        assert(cells.take(i + 2).drop_last() =~= cells.take(i + 1));
        edges_missing(cells, strings, i + 1);
    }
}

/// The graph of a file.
pub fn load_graph(pager: &Pager) -> (r: Result<MemoryGraphStore, StoreError>)
    requires
        pager.wf(),
    ensures
        match r {
            Ok(g) => g.columns_ok() && file_graph(pager@, pager.header) == Ok::<_, StoreError>(
                (g.node_seq(), g.edge_seq()),
            ),
            Err(e) => file_graph(pager@, pager.header) == Err::<
                (Seq<NodeView>, Seq<EdgeView>),
                _,
            >(e),
        },
{
    let strings = match load_strings(pager) {
        Ok(t) => t,
        Err(e) => {
            return Err(e);
        },
    };
    let node_cells = match collect_cells(pager, PageType::NodeData) {
        Some(v) => v,
        None => {
            return Err(StoreError::Malformed);
        },
    };
    let edge_cells = match collect_cells(pager, PageType::EdgeData) {
        Some(v) => v,
        None => {
            return Err(StoreError::Malformed);
        },
    };
    let ghost nc = super::cells::cell_views(node_cells@);
    let ghost ec = super::cells::cell_views(edge_cells@);
    let mut g = MemoryGraphStore::new();
    assert(g.node_seq().len() == 0 && g.edge_seq().len() == 0);
    let mut i: usize = 0;
    while i < node_cells.len()
        invariant
            i <= node_cells.len(),
            nc == super::cells::cell_views(node_cells@),
            ec == super::cells::cell_views(edge_cells@),
            super::cells::all_cells(pager@, PageType::NodeData) == Some(nc),
            super::cells::all_cells(pager@, PageType::EdgeData) == Some(ec),
            file_strings(pager@, pager.header) == Ok::<_, StoreError>(strings@),
            g.columns_ok(),
            g.node_names@.len() == i,
            g.edge_seq() == Seq::<EdgeView>::empty(),
            nodes_of(nc.take(i as int), strings@) == Some(g.node_seq()),
        decreases node_cells.len() - i,
    {
        proof {
            assert(nc.take(i + 1).drop_last() =~= nc.take(i as int));
            assert(nc.take(i + 1).last() == node_cells@[i as int]@);
        }
        let ghost before = g;
        let e = match read_node(node_cells[i].as_slice()) {
            Some((r, _)) => match element_of(&r, &strings) {
                Some(e) => e,
                None => {
                    proof {
                        nodes_missing(nc, strings@, i as int);
                    }
                    return Err(StoreError::Malformed);
                },
            },
            None => {
                proof {
                    nodes_missing(nc, strings@, i as int);
                }
                return Err(StoreError::Malformed);
            },
        };
        let ghost n = e@;
        g.node_names.push(e.name);
        g.node_labels.push(e.labels);
        g.node_props.push(e.props);
        proof {
            assert(g.node_seq() =~= before.node_seq().push(n));
            assert(g.edge_seq() =~= before.edge_seq());
        }
        i = i + 1;
    }
    proof {
        assert(nc.take(i as int) =~= nc);
    }
    let ghost nodes = g.node_seq();
    assert(g.edge_seq().len() == 0);
    let mut i: usize = 0;
    while i < edge_cells.len()
        invariant
            i <= edge_cells.len(),
            nc == super::cells::cell_views(node_cells@),
            ec == super::cells::cell_views(edge_cells@),
            super::cells::all_cells(pager@, PageType::NodeData) == Some(nc),
            super::cells::all_cells(pager@, PageType::EdgeData) == Some(ec),
            file_strings(pager@, pager.header) == Ok::<_, StoreError>(strings@),
            nodes_of(nc, strings@) == Some(nodes),
            g.columns_ok(),
            g.edge_names@.len() == i,
            g.node_seq() == nodes,
            edges_of(ec.take(i as int), strings@) == Some(g.edge_seq()),
        decreases edge_cells.len() - i,
    {
        proof {
            assert(ec.take(i + 1).drop_last() =~= ec.take(i as int));
            assert(ec.take(i + 1).last() == edge_cells@[i as int]@);
        }
        let ghost before = g;
        match read_edge(edge_cells[i].as_slice()) {
            Some(r) => match element_of(&r.node, &strings) {
                Some(e) => {
                    let ghost n = e@;
                    g.edge_names.push(e.name);
                    g.edge_labels.push(e.labels);
                    g.edge_props.push(e.props);
                    g.edge_src.push(r.src_internal_id);
                    g.edge_tgt.push(r.tgt_internal_id);
                    g.edge_directed.push(r.directed);
                    proof {
                        assert(g.edge_seq() =~= before.edge_seq().push(
                            record_edge(r@, strings@)->Some_0,
                        ));
                        assert(g.node_seq() =~= before.node_seq());
                    }
                },
                None => {
                    proof {
                        edges_missing(ec, strings@, i as int);
                    }
                    return Err(StoreError::Malformed);
                },
            },
            None => {
                proof {
                    edges_missing(ec, strings@, i as int);
                }
                return Err(StoreError::Malformed);
            },
        }
        i = i + 1;
    }
    assert(ec.take(i as int) =~= ec);
    Ok(g)
}

/// The node at a place.
pub open spec fn node_at(pages: Seq<Seq<u8>>, page: u32, cell: u32, strings: Seq<Seq<char>>) -> Option<
    NodeView,
> {
    match super::cells::cell_at(pages, page as int, cell as int) {
        Some(c) => node_of(c, strings),
        None => None,
    }
}

/// The edge at a place.
pub open spec fn edge_at(pages: Seq<Seq<u8>>, page: u32, cell: u32, strings: Seq<Seq<char>>) -> Option<
    EdgeView,
> {
    match super::cells::cell_at(pages, page as int, cell as int) {
        Some(c) => edge_of(c, strings),
        None => None,
    }
}

/// The places of the nodes are stored at a root.
pub open spec fn node_locs_ok(
    pages: Seq<Seq<u8>>,
    root: u32,
    strings: Seq<Seq<char>>,
    nodes: Seq<NodeView>,
) -> bool {
    super::disk_index::pair_list(pages, root) is Ok && ({
        let locs = super::disk_index::pair_list(pages, root)->Ok_0;
        locs.len() == nodes.len() && forall|i: int|
            0 <= i < locs.len() ==> (#[trigger] locs[i]).1 <= u16::MAX && node_at(
                pages,
                locs[i].0,
                locs[i].1,
                strings,
            ) == Some(nodes[i])
    })
}

/// The lists by which edges are found: the page and the cell of each, its two
/// ends, and 1 for an edge with a direction.
pub open spec fn topo_ok(
    pages: Seq<Seq<u8>>,
    lists: Seq<Seq<u32>>,
    strings: Seq<Seq<char>>,
    edges: Seq<EdgeView>,
) -> bool {
    &&& lists.len() == 5
    &&& forall|k: int| 0 <= k < 5 ==> (#[trigger] lists[k]).len() == edges.len()
    &&& forall|i: int|
        0 <= i < edges.len() ==> {
            &&& lists[1][i] <= u16::MAX
            &&& edge_at(pages, lists[0][i], lists[1][i], strings) == Some(#[trigger] edges[i])
            &&& lists[2][i] == edges[i].src
            &&& lists[3][i] == edges[i].tgt
            &&& lists[4][i] == (if edges[i].directed {
                1u32
            } else {
                0u32
            })
        }
}

/// The places and ends of the edges are stored at a root.
pub open spec fn edge_topo_ok(
    pages: Seq<Seq<u8>>,
    root: u32,
    strings: Seq<Seq<char>>,
    edges: Seq<EdgeView>,
) -> bool {
    exists|lists: Seq<Seq<u32>>| #[trigger]
        super::disk_index::lists_at(pages, root, lists) && topo_ok(pages, lists, strings, edges)
}

/// The elements under each label are stored at a root: each label that occurs
/// has an entry, and its entry lists the elements that carry it.
pub open spec fn label_index_ok(
    pages: Seq<Seq<u8>>,
    root: u32,
    strings: Seq<Seq<char>>,
    labels: Seq<LabelTypeView>,
) -> bool {
    super::disk_index::pair_list(pages, root) is Ok && ({
        let pairs = super::disk_index::pair_list(pages, root)->Ok_0;
        &&& forall|i: int, j: int|
            0 <= i < j < pairs.len() ==> (#[trigger] pairs[i]).0 != (#[trigger] pairs[j]).0
        &&& forall|i: int|
            0 <= i < pairs.len() ==> (#[trigger] pairs[i]).0 < strings.len()
                && super::disk_index::u32_list(pages, pairs[i].1) == Ok::<_, StoreError>(
                super::labels::labelled(labels, strings[pairs[i].0 as int]),
            ) && super::labels::labelled(labels, strings[pairs[i].0 as int]).len() > 0
        &&& forall|sid: u32|
            sid < strings.len() && super::labels::labelled(
                labels,
                #[trigger] strings[sid as int],
            ).len() > 0 ==> exists|i: int| 0 <= i < pairs.len() && (#[trigger] pairs[i]).0 == sid
    })
}

/// The edges at each node, side by side.
pub open spec fn csr_lists(edges: Seq<EdgeView>, nodes: nat) -> Seq<Seq<u32>> {
    seq![
        csr_offsets(super::adjacency::edge_pairs(edges, Side::Outgoing), nodes),
        super::adjacency::flat_upto(super::adjacency::edge_pairs(edges, Side::Outgoing), nodes),
        csr_offsets(super::adjacency::edge_pairs(edges, Side::Incoming), nodes),
        super::adjacency::flat_upto(super::adjacency::edge_pairs(edges, Side::Incoming), nodes),
        csr_offsets(super::adjacency::edge_pairs(edges, Side::Undirected), nodes),
        super::adjacency::flat_upto(super::adjacency::edge_pairs(edges, Side::Undirected), nodes),
    ]
}

/// Where the edges of each node start.
pub open spec fn csr_offsets(pairs: Seq<(u32, u32)>, nodes: nat) -> Seq<u32> {
    Seq::new(nodes + 1, |n: int| super::adjacency::flat_upto(pairs, n as nat).len() as u32)
}

/// Every edge joins nodes below a count.
pub open spec fn ends_known(edges: Seq<EdgeView>, nodes: int) -> bool {
    forall|i: int|
        0 <= i < edges.len() ==> (#[trigger] edges[i]).src < nodes && edges[i].tgt < nodes
}

/// The edges at nodes can be counted.
pub open spec fn csr_fits(edges: Seq<EdgeView>, nodes: nat) -> bool {
    forall|side: Side|
        (#[trigger] super::adjacency::flat_upto(
            super::adjacency::edge_pairs(edges, side),
            nodes,
        )).len() <= u32::MAX
}

/// A file with the given nodes and edges, and everything by which they are
/// found.
pub open spec fn saved(
    pages: Seq<Seq<u8>>,
    header: Header,
    strings: Seq<Seq<char>>,
    nodes: Seq<NodeView>,
    edges: Seq<EdgeView>,
) -> bool {
    &&& file_strings(pages, header) == Ok::<_, StoreError>(strings)
    &&& strings.no_duplicates()
    &&& strings.len() <= u32::MAX
    &&& file_graph(pages, header) == Ok::<_, StoreError>((nodes, edges))
    &&& header.string_table_root != 0
    &&& table_pages(pages, header) == Ok::<_, StoreError>(
        pages_of_type(pages, PageType::StringTable, pages.len()),
    )
    &&& header.node_locs_root != 0
    &&& header.edge_topo_root != 0
    &&& header.label_index_root != 0
    &&& header.edge_label_index_root != 0
    &&& header.adjacency_root != 0
    &&& header.csr_adjacency_root != 0
    &&& header.node_count == nodes.len()
    &&& header.edge_count == edges.len()
    &&& ends_known(edges, nodes.len() as int)
    &&& csr_fits(edges, nodes.len())
    &&& node_locs_ok(pages, header.node_locs_root, strings, nodes)
    &&& edge_topo_ok(pages, header.edge_topo_root, strings, edges)
    &&& label_index_ok(
        pages,
        header.label_index_root,
        strings,
        super::writer::node_label_views(nodes),
    )
    &&& label_index_ok(
        pages,
        header.edge_label_index_root,
        strings,
        super::writer::edge_label_views(edges),
    )
    &&& super::disk_index::triple_index_at(
        pages,
        header.adjacency_root,
        super::adjacency::triple_index(edges, nodes.len()),
    )
    &&& super::disk_index::lists_at(
        pages,
        header.csr_adjacency_root,
        csr_lists(edges, nodes.len()),
    )
}

/// In a saved file the strings and the records are found by looking at every
/// page, too.
pub proof fn saved_by_scan(
    pages: Seq<Seq<u8>>,
    header: Header,
    strings: Seq<Seq<char>>,
    nodes: Seq<NodeView>,
    edges: Seq<EdgeView>,
    other: Header,
)
    requires
        saved(pages, header, strings, nodes, edges),
        other.string_table_root == 0,
    ensures
        file_strings(pages, other) == Ok::<_, StoreError>(strings),
        file_graph(pages, other) == Ok::<_, StoreError>((nodes, edges)),
{
}

/// How many of the pages of a table lie below a number, which are those that a
/// scan up to it finds.
proof fn scan_upto(pages: Seq<Seq<u8>>, nums: Seq<u32>, n: nat) -> (k: int)
    requires
        n <= pages.len() <= u32::MAX,
        forall|i: int, j: int| 0 <= i < j < nums.len() ==> #[trigger] nums[i] < #[trigger] nums[j],
        forall|i: int|
            0 <= i < nums.len() ==> 1 <= #[trigger] nums[i] < pages.len()
                && super::pager::has_type(pages[nums[i] as int], PageType::StringTable),
        forall|i: int|
            1 <= i < pages.len() && super::pager::has_type(
                #[trigger] pages[i],
                PageType::StringTable,
            ) ==> nums.contains(i as u32),
    ensures
        0 <= k <= nums.len(),
        pages_of_type(pages, PageType::StringTable, n) == nums.take(k),
        forall|j: int| 0 <= j < nums.len() ==> (j < k <==> (#[trigger] nums[j]) < n),
    decreases n,
{
    if n <= 1 {
        assert(nums.take(0) =~= Seq::empty());
        0
    } else {
        let k = scan_upto(pages, nums, (n - 1) as nat);
        if super::pager::has_type(pages[n - 1], PageType::StringTable) {
            assert(nums.contains((n - 1) as u32));
            let j = choose|j: int| 0 <= j < nums.len() && nums[j] == (n - 1) as u32;
            if k < j {
                assert(nums[k] < nums[j]);
            }
            assert(j == k);
            assert(nums.take(k + 1) =~= nums.take(k).push(nums[k]));
            assert forall|i: int| 0 <= i < nums.len() implies (i < k + 1 <==> (#[trigger] nums[i])
                < n) by {
                if i > k {
                    assert(nums[k] < nums[i]);
                }
            }
            k + 1
        } else {
            assert forall|i: int| 0 <= i < nums.len() implies (i < k <==> (#[trigger] nums[i])
                < n) by {
                assert(nums[i] != n - 1);
            }
            k
        }
    }
}

/// A scan finds the pages of a table that starts a file.
pub(crate) proof fn table_scanned(t: &super::string_table::StringTable, pages: Seq<Seq<u8>>)
    requires
        t.stored(pages),
        t.first() == 1,
        pages.len() <= u32::MAX,
    ensures
        pages_of_type(pages, PageType::StringTable, pages.len()) == t.pages@,
{
    reveal(super::string_table::StringTable::stored);
    let nums = t.pages@;
    assert forall|i: int| 0 <= i < nums.len() implies 1 <= #[trigger] nums[i] < pages.len()
        && super::pager::has_type(pages[nums[i] as int], PageType::StringTable) by {
        assert(super::string_table::string_page(pages, nums[i]));
        if i > 0 {
            assert(nums[0] < nums[i]);
        }
    }
    let k = scan_upto(pages, nums, pages.len());
    if k < nums.len() {
        assert(nums[k] < pages.len());
    }
    assert(nums.take(k) =~= nums);
}

/// A scan finds the same pages of a type when pages of other types are added.
pub(crate) proof fn scan_stays(a: Seq<Seq<u8>>, b: Seq<Seq<u8>>, t: PageType, n: nat)
    requires
        a.is_prefix_of(b),
        n <= b.len(),
        forall|i: int|
            a.len() <= i < b.len() ==> !super::pager::has_type(#[trigger] b[i], t),
    ensures
        pages_of_type(b, t, n) == pages_of_type(
            a,
            t,
            if n <= a.len() {
                n
            } else {
                a.len()
            },
        ),
    decreases n,
{
    if n > 1 {
        scan_stays(a, b, t, (n - 1) as nat);
        if n <= a.len() {
            assert(b.subrange(0, a.len() as int)[n - 1] == a[n - 1]);
        }
    }
}

/// Cells stay where they are when pages are added.
pub proof fn cells_stay(a: Seq<Seq<u8>>, b: Seq<Seq<u8>>, p: int, c: int)
    requires
        a.is_prefix_of(b),
        super::cells::cell_at(a, p, c) is Some,
    ensures
        super::cells::cell_at(b, p, c) == super::cells::cell_at(a, p, c),
{
    assert(b.subrange(0, a.len() as int)[p] == a[p]);
}

pub(crate) proof fn label_index_stays(
    a: Seq<Seq<u8>>,
    b: Seq<Seq<u8>>,
    root: u32,
    strings: Seq<Seq<char>>,
    labels: Seq<LabelTypeView>,
)
    requires
        a.is_prefix_of(b),
        label_index_ok(a, root, strings, labels),
    ensures
        label_index_ok(b, root, strings, labels),
{
    super::disk_index::lists_frame(a, b, root);
    let pairs = super::disk_index::pair_list(a, root)->Ok_0;
    assert forall|i: int| 0 <= i < pairs.len() implies (#[trigger] pairs[i]).0 < strings.len()
        && super::disk_index::u32_list(b, pairs[i].1) == Ok::<_, StoreError>(
        super::labels::labelled(labels, strings[pairs[i].0 as int]),
    ) by {
        super::disk_index::lists_frame(a, b, pairs[i].1);
    }
}

pub(crate) proof fn lists_at_stay(a: Seq<Seq<u8>>, b: Seq<Seq<u8>>, root: u32, lists: Seq<Seq<u32>>)
    requires
        a.is_prefix_of(b),
        super::disk_index::lists_at(a, root, lists),
    ensures
        super::disk_index::lists_at(b, root, lists),
{
    super::disk_index::lists_frame(a, b, root);
    let roots = super::disk_index::u32_list(a, root)->Ok_0;
    assert forall|i: int| 0 <= i < lists.len() implies super::disk_index::u32_list(
        b,
        #[trigger] roots[i],
    ) == Ok::<_, StoreError>(lists[i]) by {
        super::disk_index::lists_frame(a, b, roots[i]);
    }
}

pub(crate) proof fn triples_stay(
    a: Seq<Seq<u8>>,
    b: Seq<Seq<u8>>,
    root: u32,
    entries: Seq<(u32, Seq<(u32, u32, u8)>)>,
)
    requires
        a.is_prefix_of(b),
        super::disk_index::triple_index_at(a, root, entries),
    ensures
        super::disk_index::triple_index_at(b, root, entries),
{
    super::disk_index::lists_frame(a, b, root);
    let pairs = super::disk_index::pair_list(a, root)->Ok_0;
    assert forall|i: int| 0 <= i < entries.len() implies (#[trigger] pairs[i]).0 == entries[i].0
        && super::disk_index::triple_list(b, pairs[i].1) == Ok::<_, StoreError>(entries[i].1) by {
        super::disk_index::lists_frame(a, b, pairs[i].1);
    }
}

pub(crate) proof fn node_locs_stay(
    a: Seq<Seq<u8>>,
    b: Seq<Seq<u8>>,
    root: u32,
    strings: Seq<Seq<char>>,
    nodes: Seq<NodeView>,
)
    requires
        a.is_prefix_of(b),
        node_locs_ok(a, root, strings, nodes),
    ensures
        node_locs_ok(b, root, strings, nodes),
{
    super::disk_index::lists_frame(a, b, root);
    let locs = super::disk_index::pair_list(a, root)->Ok_0;
    assert forall|i: int| 0 <= i < locs.len() implies (#[trigger] locs[i]).1 <= u16::MAX && node_at(
        b,
        locs[i].0,
        locs[i].1,
        strings,
    ) == Some(nodes[i]) by {
        cells_stay(a, b, locs[i].0 as int, locs[i].1 as int);
    }
}

pub(crate) proof fn edge_topo_stays(
    a: Seq<Seq<u8>>,
    b: Seq<Seq<u8>>,
    root: u32,
    strings: Seq<Seq<char>>,
    edges: Seq<EdgeView>,
)
    requires
        a.is_prefix_of(b),
        edge_topo_ok(a, root, strings, edges),
    ensures
        edge_topo_ok(b, root, strings, edges),
{
    let lists = choose|lists: Seq<Seq<u32>>| #[trigger]
        super::disk_index::lists_at(a, root, lists) && topo_ok(a, lists, strings, edges);
    lists_at_stay(a, b, root, lists);
    assert forall|i: int| 0 <= i < edges.len() implies edge_at(
        b,
        lists[0][i],
        lists[1][i],
        strings,
    ) == Some(#[trigger] edges[i]) by {
        assert(edge_at(a, lists[0][i], lists[1][i], strings) == Some(edges[i]));
        cells_stay(a, b, lists[0][i] as int, lists[1][i] as int);
    }
}

/// The index of the elements under each label.
proof fn label_index_written(
    pages: Seq<Seq<u8>>,
    root: u32,
    entries: Seq<(u32, Seq<u32>)>,
    sids: Seq<Vec<u32>>,
    strings: Seq<Seq<char>>,
    labels: Seq<LabelTypeView>,
)
    requires
        super::disk_index::id_index_at(pages, root, entries),
        super::labels::distinct_keys(entries),
        forall|i: int| 0 <= i < entries.len() ==> (#[trigger] entries[i]).1.len() > 0,
        forall|sid: u32| #[trigger]
            super::labels::under(entries, sid) == super::labels::listed(
                super::disk_index::list_views(sids),
                sid,
            ),
        strings.no_duplicates(),
        super::writer::labels_known(sids, strings, labels),
    ensures
        label_index_ok(pages, root, strings, labels),
{
    let pairs = super::disk_index::pair_list(pages, root)->Ok_0;
    assert forall|i: int, j: int| 0 <= i < j < pairs.len() implies (#[trigger] pairs[i]).0 != (
    #[trigger] pairs[j]).0 by {
        assert(entries[i].0 != entries[j].0);
    }
    assert forall|i: int| 0 <= i < pairs.len() implies (#[trigger] pairs[i]).0 < strings.len()
        && super::disk_index::u32_list(pages, pairs[i].1) == Ok::<_, StoreError>(
        super::labels::labelled(labels, strings[pairs[i].0 as int]),
    ) by {
        let sid = entries[i].0;
        super::labels::under_entry(entries, i);
        assert(super::labels::under(entries, sid) == super::labels::listed(
            super::disk_index::list_views(sids),
            sid,
        ));
        assert(entries[i].1.len() > 0);
        super::labels::listed_in_range(sids, strings, labels, sid);
        super::labels::listed_by_name(sids, strings, labels, sid);
    }
    assert forall|sid: u32|
        sid < strings.len() && super::labels::labelled(
            labels,
            #[trigger] strings[sid as int],
        ).len() > 0 implies exists|i: int| 0 <= i < pairs.len() && (#[trigger] pairs[i]).0
        == sid by {
        super::labels::listed_by_name(sids, strings, labels, sid);
        assert(super::labels::under(entries, sid) == super::labels::listed(
            super::disk_index::list_views(sids),
            sid,
        ));
        if forall|i: int| 0 <= i < entries.len() ==> (#[trigger] entries[i]).0 != sid {
            super::labels::under_none(entries, sid);
        }
        let i = choose|i: int| 0 <= i < entries.len() && (#[trigger] entries[i]).0 == sid;
        assert(pairs[i].0 == sid);
    }
}

/// A node of cells is one of the nodes.
pub proof fn nodes_of_cell(cells: Seq<Seq<u8>>, strings: Seq<Seq<char>>, i: int)
    requires
        nodes_of(cells, strings) is Some,
        0 <= i < cells.len(),
    ensures
        nodes_of(cells, strings)->Some_0.len() == cells.len(),
        node_of(cells[i], strings) == Some(nodes_of(cells, strings)->Some_0[i]),
    decreases cells.len(),
{
    nodes_of_len(cells, strings);
    if i < cells.len() - 1 {
        nodes_of_len(cells.drop_last(), strings);
        nodes_of_cell(cells.drop_last(), strings, i);
        assert(cells.drop_last()[i] == cells[i]);
    } else {
        nodes_of_len(cells.drop_last(), strings);
    }
}

pub proof fn nodes_of_len(cells: Seq<Seq<u8>>, strings: Seq<Seq<char>>)
    requires
        nodes_of(cells, strings) is Some,
    ensures
        nodes_of(cells, strings)->Some_0.len() == cells.len(),
    decreases cells.len(),
{
    if cells.len() > 0 {
        nodes_of_len(cells.drop_last(), strings);
    }
}

pub proof fn edges_of_len(cells: Seq<Seq<u8>>, strings: Seq<Seq<char>>)
    requires
        edges_of(cells, strings) is Some,
    ensures
        edges_of(cells, strings)->Some_0.len() == cells.len(),
    decreases cells.len(),
{
    if cells.len() > 0 {
        edges_of_len(cells.drop_last(), strings);
    }
}

pub proof fn edges_of_cell(cells: Seq<Seq<u8>>, strings: Seq<Seq<char>>, i: int)
    requires
        edges_of(cells, strings) is Some,
        0 <= i < cells.len(),
    ensures
        edges_of(cells, strings)->Some_0.len() == cells.len(),
        edge_of(cells[i], strings) == Some(edges_of(cells, strings)->Some_0[i]),
    decreases cells.len(),
{
    edges_of_len(cells, strings);
    edges_of_len(cells.drop_last(), strings);
    if i < cells.len() - 1 {
        edges_of_cell(cells.drop_last(), strings, i);
        assert(cells.drop_last()[i] == cells[i]);
    }
}

/// Something in the graph keeps it from being saved.
pub open spec fn graph_blocks(nodes: Seq<NodeView>, edges: Seq<EdgeView>, e: StoreError) -> bool {
    ||| exists|i: int|
        0 <= i < nodes.len() && super::writer::element_blocks(
            (#[trigger] nodes[i]).name,
            nodes[i].labels,
            nodes[i].props,
            0,
            e,
        )
    ||| exists|i: int|
        0 <= i < edges.len() && super::writer::element_blocks(
            (#[trigger] edges[i]).name,
            edges[i].labels,
            edges[i].props,
            super::writer::EDGE_EXTRA as int,
            e,
        )
    ||| e == StoreError::TooManyEdges && super::adjacency::edge_pairs(
        edges,
        Side::Undirected,
    ).len() > u32::MAX
}

/// How many pages the records and texts of nodes take at most.
pub open spec fn nodes_pages(nodes: Seq<NodeView>) -> nat
    decreases nodes.len(),
{
    if nodes.len() == 0 {
        0
    } else {
        let n = nodes.last();
        nodes_pages(nodes.drop_last()) + super::writer::element_pages(n.name, n.labels, n.props) + 1
    }
}

/// How many pages the records and texts of edges take at most.
pub open spec fn edges_pages(edges: Seq<EdgeView>) -> nat
    decreases edges.len(),
{
    if edges.len() == 0 {
        0
    } else {
        let e = edges.last();
        edges_pages(edges.drop_last()) + super::writer::element_pages(e.name, e.labels, e.props) + 1
    }
}

/// How many pages the lists of places take at most.
pub open spec fn place_pages(table: nat, nodes: nat, edges: nat) -> nat {
    super::disk_index::list_pages(table) + super::disk_index::list_pages(nodes) + topo_pages(edges)
}

/// How many pages the places, ends and directions of edges take at most.
pub open spec fn topo_pages(edges: nat) -> nat {
    5 * super::disk_index::list_pages(edges) + super::disk_index::list_pages(5)
}

/// How many pages a file with a graph takes at most.
pub open spec fn graph_pages(nodes: Seq<NodeView>, edges: Seq<EdgeView>) -> nat {
    4 * (nodes_pages(nodes) + edges_pages(edges)) + 4 * nodes.len() + 13 * edges.len() + 25
}

proof fn nodes_pages_prefix(nodes: Seq<NodeView>, i: int)
    requires
        0 <= i <= nodes.len(),
    ensures
        nodes_pages(nodes.take(i)) <= nodes_pages(nodes),
    decreases nodes.len(),
{
    if i < nodes.len() {
        assert(nodes.drop_last().take(i) =~= nodes.take(i));
        nodes_pages_prefix(nodes.drop_last(), i);
    } else {
        assert(nodes.take(i) =~= nodes);
    }
}

proof fn edges_pages_prefix(edges: Seq<EdgeView>, i: int)
    requires
        0 <= i <= edges.len(),
    ensures
        edges_pages(edges.take(i)) <= edges_pages(edges),
    decreases edges.len(),
{
    if i < edges.len() {
        assert(edges.drop_last().take(i) =~= edges.take(i));
        edges_pages_prefix(edges.drop_last(), i);
    } else {
        assert(edges.take(i) =~= edges);
    }
}

/// Every label is a text of its element.
proof fn node_label_count(
    sids: Seq<Vec<u32>>,
    strings: Seq<Seq<char>>,
    nodes: Seq<NodeView>,
)
    requires
        super::writer::labels_known(
            sids,
            strings,
            super::writer::node_label_views(stored_nodes(nodes)),
        ),
    ensures
        super::disk_index::total_len(super::disk_index::list_views(sids)) <= nodes_pages(nodes),
    decreases nodes.len(),
{
    if nodes.len() > 0 {
        let views = super::disk_index::list_views(sids);
        assert(views.drop_last() =~= super::disk_index::list_views(sids.drop_last()));
        assert forall|i: int| 0 <= i < sids.drop_last().len() implies super::values::resolve_ids(
            (#[trigger] sids.drop_last()[i])@,
            strings,
        ) == Some(
            super::writer::node_label_views(stored_nodes(nodes.drop_last()))[i].required(),
        ) by {
            assert(sids[i] == sids.drop_last()[i]);
        }
        node_label_count(sids.drop_last(), strings, nodes.drop_last());
        let last = nodes.len() - 1;
        assert(super::values::resolve_ids(sids[last]@, strings) is Some);
        super::writer::conjunction_labels(nodes[last].labels.required());
        super::values::ids_len(sids[last]@, strings);
        super::values::texts_pages_len(nodes[last].labels.required());
    }
}

proof fn edge_label_count(
    sids: Seq<Vec<u32>>,
    strings: Seq<Seq<char>>,
    edges: Seq<EdgeView>,
)
    requires
        super::writer::labels_known(
            sids,
            strings,
            super::writer::edge_label_views(stored_edges(edges)),
        ),
    ensures
        super::disk_index::total_len(super::disk_index::list_views(sids)) <= edges_pages(edges),
    decreases edges.len(),
{
    if edges.len() > 0 {
        let views = super::disk_index::list_views(sids);
        assert(views.drop_last() =~= super::disk_index::list_views(sids.drop_last()));
        assert forall|i: int| 0 <= i < sids.drop_last().len() implies super::values::resolve_ids(
            (#[trigger] sids.drop_last()[i])@,
            strings,
        ) == Some(
            super::writer::edge_label_views(stored_edges(edges.drop_last()))[i].required(),
        ) by {
            assert(sids[i] == sids.drop_last()[i]);
        }
        edge_label_count(sids.drop_last(), strings, edges.drop_last());
        let last = edges.len() - 1;
        assert(super::values::resolve_ids(sids[last]@, strings) is Some);
        super::writer::conjunction_labels(edges[last].labels.required());
        super::values::ids_len(sids[last]@, strings);
        super::values::texts_pages_len(edges[last].labels.required());
    }
}

/// An index of filled lists takes few pages.
proof fn filled_index_pages<T>(entries: Seq<(u32, Seq<T>)>, n: nat)
    requires
        forall|i: int|
            0 <= i < entries.len() ==> (#[trigger] super::disk_index::entry_lists(
                entries,
            )[i]).len() > 0,
        super::disk_index::total_len(super::disk_index::entry_lists(entries)) <= n,
    ensures
        super::disk_index::index_pages(entries) <= 2 * n + 1,
{
    super::disk_index::filled_lists_pages(super::disk_index::entry_lists(entries));
}

/// The lists of edges at nodes take few pages.
proof fn csr_pages(edges: Seq<EdgeView>, nodes: nat)
    ensures
        super::disk_index::lists_pages(csr_lists(edges, nodes)) + super::disk_index::list_pages(6)
            <= 3 * nodes + 4 * edges.len() + 10,
{
    let l = csr_lists(edges, nodes);
    super::adjacency::pairs_len(edges, Side::Outgoing);
    super::adjacency::pairs_len(edges, Side::Incoming);
    super::adjacency::pairs_len(edges, Side::Undirected);
    super::adjacency::flat_len(super::adjacency::edge_pairs(edges, Side::Outgoing), nodes);
    super::adjacency::flat_len(super::adjacency::edge_pairs(edges, Side::Incoming), nodes);
    super::adjacency::flat_len(super::adjacency::edge_pairs(edges, Side::Undirected), nodes);
    assert(super::disk_index::lists_pages(l) == super::disk_index::list_pages(l[0].len())
        + super::disk_index::list_pages(l[1].len()) + super::disk_index::list_pages(l[2].len())
        + super::disk_index::list_pages(l[3].len()) + super::disk_index::list_pages(l[4].len())
        + super::disk_index::list_pages(l[5].len())) by {
        reveal_with_fuel(super::disk_index::lists_pages, 7);
    }
}

/// Nodes that are no obstacle.
pub open spec fn nodes_storable(nodes: Seq<NodeView>) -> bool {
    forall|i: int, e: StoreError|
        0 <= i < nodes.len() ==> !#[trigger] super::writer::element_blocks(
            nodes[i].name,
            nodes[i].labels,
            nodes[i].props,
            0,
            e,
        )
}

/// Edges that are no obstacle.
pub open spec fn edges_storable(edges: Seq<EdgeView>) -> bool {
    forall|i: int, e: StoreError|
        0 <= i < edges.len() ==> !#[trigger] super::writer::element_blocks(
            edges[i].name,
            edges[i].labels,
            edges[i].props,
            super::writer::EDGE_EXTRA as int,
            e,
        )
}

/// Writes the nodes of a graph.
pub(crate) fn write_nodes(w: &mut Writer, graph: &MemoryGraphStore) -> (r: Result<(), StoreError>)
    requires
        graph.wf(),
        old(w).holds(Seq::empty(), Seq::empty()),
    ensures
        final(w).pager.free == old(w).pager.free,
        final(w).pager.header == old(w).pager.header,
        match r {
            Ok(_) => final(w).holds(stored_nodes(graph.node_seq()), Seq::empty()) && final(w).used() <= old(w).used() + nodes_pages(
                graph.node_seq(),
            ) && nodes_storable(graph.node_seq()),
            Err(e) => (e == StoreError::Full && old(w).used() + nodes_pages(graph.node_seq())
                > u32::MAX)
                || graph_blocks(graph.node_seq(), graph.edge_seq(), e),
        },
{
    let ghost all = graph.node_seq();
    let mut i: usize = 0;
    assert(stored_nodes(all.take(0)) =~= Seq::empty());
    while i < graph.node_names.len()
        invariant
            i <= graph.node_names.len(),
            graph.wf(),
            all == graph.node_seq(),
            w.pager.free == old(w).pager.free,
            w.pager.header == old(w).pager.header,
            w.holds(stored_nodes(all.take(i as int)), Seq::empty()),
            w.used() <= old(w).used() + nodes_pages(all.take(i as int)),
            nodes_storable(all.take(i as int)),
        decreases graph.node_names.len() - i,
    {
        proof {
            assert(all.take(i + 1).drop_last() =~= all.take(i as int));
            assert(all.take(i + 1).last() == graph.node_at(i as int));
            nodes_pages_prefix(all, i + 1);
        }
        let ghost done = stored_nodes(all.take(i as int));
        match w.add_node(
            graph.node_names[i].as_str(),
            &graph.node_labels[i],
            &graph.node_props[i],
            Ghost(done),
            Ghost(Seq::empty()),
        ) {
            Ok(_) => {},
            Err(e) => {
                assert(all[i as int] == graph.node_at(i as int));
                return Err(e);
            },
        }
        proof {
            assert(all[i as int] == graph.node_at(i as int));
            assert(stored_nodes(all.take(i + 1)) =~= done.push(stored_node(all[i as int])));
        }
        assert(nodes_storable(all.take(i + 1))) by {
            assert forall|j: int, e: StoreError|
                0 <= j < i + 1 implies !#[trigger] super::writer::element_blocks(
                all.take(i + 1)[j].name,
                all.take(i + 1)[j].labels,
                all.take(i + 1)[j].props,
                0,
                e,
            ) by {
                if j < i {
                    assert(all.take(i as int)[j] == all[j]);
                    assert(!super::writer::element_blocks(
                        all.take(i as int)[j].name,
                        all.take(i as int)[j].labels,
                        all.take(i as int)[j].props,
                        0,
                        e,
                    ));
                }
            }
        }
        i = i + 1;
    }
    assert(all.take(i as int) =~= all);
    Ok(())
}

/// Writes the edges of a graph behind its nodes.
pub(crate) fn write_edges(w: &mut Writer, graph: &MemoryGraphStore) -> (r: Result<(), StoreError>)
    requires
        graph.wf(),
        old(w).holds(stored_nodes(graph.node_seq()), Seq::empty()),
    ensures
        final(w).pager.free == old(w).pager.free,
        final(w).pager.header == old(w).pager.header,
        match r {
            Ok(_) => final(w).holds(
                stored_nodes(graph.node_seq()),
                stored_edges(graph.edge_seq()),
            ) && final(w).used() <= old(w).used() + edges_pages(
                graph.edge_seq(),
            ) && edges_storable(graph.edge_seq()),
            Err(e) => (e == StoreError::Full && old(w).used() + edges_pages(graph.edge_seq())
                > u32::MAX)
                || graph_blocks(graph.node_seq(), graph.edge_seq(), e),
        },
{
    let ghost nodes = stored_nodes(graph.node_seq());
    let ghost all = graph.edge_seq();
    let mut i: usize = 0;
    assert(stored_edges(all.take(0)) =~= Seq::empty());
    while i < graph.edge_names.len()
        invariant
            i <= graph.edge_names.len(),
            graph.wf(),
            all == graph.edge_seq(),
            nodes == stored_nodes(graph.node_seq()),
            w.pager.free == old(w).pager.free,
            w.pager.header == old(w).pager.header,
            w.holds(nodes, stored_edges(all.take(i as int))),
            w.used() <= old(w).used() + edges_pages(all.take(i as int)),
            edges_storable(all.take(i as int)),
        decreases graph.edge_names.len() - i,
    {
        proof {
            assert(all.take(i + 1).drop_last() =~= all.take(i as int));
            assert(all.take(i + 1).last() == graph.edge_at(i as int));
            edges_pages_prefix(all, i + 1);
        }
        let ghost done = stored_edges(all.take(i as int));
        match w.add_edge(
            graph.edge_names[i].as_str(),
            &graph.edge_labels[i],
            &graph.edge_props[i],
            graph.edge_src[i],
            graph.edge_tgt[i],
            graph.edge_directed[i],
            Ghost(nodes),
            Ghost(done),
        ) {
            Ok(_) => {},
            Err(e) => {
                assert(all[i as int] == graph.edge_at(i as int));
                return Err(e);
            },
        }
        proof {
            assert(all[i as int] == graph.edge_at(i as int));
            assert(stored_edges(all.take(i + 1)) =~= done.push(stored_edge(all[i as int])));
        }
        assert(edges_storable(all.take(i + 1))) by {
            assert forall|j: int, e: StoreError|
                0 <= j < i + 1 implies !#[trigger] super::writer::element_blocks(
                all.take(i + 1)[j].name,
                all.take(i + 1)[j].labels,
                all.take(i + 1)[j].props,
                super::writer::EDGE_EXTRA as int,
                e,
            ) by {
                if j < i {
                    assert(all.take(i as int)[j] == all[j]);
                    assert(!super::writer::element_blocks(
                        all.take(i as int)[j].name,
                        all.take(i as int)[j].labels,
                        all.take(i as int)[j].props,
                        super::writer::EDGE_EXTRA as int,
                        e,
                    ));
                }
            }
        }
        i = i + 1;
    }
    assert(all.take(i as int) =~= all);
    Ok(())
}

/// The two halves of places.
fn split_locs(locs: &Vec<(u32, u16)>) -> (r: (Vec<u32>, Vec<u32>))
    ensures
        r.0@.len() == locs@.len(),
        r.1@.len() == locs@.len(),
        forall|i: int|
            0 <= i < locs@.len() ==> r.0@[i] == (#[trigger] locs@[i]).0 && r.1@[i] == locs@[i].1,
{
    let mut a: Vec<u32> = Vec::new();
    let mut b: Vec<u32> = Vec::new();
    let mut i: usize = 0;
    while i < locs.len()
        invariant
            i <= locs.len(),
            a@.len() == i,
            b@.len() == i,
            forall|j: int|
                0 <= j < i ==> a@[j] == (#[trigger] locs@[j]).0 && b@[j] == locs@[j].1,
        decreases locs.len() - i,
    {
        a.push(locs[i].0);
        b.push(locs[i].1 as u32);
        i = i + 1;
    }
    (a, b)
}

/// Directions as numbers.
fn direction_numbers(directed: &Vec<bool>) -> (r: Vec<u32>)
    ensures
        r@.len() == directed@.len(),
        forall|i: int|
            0 <= i < r@.len() ==> #[trigger] r@[i] == (if directed@[i] {
                1u32
            } else {
                0u32
            }),
{
    let mut out: Vec<u32> = Vec::new();
    let mut i: usize = 0;
    while i < directed.len()
        invariant
            i <= directed.len(),
            out@.len() == i,
            forall|j: int|
                0 <= j < i ==> #[trigger] out@[j] == (if directed@[j] {
                    1u32
                } else {
                    0u32
                }),
        decreases directed.len() - i,
    {
        out.push(
            if directed[i] {
                1
            } else {
                0
            },
        );
        i = i + 1;
    }
    out
}

/// A copy of ids.
pub fn copy_ids(v: &Vec<u32>) -> (r: Vec<u32>)
    ensures
        r@ == v@,
{
    vstd::slice::slice_to_vec(v.as_slice())
}

/// Writes the places of the nodes.
pub fn write_node_locs(pager: &mut Pager, locs: &Vec<(u32, u16)>) -> (r: Result<u32, StoreError>)
    requires
        old(pager).wf(),
    ensures
        final(pager).wf(),
        final(pager).free == old(pager).free,
        final(pager).header == old(pager).header,
        super::disk_index::appended(old(pager)@, final(pager)@),
        match r {
            Ok(root) => 0 < root && super::disk_index::pair_list(final(pager)@, root) == Ok::<
                _,
                StoreError,
            >(Seq::new(locs@.len(), |i: int| (locs@[i].0, locs@[i].1 as u32))) && final(pager)@.len() <= old(pager)@.len() + super::disk_index::list_pages(locs@.len()),
            Err(e) => e == StoreError::Full && old(pager)@.len() + super::disk_index::list_pages(locs@.len()) > u32::MAX,
        },
{
    let mut pairs: Vec<(u32, u32)> = Vec::new();
    let mut i: usize = 0;
    while i < locs.len()
        invariant
            i <= locs.len(),
            pairs@.len() == i,
            forall|j: int|
                0 <= j < i ==> #[trigger] pairs@[j] == (locs@[j].0, locs@[j].1 as u32),
        decreases locs.len() - i,
    {
        pairs.push((locs[i].0, locs[i].1 as u32));
        i = i + 1;
    }
    assert(pairs@ =~= Seq::new(locs@.len(), |i: int| (locs@[i].0, locs@[i].1 as u32)));
    write_pair_list(pager, &pairs)
}

/// Writes the places, ends and directions of the edges.
pub fn write_edge_topo(
    pager: &mut Pager,
    locs: &Vec<(u32, u16)>,
    src: &Vec<u32>,
    tgt: &Vec<u32>,
    directed: &Vec<bool>,
) -> (r: Result<u32, StoreError>)
    requires
        old(pager).wf(),
        src@.len() == locs@.len(),
        tgt@.len() == locs@.len(),
        directed@.len() == locs@.len(),
    ensures
        final(pager).wf(),
        final(pager).free == old(pager).free,
        final(pager).header == old(pager).header,
        super::disk_index::appended(old(pager)@, final(pager)@),
        match r {
            Ok(root) => 0 < root && super::disk_index::lists_at(
                final(pager)@,
                root,
                topo_lists(locs@, src@, tgt@, directed@),
            ) && final(pager)@.len() <= old(pager)@.len() + topo_pages(locs@.len()),
            Err(e) => e == StoreError::Full && old(pager)@.len() + topo_pages(locs@.len()) > u32::MAX,
        },
{
    let (pages, cells) = split_locs(locs);
    let mut lists: Vec<Vec<u32>> = Vec::new();
    lists.push(pages);
    lists.push(cells);
    lists.push(copy_ids(src));
    lists.push(copy_ids(tgt));
    lists.push(direction_numbers(directed));
    proof {
        let want = topo_lists(locs@, src@, tgt@, directed@);
        assert(lists@[0]@ =~= want[0]);
        assert(lists@[1]@ =~= want[1]);
        assert(lists@[4]@ =~= want[4]);
        assert(super::disk_index::list_views(lists@) =~= want);
        assert(super::disk_index::lists_pages(want) == topo_pages(locs@.len())
            - super::disk_index::list_pages(5)) by {
            reveal_with_fuel(super::disk_index::lists_pages, 6);
        }
    }
    write_u32_lists(pager, &lists)
}

/// The lists by which edges are found.
pub open spec fn topo_lists(
    locs: Seq<(u32, u16)>,
    src: Seq<u32>,
    tgt: Seq<u32>,
    directed: Seq<bool>,
) -> Seq<Seq<u32>> {
    seq![
        Seq::new(locs.len(), |i: int| locs[i].0),
        Seq::new(locs.len(), |i: int| locs[i].1 as u32),
        src,
        tgt,
        Seq::new(
            directed.len(),
            |i: int|
                if directed[i] {
                    1u32
                } else {
                    0u32
                },
        ),
    ]
}

/// Writes the edges at each node, side by side.
pub fn write_adjacency_csr(pager: &mut Pager, out: AdjCsr, incoming: AdjCsr, und: AdjCsr) -> (r:
    Result<u32, StoreError>)
    requires
        old(pager).wf(),
    ensures
        final(pager).wf(),
        final(pager).free == old(pager).free,
        final(pager).header == old(pager).header,
        super::disk_index::appended(old(pager)@, final(pager)@),
        match r {
            Ok(root) => 0 < root && super::disk_index::lists_at(
                final(pager)@,
                root,
                seq![
                    out.offsets@,
                    out.flat@,
                    incoming.offsets@,
                    incoming.flat@,
                    und.offsets@,
                    und.flat@,
                ],
            ) && final(pager)@.len() <= old(pager)@.len() + super::disk_index::lists_pages(
                seq![
                    out.offsets@,
                    out.flat@,
                    incoming.offsets@,
                    incoming.flat@,
                    und.offsets@,
                    und.flat@,
                ],
            ) + super::disk_index::list_pages(6),
            Err(e) => e == StoreError::Full && old(pager)@.len() + super::disk_index::lists_pages(
                seq![
                    out.offsets@,
                    out.flat@,
                    incoming.offsets@,
                    incoming.flat@,
                    und.offsets@,
                    und.flat@,
                ],
            ) + super::disk_index::list_pages(6) > u32::MAX,
        },
{
    let ghost want = seq![
        out.offsets@,
        out.flat@,
        incoming.offsets@,
        incoming.flat@,
        und.offsets@,
        und.flat@,
    ];
    let mut lists: Vec<Vec<u32>> = Vec::new();
    lists.push(out.offsets);
    lists.push(out.flat);
    lists.push(incoming.offsets);
    lists.push(incoming.flat);
    lists.push(und.offsets);
    lists.push(und.flat);
    assert(super::disk_index::list_views(lists@) =~= want);
    write_u32_lists(pager, &lists)
}

/// The places of records say what is there.
proof fn locs_written(w: Writer, nodes: Seq<NodeView>, edges: Seq<EdgeView>, pages: Seq<Seq<u8>>)
    requires
        w.holds(nodes, edges),
        w.pager@.is_prefix_of(pages),
    ensures
        w.node_locs@.len() == nodes.len(),
        w.edge_locs@.len() == edges.len(),
        forall|i: int|
            0 <= i < nodes.len() ==> node_at(
                pages,
                (#[trigger] w.node_locs@[i]).0,
                w.node_locs@[i].1 as u32,
                w.strings@,
            ) == Some(nodes[i]),
        forall|i: int|
            0 <= i < edges.len() ==> edge_at(
                pages,
                (#[trigger] w.edge_locs@[i]).0,
                w.edge_locs@[i].1 as u32,
                w.strings@,
            ) == Some(edges[i]),
{
    let nc = super::cells::all_cells(w.pager@, PageType::NodeData)->Some_0;
    let ec = super::cells::all_cells(w.pager@, PageType::EdgeData)->Some_0;
    nodes_of_len(nc, w.strings@);
    edges_of_len(ec, w.strings@);
    assert forall|i: int| 0 <= i < nodes.len() implies node_at(
        pages,
        (#[trigger] w.node_locs@[i]).0,
        w.node_locs@[i].1 as u32,
        w.strings@,
    ) == Some(nodes[i]) by {
        let l = w.node_locs@[i];
        assert(super::cells::cell_at(w.pager@, l.0 as int, l.1 as int) == Some(nc[i]));
        cells_stay(w.pager@, pages, l.0 as int, l.1 as int);
        nodes_of_cell(nc, w.strings@, i);
    }
    assert forall|i: int| 0 <= i < edges.len() implies edge_at(
        pages,
        (#[trigger] w.edge_locs@[i]).0,
        w.edge_locs@[i].1 as u32,
        w.strings@,
    ) == Some(edges[i]) by {
        let l = w.edge_locs@[i];
        assert(super::cells::cell_at(w.pager@, l.0 as int, l.1 as int) == Some(ec[i]));
        cells_stay(w.pager@, pages, l.0 as int, l.1 as int);
        edges_of_cell(ec, w.strings@, i);
    }
}

/// Strings and records stay when index pages are added.
proof fn records_stay(w: Writer, nodes: Seq<NodeView>, edges: Seq<EdgeView>, pages: Seq<Seq<u8>>)
    requires
        w.holds(nodes, edges),
        super::disk_index::appended(w.pager@, pages),
    ensures
        w.strings.stored(pages),
        super::string_table::read_table(pages, w.strings.pages@) == Ok::<_, StoreError>(
            w.strings@,
        ),
        super::cells::all_cells(pages, PageType::NodeData) == super::cells::all_cells(
            w.pager@,
            PageType::NodeData,
        ),
        super::cells::all_cells(pages, PageType::EdgeData) == super::cells::all_cells(
            w.pager@,
            PageType::EdgeData,
        ),
{
    let a = w.pager@;
    let kinds = super::disk_index::index_kinds();
    assert forall|i: int| 0 <= i < a.len() implies #[trigger] pages[i] == a[i] by {
        assert(pages.subrange(0, a.len() as int)[i] == a[i]);
    }
    assert(super::pager::grown(a, pages, kinds)) by {
        assert forall|i: int| a.len() <= i < pages.len() implies kinds.contains(
            #[trigger] pages[i][0],
        ) by {
            assert(super::pager::has_type(pages[i], PageType::LabelIndex));
        }
    }
    assert(super::string_table::no_more_pages(a, pages, PageType::StringTable)) by {
        assert forall|n: int|
            0 <= n < pages.len() && super::pager::has_type(
                #[trigger] pages[n],
                PageType::StringTable,
            ) implies n < a.len() && super::pager::has_type(a[n], PageType::StringTable) by {
            if n >= a.len() {
                assert(kinds.contains(pages[n][0]));
            }
        }
    }
    w.strings.stored_frame(a, pages);
    w.strings.stored_facts(pages);
    super::cells::cells_frame(a, pages, kinds, PageType::NodeData);
    super::cells::cells_frame(a, pages, kinds, PageType::EdgeData);
}

/// What a file with places of records holds.
proof fn places_saved(w: Writer, graph: &MemoryGraphStore, pages: Seq<Seq<u8>>, header: Header)
    requires
        graph.wf(),
        pages.len() <= u32::MAX,
        w.holds(stored_nodes(graph.node_seq()), stored_edges(graph.edge_seq())),
        super::disk_index::appended(w.pager@, pages),
        header.string_table_root != 0,
        super::disk_index::u32_list(pages, header.string_table_root) == Ok::<_, StoreError>(
            w.strings.pages@,
        ),
        super::disk_index::pair_list(pages, header.node_locs_root) == Ok::<_, StoreError>(
            Seq::new(w.node_locs@.len(), |i: int| (w.node_locs@[i].0, w.node_locs@[i].1 as u32)),
        ),
        super::disk_index::lists_at(
            pages,
            header.edge_topo_root,
            topo_lists(
                w.edge_locs@,
                graph.edge_src@,
                graph.edge_tgt@,
                graph.edge_directed@,
            ),
        ),
    ensures
        ({
            let nodes = stored_nodes(graph.node_seq());
            let edges = stored_edges(graph.edge_seq());
            &&& node_locs_ok(pages, header.node_locs_root, w.strings@, nodes)
            &&& edge_topo_ok(pages, header.edge_topo_root, w.strings@, edges)
            &&& file_strings(pages, header) == Ok::<_, StoreError>(w.strings@)
            &&& w.strings@.len() <= u32::MAX
            &&& file_graph(pages, header) == Ok::<_, StoreError>((nodes, edges))
            &&& table_pages(pages, header) == Ok::<_, StoreError>(
                pages_of_type(pages, PageType::StringTable, pages.len()),
            )
        }),
{
    let nodes = stored_nodes(graph.node_seq());
    let edges = stored_edges(graph.edge_seq());
    let strings = w.strings@;
    records_stay(w, nodes, edges, pages);
    locs_written(w, nodes, edges, pages);
    let locs = Seq::new(
        w.node_locs@.len(),
        |i: int| (w.node_locs@[i].0, w.node_locs@[i].1 as u32),
    );
    assert forall|i: int| 0 <= i < locs.len() implies (#[trigger] locs[i]).1 <= u16::MAX
        && node_at(pages, locs[i].0, locs[i].1, strings) == Some(nodes[i]) by {
        assert(w.node_locs@[i].1 <= u16::MAX);
    }
    let topo = topo_lists(
        w.edge_locs@,
        graph.edge_src@,
        graph.edge_tgt@,
        graph.edge_directed@,
    );
    assert(topo_ok(pages, topo, strings, edges)) by {
        assert forall|i: int| 0 <= i < edges.len() implies {
            &&& topo[1][i] <= u16::MAX
            &&& edge_at(pages, topo[0][i], topo[1][i], strings) == Some(#[trigger] edges[i])
            &&& topo[2][i] == edges[i].src
            &&& topo[3][i] == edges[i].tgt
            &&& topo[4][i] == (if edges[i].directed {
                1u32
            } else {
                0u32
            })
        } by {
            assert(w.edge_locs@[i].1 <= u16::MAX);
            assert(graph.edge_seq()[i] == graph.edge_at(i));
        }
    }
    assert(table_pages(pages, header) == Ok::<_, StoreError>(w.strings.pages@));
    table_scanned(&w.strings, pages);
    w.strings.stored_facts(pages);
}

/// How many pages a file has at most once its records can be found.
pub open spec fn index_bound(w: Writer, graph: &MemoryGraphStore) -> nat {
    2 * w.pager@.len() + 2 * (nodes_pages(graph.node_seq()) + edges_pages(graph.edge_seq()))
        + 4 * graph.node_seq().len() + 13 * graph.edge_seq().len() + 21
}

/// Appends everything by which records are found. What is returned is the
/// header.
#[verifier::spinoff_prover]
#[verifier::rlimit(50)]
fn write_indexes(w: &mut Writer, graph: &MemoryGraphStore) -> (r: Result<Header, StoreError>)
    requires
        graph.wf(),
        old(w).holds(stored_nodes(graph.node_seq()), stored_edges(graph.edge_seq())),
        old(w).pager.header == Header::none(),
    ensures
        final(w).pager.wf(),
        final(w).pager.free == old(w).pager.free,
        match r {
            Ok(h) => h.catalog_root == 0 && h.secondary_index_root == 0 && saved(
                final(w).pager@,
                h,
                old(w).strings@,
                stored_nodes(graph.node_seq()),
                stored_edges(graph.edge_seq()),
            ) && final(w).pager@.len() <= index_bound(*old(w), graph)
                && super::adjacency::edge_pairs(graph.edge_seq(), Side::Undirected).len()
                <= u32::MAX,
            Err(e) => (e == StoreError::Full && index_bound(*old(w), graph) > u32::MAX)
                || graph_blocks(graph.node_seq(), graph.edge_seq(), e),
        },
{
    let ghost nodes = stored_nodes(graph.node_seq());
    let ghost edges = stored_edges(graph.edge_seq());
    let ghost w0 = *w;
    let ghost strings = w.strings@;
    let node_count = graph.node_names.len();
    proof {
        assert forall|i: int| 0 <= i < edges.len() implies (#[trigger] edges[i]).src
            == graph.edge_src@[i] && edges[i].tgt == graph.edge_tgt@[i] && edges[i].directed
            == graph.edge_directed@[i] && graph.edge_src@[i] < node_count && graph.edge_tgt@[i]
            < node_count by {
            assert(graph.edge_seq()[i] == graph.edge_at(i));
        }
        super::adjacency::pairs_range(edges, Side::Outgoing, node_count as int);
        super::adjacency::pairs_range(edges, Side::Incoming, node_count as int);
        super::adjacency::pairs_range(edges, Side::Undirected, node_count as int);
        locs_written(w0, nodes, edges, w0.pager@);
        super::adjacency::pairs_same(edges, graph.edge_seq(), Side::Undirected);
        node_label_count(w0.node_sids@, strings, graph.node_seq());
        edge_label_count(w0.edge_sids@, strings, graph.edge_seq());
        super::adjacency::triples_total(edges, nodes.len());
        w0.strings.page_count(w0.pager@);
        csr_pages(edges, nodes.len());
    }
    let src = &graph.edge_src;
    let tgt = &graph.edge_tgt;
    let dir = &graph.edge_directed;
    let out_pairs = collect_pairs(src, tgt, dir, Side::Outgoing, Ghost(edges));
    let in_pairs = collect_pairs(src, tgt, dir, Side::Incoming, Ghost(edges));
    let und_pairs = collect_pairs(src, tgt, dir, Side::Undirected, Ghost(edges));
    if und_pairs.len() > u32::MAX as usize {
        return Err(StoreError::TooManyEdges);
    }
    let node_entries = label_entries(&w.node_sids);
    let edge_entries = label_entries(&w.edge_sids);
    let triples = collect_triples(node_count, src, tgt, dir, Ghost(edges));
    let out = build_csr(node_count, &out_pairs);
    let incoming = build_csr(node_count, &in_pairs);
    let und = build_csr(node_count, &und_pairs);
    proof {
        index_entries_filled(node_entries@);
        index_entries_filled(edge_entries@);
        filled_index_pages(
            super::disk_index::id_entries(node_entries@),
            nodes_pages(graph.node_seq()),
        );
        filled_index_pages(
            super::disk_index::id_entries(edge_entries@),
            edges_pages(graph.edge_seq()),
        );
        filled_index_pages(super::disk_index::triple_entries(triples@), 2 * edges.len());
        assert(csr_lists(edges, nodes.len()) =~= seq![
            out.offsets@,
            out.flat@,
            incoming.offsets@,
            incoming.flat@,
            und.offsets@,
            und.flat@,
        ]);
    }
    let label_index_root = match write_label_index(&mut w.pager, &node_entries) {
        Ok(x) => x,
        Err(e) => {
            return Err(e);
        },
    };
    let ghost p1 = w.pager@;
    let edge_label_index_root = match write_label_index(&mut w.pager, &edge_entries) {
        Ok(x) => x,
        Err(e) => {
            return Err(e);
        },
    };
    let ghost p2 = w.pager@;
    let adjacency_root = match write_adjacency_index(&mut w.pager, &triples) {
        Ok(x) => x,
        Err(e) => {
            return Err(e);
        },
    };
    let ghost p3 = w.pager@;
    let csr_adjacency_root = match write_adjacency_csr(&mut w.pager, out, incoming, und) {
        Ok(x) => x,
        Err(e) => {
            return Err(e);
        },
    };
    let ghost p4 = w.pager@;
    let table = copy_ids(&w.strings.pages);
    let string_table_root = match write_u32_list(&mut w.pager, &table) {
        Ok(x) => x,
        Err(e) => {
            return Err(e);
        },
    };
    let ghost p5 = w.pager@;
    let node_locs_root = match write_node_locs(&mut w.pager, &w.node_locs) {
        Ok(x) => x,
        Err(e) => {
            return Err(e);
        },
    };
    let ghost p6 = w.pager@;
    let edge_topo_root = match write_edge_topo(&mut w.pager, &w.edge_locs, src, tgt, dir) {
        Ok(x) => x,
        Err(e) => {
            return Err(e);
        },
    };
    let ghost p7 = w.pager@;
    let header = Header {
        node_count: node_count as u32,
        edge_count: graph.edge_names.len() as u32,
        string_table_root,
        label_index_root,
        edge_label_index_root,
        adjacency_root,
        csr_adjacency_root,
        node_locs_root,
        edge_topo_root,
        catalog_root: 0,
        secondary_index_root: 0,
    };
    proof {
        super::disk_index::appended_twice(p5, p6, p7);
        super::disk_index::appended_twice(p4, p5, p7);
        super::disk_index::appended_twice(p3, p4, p7);
        super::disk_index::appended_twice(p2, p3, p7);
        super::disk_index::appended_twice(p1, p2, p7);
        super::disk_index::appended_twice(w0.pager@, p1, p7);
        let nl = super::writer::node_label_views(nodes);
        let el = super::writer::edge_label_views(edges);
        label_index_written(
            p1,
            label_index_root,
            super::disk_index::id_entries(node_entries@),
            w0.node_sids@,
            strings,
            nl,
        );
        label_index_stays(p1, p7, label_index_root, strings, nl);
        label_index_written(
            p2,
            edge_label_index_root,
            super::disk_index::id_entries(edge_entries@),
            w0.edge_sids@,
            strings,
            el,
        );
        label_index_stays(p2, p7, edge_label_index_root, strings, el);
        triples_stay(
            p3,
            p7,
            adjacency_root,
            super::adjacency::triple_index(edges, nodes.len()),
        );
        lists_at_stay(p4, p7, csr_adjacency_root, csr_lists(edges, nodes.len()));
        super::disk_index::lists_frame(p5, p7, string_table_root);
        super::disk_index::lists_frame(p6, p7, node_locs_root);
        places_saved(w0, graph, p7, header);
        assert(csr_fits(edges, nodes.len())) by {
            assert forall|side: Side|
                (#[trigger] super::adjacency::flat_upto(
                    super::adjacency::edge_pairs(edges, side),
                    nodes.len(),
                )).len() <= u32::MAX by {
                match side {
                    Side::Outgoing => {
                        assert(out.flat@.len() <= u32::MAX);
                    },
                    Side::Incoming => {
                        assert(incoming.flat@.len() <= u32::MAX);
                    },
                    Side::Undirected => {
                        assert(und.flat@.len() <= u32::MAX);
                    },
                }
            }
        }
    }
    Ok(header)
}

proof fn index_entries_filled(v: Seq<(u32, Vec<u32>)>)
    requires
        forall|i: int| 0 <= i < v.len() ==> (#[trigger] v[i]).1@.len() > 0,
    ensures
        forall|i: int|
            0 <= i < super::disk_index::id_entries(v).len() ==> (
            #[trigger] super::disk_index::id_entries(v)[i]).1.len() > 0,
        forall|i: int|
            0 <= i < super::disk_index::id_entries(v).len() ==> (
            #[trigger] super::disk_index::entry_lists(super::disk_index::id_entries(v))[i]).len()
                > 0,
{
    assert forall|i: int| 0 <= i < super::disk_index::id_entries(v).len() implies (
    #[trigger] super::disk_index::id_entries(v)[i]).1.len() > 0 by {
        assert(v[i].1@.len() > 0);
    }
}

/// What none of its elements blocks, and no count, is not blocked.
pub(crate) proof fn unblocked(nodes: Seq<NodeView>, edges: Seq<EdgeView>)
    requires
        nodes_storable(nodes),
        edges_storable(edges),
        super::adjacency::edge_pairs(edges, Side::Undirected).len() <= u32::MAX,
    ensures
        forall|e: StoreError| !#[trigger] graph_blocks(nodes, edges, e),
{
    assert forall|e: StoreError| !#[trigger] graph_blocks(nodes, edges, e) by {
        assert forall|i: int| 0 <= i < nodes.len() implies !super::writer::element_blocks(
            (#[trigger] nodes[i]).name,
            nodes[i].labels,
            nodes[i].props,
            0,
            e,
        ) by {}
        assert forall|i: int| 0 <= i < edges.len() implies !super::writer::element_blocks(
            (#[trigger] edges[i]).name,
            edges[i].labels,
            edges[i].props,
            super::writer::EDGE_EXTRA as int,
            e,
        ) by {}
    }
}

/// Saves a graph to a new file, which takes the place of `pager`. It fails on
/// a property that is a reference, on an element that does not fit on a page,
/// on a string that is too long and on more ends of undirected edges than can
/// be counted; apart from these, only where the pages it may take cannot be
/// numbered.
pub fn save_graph(graph: &MemoryGraphStore, pager: &mut Pager) -> (r: Result<(), StoreError>)
    requires
        graph.wf(),
    ensures
        match r {
            Ok(_) => {
                &&& final(pager).wf()
                &&& final(pager).free@ == Seq::<u32>::empty()
                &&& final(pager).header.catalog_root == 0
                &&& final(pager).header.secondary_index_root == 0
                &&& exists|strings: Seq<Seq<char>>| #[trigger]
                    saved(
                        final(pager)@,
                        final(pager).header,
                        strings,
                        stored_nodes(graph.node_seq()),
                        stored_edges(graph.edge_seq()),
                    )
                &&& final(pager)@.len() <= graph_pages(graph.node_seq(), graph.edge_seq())
                &&& forall|e: StoreError|
                    !#[trigger] graph_blocks(graph.node_seq(), graph.edge_seq(), e)
            },
            Err(e) => (e == StoreError::Full && graph_pages(graph.node_seq(), graph.edge_seq())
                > u32::MAX)
                || graph_blocks(graph.node_seq(), graph.edge_seq(), e),
        },
{
    let mut w = Writer::new();
    match write_nodes(&mut w, graph) {
        Ok(_) => {},
        Err(e) => {
            *pager = w.pager;
            return Err(e);
        },
    }
    match write_edges(&mut w, graph) {
        Ok(_) => {},
        Err(e) => {
            *pager = w.pager;
            return Err(e);
        },
    }
    let ghost strings = w.strings@;
    match write_indexes(&mut w, graph) {
        Ok(h) => {
            let mut p = w.pager;
            p.header = h;
            *pager = p;
            assert(saved(
                pager@,
                pager.header,
                strings,
                stored_nodes(graph.node_seq()),
                stored_edges(graph.edge_seq()),
            ));
            proof {
                unblocked(graph.node_seq(), graph.edge_seq());
            }
            Ok(())
        },
        Err(e) => {
            *pager = w.pager;
            Err(e)
        },
    }
}

/// Saving once more changes nothing: what comes back from a file is stored as
/// it is.
pub proof fn stored_once(n: NodeView, e: EdgeView)
    ensures
        stored_node(stored_node(n)) == stored_node(n),
        stored_edge(stored_edge(e)) == stored_edge(e),
{
    super::writer::conjunction_labels(n.labels.required());
    super::writer::conjunction_labels(e.labels.required());
    assert(stored_node(stored_node(n)).props =~= stored_node(n).props);
    assert(stored_edge(stored_edge(e)).props =~= stored_edge(e).props);
}

} // verus!
