//! A graph saved together with its catalog and its declared indexes.

use vstd::prelude::*;

use super::chain::write_chain;
use super::io::save_graph;
use super::pager::{Header, PageType, Pager, StoreError};
use crate::model::graph::MemoryGraphStore;
use crate::model::graph_access::{EdgeView, NodeView};

verus! {

/// The marks of the pages that hold a catalog or declared indexes.
pub open spec fn extra_kinds() -> Set<u8> {
    set![PageType::Catalog.byte(), PageType::SecondaryIndex.byte()]
}

/// A header that points to a catalog and to declared indexes.
pub open spec fn with_roots(h: Header, catalog: u32, specs: u32) -> Header {
    Header { catalog_root: catalog, secondary_index_root: specs, ..h }
}

/// A saved graph stays saved when pages of a catalog or of declared indexes are
/// added.
pub proof fn saved_with_more(
    a: Seq<Seq<u8>>,
    b: Seq<Seq<u8>>,
    h: Header,
    catalog: u32,
    specs: u32,
    strings: Seq<Seq<char>>,
    nodes: Seq<NodeView>,
    edges: Seq<EdgeView>,
)
    requires
        super::io::saved(a, h, strings, nodes, edges),
        a.is_prefix_of(b),
        a.len() >= 1,
        forall|i: int|
            a.len() <= i < b.len() ==> (#[trigger] b[i]).len() > 0 && extra_kinds().contains(
                b[i][0],
            ),
    ensures
        super::io::saved(b, with_roots(h, catalog, specs), strings, nodes, edges),
{
    let g = with_roots(h, catalog, specs);
    assert(b.subrange(0, a.len() as int) == a);
    assert forall|i: int| 0 <= i < a.len() implies #[trigger] b[i] == a[i] by {
        assert(b.subrange(0, a.len() as int)[i] == a[i]);
    }
    assert(super::pager::grown(a, b, extra_kinds()));
    super::cells::cells_frame(a, b, extra_kinds(), PageType::NodeData);
    super::cells::cells_frame(a, b, extra_kinds(), PageType::EdgeData);
    super::disk_index::lists_frame(a, b, h.string_table_root);
    let nums = super::disk_index::u32_list(a, h.string_table_root)->Ok_0;
    super::string_table::table_prefix(a, b, nums);
    super::io::scan_stays(a, b, PageType::StringTable, b.len());
    assert(super::io::file_strings(b, g) == Ok::<_, StoreError>(strings));
    assert(super::io::file_graph(b, g) == Ok::<_, StoreError>((nodes, edges)));
    super::io::node_locs_stay(a, b, h.node_locs_root, strings, nodes);
    super::io::edge_topo_stays(a, b, h.edge_topo_root, strings, edges);
    super::io::label_index_stays(
        a,
        b,
        h.label_index_root,
        strings,
        super::writer::node_label_views(nodes),
    );
    super::io::label_index_stays(
        a,
        b,
        h.edge_label_index_root,
        strings,
        super::writer::edge_label_views(edges),
    );
    super::io::triples_stay(
        a,
        b,
        h.adjacency_root,
        super::adjacency::triple_index(edges, nodes.len()),
    );
    super::io::lists_at_stay(
        a,
        b,
        h.csr_adjacency_root,
        super::io::csr_lists(edges, nodes.len()),
    );
}

/// A chain stays as it is when pages are added.
proof fn chain_stays(a: Seq<Seq<u8>>, b: Seq<Seq<u8>>, root: u32, t: PageType)
    requires
        a.is_prefix_of(b),
        super::chain::chain_payload(a, root, t) is Ok,
    ensures
        super::chain::chain_payload(b, root, t) == super::chain::chain_payload(a, root, t),
{
    assert(b.subrange(0, a.len() as int)[root as int] == a[root as int]);
    let total = super::bytes::num32(a[root as int], 12) as int;
    super::string_table::overflow_prefix(
        a,
        b,
        super::bytes::num32(a[root as int], 8),
        (total - super::chain::first_len(total)) as nat,
    );
}

/// A saved graph stays saved when two chains are added behind it.
proof fn roots_added(
    p0: Seq<Seq<u8>>,
    p1: Seq<Seq<u8>>,
    p2: Seq<Seq<u8>>,
    h: Header,
    catalog: u32,
    specs: u32,
    strings: Seq<Seq<char>>,
    nodes: Seq<NodeView>,
    edges: Seq<EdgeView>,
)
    requires
        super::io::saved(p0, h, strings, nodes, edges),
        p0.len() >= 1,
        p0.is_prefix_of(p1),
        p1.is_prefix_of(p2),
        forall|i: int|
            p0.len() <= i < p1.len() ==> (#[trigger] p1[i]).len() > 0 && extra_kinds().contains(
                p1[i][0],
            ),
        forall|i: int|
            p1.len() <= i < p2.len() ==> (#[trigger] p2[i]).len() > 0 && extra_kinds().contains(
                p2[i][0],
            ),
    ensures
        super::io::saved(p2, with_roots(h, catalog, specs), strings, nodes, edges),
{
    assert(p1.subrange(0, p0.len() as int) =~= p0);
    assert(p2.subrange(0, p1.len() as int) =~= p1);
    assert forall|i: int| 0 <= i < p1.len() implies #[trigger] p2[i] == p1[i] by {
        assert(p2.subrange(0, p1.len() as int)[i] == p1[i]);
    }
    assert forall|i: int| 0 <= i < p0.len() implies #[trigger] p1[i] == p0[i] by {
        assert(p1.subrange(0, p0.len() as int)[i] == p0[i]);
    }
    assert(p2.subrange(0, p0.len() as int) =~= p0);
    assert forall|i: int| p0.len() <= i < p2.len() implies (#[trigger] p2[i]).len() > 0
        && extra_kinds().contains(p2[i][0]) by {
        if i < p1.len() {
            assert(p1[i].len() > 0);
        }
    }
    saved_with_more(p0, p2, h, catalog, specs, strings, nodes, edges);
}

/// Writes a new chain behind all pages.
fn append_chain(pager: &mut Pager, payload: &Vec<u8>, t: PageType) -> (r: Result<u32, StoreError>)
    requires
        old(pager).wf(),
        old(pager).free@.len() == 0,
        extra_kinds().contains(t.byte()),
    ensures
        final(pager).wf(),
        final(pager).header == old(pager).header,
        match r {
            Ok(root) => {
                &&& root != 0
                &&& final(pager).free@.len() == 0
                &&& old(pager)@.is_prefix_of(final(pager)@)
                &&& super::chain::chain_payload(final(pager)@, root, t) == Ok::<_, StoreError>(
                    payload@,
                )
                &&& forall|i: int|
                    old(pager)@.len() <= i < final(pager)@.len() ==> (
                    #[trigger] final(pager)@[i]).len() > 0 && extra_kinds().contains(
                        final(pager)@[i][0],
                    )
                &&& final(pager)@.len() <= old(pager)@.len() + super::chain::chain_pages(
                    payload@.len(),
                )
                &&& payload@.len() <= u32::MAX
            },
            Err(e) => (e == StoreError::TextTooLong && payload@.len() > u32::MAX) || (e
                == StoreError::Full && old(pager)@.len() + super::chain::chain_pages(payload@.len())
                > u32::MAX),
        },
{
    let ghost before = pager@;
    let r = write_chain(pager, payload, t);
    proof {
        assert forall|i: int| 0 <= i < before.len() implies #[trigger] pager@[i] == before[i] by {
            assert(!old(pager).free@.contains(i as u32));
        }
        assert(pager@.subrange(0, before.len() as int) =~= before);
    }
    r
}

/// Bytes that may be there.
pub open spec fn optional_bytes(v: Option<&Vec<u8>>) -> Option<Seq<u8>> {
    match v {
        Some(bytes) => Some(bytes@),
        None => None,
    }
}

/// What keeps a graph with its catalog and its declared indexes from being
/// saved.
pub open spec fn save_blocks(
    nodes: Seq<NodeView>,
    edges: Seq<EdgeView>,
    catalog: Seq<u8>,
    specs: Option<Seq<u8>>,
    e: StoreError,
) -> bool {
    ||| super::io::graph_blocks(nodes, edges, e)
    ||| e == StoreError::TextTooLong && (catalog.len() > u32::MAX || (specs is Some
        && specs->Some_0.len() > u32::MAX))
}

/// How many pages a graph with its catalog and its declared indexes takes at
/// most.
pub open spec fn save_pages(
    nodes: Seq<NodeView>,
    edges: Seq<EdgeView>,
    catalog: Seq<u8>,
    specs: Option<Seq<u8>>,
) -> nat {
    super::io::graph_pages(nodes, edges) + super::chain::chain_pages(catalog.len()) + match specs {
        Some(bytes) => super::chain::chain_pages(bytes.len()),
        None => 0,
    }
}

/// What comes of saving a graph with its catalog and its declared indexes.
pub open spec fn save_outcome(
    nodes: Seq<NodeView>,
    edges: Seq<EdgeView>,
    catalog: Seq<u8>,
    specs: Option<Seq<u8>>,
    pager: Pager,
    r: Result<(), StoreError>,
) -> bool {
    match r {
        Ok(_) => {
            let h = pager.header;
            &&& pager.wf()
            &&& exists|strings: Seq<Seq<char>>| #[trigger]
                super::io::saved(
                    pager@,
                    h,
                    strings,
                    super::io::stored_nodes(nodes),
                    super::io::stored_edges(edges),
                )
            &&& h.catalog_root != 0
            &&& super::chain::chain_payload(pager@, h.catalog_root, PageType::Catalog) == Ok::<
                _,
                StoreError,
            >(catalog)
            &&& match specs {
                Some(bytes) => h.secondary_index_root != 0 && super::chain::chain_payload(
                    pager@,
                    h.secondary_index_root,
                    PageType::SecondaryIndex,
                ) == Ok::<_, StoreError>(bytes),
                None => h.secondary_index_root == 0,
            }
            &&& forall|e: StoreError|
                !#[trigger] save_blocks(nodes, edges, catalog, specs, e)
        },
        Err(e) => {
            ||| e == StoreError::Full && save_pages(nodes, edges, catalog, specs) > u32::MAX
            ||| save_blocks(nodes, edges, catalog, specs, e)
        },
    }
}

/// Saves a graph to a new file together with the bytes of its catalog and,
/// where there are any, those of its declared indexes.
#[verifier::spinoff_prover]
#[verifier::rlimit(50)]
pub fn save_graph_with_catalog_and_indexes(
    graph: &MemoryGraphStore,
    catalog: &Vec<u8>,
    specs: Option<&Vec<u8>>,
    pager: &mut Pager,
) -> (r: Result<(), StoreError>)
    requires
        graph.wf(),
    ensures
        save_outcome(
            graph.node_seq(),
            graph.edge_seq(),
            catalog@,
            optional_bytes(specs),
            *final(pager),
            r,
        ),
{
    match save_graph(graph, pager) {
        Ok(_) => {},
        Err(e) => {
            return Err(e);
        },
    }
    let ghost p0 = pager@;
    let ghost h0 = pager.header;
    let ghost nodes = super::io::stored_nodes(graph.node_seq());
    let ghost edges = super::io::stored_edges(graph.edge_seq());
    let ghost strings = choose|strings: Seq<Seq<char>>| #[trigger]
        super::io::saved(p0, h0, strings, nodes, edges);
    let catalog_root = match append_chain(pager, catalog, PageType::Catalog) {
        Ok(root) => root,
        Err(e) => {
            return Err(e);
        },
    };
    let ghost p1 = pager@;
    let mut specs_root: u32 = 0;
    match specs {
        Some(bytes) => {
            specs_root = match append_chain(pager, bytes, PageType::SecondaryIndex) {
                Ok(root) => root,
                Err(e) => {
                    return Err(e);
                },
            };
            proof {
                chain_stays(p1, pager@, catalog_root, PageType::Catalog);
            }
        },
        None => {},
    }
    pager.header.catalog_root = catalog_root;
    pager.header.secondary_index_root = specs_root;
    proof {
        roots_added(p0, p1, pager@, h0, catalog_root, specs_root, strings, nodes, edges);
        assert forall|e: StoreError|
            !#[trigger] save_blocks(
                graph.node_seq(),
                graph.edge_seq(),
                catalog@,
                optional_bytes(specs),
                e,
            ) by {
            assert(!super::io::graph_blocks(graph.node_seq(), graph.edge_seq(), e));
        }
    }
    Ok(())
}

} // verus!
