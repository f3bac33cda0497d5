//! Two openings of one file give the same answers.

use vstd::prelude::*;

use super::adjacency::Side;
use super::lazy::LazyGraphStore;
use super::lazy_index::Adjacency;
use super::pager::{Pager, StoreError};
use super::secondary_index::{IndexKind, SecondaryIndex};
use crate::model::graph_access::{EdgeView, GraphAccess, GraphModel, NodeView};
use crate::model::value::{Id, ValueView};

verus! {

/// Two collections of indexes answer alike: they have indexes on the same pairs,
/// with the same ids under the same keys in the same order.
pub open spec fn indexes_alike(a: SecondaryIndex, b: SecondaryIndex) -> bool {
    &&& forall|k: IndexKind, l: Seq<char>, p: Seq<char>|
        match (#[trigger] a.of_kind(k, l, p), b.of_kind(k, l, p)) {
            (Some(x), Some(y)) => x@ == y@,
            (None, None) => true,
            _ => false,
        }
    &&& forall|l: Seq<char>, p: Seq<char>, v: ValueView| #[trigger]
        a.found(l, p, v) == b.found(l, p, v)
}

/// Two stores answer every question alike: on the graph, on the elements with a
/// label, on the edges at a node, and on the nodes with a value.
pub open spec fn answers_alike(s: LazyGraphStore, t: LazyGraphStore) -> bool {
    &&& s.model() == t.model()
    &&& s.base.node_seq() == t.base.node_seq()
    &&& s.base.edge_seq() == t.base.edge_seq()
    &&& forall|l: Seq<char>| #[trigger] s.labelled_nodes(l) == t.labelled_nodes(l)
    &&& forall|l: Seq<char>|
        #[trigger] s.label_to_nodes@.contains_key(l) <==> t.label_to_nodes@.contains_key(l)
    &&& forall|l: Seq<char>, flag: bool| #[trigger]
        s.labelled_edges(l, flag) == t.labelled_edges(l, flag)
    &&& forall|l: Seq<char>|
        #[trigger] s.label_to_edges@.contains_key(l) <==> t.label_to_edges@.contains_key(l)
    &&& forall|side: Side, node: Id| #[trigger] s.edges_at(side, node) == t.edges_at(side, node)
    &&& s.nodes_clean() <==> t.nodes_clean()
    &&& indexes_alike(s.secondary, t.secondary)
}

/// Two maps of labels list the same elements.
spec fn labels_alike(a: Map<Seq<char>, Vec<Id>>, b: Map<Seq<char>, Vec<Id>>) -> bool {
    forall|l: Seq<char>|
        {
            &&& #[trigger] super::lazy_index::list_of(a, l) == super::lazy_index::list_of(b, l)
            &&& a.contains_key(l) <==> b.contains_key(l)
        }
}

/// Two adjacencies list the same edges.
spec fn sides_alike(a: Adjacency, b: Adjacency) -> bool {
    forall|side: Side|
        {
            &&& (#[trigger] a.side(side)).offsets@ == b.side(side).offsets@
            &&& a.side(side).flat@ == b.side(side).flat@
        }
}

/// Inferred indexes are determined by the graph.
proof fn inferred_alike(a: SecondaryIndex, b: SecondaryIndex, m: GraphModel)
    requires
        super::lazy::only_inferred(a, m),
        super::lazy::only_inferred(b, m),
    ensures
        indexes_alike(a, b),
{
    assert forall|k: IndexKind, l: Seq<char>, p: Seq<char>|
        match (#[trigger] a.of_kind(k, l, p), b.of_kind(k, l, p)) {
            (Some(x), Some(y)) => x@ == y@,
            (None, None) => true,
            _ => false,
        } by {
        let x = a.of_kind(IndexKind::Hash, l, p);
        let y = b.of_kind(IndexKind::Hash, l, p);
        let u = a.of_kind(IndexKind::BTree, l, p);
        let v = b.of_kind(IndexKind::BTree, l, p);
        if super::secondary_index::auto_pair(m, l, p) {
            super::key_map::held_alike(x->Some_0@, y->Some_0@);
            super::key_map::held_alike(u->Some_0@, v->Some_0@);
        }
        match k {
            IndexKind::Hash => {},
            IndexKind::BTree => {},
        }
    }
    found_alike(a, b);
}

/// Equal maps find the same.
proof fn found_alike(a: SecondaryIndex, b: SecondaryIndex)
    requires
        forall|k: IndexKind, l: Seq<char>, p: Seq<char>|
            match (#[trigger] a.of_kind(k, l, p), b.of_kind(k, l, p)) {
                (Some(x), Some(y)) => x@ == y@,
                (None, None) => true,
                _ => false,
            },
    ensures
        forall|l: Seq<char>, p: Seq<char>, v: ValueView| #[trigger]
            a.found(l, p, v) == b.found(l, p, v),
{
    assert forall|l: Seq<char>, p: Seq<char>, v: ValueView| #[trigger]
        a.found(l, p, v) == b.found(l, p, v) by {
        assert(a.of_kind(IndexKind::Hash, l, p) is Some <==> b.of_kind(
            IndexKind::Hash,
            l,
            p,
        ) is Some);
        assert(a.of_kind(IndexKind::BTree, l, p) is Some <==> b.of_kind(
            IndexKind::BTree,
            l,
            p,
        ) is Some);
    }
}

/// The places and columns of an indexed file are determined by its pages.
proof fn places_alike(s: super::lazy_base::LazyBase, t: super::lazy_base::LazyBase)
    requires
        s.wf(),
        t.wf(),
        s.places_listed(),
        t.places_listed(),
        s.pager@ == t.pager@,
        s.pager.header == t.pager.header,
        s.strings@ == t.strings@,
    ensures
        s.node_seq() == t.node_seq(),
        s.edge_seq() == t.edge_seq(),
{
    let a = super::lazy_base::loc_pairs(s.node_locs@);
    let b = super::lazy_base::loc_pairs(t.node_locs@);
    assert(a == b);
    assert(s.node_locs@ =~= t.node_locs@) by {
        assert(a.len() == b.len());
        assert forall|i: int| 0 <= i < s.node_locs@.len() implies s.node_locs@[i]
            == t.node_locs@[i] by {
            assert(a[i] == b[i]);
        }
    }
    let c = super::io::topo_lists(s.edge_locs@, s.edge_src@, s.edge_tgt@, s.edge_directed@);
    let d = super::io::topo_lists(t.edge_locs@, t.edge_src@, t.edge_tgt@, t.edge_directed@);
    assert(c == d);
    assert(s.edge_locs@ =~= t.edge_locs@) by {
        assert(c[0] == d[0]);
        assert(c[1] == d[1]);
        assert(c[0].len() == d[0].len());
        assert forall|i: int| 0 <= i < s.edge_locs@.len() implies s.edge_locs@[i]
            == t.edge_locs@[i] by {
            assert(c[0][i] == d[0][i]);
            assert(c[1][i] == d[1][i]);
        }
    }
    assert(s.node_seq() =~= t.node_seq());
    assert(s.edge_seq() =~= t.edge_seq());
}

/// The graph of a file is determined by its nodes and edges.
proof fn bases_alike(s: super::lazy_base::LazyBase, t: super::lazy_base::LazyBase)
    requires
        s.wf(),
        t.wf(),
        s.node_seq() == t.node_seq(),
        s.edge_seq() == t.edge_seq(),
    ensures
        s.model() == t.model(),
        s.node_locs@.len() == t.node_locs@.len(),
        s.edge_locs@.len() == t.edge_locs@.len(),
        s.edge_directed@ == t.edge_directed@,
{
    assert(s.node_seq().len() == s.node_locs@.len());
    assert(t.node_seq().len() == t.node_locs@.len());
    assert(s.edge_seq().len() == s.edge_locs@.len());
    assert(t.edge_seq().len() == t.edge_locs@.len());
    assert forall|i: int| 0 <= i < s.edge_locs@.len() implies s.edge_directed@[i]
        == t.edge_directed@[i] by {
        assert(s.edge_seq()[i] == s.edge(i));
        assert(t.edge_seq()[i] == t.edge(i));
    }
    assert(s.edge_directed@ =~= t.edge_directed@);
    assert forall|id: Id| id < s.node_locs@.len() implies #[trigger] s.node(id as int) == t.node(
        id as int,
    ) by {
        assert(s.node_seq()[id as int] == t.node_seq()[id as int]);
    }
    assert forall|id: Id| id < s.edge_locs@.len() implies #[trigger] s.edge(id as int) == t.edge(
        id as int,
    ) by {
        assert(s.edge_seq()[id as int] == t.edge_seq()[id as int]);
    }
    assert(s.model().nodes =~= t.model().nodes);
    assert(s.model().edges =~= t.model().edges);
}

/// Maps with the same lists list the same.
proof fn lists_alike(a: Map<Seq<char>, Vec<Id>>, b: Map<Seq<char>, Vec<Id>>)
    requires
        super::lazy_index::map_lists(a) == super::lazy_index::map_lists(b),
    ensures
        labels_alike(a, b),
{
    let x = super::lazy_index::map_lists(a);
    let y = super::lazy_index::map_lists(b);
    assert forall|l: Seq<char>|
        {
            &&& #[trigger] super::lazy_index::list_of(a, l) == super::lazy_index::list_of(b, l)
            &&& a.contains_key(l) <==> b.contains_key(l)
        } by {
        assert(x.contains_key(l) <==> y.contains_key(l));
        if a.contains_key(l) {
            assert(x[l] == y[l]);
        }
    }
}

/// Maps that list the elements with each label list the same.
proof fn right_alike(
    a: Map<Seq<char>, Vec<Id>>,
    b: Map<Seq<char>, Vec<Id>>,
    labels: Seq<crate::typing::label_type::LabelTypeView>,
)
    requires
        super::lazy_index::label_map_ok(a, labels),
        super::lazy_index::label_map_ok(b, labels),
    ensures
        labels_alike(a, b),
{
    assert forall|l: Seq<char>| #[trigger]
        super::lazy_index::list_of(a, l) == super::lazy_index::list_of(b, l) by {
        assert(super::lazy_index::list_of(b, l) == super::labels::labelled(labels, l));
    }
    assert forall|l: Seq<char>| #![trigger super::lazy_index::list_of(a, l)]
        a.contains_key(l) <==> b.contains_key(l) by {
        assert(super::lazy_index::list_of(a, l) == super::labels::labelled(labels, l));
        assert(super::lazy_index::list_of(b, l) == super::labels::labelled(labels, l));
    }
}

/// What an indexed file says of labels and adjacency is determined by its pages.
proof fn read_alike(s: LazyGraphStore, t: LazyGraphStore, p: Pager, q: Pager)
    requires
        p@ == q@,
        p.header == q.header,
        s.base.strings@ == t.base.strings@,
        s.base.node_locs@.len() == t.base.node_locs@.len(),
        super::lazy::indexes_read(
            p@,
            p.header,
            s.base.strings@,
            s.label_to_nodes@,
            s.label_to_edges@,
            s.adjacency,
            s.base.node_locs@.len(),
        ),
        super::lazy::indexes_read(
            q@,
            q.header,
            t.base.strings@,
            t.label_to_nodes@,
            t.label_to_edges@,
            t.adjacency,
            t.base.node_locs@.len(),
        ),
    ensures
        labels_alike(s.label_to_nodes@, t.label_to_nodes@),
        labels_alike(s.label_to_edges@, t.label_to_edges@),
        sides_alike(s.adjacency, t.adjacency),
{
    lists_alike(s.label_to_nodes@, t.label_to_nodes@);
    lists_alike(s.label_to_edges@, t.label_to_edges@);
    let a = s.adjacency;
    let b = t.adjacency;
    if p.header.csr_adjacency_root != 0 {
        let x = seq![
            a.outgoing.offsets@,
            a.outgoing.flat@,
            a.incoming.offsets@,
            a.incoming.flat@,
            a.undirected.offsets@,
            a.undirected.flat@,
        ];
        let y = seq![
            b.outgoing.offsets@,
            b.outgoing.flat@,
            b.incoming.offsets@,
            b.incoming.flat@,
            b.undirected.offsets@,
            b.undirected.flat@,
        ];
        assert(x == y);
        assert(x[0] == y[0] && x[1] == y[1] && x[2] == y[2] && x[3] == y[3] && x[4] == y[4] && x[5]
            == y[5]);
    }
    assert forall|side: Side|
        {
            &&& (#[trigger] a.side(side)).offsets@ == b.side(side).offsets@
            &&& a.side(side).flat@ == b.side(side).flat@
        } by {
        match side {
            Side::Outgoing => {},
            Side::Incoming => {},
            Side::Undirected => {},
        }
    }
}

/// Two stores without changes that read the same graph, labels, adjacency and
/// indexes answer alike.
proof fn parts_alike(s: LazyGraphStore, t: LazyGraphStore)
    requires
        s.sound(),
        t.sound(),
        s.overlay.is_clean(),
        t.overlay.is_clean(),
        s.base.node_seq() == t.base.node_seq(),
        s.base.edge_seq() == t.base.edge_seq(),
        labels_alike(s.label_to_nodes@, t.label_to_nodes@),
        labels_alike(s.label_to_edges@, t.label_to_edges@),
        sides_alike(s.adjacency, t.adjacency),
        indexes_alike(s.secondary, t.secondary),
    ensures
        answers_alike(s, t),
{
    bases_alike(s.base, t.base);
    s.clean_model();
    t.clean_model();
    assert(s.overlay.new_nodes@ =~= t.overlay.new_nodes@);
    assert(s.overlay.new_edges@ =~= t.overlay.new_edges@);
    assert(s.directions() =~= t.directions());
    assert forall|l: Seq<char>| #[trigger] s.labelled_nodes(l) == t.labelled_nodes(l) by {
        assert(super::lazy_index::list_of(s.label_to_nodes@, l) == super::lazy_index::list_of(
            t.label_to_nodes@,
            l,
        ));
    }
    assert forall|l: Seq<char>|
        #[trigger] s.label_to_nodes@.contains_key(l) <==> t.label_to_nodes@.contains_key(l) by {
        assert(super::lazy_index::list_of(s.label_to_nodes@, l) == super::lazy_index::list_of(
            t.label_to_nodes@,
            l,
        ));
    }
    assert(s.flagged(true) =~= t.flagged(true));
    assert(s.flagged(false) =~= t.flagged(false));
    assert forall|l: Seq<char>, flag: bool| #[trigger]
        s.labelled_edges(l, flag) == t.labelled_edges(l, flag) by {
        assert(super::lazy_index::list_of(s.label_to_edges@, l) == super::lazy_index::list_of(
            t.label_to_edges@,
            l,
        ));
        if flag {
        } else {
        }
    }
    assert forall|l: Seq<char>|
        #[trigger] s.label_to_edges@.contains_key(l) <==> t.label_to_edges@.contains_key(l) by {
        assert(super::lazy_index::list_of(s.label_to_edges@, l) == super::lazy_index::list_of(
            t.label_to_edges@,
            l,
        ));
    }
    assert forall|side: Side, node: Id| #[trigger] s.edges_at(side, node) == t.edges_at(
        side,
        node,
    ) by {
        assert(s.adjacency.side(side).flat@ == t.adjacency.side(side).flat@);
        assert(s.adjacency.at(side, node) == t.adjacency.at(side, node));
    }
}

/// Two stores that were opened from the same pages under the same header answer
/// every question alike.
pub proof fn opened_alike(p: Pager, q: Pager, infer: bool, s: LazyGraphStore, t: LazyGraphStore)
    requires
        p@ == q@,
        p.header == q.header,
        super::lazy::open_outcome(p, infer, Ok(s)),
        super::lazy::open_outcome(q, infer, Ok(t)),
    ensures
        answers_alike(s, t),
{
    if super::lazy_base::indexed_file(p.header) {
        places_alike(s.base, t.base);
        bases_alike(s.base, t.base);
        read_alike(s, t, p, q);
    } else {
        bases_alike(s.base, t.base);
        right_alike(
            s.label_to_nodes@,
            t.label_to_nodes@,
            super::writer::node_label_views(s.base.node_seq()),
        );
        right_alike(
            s.label_to_edges@,
            t.label_to_edges@,
            super::writer::edge_label_views(s.base.edge_seq()),
        );
        assert forall|side: Side|
            {
                &&& (#[trigger] s.adjacency.side(side)).offsets@ == t.adjacency.side(side).offsets@
                &&& s.adjacency.side(side).flat@ == t.adjacency.side(side).flat@
            } by {
            let n = s.base.node_locs@.len();
            let pairs = super::adjacency::edge_pairs(s.base.edge_seq(), side);
            assert(s.adjacency.side(side).holds(pairs, n));
            assert(t.adjacency.side(side).holds(pairs, n));
        }
    }
    if infer {
        inferred_alike(s.secondary, t.secondary, s.base.model());
    } else {
        assert forall|k: IndexKind, l: Seq<char>, x: Seq<char>|
            match (#[trigger] s.secondary.of_kind(k, l, x), t.secondary.of_kind(k, l, x)) {
                (Some(u), Some(v)) => u@ == v@,
                (None, None) => true,
                _ => false,
            } by {
            assert(t.secondary.of_kind(k, l, x) is None);
        }
        found_alike(s.secondary, t.secondary);
    }
    parts_alike(s, t);
}

/// However often a saved graph is opened, each opening gives a store that has as
/// many nodes and edges as the graph, each as it was saved, and all of these
/// stores answer every question alike.
pub proof fn saved_opens_alike(
    nodes: Seq<NodeView>,
    edges: Seq<EdgeView>,
    p: Pager,
    q: Pager,
    infer: bool,
    r: Result<LazyGraphStore, StoreError>,
    s: Result<LazyGraphStore, StoreError>,
)
    requires
        exists|strings: Seq<Seq<char>>| #[trigger]
            super::io::saved(
                p@,
                p.header,
                strings,
                super::io::stored_nodes(nodes),
                super::io::stored_edges(edges),
            ),
        p@ == q@,
        p.header == q.header,
        super::lazy::open_outcome(p, infer, r),
        super::lazy::open_outcome(q, infer, s),
    ensures
        r is Ok,
        s is Ok,
        answers_alike(r->Ok_0, s->Ok_0),
        r->Ok_0.base.node_locs@.len() == nodes.len(),
        r->Ok_0.base.edge_locs@.len() == edges.len(),
        forall|i: Id|
            i < nodes.len() ==> #[trigger] r->Ok_0.model().nodes[i] == super::io::stored_node(
                nodes[i as int],
            ),
        forall|i: Id|
            i < edges.len() ==> #[trigger] r->Ok_0.model().edges[i] == super::io::stored_edge(
                edges[i as int],
            ),
{
    let st = choose|strings: Seq<Seq<char>>| #[trigger]
        super::io::saved(
            p@,
            p.header,
            strings,
            super::io::stored_nodes(nodes),
            super::io::stored_edges(edges),
        );
    assert(super::io::saved(
        q@,
        q.header,
        st,
        super::io::stored_nodes(nodes),
        super::io::stored_edges(edges),
    ));
    let a = r->Ok_0;
    opened_alike(p, q, infer, a, s->Ok_0);
    a.clean_model();
    assert(a.base.node_seq().len() == nodes.len());
    assert(a.base.edge_seq().len() == edges.len());
    assert forall|i: Id| i < nodes.len() implies #[trigger] a.model().nodes[i]
        == super::io::stored_node(nodes[i as int]) by {
        assert(a.base.node_seq()[i as int] == a.base.node(i as int));
    }
    assert forall|i: Id| i < edges.len() implies #[trigger] a.model().edges[i]
        == super::io::stored_edge(edges[i as int]) by {
        assert(a.base.edge_seq()[i as int] == a.base.edge(i as int));
    }
}

} // verus!
